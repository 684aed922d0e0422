//! Error codes of the engine.
//!
//! Domain rejections (a modifier application failing its resource check) are
//! not errors: they are ordinary state transitions.  The codes here mark
//! either commands that cannot be honored (a player installed twice) or
//! structural violations (a referenced record missing or malformed), which
//! are fatal to the enclosing transaction.

use vstd::prelude::*;

verus! {

/// A player install found the player already present.
pub const ERROR_PLAYER_ALREADY_EXIST: u32 = 1;

/// A command referenced a player that was never installed.
pub const ERROR_PLAYER_NOT_EXIST: u32 = 2;

/// A fired event referenced an object with no stored record.
pub const ERROR_OBJECT_NOT_EXIST: u32 = 3;

/// An object install found the object already present.
pub const ERROR_OBJECT_ALREADY_EXIST: u32 = 4;

/// A stored object record failed to decode.
pub const ERROR_MALFORMED_OBJECT: u32 = 5;

/// A chain position lay outside the object's modifier chain.
pub const ERROR_INDEX_OUT_OF_BOUND: u32 = 6;

/// A chain entry named no row of the modifier table, or the table itself is
/// unusable (an empty table, a delay of zero, or one too wide for the packed
/// event word).
pub const ERROR_BAD_MODIFIER: u32 = 7;

/// A modifier's delta vector and an object's attribute vector disagree in
/// length.
pub const ERROR_ATTRIBUTE_MISMATCH: u32 = 8;

/// A stored tick bucket was not a whole number of serialized events.
pub const ERROR_MALFORMED_BUCKET: u32 = 9;

/// The stored counter slot held more than the one counter word.
pub const ERROR_MALFORMED_COUNTER: u32 = 10;

/// An install or restart command carried too few or out-of-range words.
pub const ERROR_BAD_COMMAND: u32 = 11;

/// A resident queue entry did not fit the codec's bit widths at finalize.
pub const ERROR_INVALID_EVENT: u32 = 12;

/// A resident queue entry's absolute fire time overflowed the counter range
/// at finalize.
pub const ERROR_SCHEDULE_OVERFLOW: u32 = 13;

/// A stored player record had the wrong length.
pub const ERROR_MALFORMED_PLAYER: u32 = 14;

/// Tags module-local error codes with a per-module id, so that codes of
/// different modules can share one `u32` space without colliding.
pub trait ErrorEncoder {
    /// The module tag placed in the upper half of encoded codes.
    spec fn spec_module_id() -> u32;

    /// The module tag, as a runtime value.
    fn module_id() -> (r: u32)
        ensures
            r == Self::spec_module_id(),
    ;

    /// Stamps the module tag onto a module-local code.
    fn encode(e: u32) -> (r: u32)
        ensures
            r == (e | (Self::spec_module_id() << 16)),
    {
        e | (Self::module_id() << 16)
    }

    /// Recovers the module-local code from a stamped one; `None` when the
    /// code belongs to another module.
    fn decode(e: u32) -> (r: Option<u32>)
        ensures
            r == if e >> 16 == Self::spec_module_id() {
                Some(e & 0xffff)
            } else {
                None::<u32>
            },
    {
        if e >> 16 == Self::module_id() {
            Some(e & 0xffff)
        } else {
            None
        }
    }
}

/// The player module's error namespace.
pub struct PlayerError;

impl ErrorEncoder for PlayerError {
    open spec fn spec_module_id() -> u32 {
        1
    }

    fn module_id() -> u32 {
        1
    }
}

/// The market module's error namespace.
pub struct MarketError;

impl ErrorEncoder for MarketError {
    open spec fn spec_module_id() -> u32 {
        4
    }

    fn module_id() -> u32 {
        4
    }
}

} // verus!
