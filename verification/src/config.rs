//! Static engine configuration.

use vstd::prelude::*;

verus! {

/// The engine's static configuration, as reported to the host.
#[derive(Clone, Copy, PartialEq, Eq, Structural, Debug)]
pub struct Config {
    pub version: u64,
}

impl Config {
    /// The current configuration.
    pub fn new() -> (r: Config)
        ensures
            r.version == 1,
    {
        Config { version: 1 }
    }

    /// Whether the host should submit a tick command on every interval by
    /// itself; this engine always wants that.
    pub fn autotick() -> (r: bool)
        ensures
            r,
    {
        true
    }
}

} // verus!
