//! Objects and their modifier state machine.
//!
//! An object owns a circular chain of modifier ids and a vector of
//! non-negative attributes.  When a scheduled event fires, the modifier at the
//! fired chain position is applied to the attributes all-or-nothing: if any
//! attribute would leave the unsigned 64-bit range, nothing is mutated and the
//! object halts at that position; otherwise the chain advances one position
//! (wrapping around) and the state machine reports the delay until the next
//! fire.  A halted object resumes only through an explicit restart.

use vstd::prelude::*;

use crate::err::ERROR_ATTRIBUTE_MISMATCH;
use crate::err::ERROR_BAD_COMMAND;
use crate::err::ERROR_BAD_MODIFIER;
use crate::err::ERROR_INDEX_OUT_OF_BOUND;
use crate::err::ERROR_MALFORMED_OBJECT;
use crate::err::ERROR_OBJECT_NOT_EXIST;
use crate::store::Identifier;
use crate::store::KvStore;

verus! {

/// The last word of every object record key.
pub const OBJECT_LEAF: u64 = 0xff02;

/// Where the record of object `object_index` of `owner` lives in the store.
/// The leaf constant in the last word keeps object records apart from player
/// records, tick buckets and the counter slot.
pub open spec fn spec_object_key(owner: Identifier, object_index: u64) -> Identifier {
    Identifier { w0: owner.w1, w1: owner.w2, w2: object_index, w3: OBJECT_LEAF }
}

/// Computes the store key of an object record.
pub fn object_key(owner: &Identifier, object_index: u64) -> (r: Identifier)
    ensures
        r == spec_object_key(*owner, object_index),
{
    Identifier { w0: owner.w1, w1: owner.w2, w2: object_index, w3: OBJECT_LEAF }
}

/// The run state of an object.
#[derive(Clone, Copy, PartialEq, Eq, Structural, Debug)]
pub enum ObjectStatus {
    /// The chain is live: exactly one event for this object is pending.
    Running,
    /// A modifier application failed; no event is pending.
    Halted,
    /// A restart was requested while the object was still running; the next
    /// fire skips its modifier and moves on instead of applying it.
    RestartPending,
}

/// A static configuration record: the additive effect one application has on
/// each attribute, and the delay until the next modifier of the chain fires.
#[derive(Clone, Debug)]
pub struct Modifier {
    pub delay: u64,
    pub attribute_deltas: Vec<i64>,
}

/// A stored object: its run state, the current position in its modifier
/// chain, the chain itself (ids into the modifier table), and its attributes.
#[derive(Clone, Debug)]
pub struct Object {
    pub status: ObjectStatus,
    pub modifier_index: u64,
    pub modifiers: Vec<u64>,
    pub attributes: Vec<u64>,
}

/// The word an object status is stored as.
pub open spec fn status_word(s: ObjectStatus) -> u64 {
    match s {
        ObjectStatus::Running => 0,
        ObjectStatus::Halted => 1,
        ObjectStatus::RestartPending => 2,
    }
}

/// The status a stored word decodes to.
pub open spec fn word_status(w: u64) -> ObjectStatus
    recommends
        w <= 2,
{
    if w == 0 {
        ObjectStatus::Running
    } else if w == 1 {
        ObjectStatus::Halted
    } else {
        ObjectStatus::RestartPending
    }
}

/// Whether a word sequence is a well-formed object record: a status word, the
/// current chain position, the chain length, the chain, the attribute count,
/// and the attributes, with every length consistent.
pub open spec fn obj_words_ok(s: Seq<u64>) -> bool {
    &&& s.len() >= 4
    &&& s[0] <= 2
    &&& 1 <= s[2] <= 0xffff
    &&& s[1] < s[2]
    &&& s.len() >= 4 + s[2]
    &&& s[3 + s[2]] == s.len() - (4 + s[2])
}

/// The chain part of a well-formed object record.
pub open spec fn chain_of(s: Seq<u64>) -> Seq<u64>
    recommends
        obj_words_ok(s),
{
    s.subrange(3, 3 + s[2])
}

/// The attribute part of a well-formed object record.
pub open spec fn attrs_of(s: Seq<u64>) -> Seq<u64>
    recommends
        obj_words_ok(s),
{
    s.subrange(4 + s[2], s.len() as int)
}

/// The serialized object record for the given parts.
pub open spec fn obj_encoded_words(
    status: ObjectStatus,
    modifier_index: u64,
    chain: Seq<u64>,
    attrs: Seq<u64>,
) -> Seq<u64> {
    seq![status_word(status), modifier_index, chain.len() as u64] + chain + seq![
        attrs.len() as u64,
    ] + attrs
}

impl Object {
    /// Structural soundness: a non-empty chain of at most `0x10000 - 1`
    /// entries (so chain positions fit the packed event word), with the
    /// current position inside it.
    pub open spec fn wf(self) -> bool {
        &&& 1 <= self.modifiers@.len() <= 0xffff
        &&& (self.modifier_index as int) < self.modifiers@.len()
    }

    /// The serialized record of this object.
    pub open spec fn encoded(self) -> Seq<u64> {
        obj_encoded_words(self.status, self.modifier_index, self.modifiers@, self.attributes@)
    }

    /// Serializes this object, appending its record to `buf`.
    pub fn to_data(&self, buf: &mut Vec<u64>)
        requires
            self.modifiers@.len() <= 0xffff,
        ensures
            final(buf)@ == old(buf)@ + self.encoded(),
    {
        let status: u64 = match self.status {
            ObjectStatus::Running => 0,
            ObjectStatus::Halted => 1,
            ObjectStatus::RestartPending => 2,
        };
        buf.push(status);
        buf.push(self.modifier_index);
        buf.push(self.modifiers.len() as u64);
        push_all(buf, &self.modifiers);
        buf.push(self.attributes.len() as u64);
        push_all(buf, &self.attributes);
        assert(buf@ =~= old(buf)@ + self.encoded());
    }

    /// Deserializes an object record; `None` exactly on malformed words.
    pub fn from_data(words: &Vec<u64>) -> (r: Option<Object>)
        ensures
            r.is_some() <==> obj_words_ok(words@),
            r matches Some(o) ==> {
                &&& o.wf()
                &&& o.status == word_status(words@[0])
                &&& o.modifier_index == words@[1]
                &&& o.modifiers@ == chain_of(words@)
                &&& o.attributes@ == attrs_of(words@)
                &&& o.encoded() == words@
            },
    {
        let n = words.len();
        if n < 4 {
            return None;
        }
        let status_w = words[0];
        let modifier_index = words[1];
        let chain_len = words[2];
        if status_w > 2 || chain_len < 1 || chain_len > 0xffff || modifier_index >= chain_len {
            return None;
        }
        let chain_len_us = chain_len as usize;
        if n < 4 + chain_len_us {
            return None;
        }
        if words[3 + chain_len_us] != (n - (4 + chain_len_us)) as u64 {
            return None;
        }
        let modifiers = copy_range(words, 3, 3 + chain_len_us);
        let attributes = copy_range(words, 4 + chain_len_us, n);
        let status = if status_w == 0 {
            ObjectStatus::Running
        } else if status_w == 1 {
            ObjectStatus::Halted
        } else {
            ObjectStatus::RestartPending
        };
        let o = Object { status, modifier_index, modifiers, attributes };
        proof {
            assert(o.encoded() =~= words@);
        }
        Some(o)
    }
}

/// Appends all of `src` to `buf`.
fn push_all(buf: &mut Vec<u64>, src: &Vec<u64>)
    ensures
        final(buf)@ == old(buf)@ + src@,
{
    let n = src.len();
    let mut i: usize = 0;
    while i < n
        invariant
            n == src@.len(),
            0 <= i <= n,
            buf@ == old(buf)@ + src@.take(i as int),
        decreases n - i,
    {
        buf.push(src[i]);
        assert(buf@ =~= old(buf)@ + src@.take(i + 1 as int));
        i += 1;
    }
    assert(buf@ =~= old(buf)@ + src@);
}

/// Copies `v[from..to]` into a fresh vector.
fn copy_range(v: &Vec<u64>, from: usize, to: usize) -> (r: Vec<u64>)
    requires
        from <= to <= v@.len(),
    ensures
        r@ == v@.subrange(from as int, to as int),
{
    let mut r: Vec<u64> = Vec::new();
    let mut i: usize = from;
    while i < to
        invariant
            from <= i <= to <= v@.len(),
            r@ == v@.subrange(from as int, i as int),
        decreases to - i,
    {
        r.push(v[i]);
        assert(r@ =~= v@.subrange(from as int, i + 1 as int));
        i += 1;
    }
    r
}

/// Whether applying `deltas` to `attrs` keeps every attribute inside the
/// unsigned 64-bit range (in particular, non-negative).
pub open spec fn can_apply(attrs: Seq<u64>, deltas: Seq<i64>) -> bool
    recommends
        attrs.len() == deltas.len(),
{
    forall|i: int| 0 <= i < attrs.len() ==> 0 <= (#[trigger] attrs[i]) + deltas[i] <= u64::MAX
}

/// The attributes after a successful application.
pub open spec fn applied(attrs: Seq<u64>, deltas: Seq<i64>) -> Seq<u64>
    recommends
        attrs.len() == deltas.len(),
        can_apply(attrs, deltas),
{
    Seq::new(attrs.len(), |i: int| (attrs[i] + deltas[i]) as u64)
}

/// Applies one modifier to `object`: an all-or-nothing, validate-then-commit
/// update of the attributes.  On success the chain advances one position
/// (circularly) and the object keeps running; on failure nothing is mutated
/// except the status, which becomes `Halted` at the unchanged position.
pub fn apply_modifier(object: &mut Object, modifier: &Modifier) -> (ok: bool)
    requires
        old(object).wf(),
        modifier.attribute_deltas@.len() == old(object).attributes@.len(),
    ensures
        ok == can_apply(old(object).attributes@, modifier.attribute_deltas@),
        final(object).wf(),
        final(object).modifiers@ == old(object).modifiers@,
        ok ==> {
            &&& final(object).status == ObjectStatus::Running
            &&& final(object).modifier_index == (old(object).modifier_index + 1) as u64 % (old(
                object,
            ).modifiers@.len() as u64)
            &&& final(object).attributes@ == applied(
                old(object).attributes@,
                modifier.attribute_deltas@,
            )
        },
        !ok ==> {
            &&& final(object).status == ObjectStatus::Halted
            &&& final(object).modifier_index == old(object).modifier_index
            &&& final(object).attributes@ == old(object).attributes@
        },
{
    let n = object.attributes.len();
    let mut i: usize = 0;
    while i < n
        invariant
            n == object.attributes@.len(),
            n == old(object).attributes@.len(),
            n == modifier.attribute_deltas@.len(),
            0 <= i <= n,
            old(object).wf(),
            *object == *old(object),
            forall|j: int|
                0 <= j < i ==> 0 <= (#[trigger] object.attributes@[j])
                    + modifier.attribute_deltas@[j] <= u64::MAX,
        decreases n - i,
    {
        let sum: i128 = object.attributes[i] as i128 + modifier.attribute_deltas[i] as i128;
        if sum < 0 || sum > u64::MAX as i128 {
            proof {
                assert(object.attributes@[i as int] == old(object).attributes@[i as int]);
                assert(!(0 <= old(object).attributes@[i as int]
                    + modifier.attribute_deltas@[i as int] <= u64::MAX));
            }
            object.status = ObjectStatus::Halted;
            return false;
        }
        i += 1;
    }
    proof {
        assert forall|j: int|
            0 <= j < n implies 0 <= (#[trigger] old(object).attributes@[j])
                + modifier.attribute_deltas@[j] <= u64::MAX by {
            assert(object.attributes@[j] == old(object).attributes@[j]);
            assert(0 <= (object.attributes@[j]) + modifier.attribute_deltas@[j] <= u64::MAX);
        }
        assert(can_apply(old(object).attributes@, modifier.attribute_deltas@));
    }
    let mut i: usize = 0;
    while i < n
        invariant
            n == object.attributes@.len(),
            n == old(object).attributes@.len(),
            n == modifier.attribute_deltas@.len(),
            0 <= i <= n,
            old(object).wf(),
            can_apply(old(object).attributes@, modifier.attribute_deltas@),
            object.status == old(object).status,
            object.modifier_index == old(object).modifier_index,
            object.modifiers@ == old(object).modifiers@,
            forall|j: int| i <= j < n ==> object.attributes@[j] == old(object).attributes@[j],
            forall|j: int|
                0 <= j < i ==> object.attributes@[j] == applied(
                    old(object).attributes@,
                    modifier.attribute_deltas@,
                )[j],
        decreases n - i,
    {
        let sum: i128 = object.attributes[i] as i128 + modifier.attribute_deltas[i] as i128;
        proof {
            assert(object.attributes@[i as int] == old(object).attributes@[i as int]);
            assert(0 <= old(object).attributes@[i as int] + modifier.attribute_deltas@[i as int]
                <= u64::MAX);
        }
        object.attributes[i] = sum as u64;
        i += 1;
    }
    object.status = ObjectStatus::Running;
    object.modifier_index = (object.modifier_index + 1) % (object.modifiers.len() as u64);
    proof {
        assert(object.attributes@ =~= applied(old(object).attributes@, modifier.attribute_deltas@));
    }
    true
}

/// The exact outcome of firing one event against a store: the status code or
/// continuation returned, and the store afterwards.  Every structural
/// violation (missing or malformed record, a chain position or table id out
/// of range, a delta vector of the wrong length) leaves the store untouched
/// and is reported; otherwise the object record is rewritten once.
pub open spec fn fire_outcome(
    s: Map<Identifier, Seq<u64>>,
    table: Seq<Modifier>,
    owner: Identifier,
    object_index: u64,
    modifier_index: u64,
) -> (Result<Option<(u64, u64)>, u32>, Map<Identifier, Seq<u64>>) {
    let k = spec_object_key(owner, object_index);
    let ws = s[k];
    if ws.len() == 0 {
        (Err(ERROR_OBJECT_NOT_EXIST), s)
    } else if !obj_words_ok(ws) {
        (Err(ERROR_MALFORMED_OBJECT), s)
    } else {
        let chain = chain_of(ws);
        let attrs = attrs_of(ws);
        let n = chain.len() as int;
        if modifier_index >= n {
            (Err(ERROR_INDEX_OUT_OF_BOUND), s)
        } else {
            let next = (((modifier_index + 1) as int) % n) as u64;
            let next_id = chain[next as int];
            if next_id >= table.len() {
                (Err(ERROR_BAD_MODIFIER), s)
            } else if word_status(ws[0]) == ObjectStatus::RestartPending {
                (
                    Ok(Some((table[next_id as int].delay, next))),
                    s.insert(k, obj_encoded_words(ObjectStatus::Running, next, chain, attrs)),
                )
            } else {
                let cur_id = chain[modifier_index as int];
                if cur_id >= table.len() {
                    (Err(ERROR_BAD_MODIFIER), s)
                } else {
                    let deltas = table[cur_id as int].attribute_deltas@;
                    if deltas.len() != attrs.len() {
                        (Err(ERROR_ATTRIBUTE_MISMATCH), s)
                    } else if can_apply(attrs, deltas) {
                        (
                            Ok(Some((table[next_id as int].delay, next))),
                            s.insert(
                                k,
                                obj_encoded_words(
                                    ObjectStatus::Running,
                                    next,
                                    chain,
                                    applied(attrs, deltas),
                                ),
                            ),
                        )
                    } else {
                        (
                            Ok(None),
                            s.insert(
                                k,
                                obj_encoded_words(ObjectStatus::Halted, modifier_index, chain, attrs),
                            ),
                        )
                    }
                }
            }
        }
    }
}

/// Fires the event `(owner, object_index, modifier_index)`: loads the object
/// record, runs the modifier state machine on it, stores the record back, and
/// returns the `(delay, chain position)` of the continuation to schedule, or
/// `None` when the object halted.  A restart-pending object skips its
/// modifier and moves on.  The result and the store transform are exactly
/// `fire_outcome`.
pub fn apply_object_modifier(
    store: &mut KvStore,
    modifiers: &Vec<Modifier>,
    owner: &Identifier,
    object_index: u64,
    modifier_index: u64,
) -> (r: Result<Option<(u64, u64)>, u32>)
    ensures
        r matches Err(c) ==> c != 0,
        r == fire_outcome(old(store)@, modifiers@, *owner, object_index, modifier_index).0,
        final(store)@ == fire_outcome(
            old(store)@,
            modifiers@,
            *owner,
            object_index,
            modifier_index,
        ).1,
{
    let key = object_key(owner, object_index);
    let words = store.get(key);
    if words.len() == 0 {
        return Err(ERROR_OBJECT_NOT_EXIST);
    }
    let decoded_obj = Object::from_data(&words);
    let mut o = match decoded_obj {
        None => { return Err(ERROR_MALFORMED_OBJECT); },
        Some(o) => o,
    };
    let n = o.modifiers.len();
    if modifier_index >= n as u64 {
        return Err(ERROR_INDEX_OUT_OF_BOUND);
    }
    let next = (modifier_index + 1) % (n as u64);
    let next_id = o.modifiers[next as usize];
    if next_id >= modifiers.len() as u64 {
        return Err(ERROR_BAD_MODIFIER);
    }
    let is_restart = match o.status {
        ObjectStatus::RestartPending => true,
        _ => false,
    };
    if is_restart {
        o.status = ObjectStatus::Running;
        o.modifier_index = next;
        let mut buf: Vec<u64> = Vec::new();
        o.to_data(&mut buf);
        proof {
            assert(buf@ =~= o.encoded());
        }
        store.set(key, buf);
        proof {
            let fo = fire_outcome(old(store)@, modifiers@, *owner, object_index, modifier_index);
            assert(o.modifiers@ == chain_of(old(store)@[key]));
            assert(o.attributes@ == attrs_of(old(store)@[key]));
            assert(store@ =~= fo.1);
        }
        Ok(Some((modifiers[next_id as usize].delay, next)))
    } else {
        let cur_id = o.modifiers[modifier_index as usize];
        if cur_id >= modifiers.len() as u64 {
            return Err(ERROR_BAD_MODIFIER);
        }
        if modifiers[cur_id as usize].attribute_deltas.len() != o.attributes.len() {
            return Err(ERROR_ATTRIBUTE_MISMATCH);
        }
        let ok = apply_modifier(&mut o, &modifiers[cur_id as usize]);
        if ok {
            o.modifier_index = next;
        } else {
            o.modifier_index = modifier_index;
        }
        let mut buf: Vec<u64> = Vec::new();
        o.to_data(&mut buf);
        proof {
            assert(buf@ =~= o.encoded());
        }
        store.set(key, buf);
        proof {
            let fo = fire_outcome(old(store)@, modifiers@, *owner, object_index, modifier_index);
            assert(o.modifiers@ == chain_of(old(store)@[key]));
            assert(store@ =~= fo.1);
        }
        if ok {
            Ok(Some((modifiers[next_id as usize].delay, next)))
        } else {
            Ok(None)
        }
    }
}

/// The exact outcome of a restart command: the status or `(delay, position)`
/// returned, and the store afterwards.  A halted object resumes at the
/// position it halted at, optionally with a caller-supplied replacement
/// chain; a non-halted object is only marked restart-pending, which reports
/// "nothing to do" as `None`.
pub open spec fn restart_outcome(
    s: Map<Identifier, Seq<u64>>,
    table: Seq<Modifier>,
    owner: Identifier,
    object_index: u64,
    new_chain: Seq<u64>,
) -> (Result<Option<(u64, u64)>, u32>, Map<Identifier, Seq<u64>>) {
    let k = spec_object_key(owner, object_index);
    let ws = s[k];
    if ws.len() == 0 {
        (Err(ERROR_OBJECT_NOT_EXIST), s)
    } else if !obj_words_ok(ws) {
        (Err(ERROR_MALFORMED_OBJECT), s)
    } else {
        let idx = ws[1];
        let attrs = attrs_of(ws);
        if word_status(ws[0]) == ObjectStatus::Halted {
            let chain = if new_chain.len() > 0 {
                new_chain
            } else {
                chain_of(ws)
            };
            if chain.len() > 0xffff {
                (Err(ERROR_BAD_COMMAND), s)
            } else if idx >= chain.len() {
                (Err(ERROR_INDEX_OUT_OF_BOUND), s)
            } else if chain[idx as int] >= table.len() {
                (Err(ERROR_BAD_MODIFIER), s)
            } else {
                (
                    Ok(Some((table[chain[idx as int] as int].delay, idx))),
                    s.insert(k, obj_encoded_words(ObjectStatus::Running, idx, chain, attrs)),
                )
            }
        } else {
            (
                Ok(None),
                s.insert(
                    k,
                    obj_encoded_words(ObjectStatus::RestartPending, idx, chain_of(ws), attrs),
                ),
            )
        }
    }
}

/// Restarts a halted object, optionally reprogramming it with the chain in
/// `data` (an empty `data` keeps the old chain).  Returns the `(delay, chain
/// position)` to reinsert into the queue.  On a non-halted object this is a
/// no-op that reports `None` and marks the object restart-pending, so the
/// next fire skips ahead without the caller resubmitting.  The result and
/// the store transform are exactly `restart_outcome`.
pub fn restart_object_modifier(
    store: &mut KvStore,
    modifiers: &Vec<Modifier>,
    owner: &Identifier,
    object_index: u64,
    data: &Vec<u64>,
) -> (r: Result<Option<(u64, u64)>, u32>)
    ensures
        r matches Err(c) ==> c != 0,
        r == restart_outcome(old(store)@, modifiers@, *owner, object_index, data@).0,
        final(store)@ == restart_outcome(old(store)@, modifiers@, *owner, object_index, data@).1,
{
    let key = object_key(owner, object_index);
    let words = store.get(key);
    if words.len() == 0 {
        return Err(ERROR_OBJECT_NOT_EXIST);
    }
    let decoded_obj = Object::from_data(&words);
    let mut o = match decoded_obj {
        None => { return Err(ERROR_MALFORMED_OBJECT); },
        Some(o) => o,
    };
    let halted = match o.status {
        ObjectStatus::Halted => true,
        _ => false,
    };
    if halted {
        if data.len() > 0 {
            if data.len() > 0xffff {
                return Err(ERROR_BAD_COMMAND);
            }
            if o.modifier_index >= data.len() as u64 {
                return Err(ERROR_INDEX_OUT_OF_BOUND);
            }
            o.modifiers = copy_range(data, 0, data.len());
            proof {
                assert(o.modifiers@ =~= data@);
            }
        }
        let id = o.modifiers[o.modifier_index as usize];
        if id >= modifiers.len() as u64 {
            return Err(ERROR_BAD_MODIFIER);
        }
        o.status = ObjectStatus::Running;
        let mut buf: Vec<u64> = Vec::new();
        o.to_data(&mut buf);
        proof {
            assert(buf@ =~= o.encoded());
        }
        store.set(key, buf);
        Ok(Some((modifiers[id as usize].delay, o.modifier_index)))
    } else {
        o.status = ObjectStatus::RestartPending;
        let mut buf: Vec<u64> = Vec::new();
        o.to_data(&mut buf);
        proof {
            assert(buf@ =~= o.encoded());
        }
        store.set(key, buf);
        Ok(None)
    }
}

/// A continuation reported by `fire_outcome` always names a chain position
/// that fits the packed event word.
pub proof fn lemma_fire_next_bound(
    s: Map<Identifier, Seq<u64>>,
    table: Seq<Modifier>,
    owner: Identifier,
    object_index: u64,
    modifier_index: u64,
)
    ensures
        fire_outcome(s, table, owner, object_index, modifier_index).0 matches Ok(Some(c))
            ==> c.1 < 0x10000,
{
    let k = spec_object_key(owner, object_index);
    let ws = s[k];
    if ws.len() != 0 && obj_words_ok(ws) {
        assert(chain_of(ws).len() == ws[2]);
    }
}

/// Reads the delay of one modifier table row.
pub fn modifier_delay(table: &Vec<Modifier>, id: u64) -> (r: u64)
    requires
        (id as int) < table@.len(),
    ensures
        r == table@[id as int].delay,
{
    let n = table.len();
    proof {
        assert(id < n as u64);
    }
    table[id as usize].delay
}

/// Reads the attribute dimension of one modifier table row.
pub fn modifier_dim(table: &Vec<Modifier>, id: u64) -> (r: usize)
    requires
        (id as int) < table@.len(),
    ensures
        r == table@[id as int].attribute_deltas@.len(),
{
    let n = table.len();
    proof {
        assert(id < n as u64);
    }
    table[id as usize].attribute_deltas.len()
}

} // verus!
