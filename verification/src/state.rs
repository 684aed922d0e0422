//! The engine context and its command surface.
//!
//! A `State` bundles everything one execution batch owns: the calendar
//! queue, the word store, and the static modifier table.  A decoded
//! `Transaction` is processed against a `State`; the batch lifecycle hooks
//! `initialize` and `finalize` restore and persist the queue around the
//! batch's transactions.

use vstd::prelude::*;

use crate::err::ERROR_BAD_COMMAND;
use crate::err::ERROR_BAD_MODIFIER;
use crate::err::ERROR_ATTRIBUTE_MISMATCH;
use crate::err::ERROR_INVALID_EVENT;
use crate::err::ERROR_MALFORMED_PLAYER;
use crate::err::ERROR_OBJECT_ALREADY_EXIST;
use crate::err::ERROR_PLAYER_ALREADY_EXIST;
use crate::err::ERROR_PLAYER_NOT_EXIST;
use crate::err::ERROR_SCHEDULE_OVERFLOW;
use crate::event::dtq_insert;
use crate::event::flush_spec;
use crate::event::spec_counter_key;
use crate::event::sum_deltas;
use crate::event::tick_spec;
use crate::event::lemma_sum_deltas_nonneg;
use crate::event::Event;
use crate::event::EventQueue;
use crate::object::obj_encoded_words;
use crate::object::restart_outcome;
use crate::object::restart_object_modifier;
use crate::object::spec_object_key;
use crate::object::object_key;
use crate::object::modifier_delay;
use crate::object::modifier_dim;
use crate::object::Modifier;
use crate::object::ObjectStatus;
use crate::object::Object;
use crate::player::spec_player_key;
use crate::player::player_key;
use crate::store::Identifier;
use crate::store::KvStore;

verus! {

/// Command tag: advance the queue by one tick.
pub const TICK: u64 = 0;

/// Command tag: install the acting player.
pub const INSTALL_PLAYER: u64 = 1;

/// Command tag: increment the acting player's counter.
pub const INC_COUNTER: u64 = 2;

/// Command tag: install an object with a modifier chain and schedule its
/// first fire.
pub const INSTALL_OBJECT: u64 = 3;

/// Command tag: restart a halted object, optionally with a new chain.
pub const RESTART_OBJECT: u64 = 4;

/// The engine context of one execution batch.
pub struct State {
    pub queue: EventQueue,
    pub store: KvStore,
    pub modifiers: Vec<Modifier>,
}

impl State {
    /// A fresh context: empty queue, empty store, empty modifier table.
    pub fn new() -> (r: State)
        ensures
            r.queue.counter == 0,
            r.queue.list@ == Seq::<Event>::empty(),
            r.store@ == crate::store::empty_store(),
            r.modifiers@ == Seq::<Modifier>::empty(),
    {
        State { queue: EventQueue::new(), store: KvStore::new(), modifiers: Vec::new() }
    }

    /// A fresh context with the given modifier table.
    pub fn with_modifiers(modifiers: Vec<Modifier>) -> (r: State)
        ensures
            r.queue.counter == 0,
            r.queue.list@ == Seq::<Event>::empty(),
            r.store@ == crate::store::empty_store(),
            r.modifiers@ == modifiers@,
    {
        State { queue: EventQueue::new(), store: KvStore::new(), modifiers }
    }

    /// Batch start: restore the counter from the store.
    pub fn initialize(&mut self) -> (r: Result<(), u32>)
        ensures
            final(self).store@ == old(self).store@,
            final(self).modifiers@ == old(self).modifiers@,
            final(self).queue.list@ == old(self).queue.list@,
            ({
                let cw = old(self).store@[spec_counter_key()];
                if cw.len() == 0 {
                    r == Ok::<(), u32>(()) && final(self).queue.counter == old(self).queue.counter
                } else if cw.len() == 1 {
                    r == Ok::<(), u32>(()) && final(self).queue.counter == cw[0]
                } else {
                    r == Err::<(), u32>(crate::err::ERROR_MALFORMED_COUNTER)
                        && final(self).queue.counter == old(self).queue.counter
                }
            }),
    {
        self.queue.fetch(&self.store)
    }

    /// Batch end: spill the resident list into per-tick buckets and persist
    /// the counter.  Succeeds exactly when every resident entry fits the
    /// codec's bit widths and no absolute fire time overflows the counter
    /// range; a violation changes nothing and reports which kind it was.
    pub fn finalize(&mut self) -> (r: Result<(), u32>)
        ensures
            final(self).modifiers@ == old(self).modifiers@,
            r matches Ok(_) ==> {
                &&& old(self).queue.list_valid()
                &&& old(self).queue.counter + sum_deltas(old(self).queue.list@) <= u64::MAX
                &&& final(self).queue.counter == old(self).queue.counter
                &&& final(self).queue.list@ == Seq::<Event>::empty()
                &&& final(self).store@ == flush_spec(
                    old(self).store@,
                    old(self).queue.counter as int,
                    old(self).queue.list@,
                ).insert(spec_counter_key(), seq![old(self).queue.counter])
            },
            r matches Err(e) ==> {
                &&& final(self).queue.counter == old(self).queue.counter
                &&& final(self).queue.list@ == old(self).queue.list@
                &&& final(self).store@ == old(self).store@
                &&& (e == ERROR_INVALID_EVENT || e == ERROR_SCHEDULE_OVERFLOW)
                &&& !(old(self).queue.list_valid() && old(self).queue.counter + sum_deltas(
                    old(self).queue.list@,
                ) <= u64::MAX)
            },
    {
        let n = self.queue.list.len();
        let mut i: usize = 0;
        while i < n
            invariant
                n == self.queue.list@.len(),
                0 <= i <= n,
                *self == *old(self),
                forall|j: int| 0 <= j < i ==> (#[trigger] self.queue.list@[j]).valid(),
            decreases n - i,
        {
            let e = self.queue.list[i];
            if e.object_index >= 0x10000 || e.modifier_index >= 0x10000 || e.delta
                >= 0x1_0000_0000 {
                return Err(ERROR_INVALID_EVENT);
            }
            i += 1;
        }
        let ghost l0 = self.queue.list@;
        let ghost c0 = self.queue.counter;
        let mut t: u64 = self.queue.counter;
        let mut i: usize = 0;
        proof {
            assert(l0.skip(0) =~= l0);
        }
        while i < n
            invariant
                n == self.queue.list@.len(),
                0 <= i <= n,
                *self == *old(self),
                l0 == self.queue.list@,
                c0 == self.queue.counter,
                c0 + sum_deltas(l0) == t + sum_deltas(l0.skip(i as int)),
                t >= c0,
            decreases n - i,
        {
            let e = self.queue.list[i];
            let ghost tail = l0.skip(i as int);
            proof {
                assert(tail[0] == l0[i as int]);
                assert(tail.drop_first() =~= l0.skip(i + 1));
                assert(sum_deltas(tail) == e.delta + sum_deltas(l0.skip(i + 1)));
                lemma_sum_deltas_nonneg(l0.skip(i + 1));
            }
            if e.delta > u64::MAX - t {
                return Err(ERROR_SCHEDULE_OVERFLOW);
            }
            t = t + e.delta;
            i += 1;
        }
        proof {
            assert(l0.skip(n as int) =~= Seq::<Event>::empty());
            assert(c0 + sum_deltas(l0) == t);
        }
        self.queue.store(&mut self.store);
        Ok(())
    }
}

/// The exact outcome of a player install: the status code and the store
/// afterwards.  A fresh player record holds a zero nonce and a zero counter.
pub open spec fn install_player_outcome(s: Map<Identifier, Seq<u64>>, pkey: Identifier) -> (
    u32,
    Map<Identifier, Seq<u64>>,
) {
    let k = spec_player_key(pkey);
    if s[k].len() > 0 {
        (ERROR_PLAYER_ALREADY_EXIST, s)
    } else {
        (0, s.insert(k, seq![0u64, 0u64]))
    }
}

/// The exact outcome of a counter increment: the player record keeps its
/// nonce word and its counter word steps by one, wrapping at the top of the
/// 64-bit range.
pub open spec fn inc_counter_outcome(s: Map<Identifier, Seq<u64>>, pkey: Identifier) -> (
    u32,
    Map<Identifier, Seq<u64>>,
) {
    let k = spec_player_key(pkey);
    let ws = s[k];
    if ws.len() == 0 {
        (ERROR_PLAYER_NOT_EXIST, s)
    } else if ws.len() != 2 {
        (ERROR_MALFORMED_PLAYER, s)
    } else {
        let c1 = if ws[1] == u64::MAX {
            0u64
        } else {
            (ws[1] + 1) as u64
        };
        (0, s.insert(k, seq![ws[0], c1]))
    }
}

/// Whether every id of a chain names a row of the modifier table.
pub open spec fn chain_ids_ok(chain: Seq<u64>, table: Seq<Modifier>) -> bool {
    forall|i: int| 0 <= i < chain.len() ==> (#[trigger] chain[i]) < table.len()
}

/// Whether every modifier of a chain has the same attribute dimension.
pub open spec fn chain_dims_ok(chain: Seq<u64>, table: Seq<Modifier>) -> bool
    recommends
        chain_ids_ok(chain, table),
        chain.len() > 0,
{
    forall|i: int|
        0 <= i < chain.len() ==> (#[trigger] table[chain[i] as int].attribute_deltas@).len()
            == table[chain[0] as int].attribute_deltas@.len()
}

/// A zeroed attribute vector.
pub open spec fn zero_attrs(n: int) -> Seq<u64> {
    Seq::new(n as nat, |i: int| 0u64)
}

/// The exact outcome of an object install: the status code, the store
/// afterwards, and the queue list afterwards.  The command data is the
/// object index followed by the chain; the new object starts running at
/// chain position zero with zeroed attributes, and its first fire is
/// scheduled after the delay of the chain's first modifier.
pub open spec fn install_object_outcome(
    s: Map<Identifier, Seq<u64>>,
    table: Seq<Modifier>,
    l: Seq<Event>,
    pkey: Identifier,
    data: Seq<u64>,
) -> (u32, Map<Identifier, Seq<u64>>, Seq<Event>) {
    if data.len() < 2 {
        (ERROR_BAD_COMMAND, s, l)
    } else {
        let oi = data[0];
        let chain = data.skip(1);
        if oi >= 0x10000 || chain.len() > 0xffff {
            (ERROR_BAD_COMMAND, s, l)
        } else if !chain_ids_ok(chain, table) {
            (ERROR_BAD_MODIFIER, s, l)
        } else if !chain_dims_ok(chain, table) {
            (ERROR_ATTRIBUTE_MISMATCH, s, l)
        } else if table[chain[0] as int].delay < 1 || table[chain[0] as int].delay
            >= 0x1_0000_0000 {
            (ERROR_BAD_MODIFIER, s, l)
        } else if s[spec_player_key(pkey)].len() == 0 {
            (ERROR_PLAYER_NOT_EXIST, s, l)
        } else if s[spec_object_key(pkey, oi)].len() > 0 {
            (ERROR_OBJECT_ALREADY_EXIST, s, l)
        } else {
            let dim = table[chain[0] as int].attribute_deltas@.len() as int;
            (
                0,
                s.insert(
                    spec_object_key(pkey, oi),
                    obj_encoded_words(ObjectStatus::Running, 0, chain, zero_attrs(dim)),
                ),
                dtq_insert(
                    l,
                    Event {
                        owner: pkey,
                        object_index: oi,
                        modifier_index: 0,
                        delta: table[chain[0] as int].delay,
                    },
                ),
            )
        }
    }
}

/// The exact outcome of a restart command: the status code, the store
/// afterwards, and the queue list afterwards.  The command data is the
/// object index followed by the optional replacement chain; a successful
/// restart reschedules the object at the position it halted at.
pub open spec fn restart_command_outcome(
    s: Map<Identifier, Seq<u64>>,
    table: Seq<Modifier>,
    l: Seq<Event>,
    pkey: Identifier,
    data: Seq<u64>,
) -> (u32, Map<Identifier, Seq<u64>>, Seq<Event>) {
    if data.len() < 1 {
        (ERROR_BAD_COMMAND, s, l)
    } else {
        let oi = data[0];
        if oi >= 0x10000 {
            (ERROR_BAD_COMMAND, s, l)
        } else {
            let ro = restart_outcome(s, table, pkey, oi, data.skip(1));
            match ro.0 {
                Err(c) => (c, s, l),
                Ok(None) => (0, ro.1, l),
                Ok(Some(c)) => {
                    if c.0 < 1 || c.0 >= 0x1_0000_0000 {
                        (ERROR_BAD_MODIFIER, ro.1, l)
                    } else {
                        (
                            0,
                            ro.1,
                            dtq_insert(
                                l,
                                Event {
                                    owner: pkey,
                                    object_index: oi,
                                    modifier_index: c.1,
                                    delta: c.0,
                                },
                            ),
                        )
                    }
                },
            }
        }
    }
}

/// One decoded command: its tag and the words that follow it.
pub struct Transaction {
    pub command: u64,
    pub data: Vec<u64>,
}

impl Transaction {
    /// The human-readable name of a status code.
    pub fn decode_error(e: u32) -> (r: &'static str)
        ensures
            e == ERROR_PLAYER_ALREADY_EXIST ==> r@ == "PlayerAlreadyExist"@,
            e == ERROR_PLAYER_NOT_EXIST ==> r@ == "PlayerNotExist"@,
            e == crate::err::ERROR_OBJECT_NOT_EXIST ==> r@ == "ObjectNotExist"@,
            e == ERROR_OBJECT_ALREADY_EXIST ==> r@ == "ObjectAlreadyExist"@,
    {
        match e {
            ERROR_PLAYER_ALREADY_EXIST => "PlayerAlreadyExist",
            ERROR_PLAYER_NOT_EXIST => "PlayerNotExist",
            crate::err::ERROR_OBJECT_NOT_EXIST => "ObjectNotExist",
            ERROR_OBJECT_ALREADY_EXIST => "ObjectAlreadyExist",
            _ => "Unknown",
        }
    }

    /// Splits a raw command into its tag (the low byte of the first word)
    /// and the words that follow.
    pub fn decode(params: &[u64]) -> (r: Transaction)
        requires
            params@.len() >= 1,
        ensures
            r.command == params@[0] & 0xff,
            r.data@ == params@.skip(1),
    {
        let command = params[0] & 0xff;
        let n = params.len();
        let mut data: Vec<u64> = Vec::new();
        let mut i: usize = 1;
        while i < n
            invariant
                n == params@.len(),
                1 <= i <= n,
                data@ == params@.subrange(1, i as int),
            decreases n - i,
        {
            data.push(params[i]);
            assert(data@ =~= params@.subrange(1, i + 1 as int));
            i += 1;
        }
        proof {
            assert(data@ =~= params@.skip(1));
        }
        Transaction { command, data }
    }

    /// Installs the acting player; exactly `install_player_outcome`.
    pub fn install_player(&self, pkey: &Identifier, store: &mut KvStore) -> (r: u32)
        ensures
            r == install_player_outcome(old(store)@, *pkey).0,
            final(store)@ == install_player_outcome(old(store)@, *pkey).1,
    {
        let k = player_key(pkey);
        let existing = store.get(k);
        if existing.len() > 0 {
            return ERROR_PLAYER_ALREADY_EXIST;
        }
        let mut record: Vec<u64> = Vec::new();
        record.push(0);
        record.push(0);
        proof {
            assert(record@ =~= seq![0u64, 0u64]);
        }
        store.set(k, record);
        0
    }

    /// Increments the acting player's counter; exactly
    /// `inc_counter_outcome`.
    pub fn inc_counter(&self, pkey: &Identifier, store: &mut KvStore) -> (r: u32)
        ensures
            r == inc_counter_outcome(old(store)@, *pkey).0,
            final(store)@ == inc_counter_outcome(old(store)@, *pkey).1,
    {
        let k = player_key(pkey);
        let existing = store.get(k);
        if existing.len() == 0 {
            return ERROR_PLAYER_NOT_EXIST;
        }
        if existing.len() != 2 {
            return ERROR_MALFORMED_PLAYER;
        }
        let c1: u64 = if existing[1] == u64::MAX {
            0
        } else {
            existing[1] + 1
        };
        let mut record: Vec<u64> = Vec::new();
        record.push(existing[0]);
        record.push(c1);
        proof {
            assert(record@ =~= seq![old(store)@[spec_player_key(*pkey)][0], c1]);
        }
        store.set(k, record);
        0
    }

    /// Installs an object with the chain carried in the command data and
    /// schedules its first fire; exactly `install_object_outcome`.
    pub fn install_object(&self, pkey: &Identifier, state: &mut State) -> (r: u32)
        ensures
            final(state).modifiers@ == old(state).modifiers@,
            final(state).queue.counter == old(state).queue.counter,
            ({
                let o = install_object_outcome(
                    old(state).store@,
                    old(state).modifiers@,
                    old(state).queue.list@,
                    *pkey,
                    self.data@,
                );
                r == o.0 && final(state).store@ == o.1 && final(state).queue.list@ == o.2
            }),
    {
        if self.data.len() < 2 {
            return ERROR_BAD_COMMAND;
        }
        let oi = self.data[0];
        let chain_len = self.data.len() - 1;
        if oi >= 0x10000 || chain_len > 0xffff {
            return ERROR_BAD_COMMAND;
        }
        let ghost chain = self.data@.skip(1);
        let table_len = state.modifiers.len() as u64;
        let dim = {
            let first = self.data[1];
            if first >= table_len {
                return ERROR_BAD_MODIFIER;
            }
            modifier_dim(&state.modifiers, first)
        };
        let mut i: usize = 1;
        let n = self.data.len();
        while i < n
            invariant
                n == self.data@.len(),
                n >= 2,
                n - 1 <= 0xffff,
                self.data@[0] < 0x10000,
                1 <= i <= n,
                *state == *old(state),
                chain == self.data@.skip(1),
                table_len == state.modifiers@.len(),
                forall|j: int| 1 <= j < i ==> (#[trigger] self.data@[j]) < table_len,
            decreases n - i,
        {
            let id = self.data[i];
            if id >= table_len {
                proof {
                    assert(chain[i - 1] == self.data@[i as int]);
                    assert(!chain_ids_ok(chain, state.modifiers@));
                }
                return ERROR_BAD_MODIFIER;
            }
            i += 1;
        }
        proof {
            assert forall|j: int| 0 <= j < chain.len() implies (#[trigger] chain[j]) < table_len by {
                assert(chain[j] == self.data@[j + 1]);
            }
            assert(chain_ids_ok(chain, state.modifiers@));
        }
        let mut i: usize = 1;
        while i < n
            invariant
                n == self.data@.len(),
                n >= 2,
                n - 1 <= 0xffff,
                self.data@[0] < 0x10000,
                1 <= i <= n,
                *state == *old(state),
                chain == self.data@.skip(1),
                table_len == state.modifiers@.len(),
                chain_ids_ok(chain, state.modifiers@),
                dim == state.modifiers@[self.data@[1] as int].attribute_deltas@.len(),
                self.data@[1] < table_len,
                forall|j: int|
                    1 <= j < i ==> (#[trigger] state.modifiers@[self.data@[j] as int].attribute_deltas@).len()
                        == dim,
            decreases n - i,
        {
            let id = self.data[i];
            proof {
                assert(chain[i - 1] == self.data@[i as int]);
                assert(chain[i - 1] < table_len);
                assert(id < table_len);
            }
            if modifier_dim(&state.modifiers, id) != dim {
                proof {
                    assert(chain[0] == self.data@[1]);
                    assert(state.modifiers@[chain[i - 1] as int].attribute_deltas@.len() != dim);
                    assert(state.modifiers@[chain[0] as int].attribute_deltas@.len() == dim);
                    assert(!chain_dims_ok(chain, state.modifiers@));
                }
                return ERROR_ATTRIBUTE_MISMATCH;
            }
            proof {
                assert(state.modifiers@[self.data@[i as int] as int].attribute_deltas@.len()
                    == dim);
            }
            i += 1;
        }
        proof {
            assert forall|j: int|
                0 <= j < chain.len() implies (#[trigger] state.modifiers@[chain[j] as int].attribute_deltas@).len()
                    == state.modifiers@[chain[0] as int].attribute_deltas@.len() by {
                assert(chain[j] == self.data@[j + 1]);
                assert(chain[0] == self.data@[1]);
            }
            assert(chain_dims_ok(chain, state.modifiers@));
        }
        let first_id = self.data[1];
        let delay = modifier_delay(&state.modifiers, first_id);
        if delay < 1 || delay >= 0x1_0000_0000 {
            return ERROR_BAD_MODIFIER;
        }
        let pk = player_key(pkey);
        let player_rec = state.store.get(pk);
        if player_rec.len() == 0 {
            return ERROR_PLAYER_NOT_EXIST;
        }
        let ok = object_key(pkey, oi);
        let obj_rec = state.store.get(ok);
        if obj_rec.len() > 0 {
            return ERROR_OBJECT_ALREADY_EXIST;
        }
        let mut chain_vec: Vec<u64> = Vec::new();
        let mut i: usize = 1;
        while i < n
            invariant
                n == self.data@.len(),
                1 <= i <= n,
                chain_vec@ == self.data@.subrange(1, i as int),
            decreases n - i,
        {
            chain_vec.push(self.data[i]);
            assert(chain_vec@ =~= self.data@.subrange(1, i + 1 as int));
            i += 1;
        }
        let mut attrs: Vec<u64> = Vec::new();
        let mut i: usize = 0;
        while i < dim
            invariant
                0 <= i <= dim,
                attrs@ == zero_attrs(i as int),
            decreases dim - i,
        {
            attrs.push(0);
            assert(attrs@ =~= zero_attrs(i + 1 as int));
            i += 1;
        }
        let obj = Object {
            status: ObjectStatus::Running,
            modifier_index: 0,
            modifiers: chain_vec,
            attributes: attrs,
        };
        let mut rec: Vec<u64> = Vec::new();
        obj.to_data(&mut rec);
        proof {
            assert(chain_vec@ =~= chain);
            assert(rec@ =~= obj_encoded_words(
                ObjectStatus::Running,
                0,
                chain,
                zero_attrs(dim as int),
            ));
        }
        state.store.set(ok, rec);
        state.queue.insert(oi, pkey, delay, 0);
        0
    }

    /// Restarts a halted object and reschedules it; exactly
    /// `restart_command_outcome`.
    pub fn restart_object(&self, pkey: &Identifier, state: &mut State) -> (r: u32)
        ensures
            final(state).modifiers@ == old(state).modifiers@,
            final(state).queue.counter == old(state).queue.counter,
            ({
                let o = restart_command_outcome(
                    old(state).store@,
                    old(state).modifiers@,
                    old(state).queue.list@,
                    *pkey,
                    self.data@,
                );
                r == o.0 && final(state).store@ == o.1 && final(state).queue.list@ == o.2
            }),
    {
        if self.data.len() < 1 {
            return ERROR_BAD_COMMAND;
        }
        let oi = self.data[0];
        if oi >= 0x10000 {
            return ERROR_BAD_COMMAND;
        }
        let n = self.data.len();
        let mut chain_vec: Vec<u64> = Vec::new();
        let mut i: usize = 1;
        while i < n
            invariant
                n == self.data@.len(),
                1 <= i <= n,
                chain_vec@ == self.data@.subrange(1, i as int),
            decreases n - i,
        {
            chain_vec.push(self.data[i]);
            assert(chain_vec@ =~= self.data@.subrange(1, i + 1 as int));
            i += 1;
        }
        proof {
            assert(chain_vec@ =~= self.data@.skip(1));
        }
        let m = restart_object_modifier(&mut state.store, &state.modifiers, pkey, oi, &chain_vec);
        match m {
            Err(c) => c,
            Ok(None) => 0,
            Ok(Some((delay, idx))) => {
                if delay < 1 || delay >= 0x1_0000_0000 {
                    return ERROR_BAD_MODIFIER;
                }
                state.queue.insert(oi, pkey, delay, idx);
                0
            },
        }
    }

    /// Runs one decoded command against the engine context and returns its
    /// status word.  Unknown command tags are ignored with status zero, as
    /// the host's replay discipline requires.
    pub fn process(&self, pkey: &Identifier, _rand: &Identifier, state: &mut State) -> (r: Vec<
        u64,
    >)
        ensures
            r@.len() == 1,
            final(state).modifiers@ == old(state).modifiers@,
            self.command == INSTALL_PLAYER ==> {
                let o = install_player_outcome(old(state).store@, *pkey);
                &&& r@[0] == o.0
                &&& final(state).store@ == o.1
                &&& final(state).queue == old(state).queue
            },
            self.command == INC_COUNTER ==> {
                let o = inc_counter_outcome(old(state).store@, *pkey);
                &&& r@[0] == o.0
                &&& final(state).store@ == o.1
                &&& final(state).queue == old(state).queue
            },
            self.command == INSTALL_OBJECT ==> {
                let o = install_object_outcome(
                    old(state).store@,
                    old(state).modifiers@,
                    old(state).queue.list@,
                    *pkey,
                    self.data@,
                );
                &&& r@[0] == o.0
                &&& final(state).store@ == o.1
                &&& final(state).queue.list@ == o.2
                &&& final(state).queue.counter == old(state).queue.counter
            },
            self.command == RESTART_OBJECT ==> {
                let o = restart_command_outcome(
                    old(state).store@,
                    old(state).modifiers@,
                    old(state).queue.list@,
                    *pkey,
                    self.data@,
                );
                &&& r@[0] == o.0
                &&& final(state).store@ == o.1
                &&& final(state).queue.list@ == o.2
                &&& final(state).queue.counter == old(state).queue.counter
            },
            self.command == TICK ==> {
                &&& (old(state).queue.counter < u64::MAX ==> {
                    let t = tick_spec(
                        old(state).store@,
                        old(state).modifiers@,
                        old(state).queue.counter,
                        old(state).queue.list@,
                    );
                    &&& r@[0] == (match t.0 {
                        Ok(u) => 0u64,
                        Err(c) => c as u64,
                    })
                    &&& final(state).store@ == t.1
                    &&& final(state).queue.list@ == t.2
                    &&& (t.0 matches Ok(_) ==> final(state).queue.counter == old(
                        state,
                    ).queue.counter + 1)
                    &&& (t.0 matches Err(_) ==> final(state).queue.counter == old(
                        state,
                    ).queue.counter)
                })
                &&& (old(state).queue.counter == u64::MAX
                    ==> r@[0] == ERROR_BAD_COMMAND && *final(state) == *old(state))
            },
            self.command > RESTART_OBJECT ==> *final(state) == *old(state) && r@[0] == 0,
    {
        let status: u32 = if self.command == INSTALL_PLAYER {
            self.install_player(pkey, &mut state.store)
        } else if self.command == INC_COUNTER {
            self.inc_counter(pkey, &mut state.store)
        } else if self.command == INSTALL_OBJECT {
            self.install_object(pkey, state)
        } else if self.command == RESTART_OBJECT {
            self.restart_object(pkey, state)
        } else if self.command == TICK {
            if state.queue.counter == u64::MAX {
                ERROR_BAD_COMMAND
            } else {
                match state.queue.tick(&mut state.store, &state.modifiers) {
                    Ok(_) => 0,
                    Err(c) => c,
                }
            }
        } else {
            0
        };
        let mut r: Vec<u64> = Vec::new();
        r.push(status as u64);
        r
    }
}

} // verus!
