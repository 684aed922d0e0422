//! Scheduled events and the calendar queue.
//!
//! The queue is a differential time queue: the in-memory list keeps one
//! relative delay ("delta") per entry, so the absolute tick at which the entry
//! at position `i` fires is `counter` plus the sum of the deltas of entries
//! `0..=i`.  Far-future entries are spilled into per-absolute-tick buckets of
//! the word store and pulled back one bucket per tick.

use vstd::prelude::*;

use crate::err::ERROR_BAD_MODIFIER;
use crate::err::ERROR_MALFORMED_BUCKET;
use crate::err::ERROR_MALFORMED_COUNTER;
use crate::object::fire_outcome;
use crate::object::Modifier;
use crate::store::Identifier;
use crate::store::KvStore;

verus! {

/// A scheduled mutation: when it fires, the modifier at position
/// `modifier_index` of the chain of object `object_index` of `owner` is
/// applied.  `delta` is the delay relative to the entry immediately preceding
/// this one in the queue list, not an absolute tick.
#[derive(Clone, Copy, PartialEq, Eq, Structural, Debug)]
pub struct Event {
    pub owner: Identifier,
    pub object_index: u64,
    pub modifier_index: u64,
    pub delta: u64,
}

impl Event {
    /// Field widths of the packed word: `object_index` in the top 16 bits,
    /// `modifier_index` in the next 16, `delta` in the low 32.
    pub open spec fn valid(self) -> bool {
        &&& self.object_index < 0x10000
        &&& self.modifier_index < 0x10000
        &&& self.delta < 0x1_0000_0000
    }

    /// The packed fifth word of the serialized form.
    pub open spec fn packed(self) -> u64 {
        (self.object_index << 48) | (self.modifier_index << 32) | self.delta
    }

    /// The serialized form: the four owner words, then the packed word.
    pub open spec fn encoded(self) -> Seq<u64> {
        seq![self.owner.w0, self.owner.w1, self.owner.w2, self.owner.w3, self.packed()]
    }

    /// Appends the five-word serialized form of `self` to `buf`.
    pub fn compact(&self, buf: &mut Vec<u64>)
        ensures
            final(buf)@ == old(buf)@ + self.encoded(),
    {
        buf.push(self.owner.w0);
        buf.push(self.owner.w1);
        buf.push(self.owner.w2);
        buf.push(self.owner.w3);
        buf.push((self.object_index << 48) | (self.modifier_index << 32) | self.delta);
        assert(buf@ =~= old(buf)@ + self.encoded());
    }

    /// Removes the last five words of `buf` and decodes them as one event.
    pub fn fetch(buf: &mut Vec<u64>) -> (r: Event)
        requires
            old(buf)@.len() >= 5,
        ensures
            final(buf)@ == old(buf)@.take(old(buf)@.len() - 5),
            r == decoded(old(buf)@.subrange(old(buf)@.len() - 5, old(buf)@.len() as int)),
    {
        let f = pop_word(buf);
        let w3 = pop_word(buf);
        let w2 = pop_word(buf);
        let w1 = pop_word(buf);
        let w0 = pop_word(buf);
        let r = Event {
            owner: Identifier { w0, w1, w2, w3 },
            object_index: f >> 48,
            modifier_index: (f >> 32) & 0xffff,
            delta: f & 0xffff_ffff,
        };
        proof {
            assert(buf@ =~= old(buf)@.take(old(buf)@.len() - 5));
            assert(old(buf)@.subrange(old(buf)@.len() - 5, old(buf)@.len() as int) =~= seq![
                w0,
                w1,
                w2,
                w3,
                f,
            ]);
        }
        r
    }
}

/// Removes and returns the last word of `buf`.
fn pop_word(buf: &mut Vec<u64>) -> (r: u64)
    requires
        old(buf)@.len() >= 1,
    ensures
        final(buf)@ == old(buf)@.drop_last(),
        r == old(buf)@.last(),
{
    let r = buf.pop().unwrap();
    r
}

/// The event a five-word window decodes to: the reverse of `Event::encoded`.
pub open spec fn decoded(s: Seq<u64>) -> Event
    recommends
        s.len() == 5,
{
    Event {
        owner: Identifier { w0: s[0], w1: s[1], w2: s[2], w3: s[3] },
        object_index: s[4] >> 48,
        modifier_index: (s[4] >> 32) & 0xffff,
        delta: s[4] & 0xffff_ffff,
    }
}

/// The pair that identifies what a queue entry is pending for.
pub open spec fn ev_key(e: Event) -> (Identifier, u64) {
    (e.owner, e.object_index)
}

/// The keys of the entries of `l`, in list order.
pub open spec fn keys(l: Seq<Event>) -> Seq<(Identifier, u64)>
    decreases l.len(),
{
    if l.len() == 0 {
        Seq::empty()
    } else {
        seq![ev_key(l[0])] + keys(l.drop_first())
    }
}

/// The absolute fire times of the entries of `l`, in list order, for a queue
/// whose counter is `c`: the time of entry `i` is `c` plus the deltas of
/// entries `0..=i`.
pub open spec fn times(c: int, l: Seq<Event>) -> Seq<int>
    decreases l.len(),
{
    if l.len() == 0 {
        Seq::empty()
    } else {
        seq![c + l[0].delta] + times(c + l[0].delta, l.drop_first())
    }
}

/// Where an incoming event with remaining delay `d` lands in `l`: after every
/// entry that fires no later than it (so ties keep first-in-first-out order),
/// before the first entry that fires strictly later.
pub open spec fn ins_pos(l: Seq<Event>, d: int) -> int
    decreases l.len(),
{
    if l.len() == 0 {
        0
    } else if l[0].delta <= d {
        1 + ins_pos(l.drop_first(), d - l[0].delta)
    } else {
        0
    }
}

/// The list after inserting `ev` (whose `delta` holds its full delay relative
/// to the queue counter): walk from the front subtracting the deltas of
/// entries that fire no later, place the remainder there, and shrink the
/// following entry's delta by that remainder so its fire time is unchanged.
pub open spec fn dtq_insert(l: Seq<Event>, ev: Event) -> Seq<Event>
    decreases l.len(),
{
    if l.len() == 0 {
        seq![ev]
    } else if l[0].delta <= ev.delta {
        seq![l[0]] + dtq_insert(l.drop_first(), Event { delta: (ev.delta - l[0].delta) as u64, ..ev })
    } else {
        seq![ev] + seq![Event { delta: (l[0].delta - ev.delta) as u64, ..l[0] }] + l.drop_first()
    }
}

/// Decoding inverts encoding on every event whose fields fit the fixed bit
/// widths of the packed word.
pub proof fn lemma_codec_round_trip(e: Event)
    requires
        e.valid(),
    ensures
        decoded(e.encoded()) == e,
{
    let oi = e.object_index;
    let mi = e.modifier_index;
    let d = e.delta;
    let w = e.packed();
    assert(w == (oi << 48) | (mi << 32) | d);
    assert((((oi << 48) | (mi << 32) | d) >> 48) == oi) by (bit_vector)
        requires
            oi < 0x10000,
            mi < 0x10000,
            d < 0x1_0000_0000,
    ;
    assert(((((oi << 48) | (mi << 32) | d) >> 32) & 0xffff) == mi) by (bit_vector)
        requires
            oi < 0x10000,
            mi < 0x10000,
            d < 0x1_0000_0000,
    ;
    assert((((oi << 48) | (mi << 32) | d) & 0xffff_ffff) == d) by (bit_vector)
        requires
            oi < 0x10000,
            mi < 0x10000,
            d < 0x1_0000_0000,
    ;
}

/// The relative-delta representation keeps the list sorted by construction:
/// for a queue at counter `c`, the absolute fire times of the entries are
/// non-decreasing from head to tail (and never lie before `c`), because every
/// delta is non-negative.
pub proof fn lemma_times_sorted(c: int, l: Seq<Event>)
    ensures
        times(c, l).len() == l.len(),
        forall|i: int| 0 <= i < l.len() ==> c <= #[trigger] times(c, l)[i],
        forall|i: int, j: int| 0 <= i <= j < l.len() ==> times(c, l)[i] <= times(c, l)[j],
    decreases l.len(),
{
    if l.len() > 0 {
        let c1 = c + l[0].delta;
        let rest = l.drop_first();
        lemma_times_sorted(c1, rest);
        assert(times(c, l) == seq![c1] + times(c1, rest));
        assert forall|i: int, j: int| 0 <= i <= j < l.len() implies times(c, l)[i] <= times(
            c,
            l,
        )[j] by {
            if 0 < i {
                assert(times(c, l)[i] == times(c1, rest)[i - 1]);
                assert(times(c, l)[j] == times(c1, rest)[j - 1]);
            } else if 0 < j {
                assert(times(c, l)[j] == times(c1, rest)[j - 1]);
            }
        }
    }
}

/// Where `ins_pos` places a delay-`d` arrival: after every entry firing at or
/// before `c + d`, before the first entry firing strictly after it.
pub proof fn lemma_ins_pos(c: int, l: Seq<Event>, d: int)
    requires
        0 <= d,
    ensures
        0 <= ins_pos(l, d) <= l.len(),
        forall|j: int| 0 <= j < ins_pos(l, d) ==> #[trigger] times(c, l)[j] <= c + d,
        ins_pos(l, d) < l.len() ==> times(c, l)[ins_pos(l, d)] > c + d,
    decreases l.len(),
{
    if l.len() > 0 {
        let c1 = c + l[0].delta;
        let rest = l.drop_first();
        assert(times(c, l) == seq![c1] + times(c1, rest));
        if l[0].delta <= d {
            lemma_ins_pos(c1, rest, d - l[0].delta);
            lemma_times_sorted(c1, rest);
            let k = ins_pos(l, d);
            assert(k == 1 + ins_pos(rest, d - l[0].delta));
            assert forall|j: int| 0 <= j < k implies #[trigger] times(c, l)[j] <= c + d by {
                if 0 < j {
                    assert(times(c, l)[j] == (seq![c1] + times(c1, rest))[j]);
                    assert((seq![c1] + times(c1, rest))[j] == times(c1, rest)[j - 1]);
                } else {
                    assert(times(c, l)[0] == c1);
                }
            }
            if k < l.len() {
                assert(times(c, l)[k] == (seq![c1] + times(c1, rest))[k]);
                assert((seq![c1] + times(c1, rest))[k] == times(c1, rest)[k - 1]);
            }
        }
    }
}

/// Inserting an event with delay `d` leaves every existing absolute fire time
/// in place and adds `c + d` at the first-in-first-out position: the new time
/// sequence is exactly the old one with `c + d` inserted at `ins_pos`.
pub proof fn lemma_insert_times(c: int, l: Seq<Event>, ev: Event)
    ensures
        times(c, dtq_insert(l, ev)) == times(c, l).insert(ins_pos(l, ev.delta as int), c + ev.delta),
    decreases l.len(),
{
    if l.len() == 0 {
        let li = dtq_insert(l, ev);
        assert(li == seq![ev]);
        assert(li.drop_first() =~= Seq::<Event>::empty());
        assert(times(c + ev.delta, li.drop_first()) == Seq::<int>::empty());
        assert(times(c, li) =~= seq![c + ev.delta]);
        assert(times(c, l) == Seq::<int>::empty());
        assert(times(c, dtq_insert(l, ev)) =~= times(c, l).insert(0, c + ev.delta));
    } else {
        let d0 = l[0].delta;
        let c1 = c + d0;
        let rest = l.drop_first();
        lemma_times_sorted(c1, rest);
        assert(times(c, l) == seq![c1] + times(c1, rest));
        if d0 <= ev.delta {
            let ev1 = Event { delta: (ev.delta - d0) as u64, ..ev };
            lemma_insert_times(c1, rest, ev1);
            let k1 = ins_pos(rest, ev1.delta as int);
            lemma_ins_pos(c1, rest, ev1.delta as int);
            assert(dtq_insert(l, ev) == seq![l[0]] + dtq_insert(rest, ev1));
            assert((seq![l[0]] + dtq_insert(rest, ev1)).drop_first() =~= dtq_insert(rest, ev1));
            assert(times(c, dtq_insert(l, ev)) == seq![c1] + times(c1, dtq_insert(rest, ev1)));
            assert(c1 + ev1.delta == c + ev.delta);
            assert(times(c1, dtq_insert(rest, ev1)) == times(c1, rest).insert(k1, c + ev.delta));
            assert(0 <= k1 <= times(c1, rest).len());
            assert(times(c, dtq_insert(l, ev)) =~= times(c, l).insert(
                1 + k1,
                c + ev.delta,
            ));
        } else {
            let moved = Event { delta: (d0 - ev.delta) as u64, ..l[0] };
            assert(dtq_insert(l, ev) == seq![ev] + seq![moved] + rest);
            let tail1 = (seq![ev] + seq![moved] + rest).drop_first();
            assert(tail1 =~= seq![moved] + rest);
            assert(times(c, dtq_insert(l, ev)) == seq![c + ev.delta] + times(c + ev.delta, tail1));
            assert((seq![moved] + rest).drop_first() =~= rest);
            assert(times(c + ev.delta, seq![moved] + rest) == seq![c + d0] + times(c1, rest));
            assert(times(c, dtq_insert(l, ev)) =~= times(c, l).insert(0, c + ev.delta));
        }
    }
}

/// The key sequence has one key per entry, each taken from the entry at the
/// same position.
pub proof fn lemma_keys_props(l: Seq<Event>)
    ensures
        keys(l).len() == l.len(),
        forall|i: int| 0 <= i < l.len() ==> keys(l)[i] == ev_key(l[i]),
    decreases l.len(),
{
    if l.len() > 0 {
        let rest = l.drop_first();
        lemma_keys_props(rest);
        assert(keys(l) == seq![ev_key(l[0])] + keys(rest));
        assert forall|i: int| 0 <= i < l.len() implies keys(l)[i] == ev_key(l[i]) by {
            if 0 < i {
                assert(keys(l)[i] == (seq![ev_key(l[0])] + keys(rest))[i]);
                assert((seq![ev_key(l[0])] + keys(rest))[i] == keys(rest)[i - 1]);
                assert(rest[i - 1] == l[i]);
            }
        }
    }
}

/// Inserting an event adds its `(owner, object index)` key at `ins_pos` and
/// keeps every other key in place: delta bookkeeping never changes which
/// object an entry is pending for.
pub proof fn lemma_insert_keys(l: Seq<Event>, ev: Event)
    ensures
        keys(dtq_insert(l, ev)) == keys(l).insert(ins_pos(l, ev.delta as int), ev_key(ev)),
    decreases l.len(),
{
    if l.len() == 0 {
        let li = dtq_insert(l, ev);
        assert(li == seq![ev]);
        assert(li.drop_first() =~= Seq::<Event>::empty());
        assert(keys(li.drop_first()) == Seq::<(Identifier, u64)>::empty());
        assert(keys(li) =~= seq![ev_key(ev)]);
        assert(keys(l) == Seq::<(Identifier, u64)>::empty());
        assert(keys(dtq_insert(l, ev)) =~= keys(l).insert(0, ev_key(ev)));
    } else {
        let d0 = l[0].delta;
        let rest = l.drop_first();
        lemma_keys_props(rest);
        assert(keys(l) == seq![ev_key(l[0])] + keys(rest));
        if d0 <= ev.delta {
            let ev1 = Event { delta: (ev.delta - d0) as u64, ..ev };
            lemma_insert_keys(rest, ev1);
            lemma_ins_pos(0, rest, ev1.delta as int);
            assert(ev_key(ev1) == ev_key(ev));
            assert(dtq_insert(l, ev) == seq![l[0]] + dtq_insert(rest, ev1));
            assert((seq![l[0]] + dtq_insert(rest, ev1)).drop_first() =~= dtq_insert(rest, ev1));
            assert(keys(dtq_insert(l, ev)) == seq![ev_key(l[0])] + keys(dtq_insert(rest, ev1)));
            assert(keys(dtq_insert(rest, ev1)) == keys(rest).insert(
                ins_pos(rest, ev1.delta as int),
                ev_key(ev),
            ));
            assert(0 <= ins_pos(rest, ev1.delta as int) <= keys(rest).len());
            assert(keys(dtq_insert(l, ev)) =~= keys(l).insert(
                1 + ins_pos(rest, ev1.delta as int),
                ev_key(ev),
            ));
        } else {
            let moved = Event { delta: (d0 - ev.delta) as u64, ..l[0] };
            assert(dtq_insert(l, ev) == seq![ev] + seq![moved] + rest);
            let tail1 = (seq![ev] + seq![moved] + rest).drop_first();
            assert(tail1 =~= seq![moved] + rest);
            assert(keys(dtq_insert(l, ev)) == seq![ev_key(ev)] + keys(seq![moved] + rest));
            assert((seq![moved] + rest).drop_first() =~= rest);
            assert(keys(seq![moved] + rest) == seq![ev_key(moved)] + keys(rest));
            assert(ev_key(moved) == ev_key(l[0]));
            assert(keys(dtq_insert(l, ev)) =~= keys(l).insert(0, ev_key(ev)));
        }
    }
}

/// The calendar queue: a monotone tick counter plus the resident list of
/// near-term events in relative-delta form.
pub struct EventQueue {
    pub counter: u64,
    pub list: Vec<Event>,
}

impl EventQueue {
    /// An empty queue at tick zero.
    pub fn new() -> (r: EventQueue)
        ensures
            r.counter == 0,
            r.list@ == Seq::<Event>::empty(),
    {
        EventQueue { counter: 0, list: Vec::new() }
    }

    /// Inserts an event with delay `delta` (relative to the current counter)
    /// into its proper position of the list, preserving the relative-delta
    /// representation and first-in-first-out order among entries that fire at
    /// the same tick.  The resulting list is exactly `dtq_insert` of the old
    /// one.
    pub fn insert(&mut self, object_index: u64, owner: &Identifier, delta: u64, modifier_index: u64)
        ensures
            final(self).counter == old(self).counter,
            final(self).list@ == dtq_insert(
                old(self).list@,
                Event { owner: *owner, object_index, modifier_index, delta },
            ),
    {
        let ev0 = Event { owner: *owner, object_index, modifier_index, delta };
        let ghost l0 = self.list@;
        let n = self.list.len();
        let mut rem: u64 = delta;
        let mut i: usize = 0;
        proof {
            assert(l0.skip(0) =~= l0);
            assert(Event { delta: delta, ..ev0 } == ev0);
            assert(l0.take(0) + dtq_insert(l0, ev0) =~= dtq_insert(l0, ev0));
        }
        while i < n && self.list[i].delta <= rem
            invariant
                n == self.list@.len(),
                self.list@ == l0,
                0 <= i <= n,
                rem <= delta,
                ev0 == (Event { owner: *owner, object_index, modifier_index, delta }),
                dtq_insert(l0, ev0) == l0.take(i as int) + dtq_insert(
                    l0.skip(i as int),
                    Event { delta: rem, ..ev0 },
                ),
            decreases n - i,
        {
            proof {
                let evr = Event { delta: rem, ..ev0 };
                let tail = l0.skip(i as int);
                assert(tail.len() > 0 && tail[0] == l0[i as int]);
                assert(dtq_insert(tail, evr) == seq![tail[0]] + dtq_insert(
                    tail.drop_first(),
                    Event { delta: (rem - l0[i as int].delta) as u64, ..ev0 },
                ));
                assert(tail.drop_first() =~= l0.skip(i + 1));
                assert(l0.take(i as int) + seq![tail[0]] =~= l0.take(i + 1));
                assert(l0.take(i as int) + (seq![tail[0]] + dtq_insert(
                    tail.drop_first(),
                    Event { delta: (rem - l0[i as int].delta) as u64, ..ev0 },
                )) =~= l0.take(i + 1) + dtq_insert(
                    l0.skip(i + 1),
                    Event { delta: (rem - l0[i as int].delta) as u64, ..ev0 },
                ));
            }
            rem = rem - self.list[i].delta;
            i += 1;
        }
        let evr = Event { owner: *owner, object_index, modifier_index, delta: rem };
        proof {
            assert(evr == (Event { delta: rem, ..ev0 }));
        }
        if i < n {
            let e = self.list[i];
            proof {
                let tail = l0.skip(i as int);
                assert(tail.len() > 0 && tail[0] == l0[i as int]);
                assert(e.delta > rem);
                assert(dtq_insert(tail, evr) == seq![evr] + seq![
                    Event { delta: (e.delta - rem) as u64, ..e },
                ] + tail.drop_first());
                assert(tail.drop_first() =~= l0.skip(i + 1));
            }
            self.list[i] = Event { delta: e.delta - rem, ..e };
            self.list.insert(i, evr);
            proof {
                assert(self.list@ =~= l0.take(i as int) + dtq_insert(
                    l0.skip(i as int),
                    Event { delta: rem, ..ev0 },
                ));
            }
        } else {
            proof {
                assert(l0.skip(i as int).len() == 0);
                assert(dtq_insert(l0.skip(i as int), evr) == seq![evr]);
            }
            self.list.push(evr);
            proof {
                assert(self.list@ =~= l0.take(i as int) + dtq_insert(
                    l0.skip(i as int),
                    Event { delta: rem, ..ev0 },
                ));
            }
        }
    }
}

/// The second and fourth words of every tick-bucket key.
pub const EVENTS_LEAF_INDEX: u64 = 0xfffffffe;

/// Where the bucket of events due at absolute tick `tick` lives in the
/// store.  The first word is the unmasked tick itself, so every tick in the
/// whole 64-bit counter range has its own bucket; the leaf constant keeps
/// buckets apart from object records, player records and the counter slot.
pub open spec fn spec_bucket_key(tick: u64) -> Identifier {
    Identifier { w0: tick, w1: EVENTS_LEAF_INDEX, w2: 0, w3: EVENTS_LEAF_INDEX }
}

/// Computes the store key of a tick bucket.
pub fn bucket_key(tick: u64) -> (r: Identifier)
    ensures
        r == spec_bucket_key(tick),
{
    Identifier { w0: tick, w1: EVENTS_LEAF_INDEX, w2: 0, w3: EVENTS_LEAF_INDEX }
}

/// The fixed slot that persists the queue counter between batches.
pub open spec fn spec_counter_key() -> Identifier {
    Identifier { w0: 0, w1: 0, w2: 0, w3: 0 }
}

/// Computes the store key of the counter slot.
pub fn counter_key() -> (r: Identifier)
    ensures
        r == spec_counter_key(),
{
    Identifier { w0: 0, w1: 0, w2: 0, w3: 0 }
}

/// The serialized form of a whole event list: the five-word records
/// back to back, in list order.
pub open spec fn words_of(evs: Seq<Event>) -> Seq<u64>
    decreases evs.len(),
{
    if evs.len() == 0 {
        Seq::empty()
    } else {
        evs[0].encoded() + words_of(evs.drop_first())
    }
}

/// The events a bucket's words decode to, in stored order.
pub open spec fn events_of(ws: Seq<u64>) -> Seq<Event>
    decreases ws.len(),
{
    if ws.len() < 5 {
        Seq::empty()
    } else {
        seq![decoded(ws.take(5))] + events_of(ws.skip(5))
    }
}

/// The sum of the relative delays of a list.
pub open spec fn sum_deltas(l: Seq<Event>) -> int
    decreases l.len(),
{
    if l.len() == 0 {
        0
    } else {
        l[0].delta + sum_deltas(l.drop_first())
    }
}

/// Delta sums are never negative.
pub proof fn lemma_sum_deltas_nonneg(l: Seq<Event>)
    ensures
        sum_deltas(l) >= 0,
    decreases l.len(),
{
    if l.len() > 0 {
        lemma_sum_deltas_nonneg(l.drop_first());
    }
}

/// The store after spilling the list `l` into per-tick buckets, entry by
/// entry: each entry's five words are appended to the bucket of its absolute
/// fire time (`t` plus the deltas so far), so entries sharing a fire time end
/// up in the same bucket, in list order, after whatever the bucket already
/// held.
pub open spec fn flush_spec(s: Map<Identifier, Seq<u64>>, t: int, l: Seq<Event>) -> Map<
    Identifier,
    Seq<u64>,
>
    decreases l.len(),
{
    if l.len() == 0 {
        s
    } else {
        let t1 = t + l[0].delta;
        let k = spec_bucket_key(t1 as u64);
        flush_spec(s.insert(k, s[k] + l[0].encoded()), t1, l.drop_first())
    }
}

impl EventQueue {
    /// Whether every entry of the list fits the codec's bit widths.
    pub open spec fn list_valid(self) -> bool {
        forall|i: int| 0 <= i < self.list@.len() ==> (#[trigger] self.list@[i]).valid()
    }

    /// Spills the whole in-memory list into per-absolute-tick buckets of the
    /// store (appending to whatever earlier installs already parked there)
    /// and persists the counter; only the counter survives in memory.  The
    /// store afterwards is exactly `flush_spec` plus the counter slot.
    pub fn store(&mut self, store: &mut KvStore)
        requires
            old(self).list_valid(),
            old(self).counter + sum_deltas(old(self).list@) <= u64::MAX,
        ensures
            final(self).counter == old(self).counter,
            final(self).list@ == Seq::<Event>::empty(),
            final(store)@ == flush_spec(
                old(store)@,
                old(self).counter as int,
                old(self).list@,
            ).insert(spec_counter_key(), seq![old(self).counter]),
    {
        let ghost l0 = self.list@;
        let ghost s0 = store@;
        let ghost c0 = self.counter;
        let n = self.list.len();
        let mut t: u64 = self.counter;
        let mut i: usize = 0;
        proof {
            assert(l0.skip(0) =~= l0);
        }
        while i < n
            invariant
                n == self.list@.len(),
                self.list@ == l0,
                self.counter == c0,
                0 <= i <= n,
                self.list_valid(),
                t + sum_deltas(l0.skip(i as int)) <= u64::MAX,
                flush_spec(s0, c0 as int, l0) == flush_spec(store@, t as int, l0.skip(i as int)),
            decreases n - i,
        {
            let e = self.list[i];
            let ghost tail = l0.skip(i as int);
            proof {
                lemma_sum_deltas_nonneg(l0.skip(i + 1));
                assert(tail[0] == l0[i as int]);
                assert(tail.drop_first() =~= l0.skip(i + 1));
                assert(sum_deltas(tail) == e.delta + sum_deltas(l0.skip(i + 1)));
            }
            t = t + e.delta;
            let k = bucket_key(t);
            let mut bucket = store.get(k);
            e.compact(&mut bucket);
            let ghost s_pre = store@;
            store.set(k, bucket);
            proof {
                assert(bucket@ == s_pre[k] + e.encoded());
                assert(flush_spec(s_pre, (t - e.delta) as int, tail) == flush_spec(
                    s_pre.insert(k, s_pre[k] + e.encoded()),
                    t as int,
                    tail.drop_first(),
                ));
                assert(store@ == s_pre.insert(k, s_pre[k] + e.encoded()));
            }
            i += 1;
        }
        proof {
            assert(l0.skip(n as int) =~= Seq::<Event>::empty());
            assert(flush_spec(store@, t as int, Seq::<Event>::empty()) == store@);
        }
        self.list = Vec::new();
        let mut cbuf: Vec<u64> = Vec::new();
        cbuf.push(self.counter);
        let ck = counter_key();
        store.set(ck, cbuf);
        proof {
            assert(cbuf@ =~= seq![c0]);
        }
    }

    /// Restores the counter from its fixed slot at batch start; the resident
    /// list is left alone (a fresh batch starts with an empty one), and
    /// pending buckets stay parked until their tick comes.  An absent slot
    /// means a fresh ledger and leaves the counter as it was; a slot holding
    /// more than the one counter word is a store inconsistency.
    pub fn fetch(&mut self, store: &KvStore) -> (r: Result<(), u32>)
        ensures
            final(self).list@ == old(self).list@,
            ({
                let cw = store@[spec_counter_key()];
                if cw.len() == 0 {
                    r == Ok::<(), u32>(()) && final(self).counter == old(self).counter
                } else if cw.len() == 1 {
                    r == Ok::<(), u32>(()) && final(self).counter == cw[0]
                } else {
                    r == Err::<(), u32>(ERROR_MALFORMED_COUNTER) && final(self).counter == old(
                        self,
                    ).counter
                }
            }),
    {
        let ck = counter_key();
        let cw = store.get(ck);
        if cw.len() == 0 {
            Ok(())
        } else if cw.len() == 1 {
            self.counter = cw[0];
            Ok(())
        } else {
            Err(ERROR_MALFORMED_COUNTER)
        }
    }
}

/// How many entries at the head of the list are due immediately (relative
/// delay zero).  Each drain step of a tick fires one of them, and a
/// continuation is always scheduled at least one tick ahead, so this count
/// is the measure that bounds the drain.
pub open spec fn lzc(l: Seq<Event>) -> nat
    decreases l.len(),
{
    if l.len() == 0 {
        0
    } else if l[0].delta != 0 {
        0
    } else {
        1 + lzc(l.drop_first())
    }
}

/// Inserting an event that is at least one tick away never adds an
/// immediately-due entry at the head.
pub proof fn lemma_insert_lzc(l: Seq<Event>, ev: Event)
    requires
        ev.delta >= 1,
    ensures
        lzc(dtq_insert(l, ev)) <= lzc(l),
    decreases l.len(),
{
    if l.len() == 0 {
        assert(dtq_insert(l, ev) == seq![ev]);
        assert(lzc(seq![ev]) == 0);
    } else if l[0].delta <= ev.delta {
        let ev1 = Event { delta: (ev.delta - l[0].delta) as u64, ..ev };
        let rest = l.drop_first();
        let li = dtq_insert(l, ev);
        assert(li == seq![l[0]] + dtq_insert(rest, ev1));
        assert(li[0] == l[0]);
        if l[0].delta != 0 {
            assert(lzc(li) == 0);
        } else {
            lemma_insert_lzc(rest, ev1);
            assert(li.drop_first() =~= dtq_insert(rest, ev1));
            assert(lzc(li) == 1 + lzc(dtq_insert(rest, ev1)));
            assert(lzc(l) == 1 + lzc(rest));
        }
    } else {
        let li = dtq_insert(l, ev);
        assert(li[0] == ev);
        assert(lzc(li) == 0);
    }
}

/// Delta bookkeeping during insertion only shrinks deltas, so inserting a
/// codec-valid event into a codec-valid list keeps every entry codec-valid.
pub proof fn lemma_insert_valid(l: Seq<Event>, ev: Event)
    requires
        ev.valid(),
        forall|i: int| 0 <= i < l.len() ==> (#[trigger] l[i]).valid(),
    ensures
        forall|i: int|
            0 <= i < dtq_insert(l, ev).len() ==> (#[trigger] dtq_insert(l, ev)[i]).valid(),
    decreases l.len(),
{
    if l.len() == 0 {
        assert(dtq_insert(l, ev) == seq![ev]);
    } else if l[0].delta <= ev.delta {
        let ev1 = Event { delta: (ev.delta - l[0].delta) as u64, ..ev };
        let rest = l.drop_first();
        assert(forall|i: int| 0 <= i < rest.len() ==> (#[trigger] rest[i]).valid());
        lemma_insert_valid(rest, ev1);
        let li = dtq_insert(l, ev);
        assert(li == seq![l[0]] + dtq_insert(rest, ev1));
        assert forall|i: int| 0 <= i < li.len() implies (#[trigger] li[i]).valid() by {
            if i == 0 {
                assert(li[0] == l[0]);
            } else {
                assert(li[i] == dtq_insert(rest, ev1)[i - 1]);
            }
        }
    } else {
        let moved = Event { delta: (l[0].delta - ev.delta) as u64, ..l[0] };
        let li = dtq_insert(l, ev);
        assert(li == seq![ev] + seq![moved] + l.drop_first());
        assert forall|i: int| 0 <= i < li.len() implies (#[trigger] li[i]).valid() by {
            if i == 0 {
                assert(li[0] == ev);
            } else if i == 1 {
                assert(li[1] == moved);
                assert(l[0].valid());
            } else {
                assert(li[i] == l.drop_first()[i - 2]);
                assert(l.drop_first()[i - 2] == l[i - 1]);
            }
        }
    }
}

/// Whatever the packed word holds, decoding yields in-range fields: the
/// shifts and masks cannot produce anything wider than the declared widths.
pub proof fn lemma_decoded_valid(s: Seq<u64>)
    ensures
        decoded(s).valid(),
{
    let w = s[4];
    assert((w >> 48) < 0x10000 && ((w >> 32) & 0xffff) < 0x10000 && (w & 0xffff_ffff)
        < 0x1_0000_0000) by (bit_vector);
}

/// Decoding a bucket with one more five-word record at its end decodes the
/// prefix as before and appends the one decoded event.
pub proof fn lemma_events_of_snoc(ws: Seq<u64>, w5: Seq<u64>)
    requires
        ws.len() % 5 == 0,
        w5.len() == 5,
    ensures
        events_of(ws + w5) == events_of(ws).push(decoded(w5)),
    decreases ws.len(),
{
    if ws.len() == 0 {
        assert(ws + w5 =~= w5);
        assert((w5).skip(5) =~= Seq::<u64>::empty());
        assert(events_of(w5.skip(5)) == Seq::<Event>::empty());
        assert(w5.take(5) =~= w5);
        assert(events_of(ws + w5) =~= events_of(ws).push(decoded(w5)));
    } else {
        let rest = ws.skip(5);
        lemma_events_of_snoc(rest, w5);
        assert((ws + w5).take(5) =~= ws.take(5));
        assert((ws + w5).skip(5) =~= rest + w5);
        assert(events_of(ws + w5) == seq![decoded(ws.take(5))] + events_of(rest + w5));
        assert(events_of(ws) == seq![decoded(ws.take(5))] + events_of(rest));
        assert(events_of(ws + w5) =~= events_of(ws).push(decoded(w5)));
    }
}

/// Decodes a whole bucket: one event per five stored words, in order.
/// Every decoded event is codec-valid by construction.
pub fn decode_events(words: &Vec<u64>) -> (r: Vec<Event>)
    requires
        words@.len() % 5 == 0,
    ensures
        r@ == events_of(words@),
        forall|i: int| 0 <= i < r@.len() ==> (#[trigger] r@[i]).valid(),
    decreases words@.len(),
{
    let n = words.len();
    let mut r: Vec<Event> = Vec::new();
    let mut i: usize = 0;
    proof {
        assert(words@.take(0) =~= Seq::<u64>::empty());
        assert(events_of(words@.take(0)) == Seq::<Event>::empty());
    }
    while i < n
        invariant
            n == words@.len(),
            n % 5 == 0,
            i % 5 == 0,
            0 <= i <= n,
            r@ == events_of(words@.take(i as int)),
            forall|j: int| 0 <= j < r@.len() ==> (#[trigger] r@[j]).valid(),
        decreases n - i,
    {
        proof {
            assert((n - i) % 5 == 0);
            assert(i + 5 <= n);
        }
        let f = words[i + 4];
        let e = Event {
            owner: Identifier { w0: words[i], w1: words[i + 1], w2: words[i + 2], w3: words[i + 3] },
            object_index: f >> 48,
            modifier_index: (f >> 32) & 0xffff,
            delta: f & 0xffff_ffff,
        };
        proof {
            let w5 = words@.subrange(i as int, i + 5);
            assert(e == decoded(w5));
            lemma_decoded_valid(w5);
            lemma_events_of_snoc(words@.take(i as int), w5);
            assert(words@.take(i as int) + w5 =~= words@.take(i + 5));
        }
        r.push(e);
        i += 5;
    }
    proof {
        assert(words@.take(n as int) =~= words@);
    }
    r
}

impl EventQueue {
    /// Advances the queue by exactly one tick of the current batch: fire the
    /// events an earlier batch parked in the bucket of the current counter,
    /// then drain the head of the resident list while it is due now,
    /// scheduling every continuation the state machine yields, and finally
    /// step the counter.  Events parked in the bucket fire before resident
    /// ones, and ties fire in first-in-first-out order.
    ///
    /// Any structural violation (a bucket that is not whole events, a
    /// missing or malformed object record, an out-of-range chain position or
    /// table id, or a continuation delay outside `1..2^32`) stops the tick
    /// with the counter unchanged; the transaction is then failed by the
    /// caller.  A tick with nothing due — an empty bucket and no
    /// immediately-due head — succeeds and changes nothing but the counter
    /// and the head's delay.
    pub fn tick(&mut self, store: &mut KvStore, modifiers: &Vec<Modifier>) -> (r: Result<
        (),
        u32,
    >)
        requires
            old(self).counter < u64::MAX,
        ensures
            r matches Ok(_) ==> final(self).counter == old(self).counter + 1,
            r matches Err(c) ==> final(self).counter == old(self).counter && c != 0,
            old(self).list_valid() ==> final(self).list_valid(),
            r == tick_spec(old(store)@, modifiers@, old(self).counter, old(self).list@).0,
            final(store)@ == tick_spec(
                old(store)@,
                modifiers@,
                old(self).counter,
                old(self).list@,
            ).1,
            final(self).list@ == tick_spec(
                old(store)@,
                modifiers@,
                old(self).counter,
                old(self).list@,
            ).2,
            ({
                let bevs = events_of(old(store)@[spec_bucket_key(old(self).counter)]);
                (r matches Ok(_) && unique_keys(old(self).list@) && unique_keys(bevs) && (forall|
                    p: int,
                |
                    0 <= p < bevs.len() ==> !has_key(old(self).list@, ev_key(#[trigger] bevs[p]))))
                    ==> unique_keys(final(self).list@)
            }),
            ({
                let bw = old(store)@[spec_bucket_key(old(self).counter)];
                (bw.len() == 0 && (old(self).list@.len() == 0 || old(self).list@[0].delta > 0))
                    ==> {
                    &&& r == Ok::<(), u32>(())
                    &&& final(store)@ == old(store)@
                    &&& final(self).list@ == (if old(self).list@.len() == 0 {
                        old(self).list@
                    } else {
                        old(self).list@.update(
                            0,
                            Event {
                                delta: (old(self).list@[0].delta - 1) as u64,
                                ..old(self).list@[0]
                            },
                        )
                    })
                }
            }),
    {
        let ghost quiescent = old(store)@[spec_bucket_key(old(self).counter)].len() == 0 && (old(
            self,
        ).list@.len() == 0 || old(self).list@[0].delta > 0);
        let ghost bevs = events_of(old(store)@[spec_bucket_key(old(self).counter)]);
        let ghost pending_distinct = unique_keys(old(self).list@) && unique_keys(bevs) && (forall|p: int|
            0 <= p < bevs.len() ==> !has_key(old(self).list@, ev_key(#[trigger] bevs[p])));
        let ghost full = tick_spec(old(store)@, modifiers@, old(self).counter, old(self).list@);
        let bk = bucket_key(self.counter);
        let bucket_words = store.get(bk);
        if bucket_words.len() % 5 != 0 {
            proof {
                assert(full == (Err::<(), u32>(ERROR_MALFORMED_BUCKET), old(store)@, old(self).list@));
            }
            return Err(ERROR_MALFORMED_BUCKET);
        }
        let evs = decode_events(&bucket_words);
        proof {
            if quiescent {
                assert(bucket_words@.len() == 0);
                assert(evs@.len() == 0);
            }
            assert(evs@.skip(0) =~= evs@);
        }
        let nb = evs.len();
        let mut j: usize = 0;
        while j < nb
            invariant
                nb == evs@.len(),
                0 <= j <= nb,
                forall|p: int| 0 <= p < nb ==> (#[trigger] evs@[p]).valid(),
                self.counter == old(self).counter,
                old(self).counter < u64::MAX,
                old(self).list_valid() ==> self.list_valid(),
                quiescent == (old(store)@[spec_bucket_key(old(self).counter)].len() == 0 && (old(
                    self,
                ).list@.len() == 0 || old(self).list@[0].delta > 0)),
                quiescent ==> store@ == old(store)@ && self.list@ == old(self).list@ && nb == 0,
                bevs == events_of(old(store)@[spec_bucket_key(old(self).counter)]),
                evs@ == bevs,
                pending_distinct == (unique_keys(old(self).list@) && unique_keys(bevs) && (forall|p: int|
                    0 <= p < bevs.len() ==> !has_key(
                        old(self).list@,
                        ev_key(#[trigger] bevs[p]),
                    ))),
                pending_distinct ==> unique_keys(self.list@) && (forall|p: int|
                    j <= p < nb ==> !has_key(self.list@, ev_key(#[trigger] evs@[p]))),
                full == tick_spec(old(store)@, modifiers@, old(self).counter, old(self).list@),
                full == ({
                    let b = bucket_fold(store@, modifiers@, self.list@, evs@.skip(j as int));
                    match b.0 {
                        Err(c) => b,
                        Ok(u) => drain_spec(b.1, modifiers@, b.2, lzc(b.2)),
                    }
                }),
            decreases nb - j,
        {
            let e = evs[j];
            let ghost s_pre = store@;
            let ghost l_pre = self.list@;
            let m = crate::object::apply_object_modifier(
                store,
                modifiers,
                &e.owner,
                e.object_index,
                e.modifier_index,
            );
            proof {
                let tail = evs@.skip(j as int);
                assert(tail[0] == evs@[j as int]);
                assert(tail.drop_first() =~= evs@.skip(j + 1));
            }
            match m {
                Err(c) => {
                    proof {
                        assert(fire_step(s_pre, modifiers@, l_pre, e) == (
                            Err::<(), u32>(c),
                            store@,
                            l_pre,
                        ));
                        assert(full == (Err::<(), u32>(c), store@, self.list@));
                    }
                    return Err(c);
                },
                Ok(Some((delay, next))) => {
                    if delay < 1 || delay >= 0x1_0000_0000 {
                        proof {
                            assert(fire_step(s_pre, modifiers@, l_pre, e) == (
                                Err::<(), u32>(ERROR_BAD_MODIFIER),
                                store@,
                                l_pre,
                            ));
                            assert(full == (
                                Err::<(), u32>(ERROR_BAD_MODIFIER),
                                store@,
                                self.list@,
                            ));
                        }
                        return Err(ERROR_BAD_MODIFIER);
                    }
                    proof {
                        crate::object::lemma_fire_next_bound(
                            s_pre,
                            modifiers@,
                            e.owner,
                            e.object_index,
                            e.modifier_index,
                        );
                        assert(next < 0x10000);
                    }
                    let ghost lpre = self.list@;
                    self.insert(e.object_index, &e.owner, delay, next);
                    proof {
                        let ev = Event {
                            owner: e.owner,
                            object_index: e.object_index,
                            modifier_index: next,
                            delta: delay,
                        };
                        if old(self).list_valid() {
                            lemma_insert_valid(lpre, ev);
                        }
                        if pending_distinct {
                            assert(ev_key(ev) == ev_key(evs@[j as int]));
                            lemma_insert_unique(lpre, ev);
                            assert forall|p: int|
                                j + 1 <= p < nb implies !has_key(
                                    self.list@,
                                    ev_key(#[trigger] evs@[p]),
                                ) by {
                                assert(ev_key(evs@[p]) != ev_key(evs@[j as int]));
                            }
                        }
                        assert(fire_step(s_pre, modifiers@, l_pre, e) == (
                            Ok::<(), u32>(()),
                            store@,
                            self.list@,
                        ));
                    }
                },
                Ok(None) => {
                    proof {
                        assert(fire_step(s_pre, modifiers@, l_pre, e) == (
                            Ok::<(), u32>(()),
                            store@,
                            self.list@,
                        ));
                    }
                },
            }
            j += 1;
        }
        proof {
            assert(evs@.skip(nb as int) =~= Seq::<Event>::empty());
            assert(bucket_fold(store@, modifiers@, self.list@, evs@.skip(nb as int)) == (
                Ok::<(), u32>(()),
                store@,
                self.list@,
            ));
            assert(full == drain_spec(store@, modifiers@, self.list@, lzc(self.list@)));
        }
        while self.list.len() > 0
            invariant_except_break
                self.counter == old(self).counter,
                old(self).counter < u64::MAX,
                old(self).list_valid() ==> self.list_valid(),
                pending_distinct ==> unique_keys(self.list@),
                full == tick_spec(old(store)@, modifiers@, old(self).counter, old(self).list@),
                full == drain_spec(store@, modifiers@, self.list@, lzc(self.list@)),
                quiescent ==> store@ == old(store)@ && self.list@ == old(self).list@,
                quiescent == (old(store)@[spec_bucket_key(old(self).counter)].len() == 0 && (old(
                    self,
                ).list@.len() == 0 || old(self).list@[0].delta > 0)),
            ensures
                self.counter == old(self).counter,
                old(self).list_valid() ==> self.list_valid(),
                pending_distinct ==> unique_keys(self.list@),
                full == tick_spec(old(store)@, modifiers@, old(self).counter, old(self).list@),
                full.0 == Ok::<(), u32>(()) && full.1 == store@ && full.2 == self.list@,
                quiescent ==> store@ == old(store)@ && self.list@ == (if old(
                    self,
                ).list@.len() == 0 {
                    old(self).list@
                } else {
                    old(self).list@.update(
                        0,
                        Event {
                            delta: (old(self).list@[0].delta - 1) as u64,
                            ..old(self).list@[0]
                        },
                    )
                }),
            decreases lzc(self.list@),
        {
            let head = self.list[0];
            if head.delta == 0 {
                proof {
                    assert(!quiescent);
                    assert(lzc(self.list@) == 1 + lzc(self.list@.drop_first()));
                }
                let ghost s_pre = store@;
                let ghost l_before = self.list@;
                let m = crate::object::apply_object_modifier(
                    store,
                    modifiers,
                    &head.owner,
                    head.object_index,
                    head.modifier_index,
                );
                self.list.remove(0);
                proof {
                    assert(self.list@ =~= l_before.drop_first());
                    if old(self).list_valid() {
                        assert forall|p: int|
                            0 <= p < self.list@.len() implies (#[trigger] self.list@[p]).valid()
                        by {
                            assert(self.list@[p] == l_before[p + 1]);
                        }
                    }
                    if pending_distinct {
                        assert forall|a: int, b: int|
                            0 <= a < b < self.list@.len() implies ev_key(
                                #[trigger] self.list@[a],
                            ) != ev_key(#[trigger] self.list@[b]) by {
                            assert(self.list@[a] == l_before[a + 1]);
                            assert(self.list@[b] == l_before[b + 1]);
                        }
                        assert(!has_key(self.list@, ev_key(head))) by {
                            if has_key(self.list@, ev_key(head)) {
                                let p = choose|p: int|
                                    0 <= p < self.list@.len() && ev_key(
                                        #[trigger] self.list@[p],
                                    ) == ev_key(head);
                                assert(self.list@[p] == l_before[p + 1]);
                                assert(l_before[0] == head);
                                assert(ev_key(l_before[p + 1]) != ev_key(l_before[0]));
                            }
                        }
                    }
                }
                match m {
                    Err(c) => {
                        proof {
                            assert(drain_step(s_pre, modifiers@, l_before) == (
                                Err::<(), u32>(c),
                                store@,
                                self.list@,
                            ));
                            assert(full == (Err::<(), u32>(c), store@, self.list@));
                        }
                        return Err(c);
                    },
                    Ok(Some((delay, next))) => {
                        if delay < 1 || delay >= 0x1_0000_0000 {
                            proof {
                                assert(drain_step(s_pre, modifiers@, l_before) == (
                                    Err::<(), u32>(ERROR_BAD_MODIFIER),
                                    store@,
                                    self.list@,
                                ));
                                assert(full == (
                                    Err::<(), u32>(ERROR_BAD_MODIFIER),
                                    store@,
                                    self.list@,
                                ));
                            }
                            return Err(ERROR_BAD_MODIFIER);
                        }
                        proof {
                            crate::object::lemma_fire_next_bound(
                                s_pre,
                                modifiers@,
                                head.owner,
                                head.object_index,
                                head.modifier_index,
                            );
                            assert(next < 0x10000);
                        }
                        let ghost lpre = self.list@;
                        self.insert(head.object_index, &head.owner, delay, next);
                        proof {
                            let ev = Event {
                                owner: head.owner,
                                object_index: head.object_index,
                                modifier_index: next,
                                delta: delay,
                            };
                            lemma_insert_lzc(lpre, ev);
                            if old(self).list_valid() {
                                lemma_insert_valid(lpre, ev);
                            }
                            if pending_distinct {
                                assert(ev_key(ev) == ev_key(head));
                                lemma_insert_unique(lpre, ev);
                            }
                            assert(drain_step(s_pre, modifiers@, l_before) == (
                                Ok::<(), u32>(()),
                                store@,
                                self.list@,
                            ));
                            lemma_drain_step_lzc(s_pre, modifiers@, l_before);
                            lemma_drain_fuel(
                                store@,
                                modifiers@,
                                self.list@,
                                (lzc(l_before) - 1) as nat,
                                lzc(self.list@),
                            );
                        }
                    },
                    Ok(None) => {
                        proof {
                            assert(drain_step(s_pre, modifiers@, l_before) == (
                                Ok::<(), u32>(()),
                                store@,
                                self.list@,
                            ));
                            lemma_drain_step_lzc(s_pre, modifiers@, l_before);
                            lemma_drain_fuel(
                                store@,
                                modifiers@,
                                self.list@,
                                (lzc(l_before) - 1) as nat,
                                lzc(self.list@),
                            );
                        }
                    },
                }
            } else {
                let ghost lpre = self.list@;
                self.list[0] = Event { delta: head.delta - 1, ..head };
                proof {
                    if old(self).list_valid() {
                        assert forall|p: int|
                            0 <= p < self.list@.len() implies (#[trigger] self.list@[p]).valid()
                        by {
                            if p != 0 {
                                assert(self.list@[p] == lpre[p]);
                            }
                        }
                    }
                    if pending_distinct {
                        assert forall|a: int, b: int|
                            0 <= a < b < self.list@.len() implies ev_key(
                                #[trigger] self.list@[a],
                            ) != ev_key(#[trigger] self.list@[b]) by {
                            assert(ev_key(self.list@[0]) == ev_key(lpre[0]));
                            if a != 0 {
                                assert(self.list@[a] == lpre[a]);
                            }
                            assert(self.list@[b] == lpre[b]);
                        }
                    }
                    assert(drain_spec(store@, modifiers@, lpre, lzc(lpre)) == (
                        Ok::<(), u32>(()),
                        store@,
                        self.list@,
                    ));
                }
                break;
            }
        }
        self.counter = self.counter + 1;
        Ok(())
    }
}

/// Parking and reloading round-trips: after `store()` ran at counter `c`,
/// `fetch()` reads back exactly `c`, and a second `store()` of the now-empty
/// queue rewrites the store without changing a single bucket, so the
/// per-tick firing schedule survives the trip even though every entry moved
/// from memory into buckets.
pub proof fn lemma_store_fetch_store(s: Map<Identifier, Seq<u64>>, c: u64, l: Seq<Event>)
    ensures
        ({
            let s1 = flush_spec(s, c as int, l).insert(spec_counter_key(), seq![c]);
            &&& s1[spec_counter_key()] == seq![c]
            &&& flush_spec(s1, c as int, Seq::<Event>::empty()).insert(spec_counter_key(), seq![c])
                == s1
        }),
{
    let s1 = flush_spec(s, c as int, l).insert(spec_counter_key(), seq![c]);
    assert(flush_spec(s1, c as int, Seq::<Event>::empty()) == s1);
    assert(s1.insert(spec_counter_key(), seq![c]) =~= s1);
}

/// Whether no two entries of `l` are pending for the same
/// `(owner, object index)` pair.
pub open spec fn unique_keys(l: Seq<Event>) -> bool {
    forall|i: int, j: int|
        0 <= i < j < l.len() ==> ev_key(#[trigger] l[i]) != ev_key(#[trigger] l[j])
}

/// Whether some entry of `l` is pending for the pair `k`.
pub open spec fn has_key(l: Seq<Event>, k: (Identifier, u64)) -> bool {
    exists|i: int| 0 <= i < l.len() && ev_key(#[trigger] l[i]) == k
}

/// Inserting an event for a pair with no pending entry keeps the pending
/// pairs unique, and afterwards exactly the old pairs plus the new one are
/// pending.
pub proof fn lemma_insert_unique(l: Seq<Event>, ev: Event)
    requires
        unique_keys(l),
        !has_key(l, ev_key(ev)),
    ensures
        unique_keys(dtq_insert(l, ev)),
        forall|k: (Identifier, u64)|
            #[trigger] has_key(dtq_insert(l, ev), k) <==> (has_key(l, k) || k == ev_key(ev)),
    decreases l.len(),
{
    let li = dtq_insert(l, ev);
    if l.len() == 0 {
        assert(li == seq![ev]);
        assert(ev_key(li[0]) == ev_key(ev));
        assert forall|k: (Identifier, u64)|
            #[trigger] has_key(li, k) <==> (has_key(l, k) || k == ev_key(ev)) by {
            if k == ev_key(ev) {
                assert(ev_key(li[0]) == k);
            }
            if has_key(li, k) {
                let i = choose|i: int| 0 <= i < li.len() && ev_key(#[trigger] li[i]) == k;
                assert(i == 0);
            }
        }
    } else if l[0].delta <= ev.delta {
        let ev1 = Event { delta: (ev.delta - l[0].delta) as u64, ..ev };
        let rest = l.drop_first();
        let ri = dtq_insert(rest, ev1);
        assert forall|i: int, j: int|
            0 <= i < j < rest.len() implies ev_key(#[trigger] rest[i]) != ev_key(
            #[trigger] rest[j]) by {
            assert(rest[i] == l[i + 1] && rest[j] == l[j + 1]);
        }
        assert(!has_key(rest, ev_key(ev1))) by {
            if has_key(rest, ev_key(ev1)) {
                let i = choose|i: int| 0 <= i < rest.len() && ev_key(#[trigger] rest[i]) == ev_key(
                    ev1,
                );
                assert(ev_key(l[i + 1]) == ev_key(ev));
            }
        }
        lemma_insert_unique(rest, ev1);
        assert(li == seq![l[0]] + ri);
        assert(!has_key(rest, ev_key(l[0]))) by {
            if has_key(rest, ev_key(l[0])) {
                let i = choose|i: int| 0 <= i < rest.len() && ev_key(#[trigger] rest[i]) == ev_key(
                    l[0],
                );
                assert(ev_key(l[i + 1]) == ev_key(l[0]));
            }
        }
        assert(ev_key(l[0]) != ev_key(ev)) by {
            assert(ev_key(l[0]) == ev_key(l[0]));
        }
        assert forall|i: int, j: int|
            0 <= i < j < li.len() implies ev_key(#[trigger] li[i]) != ev_key(#[trigger] li[j]) by {
            if i == 0 {
                assert(li[0] == l[0]);
                assert(li[j] == ri[j - 1]);
                assert(has_key(ri, ev_key(ri[j - 1]))) by {
                    assert(ev_key(ri[j - 1]) == ev_key(ri[j - 1]));
                }
                assert(has_key(rest, ev_key(ri[j - 1])) || ev_key(ri[j - 1]) == ev_key(ev1));
            } else {
                assert(li[i] == ri[i - 1] && li[j] == ri[j - 1]);
            }
        }
        assert forall|k: (Identifier, u64)|
            #[trigger] has_key(li, k) <==> (has_key(l, k) || k == ev_key(ev)) by {
            if has_key(li, k) {
                let i = choose|i: int| 0 <= i < li.len() && ev_key(#[trigger] li[i]) == k;
                if i == 0 {
                    assert(ev_key(l[0]) == k);
                } else {
                    assert(ev_key(ri[i - 1]) == k);
                    assert(has_key(ri, k));
                    if has_key(rest, k) {
                        let p = choose|p: int|
                            0 <= p < rest.len() && ev_key(#[trigger] rest[p]) == k;
                        assert(ev_key(l[p + 1]) == k);
                    }
                }
            }
            if has_key(l, k) {
                let i = choose|i: int| 0 <= i < l.len() && ev_key(#[trigger] l[i]) == k;
                if i == 0 {
                    assert(ev_key(li[0]) == k);
                } else {
                    assert(ev_key(rest[i - 1]) == k);
                    assert(has_key(rest, k));
                    assert(has_key(ri, k));
                    let p = choose|p: int| 0 <= p < ri.len() && ev_key(#[trigger] ri[p]) == k;
                    assert(ev_key(li[p + 1]) == k);
                }
            }
            if k == ev_key(ev) {
                assert(has_key(ri, k));
                let p = choose|p: int| 0 <= p < ri.len() && ev_key(#[trigger] ri[p]) == k;
                assert(ev_key(li[p + 1]) == k);
            }
        }
    } else {
        let moved = Event { delta: (l[0].delta - ev.delta) as u64, ..l[0] };
        let rest = l.drop_first();
        assert(li == seq![ev] + seq![moved] + rest);
        assert(ev_key(moved) == ev_key(l[0]));
        assert forall|i: int, j: int|
            0 <= i < j < li.len() implies ev_key(#[trigger] li[i]) != ev_key(#[trigger] li[j]) by {
            assert(li[0] == ev);
            if j == 1 {
                assert(li[1] == moved);
                assert(ev_key(l[0]) == ev_key(l[0]));
            } else if j >= 2 {
                assert(li[j] == rest[j - 2]);
                assert(rest[j - 2] == l[j - 1]);
                if i == 0 {
                    assert(ev_key(l[j - 1]) == ev_key(l[j - 1]));
                } else if i == 1 {
                    assert(li[1] == moved);
                } else {
                    assert(li[i] == l[i - 1]);
                }
            }
        }
        assert forall|k: (Identifier, u64)|
            #[trigger] has_key(li, k) <==> (has_key(l, k) || k == ev_key(ev)) by {
            if has_key(li, k) {
                let i = choose|i: int| 0 <= i < li.len() && ev_key(#[trigger] li[i]) == k;
                if i == 0 {
                } else if i == 1 {
                    assert(ev_key(l[0]) == k);
                } else {
                    assert(ev_key(l[i - 1]) == k);
                }
            }
            if has_key(l, k) {
                let i = choose|i: int| 0 <= i < l.len() && ev_key(#[trigger] l[i]) == k;
                if i == 0 {
                    assert(ev_key(li[1]) == k);
                } else {
                    assert(ev_key(li[i + 1]) == k);
                }
            }
            if k == ev_key(ev) {
                assert(ev_key(li[0]) == k);
            }
        }
    }
}

/// The exact effect of firing one event against the store and scheduling
/// whatever continuation it yields: the status, the store afterwards, and
/// the resident list afterwards.  A continuation whose delay lies outside
/// `1..2^32` is a configuration fault; it stops the tick after the fire's
/// store write, with nothing scheduled.
pub open spec fn fire_step(
    s: Map<Identifier, Seq<u64>>,
    table: Seq<Modifier>,
    l: Seq<Event>,
    e: Event,
) -> (Result<(), u32>, Map<Identifier, Seq<u64>>, Seq<Event>) {
    let fo = fire_outcome(s, table, e.owner, e.object_index, e.modifier_index);
    match fo.0 {
        Err(c) => (Err(c), fo.1, l),
        Ok(None) => (Ok(()), fo.1, l),
        Ok(Some(cont)) => {
            if cont.0 < 1 || cont.0 >= 0x1_0000_0000 {
                (Err(ERROR_BAD_MODIFIER), fo.1, l)
            } else {
                (
                    Ok(()),
                    fo.1,
                    dtq_insert(
                        l,
                        Event {
                            owner: e.owner,
                            object_index: e.object_index,
                            modifier_index: cont.1,
                            delta: cont.0,
                        },
                    ),
                )
            }
        },
    }
}

/// Fires the events of one bucket in stored order, stopping at the first
/// structural violation with the store as the fires so far left it.
pub open spec fn bucket_fold(
    s: Map<Identifier, Seq<u64>>,
    table: Seq<Modifier>,
    l: Seq<Event>,
    evs: Seq<Event>,
) -> (Result<(), u32>, Map<Identifier, Seq<u64>>, Seq<Event>)
    decreases evs.len(),
{
    if evs.len() == 0 {
        (Ok(()), s, l)
    } else {
        let st = fire_step(s, table, l, evs[0]);
        match st.0 {
            Err(c) => st,
            Ok(u) => bucket_fold(st.1, table, st.2, evs.drop_first()),
        }
    }
}

/// One drain step: fire the immediately-due head, remove it, and schedule
/// its continuation.  On a violation the head is already removed and the
/// fire's store write already made, matching the engine's
/// handle-then-remove order.
pub open spec fn drain_step(
    s: Map<Identifier, Seq<u64>>,
    table: Seq<Modifier>,
    l: Seq<Event>,
) -> (Result<(), u32>, Map<Identifier, Seq<u64>>, Seq<Event>)
    recommends
        l.len() > 0,
        l[0].delta == 0,
{
    let e = l[0];
    let fo = fire_outcome(s, table, e.owner, e.object_index, e.modifier_index);
    let l1 = l.drop_first();
    match fo.0 {
        Err(c) => (Err(c), fo.1, l1),
        Ok(None) => (Ok(()), fo.1, l1),
        Ok(Some(cont)) => {
            if cont.0 < 1 || cont.0 >= 0x1_0000_0000 {
                (Err(ERROR_BAD_MODIFIER), fo.1, l1)
            } else {
                (
                    Ok(()),
                    fo.1,
                    dtq_insert(
                        l1,
                        Event {
                            owner: e.owner,
                            object_index: e.object_index,
                            modifier_index: cont.1,
                            delta: cont.0,
                        },
                    ),
                )
            }
        },
    }
}

/// Drains the head of the list while it is immediately due, then takes one
/// tick off the first not-yet-due head.  `fuel` only bounds the recursion;
/// any fuel of at least `lzc(l)` gives the same result, because every
/// continuation is scheduled at least one tick ahead.
pub open spec fn drain_spec(
    s: Map<Identifier, Seq<u64>>,
    table: Seq<Modifier>,
    l: Seq<Event>,
    fuel: nat,
) -> (Result<(), u32>, Map<Identifier, Seq<u64>>, Seq<Event>)
    decreases fuel,
{
    if l.len() == 0 {
        (Ok(()), s, l)
    } else if l[0].delta != 0 {
        (Ok(()), s, l.update(0, Event { delta: (l[0].delta - 1) as u64, ..l[0] }))
    } else if fuel == 0 {
        (Ok(()), s, l)
    } else {
        let st = drain_step(s, table, l);
        match st.0 {
            Err(c) => st,
            Ok(u) => drain_spec(st.1, table, st.2, (fuel - 1) as nat),
        }
    }
}

/// A drain step on an immediately-due head strictly shrinks the count of
/// immediately-due heads.
pub proof fn lemma_drain_step_lzc(s: Map<Identifier, Seq<u64>>, table: Seq<Modifier>, l: Seq<Event>)
    requires
        l.len() > 0,
        l[0].delta == 0,
    ensures
        lzc(drain_step(s, table, l).2) < lzc(l),
{
    let l1 = l.drop_first();
    assert(lzc(l) == 1 + lzc(l1));
    let e = l[0];
    let fo = fire_outcome(s, table, e.owner, e.object_index, e.modifier_index);
    match fo.0 {
        Err(c) => {},
        Ok(None) => {},
        Ok(cont_opt) => {
            if let Some(cont) = cont_opt {
                if 1 <= cont.0 < 0x1_0000_0000 {
                    lemma_insert_lzc(
                        l1,
                        Event {
                            owner: e.owner,
                            object_index: e.object_index,
                            modifier_index: cont.1,
                            delta: cont.0,
                        },
                    );
                }
            }
        },
    }
}

/// Any fuel of at least `lzc(l)` drains to the same result.
pub proof fn lemma_drain_fuel(
    s: Map<Identifier, Seq<u64>>,
    table: Seq<Modifier>,
    l: Seq<Event>,
    f1: nat,
    f2: nat,
)
    requires
        f1 >= lzc(l),
        f2 >= lzc(l),
    ensures
        drain_spec(s, table, l, f1) == drain_spec(s, table, l, f2),
    decreases f1,
{
    if l.len() == 0 {
    } else if l[0].delta != 0 {
    } else {
        assert(lzc(l) == 1 + lzc(l.drop_first()));
        let st = drain_step(s, table, l);
        match st.0 {
            Err(c) => {},
            Ok(u) => {
                lemma_drain_step_lzc(s, table, l);
                lemma_drain_fuel(st.1, table, st.2, (f1 - 1) as nat, (f2 - 1) as nat);
            },
        }
    }
}

/// The exact effect of one whole tick, short of the counter step: fire the
/// bucket of the current counter in stored order, then drain the
/// immediately-due heads of the resident list, then take one tick off the
/// first remaining head.
pub open spec fn tick_spec(
    s: Map<Identifier, Seq<u64>>,
    table: Seq<Modifier>,
    counter: u64,
    l: Seq<Event>,
) -> (Result<(), u32>, Map<Identifier, Seq<u64>>, Seq<Event>) {
    let bw = s[spec_bucket_key(counter)];
    if bw.len() % 5 != 0 {
        (Err(ERROR_MALFORMED_BUCKET), s, l)
    } else {
        let b = bucket_fold(s, table, l, events_of(bw));
        match b.0 {
            Err(c) => b,
            Ok(u) => drain_spec(b.1, table, b.2, lzc(b.2)),
        }
    }
}

/// The entries of `l` whose absolute fire time (`c` plus the deltas so far)
/// is exactly `t`, in list order.
pub open spec fn due_at(c: int, l: Seq<Event>, t: u64) -> Seq<Event>
    decreases l.len(),
{
    if l.len() == 0 {
        Seq::empty()
    } else {
        let t1 = c + l[0].delta;
        (if t1 == t {
            seq![l[0]]
        } else {
            Seq::empty()
        }) + due_at(t1, l.drop_first(), t)
    }
}

/// Spilling the list preserves the firing schedule bucket by bucket: after
/// `flush_spec`, the bucket of tick `t` decodes to whatever it already held
/// followed by exactly the entries of the list due at `t`, in list order.
/// In particular, entries sharing one fire time land in one bucket, and no
/// entry lands anywhere else.
pub proof fn lemma_flush_bucket(s: Map<Identifier, Seq<u64>>, c: int, l: Seq<Event>, t: u64)
    requires
        forall|i: int| 0 <= i < l.len() ==> (#[trigger] l[i]).valid(),
        0 <= c,
        c + sum_deltas(l) <= u64::MAX,
        s[spec_bucket_key(t)].len() % 5 == 0,
    ensures
        events_of(flush_spec(s, c, l)[spec_bucket_key(t)]) == events_of(s[spec_bucket_key(t)])
            + due_at(c, l, t),
    decreases l.len(),
{
    let bk = spec_bucket_key(t);
    if l.len() == 0 {
        assert(events_of(s[bk]) + due_at(c, l, t) =~= events_of(s[bk]));
    } else {
        let e = l[0];
        let rest = l.drop_first();
        let t1 = c + e.delta;
        let k1 = spec_bucket_key(t1 as u64);
        let s1 = s.insert(k1, s[k1] + e.encoded());
        assert(flush_spec(s, c, l) == flush_spec(s1, t1, rest));
        assert(sum_deltas(l) == e.delta + sum_deltas(rest));
        lemma_sum_deltas_nonneg(rest);
        assert forall|i: int| 0 <= i < rest.len() implies (#[trigger] rest[i]).valid() by {
            assert(rest[i] == l[i + 1]);
        }
        if t1 == t {
            assert(k1 == bk);
            assert(s1[bk] == s[bk] + e.encoded());
            assert(e.encoded().len() == 5);
            assert(s1[bk].len() % 5 == 0);
            lemma_flush_bucket(s1, t1, rest, t);
            lemma_events_of_snoc(s[bk], e.encoded());
            lemma_codec_round_trip(e);
            assert(decoded(e.encoded()) == e);
            assert(events_of(s1[bk]) == events_of(s[bk]).push(e));
            assert(due_at(c, l, t) == seq![e] + due_at(t1, rest, t));
            assert(events_of(s[bk]).push(e) + due_at(t1, rest, t) =~= events_of(s[bk]) + due_at(
                c,
                l,
                t,
            ));
        } else {
            assert((t1 as u64) != t);
            assert(k1 != bk);
            assert(s1[bk] == s[bk]);
            lemma_flush_bucket(s1, t1, rest, t);
            assert(due_at(c, l, t) =~= due_at(t1, rest, t));
        }
    }
}

/// What a unique-keyed list spills into one bucket is unique-keyed too, and
/// mentions no pair the list did not: together with `lemma_flush_bucket`,
/// no two entries, resident or bucketed, ever reference the same
/// `(owner, object index)` pair once the resident list is unique-keyed and
/// the touched buckets start empty.
pub proof fn lemma_due_at_unique(c: int, l: Seq<Event>, t: u64)
    requires
        unique_keys(l),
    ensures
        unique_keys(due_at(c, l, t)),
        forall|k: (Identifier, u64)| #[trigger] has_key(due_at(c, l, t), k) ==> has_key(l, k),
    decreases l.len(),
{
    let d = due_at(c, l, t);
    if l.len() == 0 {
    } else {
        let e = l[0];
        let rest = l.drop_first();
        let t1 = c + e.delta;
        let d1 = due_at(t1, rest, t);
        assert forall|i: int, j: int|
            0 <= i < j < rest.len() implies ev_key(#[trigger] rest[i]) != ev_key(
            #[trigger] rest[j]) by {
            assert(rest[i] == l[i + 1] && rest[j] == l[j + 1]);
        }
        lemma_due_at_unique(t1, rest, t);
        assert forall|k: (Identifier, u64)| #[trigger] has_key(rest, k) implies has_key(l, k) by {
            let p = choose|p: int| 0 <= p < rest.len() && ev_key(#[trigger] rest[p]) == k;
            assert(ev_key(l[p + 1]) == k);
        }
        if t1 == t {
            assert(d == seq![e] + d1);
            assert(d[0] == e);
            assert(!has_key(rest, ev_key(e))) by {
                if has_key(rest, ev_key(e)) {
                    let p = choose|p: int|
                        0 <= p < rest.len() && ev_key(#[trigger] rest[p]) == ev_key(e);
                    assert(ev_key(l[p + 1]) != ev_key(l[0]));
                }
            }
            assert forall|i: int, j: int|
                0 <= i < j < d.len() implies ev_key(#[trigger] d[i]) != ev_key(
                #[trigger] d[j]) by {
                assert(d[j] == d1[j - 1]);
                assert(has_key(d1, ev_key(d1[j - 1]))) by {
                    assert(ev_key(d1[j - 1]) == ev_key(d1[j - 1]));
                }
                if i == 0 {
                    assert(has_key(rest, ev_key(d1[j - 1])));
                } else {
                    assert(d[i] == d1[i - 1]);
                }
            }
            assert forall|k: (Identifier, u64)| #[trigger] has_key(d, k) implies has_key(l, k) by {
                let p = choose|p: int| 0 <= p < d.len() && ev_key(#[trigger] d[p]) == k;
                if p == 0 {
                    assert(ev_key(l[0]) == k);
                } else {
                    assert(ev_key(d1[p - 1]) == k);
                    assert(has_key(d1, k));
                }
            }
        } else {
            assert(d =~= d1);
            assert forall|k: (Identifier, u64)| #[trigger] has_key(d, k) implies has_key(l, k) by {
                assert(has_key(d1, k));
            }
        }
    }
}

} // verus!
