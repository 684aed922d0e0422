//! An in-memory word store: a map from fixed-width (4 x 64-bit) keys to
//! variable-length sequences of 64-bit words.
//!
//! The engine treats the persistent ledger as exactly this interface: a key
//! that was never written reads back as the empty word sequence.  The store is
//! threaded explicitly through every operation of the engine, so one batch of
//! transactions owns it exclusively.

use vstd::prelude::*;

verus! {

/// A 256-bit identifier, held as four 64-bit words.  It names a player or an
/// object, and doubles as a lookup key into the word store; no meaning is
/// attached to its internal structure beyond "unique key".
#[derive(Clone, Copy, PartialEq, Eq, Structural, Debug)]
pub struct Identifier {
    pub w0: u64,
    pub w1: u64,
    pub w2: u64,
    pub w3: u64,
}

struct Entry {
    key: Identifier,
    words: Vec<u64>,
}

/// The model of a store with nothing written yet.
pub open spec fn empty_store() -> Map<Identifier, Seq<u64>> {
    Map::new(|k: Identifier| true, |k: Identifier| Seq::<u64>::empty())
}

/// A word store with the contract of the persistent ledger: `get` of a key
/// that was never `set` yields the empty sequence, and `set` overwrites.
///
/// Its model is a total map from identifiers to word sequences, every key
/// initially mapped to the empty sequence.
pub struct KvStore {
    entries: Vec<Entry>,
    model: Ghost<Map<Identifier, Seq<u64>>>,
    index: Ghost<Map<Identifier, int>>,
}

impl KvStore {
    /// The abstract contents: a total map from keys to word sequences.
    pub closed spec fn view(&self) -> Map<Identifier, Seq<u64>> {
        self.model@
    }

    #[verifier::type_invariant]
    spec fn wf(&self) -> bool {
        &&& self.model@.dom() == Set::<Identifier>::full()
        &&& forall|i: int, j: int|
            0 <= i < j < self.entries@.len() ==> (#[trigger] self.entries@[i].key) != (
            #[trigger] self.entries@[j].key)
        &&& forall|i: int|
            0 <= i < self.entries@.len() ==> self.model@[#[trigger] self.entries@[i].key]
                == self.entries@[i].words@
        &&& forall|k: Identifier|
            (#[trigger] self.model@[k]) != Seq::<u64>::empty() ==> 0 <= self.index@[k]
                < self.entries@.len() && self.entries@[self.index@[k]].key == k
    }

    /// The empty store: every key maps to the empty word sequence.
    pub fn new() -> (r: KvStore)
        ensures
            r@ == empty_store(),
    {
        let ghost m = empty_store();
        proof {
            assert(m.dom() =~= Set::<Identifier>::full());
        }
        KvStore { entries: Vec::new(), model: Ghost(m), index: Ghost(Map::empty()) }
    }

    /// Reads the words stored under `key`; the empty vector if the key was
    /// never written (or was last written with the empty vector).
    pub fn get(&self, key: Identifier) -> (r: Vec<u64>)
        ensures
            r@ == self@[key],
    {
        proof {
            use_type_invariant(self);
        }
        let n = self.entries.len();
        let mut i: usize = 0;
        while i < n
            invariant
                n == self.entries@.len(),
                0 <= i <= n,
                self.wf(),
                forall|j: int| 0 <= j < i ==> (#[trigger] self.entries@[j].key) != key,
            decreases n - i,
        {
            if self.entries[i].key == key {
                return copy_words(&self.entries[i].words);
            }
            i += 1;
        }
        assert(self@[key] == Seq::<u64>::empty());
        Vec::new()
    }

    /// Stores `words` under `key`, overwriting whatever was there.
    pub fn set(&mut self, key: Identifier, words: Vec<u64>)
        ensures
            final(self)@ == old(self)@.insert(key, words@),
    {
        let mut tmp = KvStore::new();
        core::mem::swap(self, &mut tmp);
        proof {
            use_type_invariant(&tmp);
        }
        let KvStore { entries: mut entries, model, index } = tmp;
        let ghost m1 = model@.insert(key, words@);
        proof {
            assert(m1.dom() =~= Set::<Identifier>::full());
        }
        let n = entries.len();
        let mut i: usize = 0;
        while i < n
            invariant
                n == entries@.len(),
                0 <= i <= n,
                model@ == old(self)@,
                m1 == model@.insert(key, words@),
                m1.dom() == Set::<Identifier>::full(),
                forall|p: int, q: int|
                    0 <= p < q < entries@.len() ==> (#[trigger] entries@[p].key) != (
                    #[trigger] entries@[q].key),
                forall|p: int|
                    0 <= p < entries@.len() ==> model@[#[trigger] entries@[p].key]
                        == entries@[p].words@,
                forall|k: Identifier|
                    (#[trigger] model@[k]) != Seq::<u64>::empty() ==> 0 <= index@[k]
                        < entries@.len() && entries@[index@[k]].key == k,
                forall|j: int| 0 <= j < i ==> (#[trigger] entries@[j].key) != key,
            decreases n - i,
        {
            if entries[i].key == key {
                let ghost old_entries = entries@;
                let ghost ix1 = index@.insert(key, i as int);
                entries[i] = Entry { key, words };
                proof {
                    assert(old_entries[i as int].key == key);
                    assert forall|p: int|
                        0 <= p < entries@.len() implies m1[#[trigger] entries@[p].key]
                            == entries@[p].words@ by {
                        if p != i {
                            assert(entries@[p] == old_entries[p]);
                        }
                    }
                    assert forall|k: Identifier|
                        (#[trigger] m1[k]) != Seq::<u64>::empty() implies 0 <= ix1[k]
                            < entries@.len() && entries@[ix1[k]].key == k by {
                        if k != key {
                            assert(m1[k] == model@[k]);
                            assert(entries@[index@[k]] == old_entries[index@[k]]);
                        }
                    }
                }
                *self = KvStore { entries, model: Ghost(m1), index: Ghost(ix1) };
                return ;
            }
            i += 1;
        }
        let ghost old_entries = entries@;
        let ghost ix1 = index@.insert(key, n as int);
        entries.push(Entry { key, words });
        proof {
            assert forall|p: int|
                0 <= p < entries@.len() implies m1[#[trigger] entries@[p].key]
                    == entries@[p].words@ by {
                if p != n {
                    assert(entries@[p] == old_entries[p]);
                }
            }
            assert forall|k: Identifier|
                (#[trigger] m1[k]) != Seq::<u64>::empty() implies 0 <= ix1[k] < entries@.len()
                    && entries@[ix1[k]].key == k by {
                if k != key {
                    assert(m1[k] == model@[k]);
                    assert(entries@[index@[k]] == old_entries[index@[k]]);
                }
            }
        }
        *self = KvStore { entries, model: Ghost(m1), index: Ghost(ix1) };
    }
}

/// Copies a word vector element by element.
fn copy_words(v: &Vec<u64>) -> (r: Vec<u64>)
    ensures
        r@ == v@,
{
    let mut r: Vec<u64> = Vec::new();
    let n = v.len();
    let mut i: usize = 0;
    while i < n
        invariant
            n == v@.len(),
            0 <= i <= n,
            r@ == v@.take(i as int),
        decreases n - i,
    {
        r.push(v[i]);
        assert(r@ =~= v@.take(i + 1 as int));
        i += 1;
    }
    assert(r@ =~= v@);
    r
}

} // verus!
