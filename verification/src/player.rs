//! Per-player persistent data and its word codec.

use vstd::prelude::*;

use crate::store::Identifier;

verus! {

/// The third and fourth words of every player record key.
pub const PLAYER_LEAF_A: u64 = 0xff00;

/// See `PLAYER_LEAF_A`.
pub const PLAYER_LEAF_B: u64 = 0xff01;

/// Where the record of the player identified by `pkey` lives in the store:
/// two words of the key, then two leaf constants that keep player records
/// apart from object records, tick buckets and the counter slot.
pub open spec fn spec_player_key(pkey: Identifier) -> Identifier {
    Identifier { w0: pkey.w1, w1: pkey.w2, w2: PLAYER_LEAF_A, w3: PLAYER_LEAF_B }
}

/// Computes the store key of a player record.
pub fn player_key(pkey: &Identifier) -> (r: Identifier)
    ensures
        r == spec_player_key(*pkey),
{
    Identifier { w0: pkey.w1, w1: pkey.w2, w2: PLAYER_LEAF_A, w3: PLAYER_LEAF_B }
}

/// A player's game data: an inventory of object ids and six scalar fields.
#[derive(Clone, Debug)]
pub struct PlayerData {
    pub inventory: Vec<u64>,
    pub energe: u64,
    pub target: u64,
    pub remain: u64,
    pub dps: u64,
    pub time_stamp: u64,
    pub balance: u64,
}

impl Default for PlayerData {
    /// A fresh player: empty inventory, every scalar zero.
    fn default() -> (r: PlayerData)
        ensures
            r.inventory@ == Seq::<u64>::empty(),
            r.energe == 0 && r.target == 0 && r.remain == 0,
            r.dps == 0 && r.time_stamp == 0 && r.balance == 0,
    {
        PlayerData {
            inventory: Vec::new(),
            energe: 0,
            target: 0,
            remain: 0,
            dps: 0,
            time_stamp: 0,
            balance: 0,
        }
    }
}

/// The serialized form of a player record: the inventory length, the
/// inventory, then the six scalars.
pub open spec fn player_encoded_words(
    inventory: Seq<u64>,
    energe: u64,
    target: u64,
    remain: u64,
    dps: u64,
    time_stamp: u64,
    balance: u64,
) -> Seq<u64> {
    seq![inventory.len() as u64] + inventory + seq![energe, target, remain, dps, time_stamp, balance]
}

/// Whether a word sequence is a well-formed player record.
pub open spec fn player_words_ok(s: Seq<u64>) -> bool {
    &&& s.len() >= 7
    &&& s[0] == s.len() - 7
}

impl PlayerData {
    /// The serialized record of this player.
    pub open spec fn encoded(self) -> Seq<u64> {
        player_encoded_words(
            self.inventory@,
            self.energe,
            self.target,
            self.remain,
            self.dps,
            self.time_stamp,
            self.balance,
        )
    }

    /// Serializes this player, appending its record to `buf`.
    pub fn to_data(&self, buf: &mut Vec<u64>)
        ensures
            final(buf)@ == old(buf)@ + self.encoded(),
    {
        buf.push(self.inventory.len() as u64);
        let n = self.inventory.len();
        let mut i: usize = 0;
        while i < n
            invariant
                n == self.inventory@.len(),
                0 <= i <= n,
                buf@ == old(buf)@ + seq![n as u64] + self.inventory@.take(i as int),
            decreases n - i,
        {
            buf.push(self.inventory[i]);
            assert(buf@ =~= old(buf)@ + seq![n as u64] + self.inventory@.take(i + 1 as int));
            i += 1;
        }
        buf.push(self.energe);
        buf.push(self.target);
        buf.push(self.remain);
        buf.push(self.dps);
        buf.push(self.time_stamp);
        buf.push(self.balance);
        assert(buf@ =~= old(buf)@ + self.encoded());
    }

    /// Deserializes a player record; `None` exactly on malformed words.
    pub fn from_data(words: &Vec<u64>) -> (r: Option<PlayerData>)
        ensures
            r.is_some() <==> player_words_ok(words@),
            r matches Some(p) ==> p.encoded() == words@,
    {
        let n = words.len();
        if n < 7 {
            return None;
        }
        if words[0] != (n - 7) as u64 {
            return None;
        }
        let mut inventory: Vec<u64> = Vec::new();
        let count = n - 7;
        let mut i: usize = 0;
        while i < count
            invariant
                count == n - 7,
                n == words@.len(),
                n >= 7,
                0 <= i <= count,
                inventory@ == words@.subrange(1, 1 + i as int),
            decreases count - i,
        {
            inventory.push(words[1 + i]);
            assert(inventory@ =~= words@.subrange(1, 1 + (i + 1)));
            i += 1;
        }
        let p = PlayerData {
            inventory,
            energe: words[count + 1],
            target: words[count + 2],
            remain: words[count + 3],
            dps: words[count + 4],
            time_stamp: words[count + 5],
            balance: words[count + 6],
        };
        proof {
            assert(p.encoded() =~= words@);
        }
        Some(p)
    }
}

/// Every record `to_data` writes is well formed, so `from_data` accepts it
/// and returns a player that re-serializes to the same words.
pub proof fn lemma_player_codec_round_trip(p: PlayerData)
    requires
        p.inventory@.len() <= u64::MAX,
    ensures
        player_words_ok(p.encoded()),
{
    let s = p.encoded();
    assert(s.len() == 7 + p.inventory@.len());
    assert(s[0] == p.inventory@.len() as u64);
}

} // verus!
