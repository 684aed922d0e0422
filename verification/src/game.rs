//! The combat round bookkeeping that consumes the object model: a shared
//! monster target that the pooled damage of all players wears down.

use vstd::prelude::*;

verus! {

/// An opaque two-word commitment handed in by the host.
#[derive(Clone, Copy, PartialEq, Eq, Structural, Debug)]
pub struct CommitmentInfo(pub u64, pub u64);

impl CommitmentInfo {
    /// Wraps the two commitment words.
    pub fn new(c0: u64, c1: u64) -> (r: CommitmentInfo)
        ensures
            r == CommitmentInfo(c0, c1),
    {
        CommitmentInfo(c0, c1)
    }
}

/// One row of the monster table: how much pooled damage the monster absorbs
/// and what defeating it pays out, plus an opaque payload.
#[derive(Clone, Debug)]
pub struct Monster {
    pub health: u64,
    pub rewards: u64,
    pub buf: Vec<u8>,
}

/// What the last finished round locked in.
#[derive(Clone, Copy, PartialEq, Eq, Structural, Debug)]
pub struct RoundInfo {
    pub locked_dps: u64,
    pub locked_rewards: u64,
}

/// The shared combat state: total damage per tick, progress against the
/// current target, the target's position in the monster table, and the
/// record of the last finished round.
#[derive(Clone, Debug)]
pub struct Game {
    pub total_dps: u64,
    pub progress: u64,
    pub target: u64,
    pub last_round_info: RoundInfo,
}

impl Game {
    /// Settles one round: add the pooled damage to the progress; when that
    /// reaches the target's health, lock in this round's damage and the
    /// target's rewards, reset the progress, and move to the next target.
    pub fn settle(&mut self, monsters: &Vec<Monster>)
        requires
            (old(self).target as int) < monsters@.len(),
            old(self).progress + old(self).total_dps <= u64::MAX,
            old(self).target < u64::MAX,
        ensures
            final(self).total_dps == old(self).total_dps,
            ({
                let gained = (old(self).progress + old(self).total_dps) as u64;
                if gained >= monsters@[old(self).target as int].health {
                    &&& final(self).progress == 0
                    &&& final(self).target == old(self).target + 1
                    &&& final(self).last_round_info == (RoundInfo {
                        locked_dps: old(self).total_dps,
                        locked_rewards: monsters@[old(self).target as int].rewards,
                    })
                } else {
                    &&& final(self).progress == gained
                    &&& final(self).target == old(self).target
                    &&& final(self).last_round_info == old(self).last_round_info
                }
            }),
    {
        let n = monsters.len();
        proof {
            assert((self.target as int) < n as int);
        }
        let target = self.target as usize;
        self.progress = self.progress + self.total_dps;
        if self.progress >= monsters[target].health {
            self.last_round_info = RoundInfo {
                locked_dps: self.total_dps,
                locked_rewards: monsters[target].rewards,
            };
            self.progress = 0;
            self.target = self.target + 1;
        }
    }
}

} // verus!
