//! The activity table: where each literal's score stands, bumps and decay.
use vstd::prelude::*;
use crate::literal::lit_var;

verus! {

/// The position of a literal's score in the activity table: positive
/// literals first, then negative ones.
pub open spec fn act_index(l: i32, n: int) -> int {
    if l > 0 {
        l - 1
    } else {
        lit_var(l) - 1 + n
    }
}

/// What one bump adds to a score.
pub const ACTIVITY_BUMP: u64 = 1024;

/// A score after one bump (it stays at the top once there).
pub open spec fn bumped(x: u64) -> u64 {
    if x > u64::MAX - ACTIVITY_BUMP {
        u64::MAX
    } else {
        (x + ACTIVITY_BUMP) as u64
    }
}

/// The table after a bump of each literal of `lits`, once per occurrence.
pub open spec fn bump_all(act: Seq<u64>, lits: Seq<i32>, n: int) -> Seq<u64>
    decreases lits.len(),
{
    if lits.len() == 0 {
        act
    } else {
        let prev = bump_all(act, lits.drop_last(), n);
        let k = act_index(lits.last(), n);
        prev.update(k, bumped(prev[k]))
    }
}

/// The table after one decay: every score halves.
pub open spec fn decayed(act: Seq<u64>) -> Seq<u64> {
    Seq::new(act.len(), |k: int| act[k] / 2)
}

} // verus!
