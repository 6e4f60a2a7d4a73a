//! Signed literals over variables `1..=n`.
use vstd::prelude::*;

verus! {

/// The variable of a literal: its magnitude.
pub open spec fn lit_var(l: i32) -> int {
    if l < 0 {
        -(l as int)
    } else {
        l as int
    }
}

/// A literal over the variables `1..=n`: nonzero, and of a magnitude of at most `n`.
pub open spec fn valid_lit(l: i32, n: int) -> bool {
    &&& l != 0
    &&& l != i32::MIN
    &&& lit_var(l) <= n
}

/// Every literal of `lits` is a literal over the variables `1..=n`.
pub open spec fn valid_lits(lits: Seq<i32>, n: int) -> bool {
    forall|i: int| 0 <= i < lits.len() ==> #[trigger] valid_lit(lits[i], n)
}

/// The value that a partial valuation (variable `v` at position `v - 1`) gives a literal.
pub open spec fn lit_value(l: i32, a: Seq<Option<bool>>) -> Option<bool> {
    match a[lit_var(l) - 1] {
        Some(b) => Some(b == (l > 0)),
        None => None,
    }
}

/// The variable of a literal, as an index into per-variable tables (plus one).
pub fn var_of(l: i32) -> (v: usize)
    requires
        l != i32::MIN,
    ensures
        v == lit_var(l),
{
    if l < 0 {
        (-l) as usize
    } else {
        l as usize
    }
}

} // verus!
