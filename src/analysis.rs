//! Steps of conflict analysis: finding a literal to resolve and one
//! resolution step on the working set.
use vstd::prelude::*;
use crate::literal::{lit_var, valid_lit, valid_lits, var_of};
use crate::solver_state::SolverMove;
use crate::trail::{
    false_level, has_open_decision, is_backjump_level, is_entry, lemma_current_level_decision,
    lemma_false_level, move_lit, resolvable, tables_match, trail_wf,
};

verus! {

/// No literal of `lits` has a variable marked in `marks`.
pub open spec fn unmarked(lits: Seq<i32>, marks: Seq<bool>) -> bool {
    forall|k: int| 0 <= k < lits.len() ==> !marks[lit_var(#[trigger] lits[k]) - 1]
}

/// `r` holds the literals of `v`, in order.
pub(crate) fn copy_lits(v: &Vec<i32>) -> (r: Vec<i32>)
    ensures
        r@ == v@,
{
    let mut r: Vec<i32> = Vec::new();
    let mut i: usize = 0;
    while i < v.len()
        invariant
            i <= v@.len(),
            r@ == v@.take(i as int),
        decreases v@.len() - i,
    {
        r.push(v[i]);
        assert(v@.take(i + 1) =~= v@.take(i as int).push(v@[i as int]));
        i = i + 1;
    }
    assert(v@.take(i as int) =~= v@);
    r
}

/// Whether `x` occurs in `v`.
pub(crate) fn has_lit(v: &Vec<i32>, x: i32) -> (r: bool)
    ensures
        r == v@.contains(x),
{
    let mut i: usize = 0;
    while i < v.len()
        invariant
            i <= v@.len(),
            forall|k: int| 0 <= k < i ==> v@[k] != x,
        decreases v@.len() - i,
    {
        if v[i] == x {
            return true;
        }
        i = i + 1;
    }
    false
}

/// The first literal of `work` that resolution may replace, with the clause
/// that set its negation.
pub(crate) fn find_resolvable(
    work: &Vec<i32>,
    lits: &Vec<i32>,
    lvls: &Vec<usize>,
    rsns: &Vec<Option<usize>>,
    cur: usize,
    n: Ghost<int>,
) -> (r: Option<(usize, usize)>)
    requires
        valid_lits(work@, n@),
        lits@.len() == n@,
        lvls@.len() == n@,
        rsns@.len() == n@,
    ensures
        r matches Some((j, c)) ==> j < work@.len() && resolvable(
            work@[j as int],
            lits@,
            lvls@,
            rsns@,
            cur as int,
        ) && rsns@[lit_var(work@[j as int]) - 1] == Some(c),
        r is None ==> forall|j: int|
            0 <= j < work@.len() ==> !resolvable(#[trigger] work@[j], lits@, lvls@, rsns@, cur as int),
{
    let mut j: usize = 0;
    while j < work.len()
        invariant
            j <= work@.len(),
            valid_lits(work@, n@),
            lits@.len() == n@,
            lvls@.len() == n@,
            rsns@.len() == n@,
            forall|k: int| 0 <= k < j ==> !resolvable(#[trigger] work@[k], lits@, lvls@, rsns@, cur as int),
        decreases work@.len() - j,
    {
        let x = work[j];
        assert(valid_lit(work@[j as int], n@));
        let k = var_of(x) - 1;
        if lits[k] == -x && lvls[k] == cur {
            match rsns[k] {
                Some(c) => {
                    return Some((j, c));
                },
                None => {},
            }
        }
        j = j + 1;
    }
    None
}

/// One resolution step on variable `v`: drops the literals of `v` from
/// `work` and adds those of `reason` whose variables are unmarked, without
/// repeats.
pub(crate) fn resolve_step(work: &Vec<i32>, v: usize, reason: &Vec<i32>, marks: &Vec<bool>, n: Ghost<int>) -> (r:
    Vec<i32>)
    requires
        valid_lits(work@, n@),
        valid_lits(reason@, n@),
        work@.no_duplicates(),
        marks@.len() == n@,
        1 <= v <= n@,
        marks@[v - 1],
        forall|k: int| 0 <= k < work@.len() ==> lit_var(#[trigger] work@[k]) == v || !marks@[lit_var(work@[k]) - 1],
    ensures
        valid_lits(r@, n@),
        r@.no_duplicates(),
        unmarked(r@, marks@),
{
    let mut r: Vec<i32> = Vec::new();
    let mut i: usize = 0;
    while i < work.len()
        invariant
            i <= work@.len(),
            valid_lits(work@, n@),
            work@.no_duplicates(),
            marks@.len() == n@,
            marks@[v - 1],
            forall|k: int| 0 <= k < work@.len() ==> lit_var(#[trigger] work@[k]) == v || !marks@[lit_var(work@[k]) - 1],
            valid_lits(r@, n@),
            r@.no_duplicates(),
            unmarked(r@, marks@),
            forall|k: int| 0 <= k < r@.len() ==> exists|m: int| 0 <= m < i && #[trigger] r@[k] == work@[m],
        decreases work@.len() - i,
    {
        let x = work[i];
        assert(valid_lit(work@[i as int], n@));
        if var_of(x) != v {
            proof {
                assert forall|k: int| 0 <= k < r@.len() implies r@[k] != x by {
                    let m = choose|m: int| 0 <= m < i && #[trigger] r@[k] == work@[m];
                    assert(work@[m] != work@[i as int]);
                }
            }
            r.push(x);
            proof {
                assert forall|k: int| 0 <= k < r@.len() implies exists|m: int| 0 <= m < i + 1 && #[trigger] r@[k] == work@[m] by {
                    if k == r@.len() - 1 {
                        assert(r@[k] == work@[i as int]);
                    } else {
                        let m = choose|m: int| 0 <= m < i && #[trigger] r@.drop_last()[k] == work@[m];
                    }
                }
            }
        }
        i = i + 1;
    }
    let mut i: usize = 0;
    while i < reason.len()
        invariant
            i <= reason@.len(),
            valid_lits(reason@, n@),
            marks@.len() == n@,
            valid_lits(r@, n@),
            r@.no_duplicates(),
            unmarked(r@, marks@),
        decreases reason@.len() - i,
    {
        let y = reason[i];
        assert(valid_lit(reason@[i as int], n@));
        if !marks[var_of(y) - 1] && !has_lit(&r, y) {
            r.push(y);
        }
        i = i + 1;
    }
    r
}

/// The backjump level of the working set `work` at the end of resolution:
/// one above the second-highest level at which the negation of one of its
/// literals stands, and 0 for fewer than two literals. It lies below the
/// current level's index, as only the decision's negation stands there.
pub(crate) fn backjump_level(
    work: &Vec<i32>,
    lits: &Vec<i32>,
    lvls: &Vec<usize>,
    rsns: &Vec<Option<usize>>,
    current: usize,
    d: i32,
    t: Ghost<Seq<Seq<SolverMove>>>,
    n: Ghost<int>,
    nc: Ghost<int>,
) -> (bl: usize)
    requires
        trail_wf(t@, n@, nc@),
        current == t@.len() - 1,
        has_open_decision(t@),
        d == move_lit(t@.last()[0]),
        tables_match(t@, n@, lits@, lvls@, rsns@),
        valid_lits(work@, n@),
        work@.no_duplicates(),
        forall|j: int|
            0 <= j < work@.len() ==> !resolvable(#[trigger] work@[j], lits@, lvls@, rsns@, current as int),
    ensures
        bl <= current,
        is_backjump_level(t@, work@, bl as int),
{
    let ghost t = t@;
    let ghost n = n@;
    let ghost nc = nc@;
    let mut h1: usize = 0;
    let mut h2: usize = 0;
    let ghost mut idx1: int = 0;
    let ghost mut idx2: int = 0;
    let mut i: usize = 0;
    while i < work.len()
        invariant
            trail_wf(t, n, nc),
            current == t.len() - 1,
            has_open_decision(t),
            d == move_lit(t.last()[0]),
            tables_match(t, n, lits@, lvls@, rsns@),
            valid_lits(work@, n),
            work@.no_duplicates(),
            forall|j: int|
                0 <= j < work@.len() ==> !resolvable(#[trigger] work@[j], lits@, lvls@, rsns@, current as int),
            i <= work@.len(),
            i >= 1 ==> h1 <= current,
            i >= 2 ==> h2 <= h1 && h2 < current,
            i >= 1 && h1 == current ==> exists|m: int| 0 <= m < i && work@[m] as int == -(d as int),
            i >= 1 ==> 0 <= idx1 < i && false_level(t, work@[idx1]) == h1,
            i >= 2 ==> 0 <= idx2 < i && idx1 != idx2 && false_level(t, work@[idx2]) == h2,
            forall|p: int| 0 <= p < i ==> false_level(t, #[trigger] work@[p]) <= h1,
            forall|p: int, q: int|
                0 <= p < q < i ==> false_level(t, #[trigger] work@[p]) <= h2 || false_level(t, #[trigger] work@[q]) <= h2,
        decreases work@.len() - i,
    {
        let x = work[i];
        assert(valid_lit(work@[i as int], n));
        let kv = var_of(x) - 1;
        let lv: usize = if lits[kv] == -x {
            lvls[kv]
        } else {
            0
        };
        proof {
            lemma_false_level(t, n, nc, lits@, lvls@, rsns@, x);
            assert(false_level(t, work@[i as int]) == lv);
            if lits@[kv as int] == -x {
                assert(lits@[kv as int] != 0);
                let (a, ii) = choose|a: int, ii: int| is_entry(t, a, ii) && lit_var(move_lit(#[trigger] t[a][ii])) == kv + 1;
                assert(lvls@[kv as int] == a);
                if lv == current {
                    lemma_current_level_decision(t, n, nc, lits@, lvls@, rsns@, x);
                    assert forall|m: int| 0 <= m < i implies work@[m] as int != -(d as int) by {
                        assert(work@[m] != work@[i as int]);
                    }
                }
            }
        }
        if i == 0 {
            h1 = lv;
            proof {
                idx1 = i as int;
            }
        } else if lv > h1 {
            h2 = h1;
            h1 = lv;
            proof {
                idx2 = idx1;
                idx1 = i as int;
            }
        } else if i == 1 || lv > h2 {
            h2 = lv;
            proof {
                idx2 = i as int;
            }
        }
        i = i + 1;
    }
    let bl: usize = if work.len() >= 2 {
        h2 + 1
    } else {
        0
    };
    proof {
        if work@.len() >= 2 {
            let (p, q) = if idx1 < idx2 { (idx1, idx2) } else { (idx2, idx1) };
            assert(0 <= p < q < work@.len() && false_level(t, work@[p]) >= bl - 1 && false_level(t, work@[q]) >= bl - 1);
        }
        assert(is_backjump_level(t, work@, bl as int));
    }

    bl
}

} // verus!
