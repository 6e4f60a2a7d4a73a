//! The trail model: entries, levels, the valuation a trail gives, and the
//! facts that appending and backjumping keep it well formed.
use vstd::prelude::*;
use crate::literal::{lit_var, valid_lit};
use crate::solver_state::SolverMove;

verus! {

/// The literal that a move asserts (0 for the verdicts).
pub open spec fn move_lit(m: SolverMove) -> i32 {
    match m {
        SolverMove::Propagate { variable, clause: _ } => variable,
        SolverMove::Decide(l) => l,
        SolverMove::DecideFromConflict(l, _) => l,
        SolverMove::Sat() => 0,
        SolverMove::Conflict(_) => 0,
    }
}

/// The clause that justifies a trail entry; `None` for a free decision.
pub open spec fn move_reason(m: SolverMove) -> Option<usize> {
    match m {
        SolverMove::Propagate { variable: _, clause } => Some(clause),
        SolverMove::DecideFromConflict(_, clause) => Some(clause),
        _ => None,
    }
}

/// Position `i` of level `a` holds an entry of the trail `t`.
pub open spec fn is_entry(t: Seq<Seq<SolverMove>>, a: int, i: int) -> bool {
    0 <= a < t.len() && 0 <= i < t[a].len()
}

/// Every variable stands in at most one trail entry.
pub open spec fn distinct_vars(t: Seq<Seq<SolverMove>>) -> bool {
    forall|a: int, i: int, b: int, j: int|
        is_entry(t, a, i) && is_entry(t, b, j) && lit_var(move_lit(#[trigger] t[a][i])) == lit_var(
            move_lit(#[trigger] t[b][j]),
        ) ==> a == b && i == j
}

/// Variable `v` stands in some entry of the trail.
pub open spec fn on_trail(t: Seq<Seq<SolverMove>>, v: int) -> bool {
    exists|a: int, i: int| is_entry(t, a, i) && lit_var(move_lit(#[trigger] t[a][i])) == v
}

/// Clause `c` justifies some entry of the trail ("locked").
pub open spec fn locked(t: Seq<Seq<SolverMove>>, c: int) -> bool {
    exists|a: int, i: int| is_entry(t, a, i) && move_reason(#[trigger] t[a][i]) == Some(c as usize)
}

/// The shape of a trail over `n` variables and `nc` clauses: assignments only,
/// of valid literals and clause indices; a free decision only as the first
/// entry of a level above the root; each variable at most once.
pub open spec fn trail_wf(t: Seq<Seq<SolverMove>>, n: int, nc: int) -> bool {
    &&& forall|a: int, i: int|
        is_entry(t, a, i) ==> {
            &&& !(#[trigger] t[a][i] is Sat)
            &&& !(t[a][i] is Conflict)
            &&& valid_lit(move_lit(t[a][i]), n)
            &&& (move_reason(t[a][i]) matches Some(c) ==> c < nc)
            &&& (t[a][i] is Decide ==> a >= 1 && i == 0)
        }
    &&& distinct_vars(t)
}

/// The value that the trail gives variable `v`.
pub open spec fn trail_value(t: Seq<Seq<SolverMove>>, v: int) -> Option<bool> {
    if on_trail(t, v) {
        let (a, i) = choose|a: int, i: int|
            is_entry(t, a, i) && lit_var(move_lit(#[trigger] t[a][i])) == v;
        Some(move_lit(t[a][i]) > 0)
    } else {
        None
    }
}

/// The valuation of the variables `1..=n` that the trail gives (variable `v` at `v - 1`).
pub open spec fn valuation(t: Seq<Seq<SolverMove>>, n: nat) -> Seq<Option<bool>> {
    Seq::new(n, |k: int| trail_value(t, k + 1))
}

/// Per-variable tables of a trail over `n` variables: the literal assigned
/// (0 where open), the level of its entry and the entry's justification.
pub open spec fn tables_match(
    t: Seq<Seq<SolverMove>>,
    n: int,
    lits: Seq<i32>,
    lvls: Seq<usize>,
    rsns: Seq<Option<usize>>,
) -> bool {
    &&& lits.len() == n
    &&& lvls.len() == n
    &&& rsns.len() == n
    &&& forall|a: int, i: int|
        is_entry(t, a, i) ==> {
            let k = lit_var(move_lit(#[trigger] t[a][i])) - 1;
            &&& lits[k] == move_lit(t[a][i])
            &&& lvls[k] == a
            &&& rsns[k] == move_reason(t[a][i])
        }
    &&& forall|k: int|
        0 <= k < n && #[trigger] lits[k] != 0 ==> exists|a: int, i: int|
            is_entry(t, a, i) && lit_var(move_lit(#[trigger] t[a][i])) == k + 1
}

/// On a well-formed trail, the tables spell out its valuation.
pub(crate) proof fn lemma_tables_valuation(
    t: Seq<Seq<SolverMove>>,
    n: int,
    nc: int,
    lits: Seq<i32>,
    lvls: Seq<usize>,
    rsns: Seq<Option<usize>>,
    k: int,
)
    requires
        trail_wf(t, n, nc),
        tables_match(t, n, lits, lvls, rsns),
        0 <= k < n,
    ensures
        trail_value(t, k + 1) == (if lits[k] != 0 {
            Some(lits[k] > 0)
        } else {
            None::<bool>
        }),
{
    if on_trail(t, k + 1) {
        let (a, i) = choose|a: int, i: int|
            is_entry(t, a, i) && lit_var(move_lit(#[trigger] t[a][i])) == k + 1;
        assert(valid_lit(move_lit(t[a][i]), n));
    }
}

/// On a trail whose variables are distinct, an entry fixes its variable's value.
pub(crate) proof fn lemma_entry_value(t: Seq<Seq<SolverMove>>, a: int, i: int)
    requires
        distinct_vars(t),
        is_entry(t, a, i),
    ensures
        trail_value(t, lit_var(move_lit(t[a][i]))) == Some(move_lit(t[a][i]) > 0),
{
    let v = lit_var(move_lit(t[a][i]));
    assert(on_trail(t, v));
    let (b, j) = choose|b: int, j: int| is_entry(t, b, j) && lit_var(move_lit(#[trigger] t[b][j])) == v;
    assert(b == a && j == i);
}

/// The last level of the trail is a decision level above the root that
/// starts with its decision.
pub open spec fn has_open_decision(t: Seq<Seq<SolverMove>>) -> bool {
    &&& t.len() >= 2
    &&& t.last().len() > 0
    &&& t.last()[0] is Decide
}

/// The trail cut back to its first `bl` levels, with `entry` appended to the
/// last one kept (to a fresh root level where none is kept).
pub open spec fn backjumped(t: Seq<Seq<SolverMove>>, bl: int, entry: SolverMove) -> Seq<
    Seq<SolverMove>,
> {
    if bl == 0 {
        seq![seq![entry]]
    } else {
        t.take(bl - 1).push(t[bl - 1].push(entry))
    }
}

/// The level of the entry that sets the negation of `x` (0 where none does).
pub open spec fn false_level(t: Seq<Seq<SolverMove>>, x: i32) -> int {
    if exists|a: int, i: int| is_entry(t, a, i) && move_lit(#[trigger] t[a][i]) as int == -(x as int) {
        let (a, i) = choose|a: int, i: int|
            is_entry(t, a, i) && move_lit(#[trigger] t[a][i]) as int == -(x as int);
        a
    } else {
        0
    }
}

/// `bl` is the backjump level of `learnt`: one above the second-highest
/// `false_level` of its literals, and 0 for fewer than two literals.
pub open spec fn is_backjump_level(t: Seq<Seq<SolverMove>>, learnt: Seq<i32>, bl: int) -> bool {
    if learnt.len() < 2 {
        bl == 0
    } else {
        &&& exists|p: int, q: int|
            0 <= p < q < learnt.len() && false_level(t, #[trigger] learnt[p]) >= bl - 1 && false_level(
                t,
                #[trigger] learnt[q],
            ) >= bl - 1
        &&& forall|p: int, q: int|
            0 <= p < q < learnt.len() ==> false_level(t, #[trigger] learnt[p]) <= bl - 1 || false_level(
                t,
                #[trigger] learnt[q],
            ) <= bl - 1
    }
}

/// The outcome of conflict analysis on trail `t`: the learnt clause has no
/// repeats, its only literal whose negation the last level sets is the
/// negated decision, and `bl` is its backjump level.
pub open spec fn analysis_result(t: Seq<Seq<SolverMove>>, learnt: Seq<i32>, bl: int) -> bool {
    let d = move_lit(t.last()[0]);
    &&& learnt.no_duplicates()
    &&& forall|k: int, i: int|
        0 <= k < learnt.len() && 0 <= i < t.last().len() && move_lit(#[trigger] t.last()[i]) as int == -(
        #[trigger] learnt[k] as int) ==> learnt[k] as int == -(d as int)
    &&& 0 <= bl < t.len()
    &&& is_backjump_level(t, learnt, bl)
}

/// The tables give `false_level`.
pub(crate) proof fn lemma_false_level(
    t: Seq<Seq<SolverMove>>,
    n: int,
    nc: int,
    lits: Seq<i32>,
    lvls: Seq<usize>,
    rsns: Seq<Option<usize>>,
    x: i32,
)
    requires
        trail_wf(t, n, nc),
        tables_match(t, n, lits, lvls, rsns),
        valid_lit(x, n),
    ensures
        false_level(t, x) == (if lits[lit_var(x) - 1] as int == -(x as int) {
            lvls[lit_var(x) - 1] as int
        } else {
            0
        }),
{
    let k = lit_var(x) - 1;
    if exists|a: int, i: int| is_entry(t, a, i) && move_lit(#[trigger] t[a][i]) as int == -(x as int) {
        let (a, i) = choose|a: int, i: int|
            is_entry(t, a, i) && move_lit(#[trigger] t[a][i]) as int == -(x as int);
        assert(lit_var(move_lit(t[a][i])) == k + 1);
    } else if lits[k] as int == -(x as int) {
        assert(lits[k] != 0);
        let (a, i) = choose|a: int, i: int| is_entry(t, a, i) && lit_var(move_lit(#[trigger] t[a][i])) == k + 1;
        assert(move_lit(t[a][i]) as int == -(x as int));
    }
}

/// The trail with `m` appended to its last level (to a fresh root level on
/// an empty trail).
pub open spec fn appended(t: Seq<Seq<SolverMove>>, m: SolverMove) -> Seq<Seq<SolverMove>> {
    if t.len() == 0 {
        seq![seq![m]]
    } else {
        t.drop_last().push(t.last().push(m))
    }
}

/// The trail with a new, empty decision level (after an empty root level on
/// an empty trail).
pub open spec fn opened(t: Seq<Seq<SolverMove>>) -> Seq<Seq<SolverMove>> {
    if t.len() == 0 {
        seq![Seq::<SolverMove>::empty(), Seq::<SolverMove>::empty()]
    } else {
        t.push(Seq::<SolverMove>::empty())
    }
}

/// Literal `x` is false because its negation was set at level `cur` by a
/// clause (so resolution may replace it by that clause's other literals).
pub open spec fn resolvable(
    x: i32,
    lits: Seq<i32>,
    lvls: Seq<usize>,
    rsns: Seq<Option<usize>>,
    cur: int,
) -> bool {
    let k = lit_var(x) - 1;
    &&& lits[k] as int == -(x as int)
    &&& lvls[k] == cur
    &&& rsns[k] is Some
}

/// Of the current (last) level, only its decision can set a literal that
/// is not resolvable.
pub(crate) proof fn lemma_current_level_decision(
    t: Seq<Seq<SolverMove>>,
    n: int,
    nc: int,
    lits: Seq<i32>,
    lvls: Seq<usize>,
    rsns: Seq<Option<usize>>,
    x: i32,
)
    requires
        trail_wf(t, n, nc),
        tables_match(t, n, lits, lvls, rsns),
        has_open_decision(t),
        valid_lit(x, n),
        lits[lit_var(x) - 1] as int == -(x as int),
        lvls[lit_var(x) - 1] == t.len() - 1,
        !resolvable(x, lits, lvls, rsns, t.len() - 1),
    ensures
        x as int == -(move_lit(t.last()[0]) as int),
{
    let k = lit_var(x) - 1;
    assert(lits[k] != 0);
    let (a, i) = choose|a: int, i: int| is_entry(t, a, i) && lit_var(move_lit(#[trigger] t[a][i])) == k + 1;
    assert(lvls[k] == a);
    assert(rsns[k] == move_reason(t[a][i]));
    assert(t[a][i] is Decide);
}

/// Cutting a well-formed trail back and appending the negated decision of a
/// dropped level, justified by a new clause, keeps it well formed.
pub(crate) proof fn lemma_backjump_wf(
    t: Seq<Seq<SolverMove>>,
    n: int,
    nc: int,
    bl: int,
    d: i32,
    reason: usize,
    bound: int,
)
    requires
        trail_wf(t, n, nc),
        has_open_decision(t),
        d == move_lit(t.last()[0]),
        0 <= bl < t.len(),
        nc <= bound,
        reason < bound,
    ensures
        trail_wf(backjumped(t, bl, SolverMove::DecideFromConflict((-d) as i32, reason)), n, bound),
{
    let entry = SolverMove::DecideFromConflict((-d) as i32, reason);
    let t1 = backjumped(t, bl, entry);
    let top = t1.len() - 1;
    let last = t1[top].len() - 1;
    assert(t1[top][last] == entry);
    assert(is_entry(t, t.len() - 1, 0));
    assert(valid_lit(d, n));
    assert forall|a: int, i: int| is_entry(t1, a, i) && !(a == top && i == last) implies is_entry(t, a, i)
        && a < t.len() - 1 && #[trigger] t1[a][i] == t[a][i] by {}
    assert forall|a: int, i: int| is_entry(t1, a, i) implies {
        &&& !(#[trigger] t1[a][i] is Sat)
        &&& !(t1[a][i] is Conflict)
        &&& valid_lit(move_lit(t1[a][i]), n)
        &&& (move_reason(t1[a][i]) matches Some(c) ==> c < bound)
        &&& (t1[a][i] is Decide ==> a >= 1 && i == 0)
    } by {
        if !(a == top && i == last) {
            assert(t1[a][i] == t[a][i]);
        } else {
            assert(t1[a][i] == entry);
            assert(valid_lit((-d) as i32, n));
        }
    }
    assert forall|a: int, i: int, b: int, j: int|
        is_entry(t1, a, i) && is_entry(t1, b, j) && lit_var(move_lit(#[trigger] t1[a][i])) == lit_var(
            move_lit(#[trigger] t1[b][j]),
        ) implies a == b && i == j by {
        let ia = a == top && i == last;
        let jb = b == top && j == last;
        if ia && !jb {
            assert(t1[b][j] == t[b][j]);
            assert(lit_var(move_lit(t[b][j])) == lit_var(move_lit(t[t.len() - 1][0])));
        } else if !ia && jb {
            assert(t1[a][i] == t[a][i]);
            assert(lit_var(move_lit(t[a][i])) == lit_var(move_lit(t[t.len() - 1][0])));
        } else if !ia && !jb {
            assert(t1[a][i] == t[a][i]);
            assert(t1[b][j] == t[b][j]);
        }
    }
}

/// Appending an assignment of an open variable to the last level keeps a
/// trail well formed.
pub(crate) proof fn lemma_append_keeps_wf(t: Seq<Seq<SolverMove>>, m: SolverMove, n: int, nc: int)
    requires
        trail_wf(t, n, nc),
        !(m is Sat),
        !(m is Conflict),
        valid_lit(move_lit(m), n),
        move_reason(m) matches Some(c) ==> c < nc,
        !on_trail(t, lit_var(move_lit(m))),
        m is Decide ==> t.len() >= 2 && t.last().len() == 0,
    ensures
        trail_wf(
            if t.len() == 0 {
                seq![seq![m]]
            } else {
                t.drop_last().push(t.last().push(m))
            },
            n,
            nc,
        ),
{
    let t1 = if t.len() == 0 {
        seq![seq![m]]
    } else {
        t.drop_last().push(t.last().push(m))
    };
    let top = t1.len() - 1;
    assert forall|a: int, i: int| is_entry(t1, a, i) && !(a == top && i == t1[top].len() - 1) implies
        is_entry(t, a, i) && #[trigger] t1[a][i] == t[a][i] by {}
    assert(t1[top][t1[top].len() - 1] == m);
    assert forall|a: int, i: int, b: int, j: int|
        is_entry(t1, a, i) && is_entry(t1, b, j) && lit_var(move_lit(#[trigger] t1[a][i])) == lit_var(
            move_lit(#[trigger] t1[b][j]),
        ) implies a == b && i == j by {
        let ia = a == top && i == t1[top].len() - 1;
        let jb = b == top && j == t1[top].len() - 1;
        if ia && !jb {
            assert(is_entry(t, b, j) && t1[b][j] == t[b][j]);
        } else if !ia && jb {
            assert(is_entry(t, a, i) && t1[a][i] == t[a][i]);
        } else if !ia && !jb {
            assert(t1[a][i] == t[a][i]);
            assert(t1[b][j] == t[b][j]);
        }
    }
}

} // verus!
