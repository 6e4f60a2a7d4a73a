//! Clause database maintenance: which clauses may go, how the survivors
//! and the justifications on the trail are renumbered.
use vstd::prelude::*;
use crate::solver_state::SolverMove;
use crate::trail::{is_entry, locked, move_reason};

verus! {

/// The number of marked positions of `m`.
pub open spec fn count_marked(m: Seq<bool>) -> nat
    decreases m.len(),
{
    if m.len() == 0 {
        0
    } else {
        count_marked(m.drop_last()) + if m.last() {
            1nat
        } else {
            0nat
        }
    }
}

/// The elements of `s` at the unmarked positions of `m`, in order.
pub open spec fn kept<A>(s: Seq<A>, m: Seq<bool>) -> Seq<A>
    decreases s.len(),
{
    if s.len() == 0 {
        s
    } else {
        let rest = kept(s.drop_last(), m.take(s.len() - 1));
        if m[s.len() - 1] {
            rest
        } else {
            rest.push(s.last())
        }
    }
}

/// Where index `c` lands once the marked positions of `m` are removed: it
/// moves down by the number of marked positions below it.
pub open spec fn shifted(m: Seq<bool>, c: int) -> int {
    c - count_marked(m.take(c))
}

/// The positions `0..len` that occur in `indexes`.
pub open spec fn removal_mask(indexes: Seq<usize>, len: int) -> Seq<bool> {
    Seq::new(len as nat, |c: int| indexes.contains(c as usize))
}

/// A trail entry with its justification renumbered for the removal of the
/// clauses that `m` marks.
pub open spec fn remap_move(mv: SolverMove, m: Seq<bool>) -> SolverMove {
    match mv {
        SolverMove::Propagate { variable, clause } => SolverMove::Propagate {
            variable,
            clause: shifted(m, clause as int) as usize,
        },
        SolverMove::DecideFromConflict(l, clause) => SolverMove::DecideFromConflict(
            l,
            shifted(m, clause as int) as usize,
        ),
        other => other,
    }
}

/// The trail with every justification renumbered for the removal of the
/// clauses that `m` marks.
pub open spec fn remapped(t: Seq<Seq<SolverMove>>, m: Seq<bool>) -> Seq<Seq<SolverMove>> {
    Seq::new(t.len(), |a: int| Seq::new(t[a].len(), |i: int| remap_move(t[a][i], m)))
}

/// A learnt clause (index `orig..nc`) that justifies no trail entry: one that
/// maintenance may remove.
pub open spec fn deletable(t: Seq<Seq<SolverMove>>, orig: int, nc: int, c: int) -> bool {
    orig <= c < nc && !locked(t, c)
}

/// What one draw says: with no original clauses, remove; otherwise remove
/// where the draw modulo `DELETION_SCALE * original` falls below the number
/// of removable clauses.
pub open spec fn picked(draw: u64, eligible: nat, original: nat) -> bool {
    original == 0 || (draw as int) % (DELETION_SCALE * original) < eligible
}

/// The number of clauses that maintenance may remove.
pub open spec fn deletable_total(t: Seq<Seq<SolverMove>>, orig: int, nc: int) -> nat {
    Set::new(|c: usize| deletable(t, orig, nc, c as int)).len()
}

/// The clauses that maintenance removes with the given draws: each
/// removable clause `c` whose draw `c - orig` is `picked`.
pub open spec fn maintenance_mask(t: Seq<Seq<SolverMove>>, orig: int, nc: int, draws: Seq<u64>) -> Seq<bool> {
    Seq::new(
        nc as nat,
        |c: int|
            deletable(t, orig, nc, c) && c - orig < draws.len() && picked(
                draws[c - orig],
                deletable_total(t, orig, nc),
                orig as nat,
            ),
    )
}

/// Maintenance removes a removable clause with a probability of the number
/// of removable clauses over this many times the number of original ones.
pub const DELETION_SCALE: u64 = 10000;

pub(crate) proof fn lemma_count_marked_bound(m: Seq<bool>)
    ensures
        count_marked(m) <= m.len(),
    decreases m.len(),
{
    if m.len() > 0 {
        lemma_count_marked_bound(m.drop_last());
    }
}

pub(crate) proof fn lemma_kept_len<A>(s: Seq<A>, m: Seq<bool>)
    requires
        m.len() == s.len(),
    ensures
        kept(s, m).len() == s.len() - count_marked(m),
    decreases s.len(),
{
    if s.len() > 0 {
        lemma_kept_len(s.drop_last(), m.take(s.len() - 1));
        assert(m.take(s.len() - 1) =~= m.drop_last());
    }
}

/// An unmarked element keeps its value at its shifted index.
pub proof fn lemma_kept_index<A>(s: Seq<A>, m: Seq<bool>, c: int)
    requires
        m.len() == s.len(),
        0 <= c < s.len(),
        !m[c],
    ensures
        0 <= shifted(m, c) < kept(s, m).len(),
        kept(s, m)[shifted(m, c)] == s[c],
    decreases s.len(),
{
    let l = s.len() - 1;
    let m1 = m.take(l);
    assert(m1 =~= m.drop_last());
    lemma_kept_len(s.drop_last(), m1);
    lemma_count_marked_bound(m.take(c));
    if c < l {
        lemma_kept_index(s.drop_last(), m1, c);
        assert(m1.take(c) =~= m.take(c));
    } else {
        assert(m.take(c) =~= m1);
    }
}

/// Every element of `kept(s, m)` is an element of `s`.
pub(crate) proof fn lemma_kept_member<A>(s: Seq<A>, m: Seq<bool>, k: int)
    requires
        m.len() == s.len(),
        0 <= k < kept(s, m).len(),
    ensures
        exists|c: int| 0 <= c < s.len() && #[trigger] s[c] == kept(s, m)[k],
    decreases s.len(),
{
    let l = s.len() - 1;
    let m1 = m.take(l);
    let rest = kept(s.drop_last(), m1);
    if k < rest.len() {
        lemma_kept_member(s.drop_last(), m1, k);
        let c = choose|c: int| 0 <= c < l && #[trigger] s.drop_last()[c] == rest[k];
        assert(s[c] == kept(s, m)[k]);
    } else {
        assert(s[l] == kept(s, m)[k]);
    }
}

/// With no marked position below `c`, index `c` keeps its place and value.
pub proof fn lemma_kept_prefix<A>(s: Seq<A>, m: Seq<bool>, c: int)
    requires
        m.len() == s.len(),
        0 <= c < s.len(),
        forall|j: int| 0 <= j <= c ==> !#[trigger] m[j],
    ensures
        kept(s, m)[c] == s[c],
        c < kept(s, m).len(),
{
    lemma_no_marks(m.take(c));
    lemma_kept_index(s, m, c);
}

/// A sequence without marks counts none.
proof fn lemma_no_marks(m: Seq<bool>)
    requires
        forall|j: int| 0 <= j < m.len() ==> !#[trigger] m[j],
    ensures
        count_marked(m) == 0,
    decreases m.len(),
{
    if m.len() > 0 {
        lemma_no_marks(m.drop_last());
    }
}

/// Clause database maintenance keeps every justification: where the clauses
/// removed justify no trail entry, each entry's renumbered justification
/// names the very clause that justified it before.
pub proof fn lemma_maintenance_keeps_justifications(
    db: Seq<Seq<i32>>,
    t: Seq<Seq<SolverMove>>,
    indexes: Seq<usize>,
    a: int,
    i: int,
)
    requires
        forall|k: int| 0 <= k < indexes.len() ==> !locked(t, #[trigger] indexes[k] as int),
        is_entry(t, a, i),
        move_reason(t[a][i]) matches Some(c) && c < db.len(),
    ensures
        move_reason(t[a][i]) matches Some(c) && {
            let m = removal_mask(indexes, db.len() as int);
            &&& !m[c as int]
            &&& move_reason(remapped(t, m)[a][i]) == Some(shifted(m, c as int) as usize)
            &&& kept(db, m)[shifted(m, c as int)] == db[c as int]
        },
{
    let c = move_reason(t[a][i])->Some_0;
    let m = removal_mask(indexes, db.len() as int);
    assert(locked(t, c as int));
    if m[c as int] {
        let k = choose|k: int| 0 <= k < indexes.len() && indexes[k] == c;
        assert(!locked(t, indexes[k] as int));
    }
    lemma_kept_index(db, m, c as int);
}

/// After a successful conflict analysis, maintenance runs with a
/// probability of one in this many.
pub const MAINTENANCE_ONE_IN: u64 = 20;

} // verus!
