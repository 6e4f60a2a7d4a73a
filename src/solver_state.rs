//! The solver's state: clause database, trail and activity table.
use vstd::prelude::*;
use crate::assignment::{ascii_text, render, Assignment};
use crate::clause::Clause;
use crate::literal::{lit_var, valid_lit, valid_lits, var_of};
use crate::trail::{
    analysis_result, appended, backjumped, has_open_decision, is_backjump_level, is_entry, lemma_append_keeps_wf,
    lemma_backjump_wf, lemma_current_level_decision, lemma_entry_value, lemma_tables_valuation,
    locked, move_lit, move_reason, on_trail, opened, resolvable, tables_match, trail_value,
    trail_wf, valuation,
};
use crate::activity::{act_index, bump_all, bumped, decayed, ACTIVITY_BUMP};
use crate::maintenance::{
    lemma_kept_prefix, count_marked, deletable, kept, lemma_kept_index, lemma_kept_len, lemma_kept_member,
    lemma_maintenance_keeps_justifications, picked, remap_move, remapped, removal_mask, shifted,
    DELETION_SCALE, MAINTENANCE_ONE_IN, deletable_total, maintenance_mask,
};
use crate::analysis::{backjump_level, copy_lits, find_resolvable, has_lit, resolve_step, unmarked};

verus! {

/// One step of the search, as it stands on the trail or as the next move.
#[derive(Clone, Copy, Debug, PartialEq, Eq, Structural)]
pub enum SolverMove {
    /// `variable` (a literal) is forced by clause `clause`.
    Propagate { variable: i32, clause: usize },
    /// A free choice of a literal; it opens a decision level.
    Decide(i32),
    /// The negated decision asserted after a conflict, justified by the learnt clause.
    DecideFromConflict(i32, usize),
    /// Every clause holds.
    Sat(),
    /// The clause at this index is falsified.
    Conflict(usize),
}

/// The clause database, the trail of decision levels and the activity table.
pub struct SolverState {
    clauselist: Vec<Clause>,
    movelist: Vec<Vec<SolverMove>>,
    activitylist: Vec<u64>,
    vars: usize,
    pub original_clause_count: usize,
}

impl SolverState {
    /// The literals of each clause, by index.
    pub closed spec fn db(&self) -> Seq<Seq<i32>> {
        Seq::new(self.clauselist@.len(), |c: int| self.clauselist@[c].vars@)
    }

    /// The trail: its decision levels, each an ordered list of entries.
    pub closed spec fn trail(&self) -> Seq<Seq<SolverMove>> {
        Seq::new(self.movelist@.len(), |a: int| self.movelist@[a]@)
    }

    /// The activity score of each literal, at `act_index`.
    pub closed spec fn activity(&self) -> Seq<u64> {
        self.activitylist@
    }

    /// The number of clauses present at load; later ones are learnt.
    pub closed spec fn original_count(&self) -> nat {
        self.original_clause_count as nat
    }

    /// The number of leading clauses that are original ones.
    pub open spec fn original_prefix(&self) -> int {
        if self.original_count() < self.db().len() {
            self.original_count() as int
        } else {
            self.db().len() as int
        }
    }

    /// The number of variables.
    pub closed spec fn num_vars(&self) -> nat {
        self.vars as nat
    }

    /// The state is well formed: a score for each literal, valid clauses and a
    /// well-formed trail.
    pub open spec fn wf(&self) -> bool {
        &&& self.num_vars() <= i32::MAX
        &&& self.activity().len() == 2 * self.num_vars()
        &&& forall|c: int|
            0 <= c < self.db().len() ==> valid_lits(#[trigger] self.db()[c], self.num_vars() as int)
        &&& trail_wf(self.trail(), self.num_vars() as int, self.db().len() as int)
    }

    /// The valuation that the trail gives.
    pub open spec fn values(&self) -> Seq<Option<bool>> {
        valuation(self.trail(), self.num_vars())
    }

    /// `m` may be appended to the trail: an assignment of an open variable,
    /// justified by an existing clause, and a decision only on a fresh level.
    pub open spec fn can_append(&self, m: SolverMove) -> bool {
        &&& !(m is Sat)
        &&& !(m is Conflict)
        &&& valid_lit(move_lit(m), self.num_vars() as int)
        &&& (move_reason(m) matches Some(c) ==> c < self.db().len())
        &&& !on_trail(self.trail(), lit_var(move_lit(m)))
        &&& (m is Decide ==> self.trail().len() >= 2 && self.trail().last().len() == 0)
    }

    /// An empty state: no variables, clauses or trail.
    pub fn new() -> (s: SolverState)
        ensures
            s.wf(),
            s.db().len() == 0,
            s.trail().len() == 0,
            s.num_vars() == 0,
            s.original_count() == 0,
    {
        let s = SolverState {
            clauselist: Vec::new(),
            movelist: Vec::new(),
            vars: 0,
            activitylist: Vec::new(),
            original_clause_count: 0,
        };
        assert(s.trail() =~= Seq::<Seq<SolverMove>>::empty());
        s
    }

    /// Appends a clause to the database.
    pub fn add_clause(&mut self, clause: Clause)
        ensures
            final(self).db() == old(self).db().push(clause.vars@),
            final(self).trail() == old(self).trail(),
            final(self).activity() == old(self).activity(),
            final(self).num_vars() == old(self).num_vars(),
            final(self).original_count() == old(self).original_count(),
            old(self).wf() && valid_lits(clause.vars@, old(self).num_vars() as int)
                ==> final(self).wf(),
    {
        self.clauselist.push(clause);
        assert(self.db() =~= old(self).db().push(clause.vars@));
        assert(self.trail() =~= old(self).trail());
    }

    /// Appends `item` to the last level (opening the root level on an empty trail).
    pub fn add_move(&mut self, item: SolverMove)
        requires
            old(self).wf(),
            old(self).can_append(item),
        ensures
            final(self).wf(),
            final(self).trail() == appended(old(self).trail(), item),
            final(self).db() == old(self).db(),
            final(self).activity() == old(self).activity(),
            final(self).num_vars() == old(self).num_vars(),
            final(self).original_count() == old(self).original_count(),
    {
        let ghost t0 = self.trail();
        match self.movelist.pop() {
            Some(mut last_level) => {
                last_level.push(item);
                self.movelist.push(last_level);
            },
            None => {
                let mut level: Vec<SolverMove> = Vec::new();
                level.push(item);
                self.movelist.push(level);
            },
        }
        proof {
            let t1 = self.trail();
            if t0.len() == 0 {
                assert(t1 =~= seq![seq![item]]);
            } else {
                assert(t1 =~= t0.drop_last().push(t0.last().push(item)));
            }
            assert(self.db() =~= old(self).db());
            lemma_append_keeps_wf(t0, item, self.num_vars() as int, self.db().len() as int);
        }
    }

    /// Opens a new decision level (after an empty root level on an empty trail).
    pub fn add_decision_lv(&mut self)
        requires
            old(self).wf(),
        ensures
            final(self).wf(),
            final(self).trail() == opened(old(self).trail()),
            final(self).db() == old(self).db(),
            final(self).activity() == old(self).activity(),
            final(self).num_vars() == old(self).num_vars(),
            final(self).original_count() == old(self).original_count(),
    {
        let ghost t0 = self.trail();
        if self.movelist.len() == 0 {
            self.movelist.push(Vec::new());
        }
        self.movelist.push(Vec::new());
        proof {
            let t1 = self.trail();
            if t0.len() == 0 {
                assert(t1 =~= seq![Seq::<SolverMove>::empty(), Seq::<SolverMove>::empty()]);
            } else {
                assert(t1 =~= t0.push(Seq::<SolverMove>::empty()));
            }
            assert(self.db() =~= old(self).db());
            assert forall|a: int, i: int, b: int, j: int|
                is_entry(t1, a, i) && is_entry(t1, b, j) && lit_var(move_lit(#[trigger] t1[a][i]))
                    == lit_var(move_lit(#[trigger] t1[b][j])) implies a == b && i == j by {
                if t0.len() != 0 {
                    assert(t1[a][i] == t0[a][i]);
                    assert(t1[b][j] == t0[b][j]);
                }
            }
            assert forall|a: int, i: int| is_entry(t1, a, i) implies #[trigger] t1[a][i] == t0[a][i]
                && is_entry(t0, a, i) by {}
        }
    }

    /// Per-variable tables of the trail: literal assigned (0 where open),
    /// level and justification.
    fn trail_tables(&self) -> (r: (Vec<i32>, Vec<usize>, Vec<Option<usize>>))
        requires
            self.wf(),
        ensures
            tables_match(self.trail(), self.num_vars() as int, r.0@, r.1@, r.2@),
    {
        let ghost t = self.trail();
        let ghost n = self.num_vars() as int;
        let mut lits: Vec<i32> = Vec::new();
        let mut lvls: Vec<usize> = Vec::new();
        let mut rsns: Vec<Option<usize>> = Vec::new();
        let mut k: usize = 0;
        while k < self.vars
            invariant
                k <= self.vars,
                lits@.len() == k,
                lvls@.len() == k,
                rsns@.len() == k,
                forall|j: int| 0 <= j < k ==> #[trigger] lits@[j] == 0,
            decreases self.vars - k,
        {
            lits.push(0);
            lvls.push(0);
            rsns.push(None);
            k = k + 1;
        }
        let mut a: usize = 0;
        while a < self.movelist.len()
            invariant
                self.wf(),
                t == self.trail(),
                n == self.num_vars(),
                a <= t.len(),
                lits@.len() == n,
                lvls@.len() == n,
                rsns@.len() == n,
                forall|b: int, i: int|
                    is_entry(t, b, i) && b < a ==> {
                        let k = lit_var(move_lit(#[trigger] t[b][i])) - 1;
                        &&& lits@[k] == move_lit(t[b][i])
                        &&& lvls@[k] == b
                        &&& rsns@[k] == move_reason(t[b][i])
                    },
                forall|k: int|
                    0 <= k < n && #[trigger] lits@[k] != 0 ==> exists|b: int, i: int|
                        is_entry(t, b, i) && b < a && lit_var(move_lit(#[trigger] t[b][i])) == k + 1,
            decreases t.len() - a,
        {
            let mut i: usize = 0;
            while i < self.movelist[a].len()
                invariant
                    self.wf(),
                    t == self.trail(),
                    n == self.num_vars(),
                    a < t.len(),
                    i <= t[a as int].len(),
                    lits@.len() == n,
                    lvls@.len() == n,
                    rsns@.len() == n,
                    forall|b: int, j: int|
                        is_entry(t, b, j) && (b < a || (b == a && j < i)) ==> {
                            let k = lit_var(move_lit(#[trigger] t[b][j])) - 1;
                            &&& lits@[k] == move_lit(t[b][j])
                            &&& lvls@[k] == b
                            &&& rsns@[k] == move_reason(t[b][j])
                        },
                    forall|k: int|
                        0 <= k < n && #[trigger] lits@[k] != 0 ==> exists|b: int, j: int|
                            is_entry(t, b, j) && (b < a || (b == a && j < i)) && lit_var(
                                move_lit(#[trigger] t[b][j]),
                            ) == k + 1,
                decreases t[a as int].len() - i,
            {
                let m = self.movelist[a][i];
                assert(m == t[a as int][i as int]);
                assert(is_entry(t, a as int, i as int));
                let (l, rsn): (i32, Option<usize>) = match m {
                    SolverMove::Propagate { variable, clause } => (variable, Some(clause)),
                    SolverMove::Decide(variable) => (variable, None),
                    SolverMove::DecideFromConflict(variable, clause) => (variable, Some(clause)),
                    SolverMove::Sat() => (0, None),
                    SolverMove::Conflict(_) => (0, None),
                };
                let v = var_of(l);
                lits.set(v - 1, l);
                lvls.set(v - 1, a);
                rsns.set(v - 1, rsn);
                proof {
                    assert forall|b: int, j: int|
                        is_entry(t, b, j) && (b < a || (b == a && j < i + 1)) implies {
                            let k = lit_var(move_lit(#[trigger] t[b][j])) - 1;
                            &&& lits@[k] == move_lit(t[b][j])
                            &&& lvls@[k] == b
                            &&& rsns@[k] == move_reason(t[b][j])
                        } by {
                        if lit_var(move_lit(t[b][j])) == v {
                            assert(b == a && j == i);
                        }
                    }
                    assert forall|k: int| 0 <= k < n && #[trigger] lits@[k] != 0 implies exists|
                        b: int,
                        j: int,
                    |
                        is_entry(t, b, j) && (b < a || (b == a && j < i + 1)) && lit_var(
                            move_lit(#[trigger] t[b][j]),
                        ) == k + 1 by {
                        if k == v - 1 {
                            assert(is_entry(t, a as int, i as int) && lit_var(
                                move_lit(t[a as int][i as int]),
                            ) == k + 1);
                        }
                    }
                }
                i = i + 1;
            }
            a = a + 1;
        }
        (lits, lvls, rsns)
    }

    /// The valuation that the trail gives.
    pub fn assignment(&self) -> (r: Assignment)
        requires
            self.wf(),
        ensures
            r@ == self.values(),
    {
        let (lits, _lvls, _rsns) = self.trail_tables();
        let mut values: Vec<Option<bool>> = Vec::new();
        let mut k: usize = 0;
        while k < self.vars
            invariant
                self.wf(),
                k <= self.vars,
                lits@.len() == self.vars,
                tables_match(self.trail(), self.num_vars() as int, lits@, _lvls@, _rsns@),
                values@.len() == k,
                forall|j: int| 0 <= j < k ==> #[trigger] values@[j] == trail_value(self.trail(), j + 1),
            decreases self.vars - k,
        {
            proof {
                lemma_tables_valuation(
                    self.trail(),
                    self.num_vars() as int,
                    self.db().len() as int,
                    lits@,
                    _lvls@,
                    _rsns@,
                    k as int,
                );
            }
            if lits[k] != 0 {
                values.push(Some(lits[k] > 0));
            } else {
                values.push(None);
            }
            k = k + 1;
        }
        assert(values@ =~= self.values());
        Assignment::from_values(values)
    }

    /// The position of a literal's score in the activity table.
    fn activity_index(&self, var: i32) -> (k: usize)
        requires
            self.wf(),
            valid_lit(var, self.num_vars() as int),
        ensures
            k == act_index(var, self.num_vars() as int),
            k < self.activity().len(),
    {
        let v = var_of(var);
        if var > 0 {
            v - 1
        } else {
            v - 1 + self.vars
        }
    }

    fn bump_activity(&mut self, var: i32)
        requires
            old(self).wf(),
            valid_lit(var, old(self).num_vars() as int),
        ensures
            final(self).wf(),
            final(self).activity() == old(self).activity().update(
                act_index(var, old(self).num_vars() as int),
                bumped(old(self).activity()[act_index(var, old(self).num_vars() as int)]),
            ),
            final(self).db() == old(self).db(),
            final(self).trail() == old(self).trail(),
            final(self).num_vars() == old(self).num_vars(),
            final(self).original_count() == old(self).original_count(),
    {
        let k = self.activity_index(var);
        let score = self.activitylist[k];
        let next = if score > u64::MAX - ACTIVITY_BUMP {
            u64::MAX
        } else {
            score + ACTIVITY_BUMP
        };
        self.activitylist.set(k, next);
        assert(self.db() =~= old(self).db());
        assert(self.trail() =~= old(self).trail());
    }

    /// Bumps each literal of `lits`, once per occurrence.
    fn bump_all_activity(&mut self, lits: &Vec<i32>)
        requires
            old(self).wf(),
            valid_lits(lits@, old(self).num_vars() as int),
        ensures
            final(self).wf(),
            final(self).activity() == bump_all(
                old(self).activity(),
                lits@,
                old(self).num_vars() as int,
            ),
            final(self).db() == old(self).db(),
            final(self).trail() == old(self).trail(),
            final(self).num_vars() == old(self).num_vars(),
            final(self).original_count() == old(self).original_count(),
    {
        let mut i: usize = 0;
        while i < lits.len()
            invariant
                self.wf(),
                i <= lits@.len(),
                valid_lits(lits@, self.num_vars() as int),
                self.activity() == bump_all(
                    old(self).activity(),
                    lits@.take(i as int),
                    self.num_vars() as int,
                ),
                self.db() == old(self).db(),
                self.trail() == old(self).trail(),
                self.num_vars() == old(self).num_vars(),
                self.original_count() == old(self).original_count(),
            decreases lits@.len() - i,
        {
            assert(lits@.take(i + 1).drop_last() =~= lits@.take(i as int));
            assert(valid_lit(lits@[i as int], self.num_vars() as int));
            self.bump_activity(lits[i]);
            i = i + 1;
        }
        assert(lits@.take(lits@.len() as int) =~= lits@);
    }

    /// Halves every score.
    fn decay_activity(&mut self)
        requires
            old(self).wf(),
        ensures
            final(self).wf(),
            final(self).activity() == decayed(old(self).activity()),
            final(self).db() == old(self).db(),
            final(self).trail() == old(self).trail(),
            final(self).num_vars() == old(self).num_vars(),
            final(self).original_count() == old(self).original_count(),
    {
        let mut k: usize = 0;
        while k < self.activitylist.len()
            invariant
                self.wf(),
                k <= self.activity().len(),
                self.activity().len() == old(self).activity().len(),
                forall|j: int| 0 <= j < k ==> #[trigger] self.activity()[j] == old(self).activity()[j] / 2,
                forall|j: int| k <= j < self.activity().len() ==> #[trigger] self.activity()[j] == old(self).activity()[j],
                self.db() == old(self).db(),
                self.trail() == old(self).trail(),
                self.num_vars() == old(self).num_vars(),
                self.original_count() == old(self).original_count(),
            decreases self.activity().len() - k,
        {
            let score = self.activitylist[k];
            self.activitylist.set(k, score / 2);
            assert(self.db() =~= old(self).db());
            assert(self.trail() =~= old(self).trail());
            k = k + 1;
        }
        assert(self.activity() =~= decayed(old(self).activity()));
    }

    /// The score of literal `var`.
    pub fn get_activity(&self, var: i32) -> (r: u64)
        requires
            self.wf(),
            valid_lit(var, self.num_vars() as int),
        ensures
            r == self.activity()[act_index(var, self.num_vars() as int)],
    {
        let k = self.activity_index(var);
        self.activitylist[k]
    }

    /// The clause database.
    pub fn clauselist(&self) -> (r: &Vec<Clause>)
        ensures
            r@.len() == self.db().len(),
            forall|c: int| 0 <= c < r@.len() ==> #[trigger] r@[c].vars@ == self.db()[c],
    {
        &self.clauselist
    }

    /// The number of clauses.
    pub fn clauses(&self) -> (r: usize)
        ensures
            r == self.db().len(),
    {
        self.clauselist.len()
    }

    /// The trail's entries in order, level after level.
    pub fn get_movelist(&self) -> (r: Vec<SolverMove>)
        ensures
            r@ == self.trail().flatten(),
    {
        let ghost t = self.trail();
        let mut moves: Vec<SolverMove> = Vec::new();
        let mut a: usize = 0;
        while a < self.movelist.len()
            invariant
                t == self.trail(),
                a <= t.len(),
                moves@ == t.take(a as int).flatten(),
            decreases t.len() - a,
        {
            let mut i: usize = 0;
            while i < self.movelist[a].len()
                invariant
                    t == self.trail(),
                    a < t.len(),
                    i <= t[a as int].len(),
                    moves@ == t.take(a as int).flatten() + t[a as int].take(i as int),
                decreases t[a as int].len() - i,
            {
                moves.push(self.movelist[a][i]);
                assert(t[a as int].take(i + 1) =~= t[a as int].take(i as int).push(t[a as int][i as int]));
                i = i + 1;
            }
            proof {
                assert(t[a as int].take(i as int) =~= t[a as int]);
                assert(t.take(a + 1) =~= t.take(a as int).push(t[a as int]));
                t.take(a as int).lemma_flatten_push(t[a as int]);
            }
            a = a + 1;
        }
        assert(t.take(a as int) =~= t);
        moves
    }

    /// Conflict analysis on the falsified clause `clause_index`: bumps its
    /// literals; then, where the last level is a decision level, resolves
    /// away every literal whose negation that level propagated, learns what
    /// is left, cuts the trail back to the second-highest level of the learnt
    /// literals plus one (to nothing for a single literal), asserts the
    /// negated decision there, justified by the learnt clause, and halves
    /// every score. Returns false, with only the bump done, where the last
    /// level holds no decision.
    #[verifier::rlimit(30)]
    pub fn learn_from_conflict(&mut self, clause_index: usize) -> (ok: bool)
        requires
            old(self).wf(),
            clause_index < old(self).db().len(),
        ensures
            final(self).wf(),
            final(self).num_vars() == old(self).num_vars(),
            final(self).original_count() == old(self).original_count(),
            ok == has_open_decision(old(self).trail()),
            !ok ==> final(self).trail() == old(self).trail() && final(self).db() == old(self).db()
                && final(self).activity() == bump_all(
                old(self).activity(),
                old(self).db()[clause_index as int],
                old(self).num_vars() as int,
            ),
            ok ==> {
                let t = old(self).trail();
                let d = move_lit(t.last()[0]);
                let learnt = final(self).db().last();
                let entry = SolverMove::DecideFromConflict((-d) as i32, old(self).db().len() as usize);
                &&& final(self).db() == old(self).db().push(learnt)
                &&& final(self).activity() == decayed(
                    bump_all(
                        old(self).activity(),
                        old(self).db()[clause_index as int],
                        old(self).num_vars() as int,
                    ),
                )
                &&& learnt.no_duplicates()
                &&& forall|k: int, i: int|
                    0 <= k < learnt.len() && 0 <= i < t.last().len() && move_lit(#[trigger] t.last()[i]) as int
                        == -(#[trigger] learnt[k] as int) ==> learnt[k] as int == -(d as int)
                &&& exists|bl: int|
                    0 <= bl < t.len() && is_backjump_level(t, learnt, bl) && final(self).trail() == backjumped(
                        t,
                        bl,
                        entry,
                    )
                &&& final(self).trail().len() < t.len()
                &&& final(self).trail().last().len() > 0
                &&& final(self).trail().last().last() == entry
                &&& learnt.contains((-d) as i32) ==> crate::clause::evaluate(learnt, final(self).values())
                    == Some(crate::clause::AssignmentResult::Sat())
            },
    {
        let ghost n = self.num_vars() as int;
        let ghost t = self.trail();
        let ghost nc = self.db().len() as int;
        assert(valid_lits(self.db()[clause_index as int], n));
        let conflict = copy_lits(&self.clauselist[clause_index].vars);
        self.bump_all_activity(&conflict);
        let nl = self.movelist.len();
        if nl < 2 {
            return false;
        }
        if self.movelist[nl - 1].len() == 0 {
            assert(t.last().len() == 0);
            return false;
        }
        let d: i32 = match self.movelist[nl - 1][0] {
            SolverMove::Decide(l) => l,
            _ => {
                assert(!(t.last()[0] is Decide));
                return false;
            },
        };
        let current = nl - 1;
        assert(is_entry(t, current as int, 0));
        assert(valid_lit(d, n));
        let (lits, lvls, rsns) = self.trail_tables();

        // The working set: the conflict clause without the decision, each literal once.
        let mut work: Vec<i32> = Vec::new();
        let mut i: usize = 0;
        while i < conflict.len()
            invariant
                i <= conflict@.len(),
                valid_lits(conflict@, n),
                valid_lits(work@, n),
                work@.no_duplicates(),
            decreases conflict@.len() - i,
        {
            let x = conflict[i];
            assert(valid_lit(conflict@[i as int], n));
            if x != d && !has_lit(&work, x) {
                work.push(x);
            }
            i = i + 1;
        }

        // Resolution: replace each resolvable literal by its reason's other literals.
        let mut marks: Vec<bool> = Vec::new();
        let mut k: usize = 0;
        while k < self.vars
            invariant
                k <= self.vars,
                marks@.len() == k,
                forall|j: int| 0 <= j < k ==> !#[trigger] marks@[j],
            decreases self.vars - k,
        {
            marks.push(false);
            k = k + 1;
        }
        assert forall|k: int| 0 <= k < work@.len() implies !marks@[lit_var(#[trigger] work@[k]) - 1] by {
            assert(valid_lit(work@[k], n));
        }
        let ghost mut marked: Set<int> = Set::empty();
        let mut nmarked: usize = 0;
        let mut pick = find_resolvable(&work, &lits, &lvls, &rsns, current, Ghost(n));
        while pick.is_some()
            invariant
                self.wf(),
                t == self.trail(),
                nc == self.db().len(),
                n == self.num_vars(),
                current == t.len() - 1,
                has_open_decision(t),
                d == move_lit(t.last()[0]),
                tables_match(t, n, lits@, lvls@, rsns@),
                valid_lits(work@, n),
                work@.no_duplicates(),
                unmarked(work@, marks@),
                marks@.len() == n,
                forall|j: int| 0 <= j < n ==> (#[trigger] marks@[j] <==> marked.contains(j)),
                marked.finite(),
                marked.subset_of(vstd::set_lib::set_int_range(0, n)),
                marked.len() == nmarked,
                nmarked <= n,
                pick matches Some((j, c)) ==> j < work@.len() && resolvable(
                    work@[j as int],
                    lits@,
                    lvls@,
                    rsns@,
                    current as int,
                ) && rsns@[lit_var(work@[j as int]) - 1] == Some(c),
                pick is None ==> forall|j: int|
                    0 <= j < work@.len() ==> !resolvable(#[trigger] work@[j], lits@, lvls@, rsns@, current as int),
            decreases n - nmarked,
        {
            let (j, c) = match pick {
                Some(p) => p,
                None => (0, 0),
            };
            let x = work[j];
            assert(valid_lit(work@[j as int], n));
            let v = var_of(x);
            proof {
                let kk = v - 1;
                assert(lits@[kk] != 0);
                let (a, i) = choose|a: int, i: int| is_entry(t, a, i) && lit_var(move_lit(#[trigger] t[a][i])) == kk + 1;
                assert(rsns@[kk] == move_reason(t[a][i]));
                assert(c < nc);
                assert(!marks@[kk]);
            }
            let ghost before = marks@;
            marks.set(v - 1, true);
            proof {
                marked = marked.insert(v - 1);
                vstd::set_lib::lemma_int_range(0, n);
                vstd::set_lib::lemma_len_subset(marked, vstd::set_lib::set_int_range(0, n));
                assert forall|k: int| 0 <= k < work@.len() implies lit_var(#[trigger] work@[k]) == v || !marks@[lit_var(work@[k]) - 1] by {
                    assert(valid_lit(work@[k], n));
                    assert(!before[lit_var(work@[k]) - 1]);
                }
            }
            nmarked = nmarked + 1;
            assert(valid_lits(self.db()[c as int], n));
            let reason = copy_lits(&self.clauselist[c].vars);
            work = resolve_step(&work, v, &reason, &marks, Ghost(n));
            pick = find_resolvable(&work, &lits, &lvls, &rsns, current, Ghost(n));
        }

        // The backjump level: one above the second-highest level among the learnt literals.
        let bl = backjump_level(&work, &lits, &lvls, &rsns, current, d, Ghost(t), Ghost(n), Ghost(nc));

        proof {
            assert forall|k: int, ii: int|
                0 <= k < work@.len() && 0 <= ii < t.last().len() && move_lit(#[trigger] t.last()[ii]) as int
                    == -(#[trigger] work@[k] as int) implies work@[k] as int == -(d as int) by {
                assert(is_entry(t, t.len() - 1, ii));
                assert(valid_lit(work@[k], n));
                lemma_current_level_decision(t, n, nc, lits@, lvls@, rsns@, work@[k]);
            }
        }
        let ghost learnt = work@;
        let learnt_index = self.clauselist.len();
        self.clauselist.push(Clause::from_vec(work));
        let total = self.clauselist.len();
        assert(total == nc + 1);
        let entry = SolverMove::DecideFromConflict(-d, learnt_index);
        if bl == 0 {
            let mut root: Vec<SolverMove> = Vec::new();
            root.push(entry);
            let mut levels: Vec<Vec<SolverMove>> = Vec::new();
            levels.push(root);
            self.movelist = levels;
        } else {
            self.movelist.truncate(bl);
            match self.movelist.pop() {
                Some(mut last_level) => {
                    last_level.push(entry);
                    self.movelist.push(last_level);
                },
                None => {},
            }
        }
        proof {
            assert(self.trail() =~= backjumped(t, bl as int, entry));
            assert(self.db() =~= old(self).db().push(learnt));
            lemma_backjump_wf(t, n, nc, bl as int, d, learnt_index, nc + 1);
            assert(is_backjump_level(t, learnt, bl as int));
            let t1 = self.trail();
            assert(t1.last().last() == entry);
            if learnt.contains((-d) as i32) {
                let kk = choose|kk: int| 0 <= kk < learnt.len() && learnt[kk] == (-d) as i32;
                let top = t1.len() - 1;
                let last = t1[top].len() - 1;
                assert(t1[top][last] == entry);
                lemma_entry_value(t1, top, last);
                assert(self.values()[lit_var(d) - 1] == trail_value(t1, lit_var(d)));
                assert(crate::literal::lit_value(learnt[kk], self.values()) == Some(true));
            }
        }
        self.decay_activity();
        true
    }

    /// The number of clauses that maintenance may remove now.
    pub open spec fn deletable_count(&self) -> nat {
        deletable_total(self.trail(), self.original_count() as int, self.db().len() as int)
    }

    /// The learnt clauses that justify no trail entry, in increasing order.
    #[verifier::rlimit(30)]
    pub fn find_deletable_clauses(&self) -> (r: Vec<usize>)
        requires
            self.wf(),
        ensures
            forall|k: int|
                0 <= k < r@.len() ==> deletable(
                    self.trail(),
                    self.original_count() as int,
                    self.db().len() as int,
                    #[trigger] r@[k] as int,
                ),
            forall|c: int|
                deletable(self.trail(), self.original_count() as int, self.db().len() as int, c)
                    ==> #[trigger] r@.contains(c as usize),
            forall|i: int, j: int| 0 <= i < j < r@.len() ==> #[trigger] r@[i] < #[trigger] r@[j],
            r@.len() == self.deletable_count(),
    {
        let ghost t = self.trail();
        let nc = self.clauselist.len();
        let mut lk: Vec<bool> = Vec::new();
        let mut c: usize = 0;
        while c < nc
            invariant
                c <= nc,
                lk@.len() == c,
                forall|j: int| 0 <= j < c ==> !#[trigger] lk@[j],
            decreases nc - c,
        {
            lk.push(false);
            c = c + 1;
        }
        let mut a: usize = 0;
        while a < self.movelist.len()
            invariant
                self.wf(),
                t == self.trail(),
                nc == self.db().len(),
                a <= t.len(),
                lk@.len() == nc,
                forall|j: int|
                    0 <= j < nc ==> (#[trigger] lk@[j] <==> exists|b: int, i: int|
                        is_entry(t, b, i) && b < a && move_reason(#[trigger] t[b][i]) == Some(j as usize)),
            decreases t.len() - a,
        {
            let mut i: usize = 0;
            while i < self.movelist[a].len()
                invariant
                    self.wf(),
                    t == self.trail(),
                    nc == self.db().len(),
                    a < t.len(),
                    i <= t[a as int].len(),
                    lk@.len() == nc,
                    forall|j: int|
                        0 <= j < nc ==> (#[trigger] lk@[j] <==> exists|b: int, ii: int|
                            is_entry(t, b, ii) && (b < a || (b == a && ii < i)) && move_reason(
                                #[trigger] t[b][ii],
                            ) == Some(j as usize)),
                decreases t[a as int].len() - i,
            {
                let m = self.movelist[a][i];
                assert(m == t[a as int][i as int]);
                assert(is_entry(t, a as int, i as int));
                let rsn: Option<usize> = match m {
                    SolverMove::Propagate { variable: _, clause } => Some(clause),
                    SolverMove::DecideFromConflict(_, clause) => Some(clause),
                    _ => None,
                };
                let ghost before = lk@;
                match rsn {
                    Some(cl) => {
                        lk.set(cl, true);
                    },
                    None => {},
                }
                proof {
                    assert forall|j: int| 0 <= j < nc implies (#[trigger] lk@[j] <==> exists|b: int, ii: int|
                        is_entry(t, b, ii) && (b < a || (b == a && ii < i + 1)) && move_reason(
                            #[trigger] t[b][ii],
                        ) == Some(j as usize)) by {
                        if rsn == Some(j as usize) {
                            assert(is_entry(t, a as int, i as int) && move_reason(t[a as int][i as int]) == Some(j as usize));
                        } else if before[j] {
                            let (b, ii) = choose|b: int, ii: int|
                                is_entry(t, b, ii) && (b < a || (b == a && ii < i)) && move_reason(
                                    #[trigger] t[b][ii],
                                ) == Some(j as usize);
                        } else {
                            assert forall|b: int, ii: int|
                                is_entry(t, b, ii) && (b < a || (b == a && ii < i + 1)) implies move_reason(
                                    #[trigger] t[b][ii],
                                ) != Some(j as usize) by {
                                if b == a && ii == i {
                                } else {
                                    assert(!(is_entry(t, b, ii) && (b < a || (b == a && ii < i)) && move_reason(t[b][ii]) == Some(j as usize)));
                                }
                            }
                        }
                    }
                }
                i = i + 1;
            }
            proof {
                assert forall|j: int| 0 <= j < nc implies (#[trigger] lk@[j] <==> exists|b: int, ii: int|
                    is_entry(t, b, ii) && b < a + 1 && move_reason(#[trigger] t[b][ii]) == Some(j as usize)) by {
                    if lk@[j] {
                        let (b, ii) = choose|b: int, ii: int|
                            is_entry(t, b, ii) && (b < a || (b == a && ii < t[a as int].len())) && move_reason(
                                #[trigger] t[b][ii],
                            ) == Some(j as usize);
                    } else {
                        assert forall|b: int, ii: int| is_entry(t, b, ii) && b < a + 1 implies move_reason(
                            #[trigger] t[b][ii],
                        ) != Some(j as usize) by {
                            assert(!(is_entry(t, b, ii) && (b < a || (b == a && ii < t[a as int].len())) && move_reason(t[b][ii]) == Some(j as usize)));
                        }
                    }
                }
            }
            a = a + 1;
        }
        let ghost orig = self.original_count() as int;
        proof {
            assert forall|j: int| 0 <= j < nc implies (#[trigger] lk@[j] <==> locked(t, j)) by {
                if locked(t, j) {
                    let (b, ii) = choose|b: int, ii: int| is_entry(t, b, ii) && move_reason(#[trigger] t[b][ii]) == Some(j as usize);
                    assert(is_entry(t, b, ii) && b < a && move_reason(t[b][ii]) == Some(j as usize));
                }
            }
        }
        let mut r: Vec<usize> = Vec::new();
        let mut c: usize = self.original_clause_count;
        while c < nc
            invariant
                self.wf(),
                t == self.trail(),
                nc == self.db().len(),
                orig == self.original_count(),
                orig <= c || nc <= c,
                lk@.len() == nc,
                forall|j: int| 0 <= j < nc ==> (#[trigger] lk@[j] <==> locked(t, j)),
                forall|k: int| 0 <= k < r@.len() ==> deletable(t, orig, nc as int, #[trigger] r@[k] as int) && r@[k] < c,
                forall|j: int| orig <= j < c && deletable(t, orig, nc as int, j) ==> #[trigger] r@.contains(j as usize),
                forall|i: int, j: int| 0 <= i < j < r@.len() ==> #[trigger] r@[i] < #[trigger] r@[j],
            decreases nc - c,
        {
            if !lk[c] {
                let ghost before = r@;
                r.push(c);
                proof {
                    assert forall|j: int| orig <= j < c + 1 && deletable(t, orig, nc as int, j) implies #[trigger] r@.contains(j as usize) by {
                        if j == c {
                            assert(r@[r@.len() - 1] == c);
                        } else {
                            assert(before.contains(j as usize));
                            let k = choose|k: int| 0 <= k < before.len() && before[k] == j as usize;
                            assert(r@[k] == j as usize);
                        }
                    }
                }
            }
            c = c + 1;
        }
        proof {
            let s = Set::new(|c: usize| deletable(t, orig, nc as int, c as int));
            assert(r@.no_duplicates());
            r@.unique_seq_to_set();
            assert forall|x: usize| s.contains(x) <==> r@.to_set().contains(x) by {
                if s.contains(x) {
                    assert(deletable(t, orig, nc as int, x as int));
                    assert(orig <= x as int && (x as int) < c);
                    assert(r@.contains((x as int) as usize));
                }
                if r@.contains(x) {
                    let k = choose|k: int| 0 <= k < r@.len() && r@[k] == x;
                    assert(deletable(t, orig, nc as int, r@[k] as int));
                }
            }
            assert(r@.to_set() =~= s);
        }
        r
    }

    /// Removes the clauses at `indexes` (learnt ones that justify no trail
    /// entry) and renumbers every justification to match: an index moves down
    /// by the number of removed indices below it.
    #[verifier::rlimit(30)]
    pub fn forget_clause(&mut self, indexes: &Vec<usize>)
        requires
            old(self).wf(),
            forall|k: int|
                0 <= k < indexes@.len() ==> deletable(
                    old(self).trail(),
                    old(self).original_count() as int,
                    old(self).db().len() as int,
                    #[trigger] indexes@[k] as int,
                ),
        ensures
            final(self).wf(),
            final(self).db() == kept(old(self).db(), removal_mask(indexes@, old(self).db().len() as int)),
            final(self).trail() == remapped(
                old(self).trail(),
                removal_mask(indexes@, old(self).db().len() as int),
            ),
            final(self).activity() == old(self).activity(),
            final(self).num_vars() == old(self).num_vars(),
            final(self).original_count() == old(self).original_count(),
            final(self).db().take(old(self).original_prefix()) == old(self).db().take(old(self).original_prefix()),
            final(self).db().len() >= old(self).original_prefix(),
    {
        let ghost t = self.trail();
        let ghost db0 = self.db();
        let ghost n = self.num_vars() as int;
        let nc = self.clauselist.len();
        let ghost m = removal_mask(indexes@, nc as int);

        let mut mask: Vec<bool> = Vec::new();
        let mut c: usize = 0;
        while c < nc
            invariant
                c <= nc,
                mask@.len() == c,
                forall|j: int| 0 <= j < c ==> !#[trigger] mask@[j],
            decreases nc - c,
        {
            mask.push(false);
            c = c + 1;
        }
        let mut k: usize = 0;
        while k < indexes.len()
            invariant
                k <= indexes@.len(),
                nc == db0.len(),
                forall|j: int|
                    0 <= j < indexes@.len() ==> deletable(t, self.original_count() as int, nc as int, #[trigger] indexes@[j] as int),
                mask@.len() == nc,
                forall|j: int| 0 <= j < nc ==> (#[trigger] mask@[j] <==> indexes@.take(k as int).contains(j as usize)),
            decreases indexes@.len() - k,
        {
            let x = indexes[k];
            assert(deletable(t, self.original_count() as int, nc as int, indexes@[k as int] as int));
            mask.set(x, true);
            proof {
                let s0 = indexes@.take(k as int);
                let s1 = indexes@.take(k + 1);
                assert(s1 =~= s0.push(x));
                assert forall|j: int| 0 <= j < nc implies (#[trigger] mask@[j] <==> s1.contains(j as usize)) by {
                    if s0.contains(j as usize) {
                        let w = choose|w: int| 0 <= w < s0.len() && s0[w] == j as usize;
                        assert(s1[w] == j as usize);
                    }
                    if j == x {
                        assert(s1[k as int] == x);
                    }
                    if s1.contains(j as usize) && j != x {
                        let w = choose|w: int| 0 <= w < s1.len() && s1[w] == j as usize;
                        assert(s0[w] == j as usize);
                    }
                }
            }
            k = k + 1;
        }
        assert(indexes@.take(indexes@.len() as int) =~= indexes@);
        assert(mask@ =~= m);

        // New index of each clause.
        let mut new_index: Vec<usize> = Vec::new();
        let mut below: usize = 0;
        let mut c: usize = 0;
        while c < nc
            invariant
                c <= nc,
                mask@ == m,
                m.len() == nc,
                new_index@.len() == c,
                below == count_marked(m.take(c as int)),
                below <= c,
                forall|j: int| 0 <= j < c ==> #[trigger] new_index@[j] == shifted(m, j),
            decreases nc - c,
        {
            new_index.push(c - below);
            assert(m.take(c + 1).drop_last() =~= m.take(c as int));
            if mask[c] {
                below = below + 1;
            }
            c = c + 1;
        }

        // Renumber the justifications on the trail.
        let mut levels: Vec<Vec<SolverMove>> = Vec::new();
        let mut a: usize = 0;
        while a < self.movelist.len()
            invariant
                self.wf(),
                t == self.trail(),
                nc == self.db().len(),
                m.len() == nc,
                new_index@.len() == nc,
                forall|j: int| 0 <= j < nc ==> #[trigger] new_index@[j] == shifted(m, j),
                a <= t.len(),
                levels@.len() == a,
                forall|b: int| 0 <= b < a ==> #[trigger] levels@[b]@ == remapped(t, m)[b],
            decreases t.len() - a,
        {
            let mut level: Vec<SolverMove> = Vec::new();
            let mut i: usize = 0;
            while i < self.movelist[a].len()
                invariant
                    self.wf(),
                    t == self.trail(),
                    nc == self.db().len(),
                    m.len() == nc,
                    new_index@.len() == nc,
                    forall|j: int| 0 <= j < nc ==> #[trigger] new_index@[j] == shifted(m, j),
                    a < t.len(),
                    i <= t[a as int].len(),
                    level@.len() == i,
                    forall|j: int| 0 <= j < i ==> #[trigger] level@[j] == remap_move(t[a as int][j], m),
                decreases t[a as int].len() - i,
            {
                let mv = self.movelist[a][i];
                assert(mv == t[a as int][i as int]);
                assert(is_entry(t, a as int, i as int));
                let moved = match mv {
                    SolverMove::Propagate { variable, clause } => SolverMove::Propagate {
                        variable,
                        clause: new_index[clause],
                    },
                    SolverMove::DecideFromConflict(l, clause) => SolverMove::DecideFromConflict(
                        l,
                        new_index[clause],
                    ),
                    other => other,
                };
                level.push(moved);
                i = i + 1;
            }
            assert(level@ =~= remapped(t, m)[a as int]);
            levels.push(level);
            a = a + 1;
        }
        self.movelist = levels;
        assert(self.trail() =~= remapped(t, m));

        // Remove the marked clauses, from the lowest index up.
        let mut i: usize = 0;
        let mut j: usize = 0;
        while i < nc
            invariant
                i <= nc,
                nc == db0.len(),
                m.len() == nc,
                mask@ == m,
                self.db() == kept(db0.take(i as int), m.take(i as int)) + db0.skip(i as int),
                j == kept(db0.take(i as int), m.take(i as int)).len(),
                j <= i,
                self.trail() == remapped(t, m),
                self.activity() == old(self).activity(),
                self.num_vars() == old(self).num_vars(),
                self.original_count() == old(self).original_count(),
            decreases nc - i,
        {
            let ghost kk = kept(db0.take(i as int), m.take(i as int));
            proof {
                lemma_kept_len(db0.take(i as int), m.take(i as int));
                let s = db0.take(i + 1);
                assert(s.drop_last() =~= db0.take(i as int));
                assert(m.take(i + 1).take(i as int) =~= m.take(i as int));
                assert(db0.skip(i as int) =~= seq![db0[i as int]] + db0.skip(i + 1));
            }
            assert(db0.skip(i as int).len() == nc - i);
            assert(self.clauselist@.len() == self.db().len());
            if mask[i] {
                let ghost before = self.db();
                self.clauselist.remove(j);
                assert(self.db() =~= before.remove(j as int));
                assert(self.db() =~= kk + db0.skip(i + 1));
            } else {
                assert(kk + db0.skip(i as int) =~= kk.push(db0[i as int]) + db0.skip(i + 1));
                j = j + 1;
            }
            i = i + 1;
        }
        proof {
            assert(db0.take(nc as int) =~= db0);
            assert(m.take(nc as int) =~= m);
            assert(self.db() =~= kept(db0, m));
            lemma_kept_len(db0, m);
            assert forall|c: int|
                0 <= c < old(self).original_count() && c < old(self).db().len() implies c < self.db().len()
                    && self.db()[c] == #[trigger] old(self).db()[c] by {
                assert forall|j: int| 0 <= j <= c implies !#[trigger] m[j] by {
                    if m[j] {
                        let w = choose|w: int| 0 <= w < indexes@.len() && indexes@[w] == j as usize;
                        assert(deletable(t, old(self).original_count() as int, db0.len() as int, indexes@[w] as int));
                    }
                }
                lemma_kept_prefix(db0, m, c);
            }
            let pfx = old(self).original_prefix();
            if pfx > 0 {
                assert(self.db()[pfx - 1] == old(self).db()[pfx - 1]);
            }
            assert(self.db().len() >= pfx);
            assert(self.db().take(pfx) =~= old(self).db().take(pfx));
            let db1 = self.db();
            let t1 = self.trail();
            assert forall|c: int| 0 <= c < db1.len() implies valid_lits(#[trigger] db1[c], n) by {
                lemma_kept_member(db0, m, c);
            }
            assert forall|a: int, i: int| is_entry(t1, a, i) implies {
                &&& !(#[trigger] t1[a][i] is Sat)
                &&& !(t1[a][i] is Conflict)
                &&& valid_lit(move_lit(t1[a][i]), n)
                &&& (move_reason(t1[a][i]) matches Some(c) ==> c < db1.len())
                &&& (t1[a][i] is Decide ==> a >= 1 && i == 0)
            } by {
                assert(is_entry(t, a, i));
                assert(t1[a][i] == remap_move(t[a][i], m));
                if move_reason(t[a][i]) is Some {
                    lemma_maintenance_keeps_justifications(db0, t, indexes@, a, i);
                    let c = move_reason(t[a][i])->Some_0;
                    lemma_kept_index(db0, m, c as int);
                }
            }
            assert forall|a: int, i: int, b: int, j: int|
                is_entry(t1, a, i) && is_entry(t1, b, j) && lit_var(move_lit(#[trigger] t1[a][i])) == lit_var(
                    move_lit(#[trigger] t1[b][j]),
                ) implies a == b && i == j by {
                assert(t1[a][i] == remap_move(t[a][i], m));
                assert(t1[b][j] == remap_move(t[b][j], m));
                assert(is_entry(t, a, i) && is_entry(t, b, j));
            }
        }
    }

    /// Maintenance with the given draws: the removable clause `c` (a learnt
    /// clause that justifies no trail entry) goes where draw `c -
    /// original_clause_count` is `picked`; a clause without a draw stays.
    /// Returns the indices removed, in increasing order.
    #[verifier::rlimit(30)]
    pub fn reduce_clause_database(&mut self, draws: &Vec<u64>) -> (removed: Vec<usize>)
        requires
            old(self).wf(),
        ensures
            final(self).wf(),
            forall|k: int|
                0 <= k < removed@.len() ==> deletable(
                    old(self).trail(),
                    old(self).original_count() as int,
                    old(self).db().len() as int,
                    #[trigger] removed@[k] as int,
                ),
            forall|c: int|
                deletable(old(self).trail(), old(self).original_count() as int, old(self).db().len() as int, c)
                    ==> (#[trigger] removed@.contains(c as usize) <==> {
                    let off = c - old(self).original_count();
                    off < draws@.len() && picked(
                        draws@[off],
                        old(self).deletable_count(),
                        old(self).original_count(),
                    )
                }),
            removal_mask(removed@, old(self).db().len() as int) == maintenance_mask(
                old(self).trail(),
                old(self).original_count() as int,
                old(self).db().len() as int,
                draws@,
            ),
            final(self).db() == kept(old(self).db(), removal_mask(removed@, old(self).db().len() as int)),
            final(self).db().take(old(self).original_prefix()) == old(self).db().take(old(self).original_prefix()),
            final(self).db().len() >= old(self).original_prefix(),
            final(self).trail() == remapped(
                old(self).trail(),
                removal_mask(removed@, old(self).db().len() as int),
            ),
            final(self).activity() == old(self).activity(),
            final(self).num_vars() == old(self).num_vars(),
            final(self).original_count() == old(self).original_count(),
    {
        let ghost t = self.trail();
        let ghost nc = self.db().len() as int;
        let ghost orig = self.original_count() as int;
        let ncx = self.clauselist.len();
        assert(ncx == nc);
        let eligible = self.find_deletable_clauses();
        let ne = eligible.len();
        let original = self.original_clause_count;
        let mut removed: Vec<usize> = Vec::new();
        let mut k: usize = 0;
        while k < ne
            invariant
                k <= ne,
                ne == eligible@.len(),
                ne == self.deletable_count(),
                t == self.trail(),
                nc == self.db().len(),
                orig == original,
                orig == self.original_count(),
                forall|j: int| 0 <= j < ne ==> deletable(t, orig, nc, #[trigger] eligible@[j] as int),
                forall|i: int, j: int| 0 <= i < j < ne ==> #[trigger] eligible@[i] < #[trigger] eligible@[j],
                forall|j: int| 0 <= j < removed@.len() ==> deletable(t, orig, nc, #[trigger] removed@[j] as int),
                forall|j: int, i: int| 0 <= j < removed@.len() && k <= i < ne ==> #[trigger] removed@[j] < #[trigger] eligible@[i],
                forall|i: int|
                    0 <= i < k ==> (removed@.contains(#[trigger] eligible@[i]) <==> {
                        let off = eligible@[i] - orig;
                        off < draws@.len() && picked(draws@[off], ne as nat, orig as nat)
                    }),
            decreases ne - k,
        {
            let c = eligible[k];
            assert(deletable(t, orig, nc, eligible@[k as int] as int));
            let off = c - original;
            let ghost before = removed@;
            if off < draws.len() {
                let draw = draws[off];
                let take = if original == 0 {
                    true
                } else {
                    let scale = (DELETION_SCALE as u128) * (original as u128);
                    (draw as u128) % scale < (ne as u128)
                };
                if take {
                    removed.push(c);
                }
            }
            proof {
                assert forall|j: int, i: int| 0 <= j < removed@.len() && k + 1 <= i < ne implies #[trigger] removed@[j] < #[trigger] eligible@[i] by {
                    if j < before.len() {
                        assert(before[j] < eligible@[k as int]);
                    } else {
                        assert(removed@[j] == eligible@[k as int]);
                    }
                }
                assert forall|i: int|
                    0 <= i < k + 1 implies (removed@.contains(#[trigger] eligible@[i]) <==> {
                        let off = eligible@[i] - orig;
                        off < draws@.len() && picked(draws@[off], ne as nat, orig as nat)
                    }) by {
                    if i < k {
                        if removed@.contains(eligible@[i]) && !before.contains(eligible@[i]) {
                            let w = choose|w: int| 0 <= w < removed@.len() && removed@[w] == eligible@[i];
                            assert(w == before.len());
                        }
                        if before.contains(eligible@[i]) {
                            let w = choose|w: int| 0 <= w < before.len() && before[w] == eligible@[i];
                            assert(removed@[w] == eligible@[i]);
                        }
                    } else {
                        if before.contains(eligible@[k as int]) {
                            let w = choose|w: int| 0 <= w < before.len() && before[w] == eligible@[k as int];
                            assert(before[w] < eligible@[k as int]);
                        }
                        if removed@.len() > before.len() {
                            assert(removed@[before.len() as int] == eligible@[k as int]);
                        }
                    }
                }
            }
            k = k + 1;
        }
        proof {
            assert forall|c: int| deletable(t, orig, nc, c) implies (#[trigger] removed@.contains(c as usize) <==> {
                let off = c - orig;
                off < draws@.len() && picked(draws@[off], ne as nat, orig as nat)
            }) by {
                assert(0 <= c < nc);
                assert(nc <= usize::MAX);
                assert(eligible@.contains(c as usize));
                let i = choose|i: int| 0 <= i < ne && eligible@[i] == c as usize;
                assert(eligible@[i] as int == c);
                assert(removed@.contains(eligible@[i]) <==> {
                    let off = eligible@[i] - orig;
                    off < draws@.len() && picked(draws@[off], ne as nat, orig as nat)
                });
            }
        }
        proof {
            let mm = maintenance_mask(t, orig, nc, draws@);
            let rm = removal_mask(removed@, nc);
            assert forall|c: int| 0 <= c < nc implies rm[c] == mm[c] by {
                if removed@.contains(c as usize) {
                    let k = choose|k: int| 0 <= k < removed@.len() && removed@[k] == c as usize;
                    assert(deletable(t, orig, nc, removed@[k] as int));
                }
            }
            assert(rm =~= mm);
        }
        self.forget_clause(&removed);
        removed
    }

    /// Conflict resolution by clause learning with the given draws: conflict
    /// analysis (see `learn_from_conflict`), then, after a success and where
    /// `trigger` is a multiple of `MAINTENANCE_ONE_IN`, maintenance with
    /// `draws` (see `reduce_clause_database`).
    #[verifier::rlimit(30)]
    pub fn resolve_conflict_with_draws(&mut self, clause_index: usize, trigger: u64, draws: &Vec<u64>) -> (ok: bool)
        requires
            old(self).wf(),
            clause_index < old(self).db().len(),
        ensures
            final(self).wf(),
            conflict_resolved(*old(self), *final(self), clause_index as int, ok, trigger, draws@),
    {
        let ghost t = self.trail();
        let ghost db0 = self.db();
        let ghost n = self.num_vars() as int;
        let ghost nc = self.db().len() as int;
        let ok = self.learn_from_conflict(clause_index);
        let ghost p0 = old(self).original_prefix();
        let ghost t1 = self.trail();
        let ghost db1 = self.db();
        proof {
            assert(self.db().take(p0) =~= old(self).db().take(p0));
        }
        if ok && trigger % MAINTENANCE_ONE_IN == 0 {
            let removed = self.reduce_clause_database(draws);
            proof {
                let p1 = if self.original_count() < db1.len() { self.original_count() as int } else { db1.len() as int };
                assert(p0 <= p1);
                assert(self.db().take(p0) =~= self.db().take(p1).take(p0));
                assert(db1.take(p0) =~= db1.take(p1).take(p0));
                assert forall|k: int| 0 <= k < removed@.len() implies !locked(t1, #[trigger] removed@[k] as int) by {
                    assert(deletable(t1, self.original_count() as int, db1.len() as int, removed@[k] as int));
                }
                let m = removal_mask(removed@, db1.len() as int);
                let t2 = self.trail();
                assert forall|a: int, i: int| is_entry(t1, a, i) && move_reason(#[trigger] t1[a][i]) is Some implies {
                    &&& move_reason(t2[a][i]) is Some
                    &&& move_reason(t2[a][i])->0 < self.db().len()
                    &&& self.db()[move_reason(t2[a][i])->0 as int] == db1[move_reason(t1[a][i])->0 as int]
                } by {
                    assert(t2[a][i] == remap_move(t1[a][i], m));
                    lemma_maintenance_keeps_justifications(db1, t1, removed@, a, i);
                    lemma_kept_index(db1, m, move_reason(t1[a][i])->0 as int);
                }
            }
        }
        proof {
            if ok {
                let t2 = self.trail();
                let top = t2.len() - 1;
                let last = t2[top].len() - 1;
                lemma_entry_value(t2, top, last);
                let l = move_lit(t2[top][last]);
                assert(valid_lit(l, self.num_vars() as int));
                assert(self.values()[lit_var(l) - 1] == trail_value(t2, lit_var(l)));
                if let SolverMove::DecideFromConflict(l, c) = t2[top][last] {
                    let cl = self.db()[c as int];
                    if cl.contains(l) {
                        let kk = choose|kk: int| 0 <= kk < cl.len() && cl[kk] == l;
                        assert(crate::literal::lit_value(cl[kk], self.values()) == Some(true));
                    }
                }
                let d = move_lit(t.last()[0]);
                let entry = SolverMove::DecideFromConflict((-d) as i32, nc as usize);
                let learnt = db1.last();
                let bl = choose|bl: int|
                    0 <= bl < t.len() && is_backjump_level(t, learnt, bl) && t1 == backjumped(t, bl, entry);
                assert(db1 == db0.push(learnt));
                if !(trigger % MAINTENANCE_ONE_IN == 0) {
                    assert forall|a: int, i: int| is_entry(t1, a, i) && move_reason(#[trigger] t1[a][i]) is Some implies {
                        &&& move_reason(t2[a][i]) is Some
                        &&& move_reason(t2[a][i])->0 < self.db().len()
                        &&& self.db()[move_reason(t2[a][i])->0 as int] == db1[move_reason(t1[a][i])->0 as int]
                    } by {}
                }
                assert(analysis_result(t, learnt, bl));
            }
        }
        ok
    }

    /// Conflict resolution by clause learning: as `resolve_conflict_with_draws`,
    /// with a random trigger and, where it calls for maintenance, one random
    /// draw for each clause from `original_clause_count` up to the learnt one.
    pub fn resolve_conflict_cdcl(&mut self, clause_index: usize) -> (ok: bool)
        requires
            old(self).wf(),
            clause_index < old(self).db().len(),
        ensures
            final(self).wf(),
            exists|trigger: u64, draws: Seq<u64>|
                conflict_resolved(*old(self), *final(self), clause_index as int, ok, trigger, draws),
    {
        let trigger = random_draw();
        let mut draws: Vec<u64> = Vec::new();
        if trigger % MAINTENANCE_ONE_IN == 0 {
            let nc = self.clauselist.len();
            let mut c: usize = self.original_clause_count;
            while c <= nc
                decreases nc + 1 - c,
            {
                draws.push(random_draw());
                if c == nc {
                    break;
                }
                c = c + 1;
            }
        }
        self.resolve_conflict_with_draws(clause_index, trigger, &draws)
    }

    /// Chronological conflict resolution: bumps the clause's literals, adds
    /// the clause of the negated decisions of the trail (which the conflict
    /// implies), drops the last decision level and asserts its negated
    /// decision one level down, justified by that clause, then halves every
    /// score. Returns false, with only the bump done, where the last level
    /// holds no decision.
    pub fn resolve_conflict_dpll(&mut self, clause_index: usize) -> (ok: bool)
        requires
            old(self).wf(),
            clause_index < old(self).db().len(),
        ensures
            final(self).wf(),
            final(self).num_vars() == old(self).num_vars(),
            final(self).original_count() == old(self).original_count(),
            ok == has_open_decision(old(self).trail()),
            !ok ==> final(self).trail() == old(self).trail() && final(self).db() == old(self).db()
                && final(self).activity() == bump_all(
                old(self).activity(),
                old(self).db()[clause_index as int],
                old(self).num_vars() as int,
            ),
            ok ==> {
                let t = old(self).trail();
                let d = move_lit(t.last()[0]);
                &&& final(self).db() == old(self).db().push(decision_clause(t))
                &&& decision_clause(t).last() == (-d) as i32
                &&& final(self).trail() == backjumped(
                    t,
                    t.len() - 1,
                    SolverMove::DecideFromConflict((-d) as i32, old(self).db().len() as usize),
                )
                &&& final(self).activity() == decayed(
                    bump_all(
                        old(self).activity(),
                        old(self).db()[clause_index as int],
                        old(self).num_vars() as int,
                    ),
                )
            },
    {
        let ghost t = self.trail();
        let ghost n = self.num_vars() as int;
        let ghost nc = self.db().len() as int;
        assert(valid_lits(self.db()[clause_index as int], n));
        let conflict = copy_lits(&self.clauselist[clause_index].vars);
        self.bump_all_activity(&conflict);
        let nl = self.movelist.len();
        if nl < 2 {
            return false;
        }
        if self.movelist[nl - 1].len() == 0 {
            assert(t.last().len() == 0);
            return false;
        }
        let d: i32 = match self.movelist[nl - 1][0] {
            SolverMove::Decide(l) => l,
            _ => {
                assert(!(t.last()[0] is Decide));
                return false;
            },
        };
        assert(is_entry(t, nl - 1, 0));
        assert(valid_lit(d, n));
        let mut negated: Vec<i32> = Vec::new();
        let mut a: usize = 0;
        while a < nl
            invariant
                self.wf(),
                t == self.trail(),
                n == self.num_vars(),
                nl == t.len(),
                a <= nl,
                negated@ == decision_clause(t.take(a as int)),
                valid_lits(negated@, n),
            decreases nl - a,
        {
            assert(t.take(a + 1).drop_last() =~= t.take(a as int));
            assert(t.take(a + 1).last() == t[a as int]);
            if self.movelist[a].len() > 0 {
                assert(is_entry(t, a as int, 0));
                match self.movelist[a][0] {
                    SolverMove::Decide(l) => {
                        assert(valid_lit(l, n));
                        negated.push(-l);
                    },
                    _ => {},
                }
            }
            a = a + 1;
        }
        assert(t.take(nl as int) =~= t);
        assert(decision_clause(t) == decision_clause(t.drop_last()).push((-d) as i32));
        let learnt_index = self.clauselist.len();
        self.clauselist.push(Clause::from_vec(negated));
        let total = self.clauselist.len();
        assert(total == nc + 1);
        self.movelist.pop();
        match self.movelist.pop() {
            Some(mut last_level) => {
                last_level.push(SolverMove::DecideFromConflict(-d, learnt_index));
                self.movelist.push(last_level);
            },
            None => {},
        }
        proof {
            let entry = SolverMove::DecideFromConflict((-d) as i32, learnt_index);
            assert(self.trail() =~= backjumped(t, t.len() - 1, entry));
            assert(self.db() =~= old(self).db().push(decision_clause(t)));
            lemma_backjump_wf(t, n, nc, t.len() - 1, d, learnt_index, nc + 1);
        }
        self.decay_activity();
        true
    }

    /// The state as text: a header line, then the valuation that the trail gives.
    pub fn to_string(&self) -> (r: String)
        requires
            self.wf(),
        ensures
            r@ == (state_header() + render(self.values())).map_values(|b: u8| b as char),
    {
        let header: [u8; 13] = [10, 65, 115, 115, 105, 103, 110, 109, 101, 110, 116, 58, 10];
        let mut buf: Vec<u8> = Vec::new();
        let mut i: usize = 0;
        while i < 13
            invariant
                i <= 13,
                header@ == state_header(),
                buf@ == state_header().take(i as int),
            decreases 13 - i,
        {
            buf.push(header[i]);
            assert(state_header().take(i + 1) =~= state_header().take(i as int).push(header@[i as int]));
            i = i + 1;
        }
        let body = self.assignment().render_bytes();
        let mut j: usize = 0;
        while j < body.len()
            invariant
                j <= body@.len(),
                buf@ == state_header() + body@.take(j as int),
            decreases body@.len() - j,
        {
            buf.push(body[j]);
            assert(body@.take(j + 1) =~= body@.take(j as int).push(body@[j as int]));
            j = j + 1;
        }
        assert(body@.take(j as int) =~= body@);
        assert(state_header().take(13) =~= state_header());
        assert(crate::assignment::is_ascii(buf@));
        ascii_text(buf)
    }

    /// Replaces the activity table.
    pub fn set_activity(&mut self, activity: Vec<u64>)
        ensures
            final(self).activity() == activity@,
            final(self).db() == old(self).db(),
            final(self).trail() == old(self).trail(),
            final(self).num_vars() == old(self).num_vars(),
            final(self).original_count() == old(self).original_count(),
    {
        self.activitylist = activity;
    }

    /// Sets how many of the clauses are original ones (the rest are learnt).
    pub fn set_clauses(&mut self, count: usize)
        ensures
            final(self).original_count() == count,
            final(self).num_vars() == old(self).num_vars(),
            final(self).activity() == old(self).activity(),
            final(self).db() == old(self).db(),
            final(self).trail() == old(self).trail(),
    {
        self.original_clause_count = count;
    }

    /// Sets the number of variables.
    pub fn set_vars(&mut self, vars: usize)
        ensures
            final(self).num_vars() == vars,
            final(self).activity() == old(self).activity(),
            final(self).db() == old(self).db(),
            final(self).trail() == old(self).trail(),
            final(self).original_count() == old(self).original_count(),
    {
        self.vars = vars;
    }

    /// The number of variables.
    pub fn vars(&self) -> (r: usize)
        ensures
            r == self.num_vars(),
    {
        self.vars
    }
}

/// What conflict resolution with learning does, for the given trigger and
/// draws: the bump, then on failure (no decision on the last level) nothing
/// more; on success, the learnt clause (no repeats; of the conflict level
/// only the negated decision `-d`) is added, the trail is cut back to the
/// backjump level with `-d` asserted there, justified by the learnt clause,
/// maintenance runs where the trigger calls for it, every surviving
/// justification names the clause it named before, and every score halves.
/// Clauses below `original_clause_count` never change.
pub open spec fn conflict_resolved(
    s0: SolverState,
    s1: SolverState,
    ci: int,
    ok: bool,
    trigger: u64,
    draws: Seq<u64>,
) -> bool {
    let t = s0.trail();
    let n = s0.num_vars() as int;
    let nc = s0.db().len() as int;
    let bumped_act = bump_all(s0.activity(), s0.db()[ci], n);
    &&& s1.num_vars() == s0.num_vars()
    &&& s1.original_count() == s0.original_count()
    &&& ok == has_open_decision(t)
    &&& s1.db().take(s0.original_prefix()) == s0.db().take(s0.original_prefix())
    &&& !ok ==> s1.trail() == t && s1.db() == s0.db() && s1.activity() == bumped_act
    &&& ok ==> {
        let d = move_lit(t.last()[0]);
        let entry = SolverMove::DecideFromConflict((-d) as i32, nc as usize);
        &&& s1.activity() == decayed(bumped_act)
        &&& s1.trail().len() < t.len()
        &&& exists|learnt: Seq<i32>, bl: int|
            {
                let t1 = backjumped(t, bl, entry);
                let db1 = s0.db().push(learnt);
                &&& #[trigger] analysis_result(t, learnt, bl)
                &&& if trigger % MAINTENANCE_ONE_IN == 0 {
                    let m = maintenance_mask(t1, s0.original_count() as int, nc + 1, draws);
                    s1.db() == kept(db1, m) && s1.trail() == remapped(t1, m)
                } else {
                    s1.db() == db1 && s1.trail() == t1
                }
                &&& forall|a: int, i: int|
                    is_entry(t1, a, i) && move_reason(#[trigger] t1[a][i]) is Some ==> {
                        &&& move_reason(s1.trail()[a][i]) is Some
                        &&& move_reason(s1.trail()[a][i])->0 < s1.db().len()
                        &&& s1.db()[move_reason(s1.trail()[a][i])->0 as int] == db1[move_reason(t1[a][i])->0 as int]
                    }
            }
        &&& s1.trail().last().len() > 0
        &&& s1.trail().last().last() matches SolverMove::DecideFromConflict(l, c) && {
            &&& l == (-d) as i32
            &&& c < s1.db().len()
            &&& s1.db()[c as int].contains(l) ==> crate::clause::evaluate(s1.db()[c as int], s1.values())
                == Some(crate::clause::AssignmentResult::Sat())
        }
    }
}

/// The negations of the decisions on trail `t`, level by level: a clause
/// that the trail's decisions falsify.
pub open spec fn decision_clause(t: Seq<Seq<SolverMove>>) -> Seq<i32>
    decreases t.len(),
{
    if t.len() == 0 {
        Seq::empty()
    } else {
        let rest = decision_clause(t.drop_last());
        if t.last().len() > 0 && t.last()[0] is Decide {
            rest.push((-move_lit(t.last()[0])) as i32)
        } else {
            rest
        }
    }
}

/// Relies on rand::random: a value drawn from the thread-local generator;
/// nothing is known of it.
#[verifier::external_body]
fn random_draw() -> (r: u64) {
    rand::random::<u64>()
}

/// The header of a state's text: a newline, `Assignment:` and a newline.
pub open spec fn state_header() -> Seq<u8> {
    seq![10u8, 65u8, 115u8, 115u8, 105u8, 103u8, 110u8, 109u8, 101u8, 110u8, 116u8, 58u8, 10u8]
}

/// In every well-formed state, and so in every state that the library's
/// operations reach from a new or parsed one, each variable stands in at
/// most one trail entry.
pub proof fn lemma_trail_vars_distinct(state: &SolverState)
    requires
        state.wf(),
    ensures
        forall|a: int, i: int, b: int, j: int|
            is_entry(state.trail(), a, i) && is_entry(state.trail(), b, j) && lit_var(
                move_lit(#[trigger] state.trail()[a][i]),
            ) == lit_var(move_lit(#[trigger] state.trail()[b][j])) ==> a == b && i == j,
{
}

/// Activity scores are never negative.
pub proof fn lemma_scores_nonnegative(state: &SolverState)
    ensures
        forall|k: int| 0 <= k < state.activity().len() ==> #[trigger] state.activity()[k] >= 0,
{
}

} // verus!
