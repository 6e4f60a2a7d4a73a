//! Clauses and their evaluation against a partial valuation.
use vstd::prelude::*;
use crate::assignment::Assignment;
use crate::literal::{lit_value, valid_lits, var_of};

verus! {

/// What a clause says under a partial valuation; `None` in its place means
/// that two or more literals are open and none holds.
#[derive(PartialEq, Eq, Structural, Debug, Clone, Copy)]
pub enum AssignmentResult {
    /// Exactly this literal is open and every other one is false.
    Propagate(i32),
    /// Every literal is false.
    Conflict(),
    /// Some literal is true.
    Sat(),
}

/// A disjunction of signed literals.
#[derive(Debug)]
pub struct Clause {
    pub vars: Vec<i32>,
}

/// Some literal of `lits` is true under `a`.
pub open spec fn some_true(lits: Seq<i32>, a: Seq<Option<bool>>) -> bool {
    exists|i: int| 0 <= i < lits.len() && lit_value(#[trigger] lits[i], a) == Some(true)
}

/// The number of positions of `lits` whose variable `a` leaves open.
pub open spec fn count_open(lits: Seq<i32>, a: Seq<Option<bool>>) -> nat
    decreases lits.len(),
{
    if lits.len() == 0 {
        0
    } else {
        count_open(lits.drop_last(), a) + if lit_value(lits.last(), a) is None {
            1nat
        } else {
            0nat
        }
    }
}

/// The first position of `lits` whose variable `a` leaves open, or -1.
pub open spec fn first_open(lits: Seq<i32>, a: Seq<Option<bool>>) -> int
    decreases lits.len(),
{
    if lits.len() == 0 {
        -1
    } else {
        let f = first_open(lits.drop_last(), a);
        if f >= 0 {
            f
        } else if lit_value(lits.last(), a) is None {
            lits.len() - 1
        } else {
            -1
        }
    }
}

/// The number of positions of `lits` that hold `l`.
pub open spec fn lit_count(lits: Seq<i32>, l: i32) -> nat
    decreases lits.len(),
{
    if lits.len() == 0 {
        0
    } else {
        lit_count(lits.drop_last(), l) + if lits.last() == l {
            1nat
        } else {
            0nat
        }
    }
}

/// The classification of a clause under a partial valuation.
pub open spec fn evaluate(lits: Seq<i32>, a: Seq<Option<bool>>) -> Option<AssignmentResult> {
    if some_true(lits, a) {
        Some(AssignmentResult::Sat())
    } else if count_open(lits, a) == 0 {
        Some(AssignmentResult::Conflict())
    } else if count_open(lits, a) == 1 {
        Some(AssignmentResult::Propagate(lits[first_open(lits, a)]))
    } else {
        None
    }
}

/// Bounds of `first_open` and `count_open`; the first open position is open.
pub proof fn lemma_first_open_bounds(lits: Seq<i32>, a: Seq<Option<bool>>)
    ensures
        -1 <= first_open(lits, a) < lits.len(),
        count_open(lits, a) <= lits.len(),
        (first_open(lits, a) >= 0) <==> (count_open(lits, a) > 0),
        first_open(lits, a) >= 0 ==> lit_value(lits[first_open(lits, a)], a) is None,
    decreases lits.len(),
{
    if lits.len() > 0 {
        lemma_first_open_bounds(lits.drop_last(), a);
    }
}

/// Facts of `count_open`: zero exactly when every position is assigned, two
/// or more exactly when two positions are open, and one only where the
/// first open position is the only one.
proof fn lemma_count_open_facts(lits: Seq<i32>, a: Seq<Option<bool>>)
    ensures
        (count_open(lits, a) == 0) == (forall|i: int| 0 <= i < lits.len() ==> lit_value(#[trigger] lits[i], a) is Some),
        (count_open(lits, a) >= 2) == (exists|i: int, j: int|
            0 <= i < j < lits.len() && lit_value(#[trigger] lits[i], a) is None && lit_value(#[trigger] lits[j], a) is None),
        count_open(lits, a) == 1 ==> forall|i: int|
            0 <= i < lits.len() && lit_value(#[trigger] lits[i], a) is None ==> i == first_open(lits, a),
    decreases lits.len(),
{
    if lits.len() > 0 {
        let l = lits.drop_last();
        let last = lits.len() - 1;
        lemma_count_open_facts(l, a);
        lemma_first_open_bounds(l, a);
        lemma_first_open_bounds(lits, a);
        assert forall|i: int| 0 <= i < last implies lits[i] == #[trigger] l[i] by {}
        if count_open(lits, a) >= 2 {
            if count_open(l, a) >= 2 {
                let (i, j) = choose|i: int, j: int|
                    0 <= i < j < l.len() && lit_value(#[trigger] l[i], a) is None && lit_value(#[trigger] l[j], a) is None;
                assert(lits[i] == l[i] && lits[j] == l[j]);
            } else {
                let f = first_open(l, a);
                assert(lits[f] == l[f]);
                assert(lit_value(lits[last], a) is None);
            }
        }
        if exists|i: int, j: int|
            0 <= i < j < lits.len() && lit_value(#[trigger] lits[i], a) is None && lit_value(#[trigger] lits[j], a) is None {
            let (i, j) = choose|i: int, j: int|
                0 <= i < j < lits.len() && lit_value(#[trigger] lits[i], a) is None && lit_value(#[trigger] lits[j], a) is None;
            assert(lits[i] == l[i]);
            if j < last {
                assert(lits[j] == l[j]);
            }
        }
        if count_open(lits, a) == 0 {
            assert forall|i: int| 0 <= i < lits.len() implies lit_value(#[trigger] lits[i], a) is Some by {
                if i < last {
                    assert(lits[i] == l[i]);
                }
            }
        }
        if forall|i: int| 0 <= i < lits.len() ==> lit_value(#[trigger] lits[i], a) is Some {
            assert forall|i: int| 0 <= i < l.len() implies lit_value(#[trigger] l[i], a) is Some by {
                assert(lits[i] == l[i]);
            }
            assert(lit_value(lits[last], a) is Some);
        }
        if count_open(lits, a) == 1 {
            assert forall|i: int| 0 <= i < lits.len() && lit_value(#[trigger] lits[i], a) is None implies i
                == first_open(lits, a) by {
                if i < last {
                    assert(lits[i] == l[i]);
                }
            }
        }
    }
}

/// Clause evaluation is a classification that follows the definitions:
/// satisfied exactly when some literal is true; conflicting exactly when
/// every literal is false; a unit exactly when no literal is true and one
/// position is open, that position giving the literal, every other one
/// false; unresolved exactly when no literal is true and two positions are
/// open. Being a function of the clause and the valuation, it gives the same
/// answer each time.
pub proof fn lemma_evaluate_cases(lits: Seq<i32>, a: Seq<Option<bool>>)
    requires
        valid_lits(lits, a.len() as int),
    ensures
        (evaluate(lits, a) == Some(AssignmentResult::Sat())) == some_true(lits, a),
        (evaluate(lits, a) == Some(AssignmentResult::Conflict())) == (forall|i: int|
            0 <= i < lits.len() ==> lit_value(#[trigger] lits[i], a) == Some(false)),
        (evaluate(lits, a) matches Some(AssignmentResult::Propagate(_))) == (!some_true(lits, a) && count_open(lits, a) == 1),
        evaluate(lits, a) matches Some(AssignmentResult::Propagate(l)) ==> exists|i: int|
            0 <= i < lits.len() && lits[i] == l && lit_value(l, a) is None && forall|j: int|
                0 <= j < lits.len() && j != i ==> lit_value(#[trigger] lits[j], a) == Some(false),
        (evaluate(lits, a) is None) == (!some_true(lits, a) && exists|i: int, j: int|
            0 <= i < j < lits.len() && lit_value(#[trigger] lits[i], a) is None && lit_value(#[trigger] lits[j], a) is None),
{
    lemma_count_open_facts(lits, a);
    lemma_first_open_bounds(lits, a);
    if !some_true(lits, a) {
        assert forall|i: int| 0 <= i < lits.len() && lit_value(#[trigger] lits[i], a) is Some implies lit_value(lits[i], a) == Some(false) by {
            if lit_value(lits[i], a) == Some(true) {
                assert(some_true(lits, a));
            }
        }
    }
    if forall|i: int| 0 <= i < lits.len() ==> lit_value(#[trigger] lits[i], a) == Some(false) {
        if some_true(lits, a) {
            let i = choose|i: int| 0 <= i < lits.len() && lit_value(#[trigger] lits[i], a) == Some(true);
        }
    }
    if !some_true(lits, a) && count_open(lits, a) == 1 {
        let f = first_open(lits, a);
        assert forall|j: int| 0 <= j < lits.len() && j != f implies lit_value(#[trigger] lits[j], a) == Some(false) by {
            if lit_value(lits[j], a) is None {
                assert(j == f);
            }
        }
    }
}

impl Clause {
    /// The clause of the literals `varlist`, in order.
    pub fn from_vec(varlist: Vec<i32>) -> (c: Clause)
        ensures
            c.vars@ == varlist@,
    {
        Clause { vars: varlist }
    }

    /// The number of positions whose variable `assignment` leaves open.
    pub fn open_count(&self, assignment: &Assignment) -> (r: usize)
        requires
            valid_lits(self.vars@, assignment@.len() as int),
        ensures
            r == count_open(self.vars@, assignment@),
    {
        let ghost lits = self.vars@;
        let mut open: usize = 0;
        let mut i: usize = 0;
        while i < self.vars.len()
            invariant
                lits == self.vars@,
                i <= lits.len(),
                valid_lits(lits, assignment@.len() as int),
                open == count_open(lits.take(i as int), assignment@),
                open <= i,
            decreases lits.len() - i,
        {
            assert(lits.take(i + 1).drop_last() =~= lits.take(i as int));
            assert(crate::literal::valid_lit(lits[i as int], assignment@.len() as int));
            if assignment.get(var_of(self.vars[i])).is_none() {
                open = open + 1;
            }
            i = i + 1;
        }
        assert(lits.take(i as int) =~= lits);
        open
    }

    /// The number of positions that hold `lit`.
    pub fn count_lit(&self, lit: i32) -> (r: usize)
        ensures
            r == lit_count(self.vars@, lit),
    {
        let ghost lits = self.vars@;
        let mut count: usize = 0;
        let mut i: usize = 0;
        while i < self.vars.len()
            invariant
                lits == self.vars@,
                i <= lits.len(),
                count == lit_count(lits.take(i as int), lit),
                count <= i,
            decreases lits.len() - i,
        {
            assert(lits.take(i + 1).drop_last() =~= lits.take(i as int));
            if self.vars[i] == lit {
                count = count + 1;
            }
            i = i + 1;
        }
        assert(lits.take(i as int) =~= lits);
        count
    }

    /// Classifies the clause under `assignment`: a true literal makes it
    /// satisfied wherever it stands; otherwise the open literals decide.
    pub fn check_assignment(&self, assignment: &Assignment) -> (r: Option<AssignmentResult>)
        requires
            valid_lits(self.vars@, assignment@.len() as int),
        ensures
            r == evaluate(self.vars@, assignment@),
    {
        let ghost lits = self.vars@;
        let ghost a = assignment@;
        let mut open: usize = 0;
        let mut first: i32 = 0;
        let mut i: usize = 0;
        while i < self.vars.len()
            invariant
                lits == self.vars@,
                a == assignment@,
                i <= lits.len(),
                valid_lits(lits, a.len() as int),
                !some_true(lits.take(i as int), a),
                open == count_open(lits.take(i as int), a),
                open <= i,
                open > 0 ==> first == lits[first_open(lits.take(i as int), a)],
                first_open(lits.take(i as int), a) < i,
            decreases lits.len() - i,
        {
            let lit = self.vars[i];
            assert(lits.take(i + 1).drop_last() =~= lits.take(i as int));
            assert(lits.take(i + 1).last() == lit);
            assert(crate::literal::valid_lit(lits[i as int], a.len() as int));
            let value = assignment.get(var_of(lit));
            match value {
                Some(b) => {
                    if b == (lit > 0) {
                        assert(lits[i as int] == lit);
                        assert(lit_value(lits[i as int], a) == Some(true));
                        return Some(AssignmentResult::Sat());
                    }
                },
                None => {
                    if open == 0 {
                        first = lit;
                    }
                    open = open + 1;
                },
            }
            proof {
                lemma_first_open_bounds(lits.take(i as int), a);
                assert forall|j: int| 0 <= j < i + 1 implies lit_value(
                    #[trigger] lits.take(i + 1)[j],
                    a,
                ) != Some(true) by {
                    if j < i {
                        assert(lits.take(i + 1)[j] == lits.take(i as int)[j]);
                    }
                }
            }
            i = i + 1;
        }
        assert(lits.take(i as int) =~= lits);
        if open == 0 {
            Some(AssignmentResult::Conflict())
        } else if open == 1 {
            Some(AssignmentResult::Propagate(first))
        } else {
            None
        }
    }
}

} // verus!
