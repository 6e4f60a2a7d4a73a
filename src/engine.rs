//! The search driver: the next move from a state, the decision heuristics,
//! and one step of the search.
use vstd::prelude::*;
use crate::assignment::Assignment;
use crate::clause::{count_open, evaluate, lemma_first_open_bounds, lit_count, AssignmentResult, Clause};
use crate::literal::{lit_value, lit_var, valid_lit, valid_lits};
use crate::activity::act_index;
use crate::solver_state::{SolverMove, SolverState};
use crate::trail::{appended, has_open_decision, is_entry, move_lit, on_trail, opened, trail_value};

verus! {

/// The literals of each clause of a list.
pub open spec fn db_of(clauses: Seq<Clause>) -> Seq<Seq<i32>> {
    Seq::new(clauses.len(), |c: int| clauses[c].vars@)
}

/// `x + y`, held at `u64::MAX`.
pub open spec fn sat_add(x: u64, y: nat) -> u64 {
    if x + y > u64::MAX {
        u64::MAX
    } else {
        (x + y) as u64
    }
}

/// How often `l` occurs in the clauses not flagged in `status` that have
/// exactly `k` open positions under `a` (held at `u64::MAX`).
pub open spec fn occ(db: Seq<Seq<i32>>, status: Seq<bool>, a: Seq<Option<bool>>, l: i32, k: int) -> u64
    decreases db.len(),
{
    if db.len() == 0 {
        0
    } else {
        let c = db.len() - 1;
        let prev = occ(db.drop_last(), status, a, l, k);
        if !status[c] && count_open(db[c], a) == k {
            sat_add(prev, lit_count(db[c], l))
        } else {
            prev
        }
    }
}

/// How often `l` occurs in the clauses not flagged in `status` (held at `u64::MAX`).
pub open spec fn total_occ(db: Seq<Seq<i32>>, status: Seq<bool>, l: i32) -> u64
    decreases db.len(),
{
    if db.len() == 0 {
        0
    } else {
        let c = db.len() - 1;
        let prev = total_occ(db.drop_last(), status, l);
        if !status[c] {
            sat_add(prev, lit_count(db[c], l))
        } else {
            prev
        }
    }
}

/// The largest number of open positions among the clauses not flagged in `status`.
pub open spec fn max_open(db: Seq<Seq<i32>>, status: Seq<bool>, a: Seq<Option<bool>>) -> nat
    decreases db.len(),
{
    if db.len() == 0 {
        0
    } else {
        let c = db.len() - 1;
        let prev = max_open(db.drop_last(), status, a);
        if !status[c] && count_open(db[c], a) > prev {
            count_open(db[c], a)
        } else {
            prev
        }
    }
}

/// Weight of the larger of a variable's two counts in a length score.
pub const ALPHA: u64 = 1;

/// Weight of the smaller of a variable's two counts in a length score.
pub const BETA: u64 = 2;

/// The score of variable `v` at residual length `k`.
pub open spec fn length_score(
    db: Seq<Seq<i32>>,
    status: Seq<bool>,
    a: Seq<Option<bool>>,
    v: int,
    k: int,
) -> int {
    let p = occ(db, status, a, v as i32, k) as int;
    let q = occ(db, status, a, (-v) as i32, k) as int;
    if p >= q {
        ALPHA * p + BETA * q
    } else {
        ALPHA * q + BETA * p
    }
}

/// Variable `u` beats `w` on the lengths `k..=m`: at the first length where
/// their scores differ, `u` scores higher.
pub open spec fn lex_better(
    db: Seq<Seq<i32>>,
    status: Seq<bool>,
    a: Seq<Option<bool>>,
    u: int,
    w: int,
    k: int,
    m: int,
) -> bool
    decreases m + 1 - k,
{
    if k > m {
        false
    } else if length_score(db, status, a, u, k) > length_score(db, status, a, w, k) {
        true
    } else if length_score(db, status, a, u, k) < length_score(db, status, a, w, k) {
        false
    } else {
        lex_better(db, status, a, u, w, k + 1, m)
    }
}

/// Variable `v` (counted from 1) is open under `a`.
pub open spec fn open_var(a: Seq<Option<bool>>, v: int) -> bool {
    1 <= v <= a.len() && a[v - 1] is None
}

/// The structural choice: the open variable that beats every open variable
/// below it and that no open variable above it beats, in the polarity that
/// occurs more often (the negative one on a tie).
pub open spec fn bohm_choice(db: Seq<Seq<i32>>, status: Seq<bool>, a: Seq<Option<bool>>, r: i32) -> bool {
    let v = lit_var(r);
    let m = max_open(db, status, a) as int;
    &&& valid_lit(r, a.len() as int)
    &&& open_var(a, v)
    &&& forall|u: int| 1 <= u < v && open_var(a, u) ==> #[trigger] lex_better(db, status, a, v, u, 1, m)
    &&& forall|u: int| v < u <= a.len() && open_var(a, u) ==> !#[trigger] lex_better(db, status, a, u, v, 1, m)
    &&& r == (if total_occ(db, status, v as i32) > total_occ(db, status, (-v) as i32) {
        v as i32
    } else {
        (-v) as i32
    })
}

/// Strict order of the length scores is transitive.
proof fn lemma_lex_trans(
    db: Seq<Seq<i32>>,
    status: Seq<bool>,
    a: Seq<Option<bool>>,
    x: int,
    y: int,
    z: int,
    k: int,
    m: int,
)
    requires
        lex_better(db, status, a, x, y, k, m),
        lex_better(db, status, a, y, z, k, m),
    ensures
        lex_better(db, status, a, x, z, k, m),
    decreases m + 1 - k,
{
    if k <= m && length_score(db, status, a, x, k) == length_score(db, status, a, y, k)
        && length_score(db, status, a, y, k) == length_score(db, status, a, z, k) {
        lemma_lex_trans(db, status, a, x, y, z, k + 1, m);
    }
}

/// What does not beat `x` is beaten by whatever beats `x`.
proof fn lemma_lex_not_better(
    db: Seq<Seq<i32>>,
    status: Seq<bool>,
    a: Seq<Option<bool>>,
    u: int,
    x: int,
    y: int,
    k: int,
    m: int,
)
    requires
        !lex_better(db, status, a, u, x, k, m),
        lex_better(db, status, a, y, x, k, m),
    ensures
        lex_better(db, status, a, y, u, k, m),
    decreases m + 1 - k,
{
    if k <= m && length_score(db, status, a, u, k) == length_score(db, status, a, x, k)
        && length_score(db, status, a, y, k) == length_score(db, status, a, x, k) {
        lemma_lex_not_better(db, status, a, u, x, y, k + 1, m);
    }
}

/// The count of `lit` per residual length `1..=m` (length `k` at `k - 1`),
/// over the clauses not flagged in `status`.
fn length_profile(
    clauses: &Vec<Clause>,
    clause_status: &Vec<bool>,
    open_len: &Vec<usize>,
    lit: i32,
    m: usize,
    a: Ghost<Seq<Option<bool>>>,
) -> (r: Vec<u64>)
    requires
        clause_status@.len() == clauses@.len(),
        open_len@.len() == clauses@.len(),
        forall|c: int| 0 <= c < clauses@.len() ==> #[trigger] open_len@[c] == count_open(clauses@[c].vars@, a@),
        forall|c: int| 0 <= c < clauses@.len() && !clause_status@[c] ==> #[trigger] open_len@[c] <= m,
    ensures
        r@.len() == m,
        forall|k: int| 0 <= k < m ==> #[trigger] r@[k] == occ(db_of(clauses@), clause_status@, a@, lit, k + 1),
{
    let ghost db = db_of(clauses@);
    let mut r: Vec<u64> = Vec::new();
    let mut k: usize = 0;
    while k < m
        invariant
            k <= m,
            r@.len() == k,
            forall|j: int| 0 <= j < k ==> #[trigger] r@[j] == 0,
        decreases m - k,
    {
        r.push(0);
        k = k + 1;
    }
    let mut c: usize = 0;
    while c < clauses.len()
        invariant
            c <= clauses@.len(),
            db == db_of(clauses@),
            clause_status@.len() == clauses@.len(),
            open_len@.len() == clauses@.len(),
            forall|j: int| 0 <= j < clauses@.len() ==> #[trigger] open_len@[j] == count_open(clauses@[j].vars@, a@),
            forall|j: int| 0 <= j < clauses@.len() && !clause_status@[j] ==> #[trigger] open_len@[j] <= m,
            r@.len() == m,
            forall|k: int| 0 <= k < m ==> #[trigger] r@[k] == occ(db.take(c as int), clause_status@, a@, lit, k + 1),
        decreases clauses@.len() - c,
    {
        proof {
            assert(db.take(c + 1).drop_last() =~= db.take(c as int));
            assert(db.take(c + 1)[c as int] == clauses@[c as int].vars@);
        }
        if !clause_status[c] && open_len[c] > 0 {
            let k = open_len[c] - 1;
            let count = clauses[c].count_lit(lit);
            let prev = r[k];
            let next: u64 = if (prev as u128) + (count as u128) > (u64::MAX as u128) {
                u64::MAX
            } else {
                prev + count as u64
            };
            r.set(k, next);
        }
        c = c + 1;
    }
    assert(db.take(c as int) =~= db);
    r
}

/// How often `lit` occurs in the clauses not flagged in `status`.
fn total_count(clauses: &Vec<Clause>, clause_status: &Vec<bool>, lit: i32) -> (r: u64)
    requires
        clause_status@.len() == clauses@.len(),
    ensures
        r == total_occ(db_of(clauses@), clause_status@, lit),
{
    let ghost db = db_of(clauses@);
    let mut r: u64 = 0;
    let mut c: usize = 0;
    while c < clauses.len()
        invariant
            c <= clauses@.len(),
            db == db_of(clauses@),
            clause_status@.len() == clauses@.len(),
            r == total_occ(db.take(c as int), clause_status@, lit),
        decreases clauses@.len() - c,
    {
        proof {
            assert(db.take(c + 1).drop_last() =~= db.take(c as int));
            assert(db.take(c + 1)[c as int] == clauses@[c as int].vars@);
        }
        if !clause_status[c] {
            let count = clauses[c].count_lit(lit);
            r = if (r as u128) + (count as u128) > (u64::MAX as u128) {
                u64::MAX
            } else {
                r + count as u64
            };
        }
        c = c + 1;
    }
    assert(db.take(c as int) =~= db);
    r
}

/// The score at one length from the two counts of a variable.
fn score_of(p: u64, q: u64) -> (s: u128)
    ensures
        s == (if p >= q {
            ALPHA * p + BETA * q
        } else {
            ALPHA * q + BETA * p
        }),
{
    let alpha = ALPHA as u128;
    let beta = BETA as u128;
    assert(alpha == 1 && beta == 2);
    let (hi, lo) = if p >= q {
        (p as u128, q as u128)
    } else {
        (q as u128, p as u128)
    };
    assert(alpha * hi == hi);
    assert(beta * lo == lo + lo);
    alpha * hi + beta * lo
}

/// Whether the variable with profiles `pu`, `qu` beats the one with `pb`, `qb`.
fn profile_better(
    pu: &Vec<u64>,
    qu: &Vec<u64>,
    pb: &Vec<u64>,
    qb: &Vec<u64>,
    m: usize,
    db: Ghost<Seq<Seq<i32>>>,
    status: Ghost<Seq<bool>>,
    a: Ghost<Seq<Option<bool>>>,
    u: Ghost<int>,
    b: Ghost<int>,
) -> (r: bool)
    requires
        pu@.len() == m,
        qu@.len() == m,
        pb@.len() == m,
        qb@.len() == m,
        forall|k: int| 0 <= k < m ==> #[trigger] pu@[k] == occ(db@, status@, a@, u@ as i32, k + 1),
        forall|k: int| 0 <= k < m ==> #[trigger] qu@[k] == occ(db@, status@, a@, (-u@) as i32, k + 1),
        forall|k: int| 0 <= k < m ==> #[trigger] pb@[k] == occ(db@, status@, a@, b@ as i32, k + 1),
        forall|k: int| 0 <= k < m ==> #[trigger] qb@[k] == occ(db@, status@, a@, (-b@) as i32, k + 1),
    ensures
        r == lex_better(db@, status@, a@, u@, b@, 1, m as int),
{
    let mut k: usize = 0;
    while k < m
        invariant
            k <= m,
            pu@.len() == m,
            qu@.len() == m,
            pb@.len() == m,
            qb@.len() == m,
            forall|j: int| 0 <= j < m ==> #[trigger] pu@[j] == occ(db@, status@, a@, u@ as i32, j + 1),
            forall|j: int| 0 <= j < m ==> #[trigger] qu@[j] == occ(db@, status@, a@, (-u@) as i32, j + 1),
            forall|j: int| 0 <= j < m ==> #[trigger] pb@[j] == occ(db@, status@, a@, b@ as i32, j + 1),
            forall|j: int| 0 <= j < m ==> #[trigger] qb@[j] == occ(db@, status@, a@, (-b@) as i32, j + 1),
            lex_better(db@, status@, a@, u@, b@, 1, m as int) == lex_better(
                db@,
                status@,
                a@,
                u@,
                b@,
                k + 1,
                m as int,
            ),
        decreases m - k,
    {
        let su = score_of(pu[k], qu[k]);
        let sb = score_of(pb[k], qb[k]);
        assert(su == length_score(db@, status@, a@, u@, k + 1));
        assert(sb == length_score(db@, status@, a@, b@, k + 1));
        if su > sb {
            return true;
        } else if su < sb {
            return false;
        }
        k = k + 1;
    }
    false
}

/// The structural decision: among the open variables, the one whose vector
/// of length scores (lengths `1..` up to the longest residual clause) is
/// greatest at the first length where two differ, the lowest one on a tie;
/// in the polarity that occurs more often (the negative one on a tie).
pub fn decide_bohm(assignment: &Assignment, clause_status: &Vec<bool>, clauses: &Vec<Clause>) -> (r: i32)
    requires
        clause_status@.len() == clauses@.len(),
        assignment@.len() <= i32::MAX,
        forall|c: int| 0 <= c < clauses@.len() ==> valid_lits(#[trigger] clauses@[c].vars@, assignment@.len() as int),
        exists|v: int| open_var(assignment@, v),
    ensures
        bohm_choice(db_of(clauses@), clause_status@, assignment@, r),
{
    let ghost a = assignment@;
    let ghost db = db_of(clauses@);
    let ghost status = clause_status@;
    let n = assignment.len();
    let mut open_len: Vec<usize> = Vec::new();
    let mut m: usize = 0;
    let mut c: usize = 0;
    while c < clauses.len()
        invariant
            c <= clauses@.len(),
            a == assignment@,
            db == db_of(clauses@),
            status == clause_status@,
            status.len() == clauses@.len(),
            forall|j: int| 0 <= j < clauses@.len() ==> valid_lits(#[trigger] clauses@[j].vars@, a.len() as int),
            open_len@.len() == c,
            forall|j: int| 0 <= j < c ==> #[trigger] open_len@[j] == count_open(clauses@[j].vars@, a),
            forall|j: int| 0 <= j < c && !status[j] ==> #[trigger] open_len@[j] <= m,
            m == max_open(db.take(c as int), status, a),
        decreases clauses@.len() - c,
    {
        let k = clauses[c].open_count(assignment);
        proof {
            assert(db.take(c + 1).drop_last() =~= db.take(c as int));
            assert(db.take(c + 1)[c as int] == clauses@[c as int].vars@);
        }
        open_len.push(k);
        if !clause_status[c] && k > m {
            m = k;
        }
        c = c + 1;
    }
    assert(db.take(c as int) =~= db);
    let mut best: usize = 0;
    let mut pb: Vec<u64> = Vec::new();
    let mut qb: Vec<u64> = Vec::new();
    let mut u: usize = 1;
    while u <= n
        invariant
            1 <= u <= n + 1,
            n == a.len(),
            n <= i32::MAX,
            a == assignment@,
            db == db_of(clauses@),
            status == clause_status@,
            status.len() == clauses@.len(),
            open_len@.len() == clauses@.len(),
            forall|j: int| 0 <= j < clauses@.len() ==> #[trigger] open_len@[j] == count_open(clauses@[j].vars@, a),
            forall|j: int| 0 <= j < clauses@.len() && !status[j] ==> #[trigger] open_len@[j] <= m,
            m == max_open(db, status, a),
            best < u,
            best == 0 <==> forall|w: int| 1 <= w < u ==> !open_var(a, w),
            best != 0 ==> open_var(a, best as int),
            best != 0 ==> pb@.len() == m && qb@.len() == m,
            best != 0 ==> forall|k: int| 0 <= k < m ==> #[trigger] pb@[k] == occ(db, status, a, best as i32, k + 1),
            best != 0 ==> forall|k: int| 0 <= k < m ==> #[trigger] qb@[k] == occ(db, status, a, (-best) as i32, k + 1),
            forall|w: int| 1 <= w < best && open_var(a, w) ==> #[trigger] lex_better(db, status, a, best as int, w, 1, m as int),
            forall|w: int| best < w < u && open_var(a, w) ==> !#[trigger] lex_better(db, status, a, w, best as int, 1, m as int),
        decreases n + 1 - u,
    {
        if assignment.get(u).is_none() {
            let lit = u as i32;
            let pu = length_profile(clauses, clause_status, &open_len, lit, m, Ghost(a));
            let qu = length_profile(clauses, clause_status, &open_len, -lit, m, Ghost(a));
            let better = best == 0 || profile_better(
                &pu,
                &qu,
                &pb,
                &qb,
                m,
                Ghost(db),
                Ghost(status),
                Ghost(a),
                Ghost(u as int),
                Ghost(best as int),
            );
            if better {
                proof {
                    if best != 0 {
                        assert forall|w: int| 1 <= w < u && open_var(a, w) implies #[trigger] lex_better(db, status, a, u as int, w, 1, m as int) by {
                            if w < best {
                                lemma_lex_trans(db, status, a, u as int, best as int, w, 1, m as int);
                            } else if w > best {
                                lemma_lex_not_better(db, status, a, w, best as int, u as int, 1, m as int);
                            }
                        }
                    }
                }
                best = u;
                pb = pu;
                qb = qu;
            }
            assert(open_var(a, u as int));
        } else {
            assert(!open_var(a, u as int));
        }
        proof {
            if best == 0 {
                assert forall|w: int| 1 <= w < u + 1 implies !open_var(a, w) by {}
            } else {
                assert(open_var(a, best as int));
            }
        }
        u = u + 1;
    }
    let v = best as i32;
    proof {
        let w = choose|w: int| open_var(a, w);
    }
    let pt = total_count(clauses, clause_status, v);
    let nt = total_count(clauses, clause_status, -v);
    if pt > nt {
        v
    } else {
        -v
    }
}


/// Literal `l1` comes before `l2` in the order in which the activity scan
/// visits them: by variable, the positive literal first.
pub open spec fn precedes(l1: i32, l2: i32) -> bool {
    lit_var(l1) < lit_var(l2) || (lit_var(l1) == lit_var(l2) && l1 > 0 && l2 < 0)
}

/// `l` is a literal over the variables of `a` whose variable is open.
pub open spec fn open_lit(a: Seq<Option<bool>>, l: i32) -> bool {
    valid_lit(l, a.len() as int) && a[lit_var(l) - 1] is None
}

/// The activity score of literal `l` in a state.
pub open spec fn score(state: &SolverState, l: i32) -> u64 {
    state.activity()[act_index(l, state.num_vars() as int)]
}

/// The decision rule: where some open literal scores above zero, `r` is an
/// open literal of the highest score, the first in scan order among those;
/// otherwise the structural choice.
pub open spec fn decision_rule(
    state: &SolverState,
    db: Seq<Seq<i32>>,
    status: Seq<bool>,
    a: Seq<Option<bool>>,
    r: i32,
) -> bool {
    &&& open_lit(a, r)
    &&& (exists|l: i32| open_lit(a, l) && score(state, l) > 0) ==> {
        &&& score(state, r) > 0
        &&& forall|l: i32| #[trigger] open_lit(a, l) ==> score(state, l) <= score(state, r) && (precedes(l, r)
            ==> score(state, l) < score(state, r))
    }
    &&& !(exists|l: i32| open_lit(a, l) && score(state, l) > 0) ==> bohm_choice(db, status, a, r)
}

/// Which clauses hold under `a`.
pub open spec fn sat_flags(db: Seq<Seq<i32>>, a: Seq<Option<bool>>) -> Seq<bool> {
    Seq::new(db.len(), |c: int| evaluate(db[c], a) == Some(AssignmentResult::Sat()))
}

/// The next decision: the open literal of the highest activity, the first
/// in scan order on a tie; where every open literal scores zero, the
/// structural choice of `decide_bohm`.
pub fn decide_activity(
    assignment: &Assignment,
    state: &SolverState,
    clause_status: &Vec<bool>,
    clauses: &Vec<Clause>,
) -> (r: i32)
    requires
        state.wf(),
        assignment@ == state.values(),
        db_of(clauses@) == state.db(),
        clause_status@.len() == clauses@.len(),
        exists|v: int| open_var(assignment@, v),
    ensures
        decision_rule(state, db_of(clauses@), clause_status@, assignment@, r),
{
    let ghost a = assignment@;
    let n = state.vars();
    let mut best: i32 = 0;
    let mut best_score: u64 = 0;
    let mut i: usize = 0;
    while i < n
        invariant
            state.wf(),
            a == assignment@,
            a == state.values(),
            n == state.num_vars(),
            n == a.len(),
            i <= n,
            best == 0 <==> best_score == 0,
            best != 0 ==> open_lit(a, best) && lit_var(best) <= i && score(state, best) == best_score,
            forall|l: i32| #[trigger] open_lit(a, l) && lit_var(l) <= i ==> score(state, l) <= best_score,
            best != 0 ==> forall|l: i32| #[trigger] open_lit(a, l) && lit_var(l) <= i && precedes(l, best) ==> score(state, l) < best_score,
        decreases n - i,
    {
        let v = (i + 1) as i32;
        if assignment.get(i + 1).is_none() {
            let ghost old_best = best;
            let ghost old_score = best_score;
            let sp = state.get_activity(v);
            if sp > best_score {
                best = v;
                best_score = sp;
            }
            let sn = state.get_activity(-v);
            if sn > best_score {
                best = -v;
                best_score = sn;
            }
            proof {
                assert(open_lit(a, v));
                assert(open_lit(a, (-v) as i32));
                assert forall|l: i32| #[trigger] open_lit(a, l) && lit_var(l) <= i + 1 implies score(state, l) <= best_score by {
                    if lit_var(l) == i + 1 {
                        assert(l == v || l == (-v) as i32);
                    }
                }
                assert forall|l: i32| best != 0 && #[trigger] open_lit(a, l) && lit_var(l) <= i + 1 && precedes(l, best) implies score(state, l) < best_score by {
                    if lit_var(l) == i + 1 {
                        assert(l == v || l == (-v) as i32);
                    }
                }
            }
        } else {
            proof {
                assert forall|l: i32| #[trigger] open_lit(a, l) && lit_var(l) <= i + 1 implies lit_var(l) <= i by {
                    if lit_var(l) == i + 1 {
                        assert(a[i as int] is None);
                    }
                }
            }
        }
        i = i + 1;
    }
    if best == 0 {
        proof {
            assert forall|l: i32| open_lit(a, l) implies score(state, l) == 0 by {
                assert(lit_var(l) <= n);
            }
        }
        assert(forall|c: int| 0 <= c < clauses@.len() ==> #[trigger] clauses@[c].vars@ == state.db()[c]);
        decide_bohm(assignment, clause_status, clauses)
    } else {
        proof {
            assert forall|l: i32| #[trigger] open_lit(a, l) implies score(state, l) <= score(state, best)
                && (precedes(l, best) ==> score(state, l) < score(state, best)) by {
                assert(lit_var(l) <= n);
            }
        }
        best
    }
}

/// The first open literal of the first clause after clause 0 that is not
/// flagged in `status` and has one (clause 0 is not considered).
pub fn decide_first_unsat(assignment: &Assignment, clause_status: &Vec<bool>, clauses: &Vec<Clause>) -> (r: i32)
    requires
        clause_status@.len() == clauses@.len(),
        forall|c: int| 0 <= c < clauses@.len() ==> valid_lits(#[trigger] clauses@[c].vars@, assignment@.len() as int),
        exists|c: int| 1 <= c < clauses@.len() && !clause_status@[c] && count_open(#[trigger] clauses@[c].vars@, assignment@) > 0,
    ensures
        exists|c: int|
            1 <= c < clauses@.len() && !clause_status@[c] && (forall|e: int| 1 <= e < c && !clause_status@[e] ==> count_open(#[trigger] clauses@[e].vars@, assignment@) == 0) && {
                let f = crate::clause::first_open(clauses@[c].vars@, assignment@);
                f >= 0 && r == clauses@[c].vars@[f]
            },
{
    let ghost a = assignment@;
    let mut c: usize = 1;
    while c < clauses.len()
        invariant
            1 <= c,
            c <= clauses@.len() || clauses@.len() == 0,
            a == assignment@,
            clause_status@.len() == clauses@.len(),
            forall|j: int| 0 <= j < clauses@.len() ==> valid_lits(#[trigger] clauses@[j].vars@, a.len() as int),
            exists|j: int| 1 <= j < clauses@.len() && !clause_status@[j] && count_open(#[trigger] clauses@[j].vars@, a) > 0,
            forall|e: int| 1 <= e < c && !clause_status@[e] ==> count_open(#[trigger] clauses@[e].vars@, a) == 0,
        decreases clauses@.len() - c,
    {
        if !clause_status[c] {
            let ghost lits = clauses@[c as int].vars@;
            let mut i: usize = 0;
            while i < clauses[c].vars.len()
                invariant
                    1 <= c < clauses@.len(),
                    !clause_status@[c as int],
                    clause_status@.len() == clauses@.len(),
                    forall|e: int| 1 <= e < c && !clause_status@[e] ==> count_open(#[trigger] clauses@[e].vars@, a) == 0,
                    i <= lits.len(),
                    lits == clauses@[c as int].vars@,
                    a == assignment@,
                    valid_lits(lits, a.len() as int),
                    crate::clause::first_open(lits.take(i as int), a) == -1,
                    count_open(lits.take(i as int), a) == 0,
                decreases lits.len() - i,
            {
                let x = clauses[c].vars[i];
                assert(valid_lit(lits[i as int], a.len() as int));
                assert(lits.take(i + 1).drop_last() =~= lits.take(i as int));
                if assignment.get(crate::literal::var_of(x)).is_none() {
                    proof {
                        lemma_first_open_prefix(lits, a, i as int);
                        assert(lits[i as int] == x);
                        let cc = c as int;
                        assert(1 <= cc < clauses@.len() && !clause_status@[cc] && (forall|e: int| 1 <= e < cc && !clause_status@[e] ==> count_open(#[trigger] clauses@[e].vars@, assignment@) == 0) && {
                            let f = crate::clause::first_open(clauses@[cc].vars@, assignment@);
                            f >= 0 && x == clauses@[cc].vars@[f]
                        });
                    }
                    return x;
                }
                i = i + 1;
            }
            assert(lits.take(i as int) =~= lits);
        }
        c = c + 1;
    }
    proof {
        let j = choose|j: int| 1 <= j < clauses@.len() && !clause_status@[j] && count_open(#[trigger] clauses@[j].vars@, a) > 0;
    }
    0
}

/// Where a prefix of `lits` has no open position and the next one is open,
/// that next one is the first open position.
proof fn lemma_first_open_prefix(lits: Seq<i32>, a: Seq<Option<bool>>, i: int)
    requires
        0 <= i < lits.len(),
        crate::clause::first_open(lits.take(i), a) == -1,
        count_open(lits.take(i), a) == 0,
        lit_value(lits[i], a) is None,
    ensures
        crate::clause::first_open(lits, a) == i,
    decreases lits.len(),
{
    if i < lits.len() - 1 {
        assert(lits.drop_last().take(i) =~= lits.take(i));
        lemma_first_open_prefix(lits.drop_last(), a, i);
    } else {
        assert(lits.drop_last() =~= lits.take(i));
    }
}

/// The clause is conflicting under `a`.
pub open spec fn conflicting(lits: Seq<i32>, a: Seq<Option<bool>>) -> bool {
    evaluate(lits, a) == Some(AssignmentResult::Conflict())
}

/// The clause is a unit under `a`.
pub open spec fn is_unit(lits: Seq<i32>, a: Seq<Option<bool>>) -> bool {
    evaluate(lits, a) matches Some(AssignmentResult::Propagate(_))
}

/// The next move: classify every clause in index order; the first
/// conflicting clause gives a conflict; failing that, the first unit clause
/// gives a propagation; where every clause holds, `Sat`; otherwise a
/// decision by `decide_activity`.
pub fn move_from_state(state: &SolverState) -> (r: SolverMove)
    requires
        state.wf(),
    ensures
        !(r is DecideFromConflict),
        (exists|c: int| 0 <= c < state.db().len() && #[trigger] conflicting(state.db()[c], state.values()))
            <==> r is Conflict,
        r matches SolverMove::Conflict(clause) ==> {
            &&& clause < state.db().len()
            &&& conflicting(state.db()[clause as int], state.values())
            &&& forall|c: int| 0 <= c < clause ==> !#[trigger] conflicting(state.db()[c], state.values())
        },
        r matches SolverMove::Propagate { variable, clause } ==> {
            &&& clause < state.db().len()
            &&& forall|c: int| 0 <= c < state.db().len() ==> !#[trigger] conflicting(state.db()[c], state.values())
            &&& evaluate(state.db()[clause as int], state.values()) == Some(AssignmentResult::Propagate(variable))
            &&& forall|c: int| 0 <= c < clause ==> !#[trigger] is_unit(state.db()[c], state.values())
            &&& state.can_append(r)
        },
        (forall|c: int|
            0 <= c < state.db().len() ==> #[trigger] evaluate(state.db()[c], state.values()) == Some(AssignmentResult::Sat()))
            <==> r is Sat,
        r matches SolverMove::Decide(l) ==> {
            &&& forall|c: int| 0 <= c < state.db().len() ==> !#[trigger] conflicting(state.db()[c], state.values())
            &&& forall|c: int| 0 <= c < state.db().len() ==> !#[trigger] is_unit(state.db()[c], state.values())
            &&& exists|c: int| 0 <= c < state.db().len() && #[trigger] evaluate(state.db()[c], state.values()) is None
            &&& decision_rule(state, state.db(), sat_flags(state.db(), state.values()), state.values(), l)
        },
{
    let assignment = state.assignment();
    let ghost a = assignment@;
    let ghost db = state.db();
    let clauses = state.clauselist();
    let mut clause_status: Vec<bool> = Vec::new();
    let mut sat_count: usize = 0;
    let mut first_conflict: Option<usize> = None;
    let mut first_unit: Option<(i32, usize)> = None;
    let mut c: usize = 0;
    while c < clauses.len()
        invariant
            state.wf(),
            a == state.values(),
            a == assignment@,
            db == state.db(),
            clauses@.len() == db.len(),
            forall|j: int| 0 <= j < clauses@.len() ==> #[trigger] clauses@[j].vars@ == db[j],
            c <= db.len(),
            clause_status@.len() == c,
            sat_count <= c,
            first_conflict is None ==> forall|j: int| 0 <= j < c ==> !#[trigger] conflicting(db[j], a),
            first_conflict matches Some(k) ==> k < c && conflicting(db[k as int], a) && forall|j: int|
                0 <= j < k ==> !#[trigger] conflicting(db[j], a),
            first_unit is None ==> forall|j: int| 0 <= j < c ==> !#[trigger] is_unit(db[j], a),
            first_unit matches Some((v, k)) ==> k < c && evaluate(db[k as int], a) == Some(
                AssignmentResult::Propagate(v),
            ) && forall|j: int| 0 <= j < k ==> !#[trigger] is_unit(db[j], a),
            forall|j: int| 0 <= j < c ==> (#[trigger] clause_status@[j] <==> evaluate(db[j], a) == Some(AssignmentResult::Sat())),
            sat_count == c ==> forall|j: int| 0 <= j < c ==> #[trigger] evaluate(db[j], a) == Some(AssignmentResult::Sat()),
            sat_count < c ==> exists|j: int| 0 <= j < c && #[trigger] evaluate(db[j], a) != Some(AssignmentResult::Sat()),
        decreases db.len() - c,
    {
        assert(valid_lits(db[c as int], state.num_vars() as int));
        let result = clauses[c].check_assignment(&assignment);
        match result {
            Some(AssignmentResult::Propagate(v)) => {
                if first_unit.is_none() {
                    first_unit = Some((v, c));
                }
                clause_status.push(false);
            },
            Some(AssignmentResult::Conflict()) => {
                if first_conflict.is_none() {
                    first_conflict = Some(c);
                }
                clause_status.push(false);
            },
            Some(AssignmentResult::Sat()) => {
                clause_status.push(true);
                sat_count = sat_count + 1;
            },
            None => {
                clause_status.push(false);
            },
        }
        proof {
            if sat_count < c + 1 && !(exists|j: int| 0 <= j < c && #[trigger] evaluate(db[j], a) != Some(AssignmentResult::Sat())) {
                assert(evaluate(db[c as int], a) != Some(AssignmentResult::Sat()));
            }
        }
        c = c + 1;
    }
    match first_conflict {
        Some(k) => {
            return SolverMove::Conflict(k);
        },
        None => {},
    }
    match first_unit {
        Some((v, k)) => {
            proof {
                let lits = db[k as int];
                lemma_first_open_bounds(lits, a);
                let f = crate::clause::first_open(lits, a);
                assert(valid_lits(lits, a.len() as int));
                assert(valid_lit(lits[f], a.len() as int));
                assert(a[lit_var(v) - 1] is None);
                assert(trail_value(state.trail(), lit_var(v)) is None);
            }
            return SolverMove::Propagate { variable: v, clause: k };
        },
        None => {},
    }
    if sat_count == clauses.len() {
        return SolverMove::Sat();
    }
    proof {
        let j = choose|j: int| 0 <= j < c && #[trigger] evaluate(db[j], a) != Some(AssignmentResult::Sat());
        assert(!conflicting(db[j], a));
        assert(!is_unit(db[j], a));
        assert(evaluate(db[j], a) is None);
        lemma_first_open_bounds(db[j], a);
        let f = crate::clause::first_open(db[j], a);
        assert(valid_lits(db[j], a.len() as int));
        assert(valid_lit(db[j][f], a.len() as int));
        assert(open_var(a, lit_var(db[j][f])));
        assert(db_of(clauses@) =~= db);
        assert(clause_status@ =~= sat_flags(db, a));
    }
    let v = decide_activity(&assignment, state, &clause_status, clauses);
    SolverMove::Decide(v)
}

/// Opening empty levels puts no variable on the trail.
proof fn lemma_on_trail_levels(t: Seq<Seq<SolverMove>>, v: int)
    ensures
        on_trail(t.push(Seq::<SolverMove>::empty()), v) == on_trail(t, v),
        on_trail(seq![Seq::<SolverMove>::empty(), Seq::<SolverMove>::empty()], v) == false,
{
    let t1 = t.push(Seq::<SolverMove>::empty());
    if on_trail(t1, v) {
        let (a, i) = choose|a: int, i: int| is_entry(t1, a, i) && lit_var(move_lit(#[trigger] t1[a][i])) == v;
        assert(t1[a][i] == t[a][i]);
    }
    if on_trail(t, v) {
        let (a, i) = choose|a: int, i: int| is_entry(t, a, i) && lit_var(move_lit(#[trigger] t[a][i])) == v;
        assert(t1[a][i] == t[a][i]);
    }
}

/// One step of the search: takes the next move and performs it. Returns
/// `Some(true)` where every clause holds (the trail then gives a model),
/// `Some(false)` where a clause is falsified with no decision left to flip,
/// and `None` where the search goes on.
pub fn step(state: &mut SolverState) -> (r: Option<bool>)
    requires
        old(state).wf(),
    ensures
        final(state).wf(),
        final(state).num_vars() == old(state).num_vars(),
        final(state).original_count() == old(state).original_count(),
        r == Some(true) ==> final(state).trail() == old(state).trail() && final(state).db() == old(state).db()
            && forall|c: int|
            0 <= c < final(state).db().len() ==> #[trigger] evaluate(final(state).db()[c], final(state).values())
                == Some(AssignmentResult::Sat()),
        r == Some(false) ==> final(state).trail() == old(state).trail() && final(state).db() == old(state).db()
            && !has_open_decision(old(state).trail()) && exists|c: int|
            0 <= c < old(state).db().len() && #[trigger] evaluate(old(state).db()[c], old(state).values())
                == Some(AssignmentResult::Conflict()),
        (forall|c: int|
            0 <= c < old(state).db().len() ==> #[trigger] evaluate(old(state).db()[c], old(state).values())
                == Some(AssignmentResult::Sat())) ==> r == Some(true),
        (exists|c: int| 0 <= c < old(state).db().len() && #[trigger] conflicting(old(state).db()[c], old(state).values()))
            && !has_open_decision(old(state).trail()) ==> r == Some(false),
        r is None ==> {
            let db = old(state).db();
            let a = old(state).values();
            ||| exists|l: i32, c: usize|
                {
                    &&& c < db.len()
                    &&& forall|e: int| 0 <= e < db.len() ==> !#[trigger] conflicting(db[e], a)
                    &&& evaluate(db[c as int], a) == Some(AssignmentResult::Propagate(l))
                    &&& forall|e: int| 0 <= e < c ==> !#[trigger] is_unit(db[e], a)
                    &&& final(state).db() == db
                    &&& final(state).trail() == appended(
                        old(state).trail(),
                        SolverMove::Propagate { variable: l, clause: c },
                    )
                }
            ||| exists|l: i32|
                {
                    &&& forall|e: int| 0 <= e < db.len() ==> !#[trigger] conflicting(db[e], a)
                    &&& forall|e: int| 0 <= e < db.len() ==> !#[trigger] is_unit(db[e], a)
                    &&& decision_rule(old(state), db, sat_flags(db, a), a, l)
                    &&& final(state).db() == db
                    &&& final(state).trail() == appended(opened(old(state).trail()), SolverMove::Decide(l))
                }
            ||| exists|c: int|
                {
                    &&& 0 <= c < db.len()
                    &&& conflicting(db[c], a)
                    &&& forall|e: int| 0 <= e < c ==> !#[trigger] conflicting(db[e], a)
                    &&& has_open_decision(old(state).trail())
                    &&& final(state).trail().len() < old(state).trail().len()
                }
        },
{
    let next = move_from_state(state);
    match next {
        SolverMove::Propagate { .. } => {
            state.add_move(next);
            None
        },
        SolverMove::Decide(l) => {
            proof {
                lemma_on_trail_levels(state.trail(), lit_var(l));
                assert(trail_value(state.trail(), lit_var(l)) is None);
                assert(state.values()[lit_var(l) - 1] is None);
            }
            state.add_decision_lv();
            proof {
                lemma_on_trail_levels(old(state).trail(), lit_var(l));
            }
            state.add_move(next);
            None
        },
        SolverMove::Sat() => Some(true),
        SolverMove::Conflict(c) => {
            if state.resolve_conflict_cdcl(c) {
                None
            } else {
                Some(false)
            }
        },
        SolverMove::DecideFromConflict(_, _) => None,
    }
}

/// Runs the search for at most `max_steps` steps: `Some(true)` where every
/// clause holds under the final trail, `Some(false)` where a clause is
/// falsified with no decision left to flip, `None` where the steps ran out.
pub fn solve(state: &mut SolverState, max_steps: u64) -> (r: Option<bool>)
    requires
        old(state).wf(),
    ensures
        final(state).wf(),
        final(state).num_vars() == old(state).num_vars(),
        r == Some(true) ==> forall|c: int|
            0 <= c < final(state).db().len() ==> #[trigger] evaluate(final(state).db()[c], final(state).values())
                == Some(AssignmentResult::Sat()),
        r == Some(false) ==> !has_open_decision(final(state).trail()) && exists|c: int|
            0 <= c < final(state).db().len() && #[trigger] evaluate(final(state).db()[c], final(state).values())
                == Some(AssignmentResult::Conflict()),
        max_steps == 0 ==> r is None && *final(state) == *old(state),
        max_steps >= 1 && (forall|c: int|
            0 <= c < old(state).db().len() ==> #[trigger] evaluate(old(state).db()[c], old(state).values())
                == Some(AssignmentResult::Sat())) ==> r == Some(true),
        max_steps >= 1 && (exists|c: int|
            0 <= c < old(state).db().len() && #[trigger] conflicting(old(state).db()[c], old(state).values()))
            && !has_open_decision(old(state).trail()) ==> r == Some(false),
{
    if max_steps == 0 {
        return None;
    }
    let first = step(state);
    if first.is_some() {
        return first;
    }
    let mut k: u64 = 1;
    while k < max_steps
        invariant
            state.wf(),
            state.num_vars() == old(state).num_vars(),
            first is None,
            !(forall|c: int|
                0 <= c < old(state).db().len() ==> #[trigger] evaluate(old(state).db()[c], old(state).values())
                    == Some(AssignmentResult::Sat())),
            !((exists|c: int|
                0 <= c < old(state).db().len() && #[trigger] conflicting(old(state).db()[c], old(state).values()))
                && !has_open_decision(old(state).trail())),
        decreases max_steps - k,
    {
        let r = step(state);
        if r.is_some() {
            return r;
        }
        k = k + 1;
    }
    None
}

} // verus!
