//! Reading a formula in DIMACS CNF text.
use vstd::prelude::*;
use crate::clause::Clause;
use crate::literal::{valid_lit, valid_lits};
use crate::analysis::copy_lits;
use crate::solver_state::SolverState;

verus! {

/// Why a text is not a formula.
#[derive(Clone, Copy, Debug, PartialEq, Eq, Structural)]
pub enum ParseError {
    /// A second `p` line.
    DuplicateHeader,
    /// A `p` line without exactly four fields.
    BadHeader,
    /// A `p` line whose format is not `cnf`.
    NotCnf,
    /// The variable count is not a number.
    BadVariableCount,
    /// The clause count is not a number.
    BadClauseCount,
    /// More variables than a literal can name.
    TooManyVariables,
    /// A clause token is not a number.
    NotANumber,
    /// A literal names a variable above the declared count.
    LiteralOutOfRange,
    /// A clause before the `p` line, or no `p` line at all.
    MissingHeader,
}

/// A byte that separates tokens.
pub open spec fn is_space(b: u8) -> bool {
    b == 32 || (9 <= b <= 13)
}

/// The tokens finished so far and the one being read, after the bytes of `s`.
pub open spec fn split_state(s: Seq<u8>) -> (Seq<Seq<u8>>, Seq<u8>)
    decreases s.len(),
{
    if s.len() == 0 {
        (Seq::empty(), Seq::empty())
    } else {
        let (done, cur) = split_state(s.drop_last());
        if is_space(s.last()) {
            if cur.len() > 0 {
                (done.push(cur), Seq::empty())
            } else {
                (done, cur)
            }
        } else {
            (done, cur.push(s.last()))
        }
    }
}

/// The maximal runs of non-space bytes of `s`, in order.
pub open spec fn tokens(s: Seq<u8>) -> Seq<Seq<u8>> {
    let (done, cur) = split_state(s);
    if cur.len() > 0 {
        done.push(cur)
    } else {
        done
    }
}

/// The lines finished so far and the one being read, after the bytes of `s`.
pub open spec fn line_state(s: Seq<u8>) -> (Seq<Seq<u8>>, Seq<u8>)
    decreases s.len(),
{
    if s.len() == 0 {
        (Seq::empty(), Seq::empty())
    } else {
        let (done, cur) = line_state(s.drop_last());
        if s.last() == 10 {
            (done.push(cur), Seq::empty())
        } else {
            (done, cur.push(s.last()))
        }
    }
}

/// The lines of `s`: split at each newline; a final newline opens no line.
pub open spec fn lines(s: Seq<u8>) -> Seq<Seq<u8>> {
    let (done, cur) = line_state(s);
    if cur.len() > 0 {
        done.push(cur)
    } else {
        done
    }
}

/// The bytes are decimal digits.
pub open spec fn all_digits(s: Seq<u8>) -> bool {
    forall|i: int| 0 <= i < s.len() ==> 48 <= #[trigger] s[i] <= 57
}

/// The value of a string of decimal digits.
pub open spec fn digits_value(s: Seq<u8>) -> nat
    decreases s.len(),
{
    if s.len() == 0 {
        0
    } else {
        digits_value(s.drop_last()) * 10 + (s.last() - 48) as nat
    }
}

/// The number that a token spells: an optional `+` (or `-` where `signed`),
/// then one or more digits.
pub open spec fn number_of(tok: Seq<u8>, signed: bool) -> Option<int> {
    if tok.len() > 0 && (tok[0] == 43 || (signed && tok[0] == 45)) {
        let rest = tok.drop_first();
        if rest.len() > 0 && all_digits(rest) {
            Some(if tok[0] == 45 { -(digits_value(rest) as int) } else { digits_value(rest) as int })
        } else {
            None
        }
    } else if tok.len() > 0 && all_digits(tok) {
        Some(digits_value(tok) as int)
    } else {
        None
    }
}

/// The token `p`.
pub open spec fn is_p(tok: Seq<u8>) -> bool {
    tok == seq![112u8]
}

/// The token `cnf`.
pub open spec fn is_cnf(tok: Seq<u8>) -> bool {
    tok == seq![99u8, 110u8, 102u8]
}

/// The literals of a clause line over `n` variables (zeros dropped), or
/// the error of its first bad token.
pub open spec fn clause_of(toks: Seq<Seq<u8>>, n: int) -> Result<Seq<i32>, ParseError>
    decreases toks.len(),
{
    if toks.len() == 0 {
        Ok(Seq::empty())
    } else {
        match clause_of(toks.drop_last(), n) {
            Err(e) => Err(e),
            Ok(lits) => match number_of(toks.last(), true) {
                None => Err(ParseError::NotANumber),
                Some(x) => if x < i32::MIN || x > i32::MAX {
                    Err(ParseError::NotANumber)
                } else if x == 0 {
                    Ok(lits)
                } else if !valid_lit(x as i32, n) {
                    Err(ParseError::LiteralOutOfRange)
                } else {
                    Ok(lits.push(x as i32))
                },
            },
        }
    }
}

/// Where reading stands after some lines: the variable count of the header
/// once read, the clauses so far, whether a `%` line ended the input, and
/// the first error.
pub struct ReadState {
    pub vars: Option<nat>,
    pub clauses: Seq<Seq<i32>>,
    pub stopped: bool,
    pub error: Option<ParseError>,
}

/// The largest variable count accepted: literals are `i32`, and a score is
/// kept for each of the two literals of each variable.
pub open spec fn max_vars() -> int {
    if i32::MAX <= usize::MAX / 2 {
        i32::MAX as int
    } else {
        (usize::MAX / 2) as int
    }
}

/// Reading one more line.
pub open spec fn read_line(st: ReadState, line: Seq<u8>) -> ReadState {
    let toks = tokens(line);
    if st.error is Some || st.stopped {
        st
    } else if line.len() > 0 && line[0] == 99 {
        st
    } else if line.len() > 0 && line[0] == 37 {
        ReadState { stopped: true, ..st }
    } else if toks.len() == 0 {
        st
    } else if is_p(toks[0]) {
        if st.vars is Some {
            ReadState { error: Some(ParseError::DuplicateHeader), ..st }
        } else if toks.len() != 4 {
            ReadState { error: Some(ParseError::BadHeader), ..st }
        } else if !is_cnf(toks[1]) {
            ReadState { error: Some(ParseError::NotCnf), ..st }
        } else if number_of(toks[2], false) is None {
            ReadState { error: Some(ParseError::BadVariableCount), ..st }
        } else if number_of(toks[2], false)->0 > max_vars() {
            ReadState { error: Some(ParseError::TooManyVariables), ..st }
        } else if number_of(toks[3], false) is None || number_of(toks[3], false)->0 > u64::MAX {
            ReadState { error: Some(ParseError::BadClauseCount), ..st }
        } else {
            ReadState { vars: Some(number_of(toks[2], false)->0 as nat), ..st }
        }
    } else if st.vars is None {
        ReadState { error: Some(ParseError::MissingHeader), ..st }
    } else {
        match clause_of(toks, st.vars->0 as int) {
            Err(e) => ReadState { error: Some(e), ..st },
            Ok(c) => ReadState { clauses: st.clauses.push(c), ..st },
        }
    }
}

/// Reading the lines of `ls` in order, from nothing read.
pub open spec fn read_lines(ls: Seq<Seq<u8>>) -> ReadState
    decreases ls.len(),
{
    if ls.len() == 0 {
        ReadState { vars: None, clauses: Seq::empty(), stopped: false, error: None }
    } else {
        read_line(read_lines(ls.drop_last()), ls.last())
    }
}

/// What a text denotes: its variable count and clauses, or the first error
/// (a missing header where none came).
pub open spec fn formula_of(input: Seq<u8>) -> Result<(nat, Seq<Seq<i32>>), ParseError> {
    let st = read_lines(lines(input));
    match st.error {
        Some(e) => Err(e),
        None => match st.vars {
            None => Err(ParseError::MissingHeader),
            Some(n) => Ok((n, st.clauses)),
        },
    }
}

/// The tokens of `line`.
fn split_tokens(line: &Vec<u8>) -> (r: Vec<Vec<u8>>)
    ensures
        r@.len() == tokens(line@).len(),
        forall|k: int| 0 <= k < r@.len() ==> #[trigger] r@[k]@ == tokens(line@)[k],
{
    let ghost s = line@;
    let mut done: Vec<Vec<u8>> = Vec::new();
    let mut cur: Vec<u8> = Vec::new();
    let mut i: usize = 0;
    while i < line.len()
        invariant
            s == line@,
            i <= s.len(),
            done@.len() == split_state(s.take(i as int)).0.len(),
            forall|k: int| 0 <= k < done@.len() ==> #[trigger] done@[k]@ == split_state(s.take(i as int)).0[k],
            cur@ == split_state(s.take(i as int)).1,
        decreases s.len() - i,
    {
        assert(s.take(i + 1).drop_last() =~= s.take(i as int));
        let b = line[i];
        let sp = b == 32 || (9 <= b && b <= 13);
        if sp {
            if cur.len() > 0 {
                let ghost before = done@;
                done.push(cur);
                cur = Vec::new();
                assert forall|k: int| 0 <= k < done@.len() implies #[trigger] done@[k]@ == split_state(s.take(i + 1)).0[k] by {
                    if k < before.len() {
                        assert(done@[k] == before[k]);
                    }
                }
            }
        } else {
            cur.push(b);
        }
        i = i + 1;
    }
    assert(s.take(i as int) =~= s);
    if cur.len() > 0 {
        let ghost before = done@;
        done.push(cur);
        assert forall|k: int| 0 <= k < done@.len() implies #[trigger] done@[k]@ == tokens(s)[k] by {
            if k < before.len() {
                assert(done@[k] == before[k]);
            }
        }
    }
    done
}

/// The number that `tok` spells; a value beyond `-(bound + 1)..=bound`
/// comes back as some value beyond that range, on the same side.
fn read_number(tok: &Vec<u8>, signed: bool, bound: u64) -> (r: Option<i128>)
    ensures
        r is None <==> number_of(tok@, signed) is None,
        r matches Some(x) ==> {
            let v = number_of(tok@, signed)->0;
            &&& (-(bound as int) - 1 <= v <= bound ==> x == v)
            &&& (v > bound ==> x > bound)
            &&& (v < -(bound as int) - 1 ==> x < -(bound as int) - 1)
        },
{
    let ghost s = tok@;
    if tok.len() == 0 {
        return None;
    }
    let first = tok[0];
    let neg = signed && first == 45;
    let start: usize = if first == 43 || neg {
        1
    } else {
        0
    };
    if start == tok.len() {
        return None;
    }
    let ghost rest = s.subrange(start as int, s.len() as int);
    proof {
        if start == 1 {
            assert(rest =~= s.drop_first());
        } else {
            assert(rest =~= s);
        }
    }
    let limit: u128 = if neg {
        bound as u128 + 1
    } else {
        bound as u128
    };
    let mut acc: u128 = 0;
    let mut i: usize = start;
    while i < tok.len()
        invariant
            s == tok@,
            start <= i <= s.len(),
            rest == s.subrange(start as int, s.len() as int),
            s.len() > 0,
            start == 1 ==> rest == s.drop_first(),
            start == 0 ==> rest == s,
            (start == 1) == (s[0] == 43 || (signed && s[0] == 45)),
            start <= 1,
            neg == (signed && s[0] == 45),
            limit as int == (if neg { bound + 1 } else { bound as int }),
            limit <= u64::MAX as u128 + 1,
            all_digits(s.subrange(start as int, i as int)),
            acc as int == (if digits_value(s.subrange(start as int, i as int)) > limit {
                limit + 1
            } else {
                digits_value(s.subrange(start as int, i as int)) as int
            }),
        decreases s.len() - i,
    {
        let b = tok[i];
        if b < 48 || b > 57 {
            proof {
                assert(rest[i - start] == b);
                assert(!all_digits(rest));
            }
            return None;
        }
        let ghost pre = s.subrange(start as int, i as int);
        let ghost next = s.subrange(start as int, i + 1);
        assert(next.drop_last() =~= pre);
        assert(next.last() == b);
        let d = (b - 48) as u128;
        proof {
            let dv = digits_value(pre);
            assert(digits_value(next) == dv * 10 + d);
            if dv > limit {
                assert(dv * 10 + d > limit) by (nonlinear_arith)
                    requires
                        dv > limit,
                        d >= 0,
                ;
            }
            assert forall|k: int| 0 <= k < next.len() implies 48 <= #[trigger] next[k] <= 57 by {
                if k < pre.len() {
                    assert(next[k] == pre[k]);
                }
            }
        }
        if acc <= limit {
            let v = acc * 10 + d;
            acc = if v > limit {
                limit + 1
            } else {
                v
            };
        }
        i = i + 1;
    }
    proof {
        assert(s.subrange(start as int, i as int) =~= rest);
    }
    if neg {
        Some(-(acc as i128))
    } else {
        Some(acc as i128)
    }
}

/// An error of a prefix of the tokens is the error of the whole line.
proof fn lemma_clause_error_stays(ts: Seq<Seq<u8>>, k: int, n: int)
    requires
        0 <= k <= ts.len(),
        clause_of(ts.take(k), n) is Err,
    ensures
        clause_of(ts, n) == clause_of(ts.take(k), n),
    decreases ts.len(),
{
    if k < ts.len() {
        assert(ts.drop_last().take(k) =~= ts.take(k));
        lemma_clause_error_stays(ts.drop_last(), k, n);
    } else {
        assert(ts.take(k) =~= ts);
    }
}

/// The literals of a clause line over `n` variables, or the error of its
/// first bad token.
fn read_clause(toks: &Vec<Vec<u8>>, n: usize) -> (r: Result<Vec<i32>, ParseError>)
    requires
        n <= i32::MAX,
    ensures
        r matches Ok(c) ==> clause_of(Seq::new(toks@.len(), |k: int| toks@[k]@), n as int) == Ok::<Seq<i32>, ParseError>(c@),
        r matches Err(e) ==> clause_of(Seq::new(toks@.len(), |k: int| toks@[k]@), n as int) == Err::<Seq<i32>, ParseError>(e),
{
    let ghost ts = Seq::new(toks@.len(), |k: int| toks@[k]@);
    let mut lits: Vec<i32> = Vec::new();
    let mut k: usize = 0;
    while k < toks.len()
        invariant
            n <= i32::MAX,
            ts == Seq::new(toks@.len(), |k: int| toks@[k]@),
            k <= ts.len(),
            clause_of(ts.take(k as int), n as int) == Ok::<Seq<i32>, ParseError>(lits@),
        decreases ts.len() - k,
    {
        assert(ts.take(k + 1).drop_last() =~= ts.take(k as int));
        assert(ts.take(k + 1).last() == toks@[k as int]@);
        match read_number(&toks[k], true, i32::MAX as u64) {
            None => {
                proof {
                    lemma_clause_error_stays(ts, k + 1, n as int);
                }
                return Err(ParseError::NotANumber);
            },
            Some(x) => {
                if x < i32::MIN as i128 || x > i32::MAX as i128 {
                    proof {
                        lemma_clause_error_stays(ts, k + 1, n as int);
                    }
                    return Err(ParseError::NotANumber);
                }
                if x != 0 {
                    let l = x as i32;
                    if l == i32::MIN || (if l < 0 { -l } else { l }) as usize > n {
                        proof {
                            lemma_clause_error_stays(ts, k + 1, n as int);
                        }
                        return Err(ParseError::LiteralOutOfRange);
                    }
                    lits.push(l);
                }
            },
        }
        k = k + 1;
    }
    assert(ts.take(k as int) =~= ts);
    Ok(lits)
}

/// A clause line that reads without error has valid literals.
proof fn lemma_clause_valid(ts: Seq<Seq<u8>>, n: int)
    requires
        clause_of(ts, n) is Ok,
    ensures
        valid_lits(clause_of(ts, n)->Ok_0, n),
    decreases ts.len(),
{
    if ts.len() > 0 {
        lemma_clause_valid(ts.drop_last(), n);
    }
}

/// Reading in progress.
struct Reader {
    vars: Option<usize>,
    clauses: Vec<Vec<i32>>,
    stopped: bool,
    error: Option<ParseError>,
}

impl Reader {
    spec fn state(&self) -> ReadState {
        ReadState {
            vars: match self.vars {
                Some(n) => Some(n as nat),
                None => None,
            },
            clauses: Seq::new(self.clauses@.len(), |k: int| self.clauses@[k]@),
            stopped: self.stopped,
            error: self.error,
        }
    }

    spec fn inv(&self) -> bool {
        &&& (self.vars matches Some(n) ==> n <= max_vars())
        &&& (self.vars is None ==> self.clauses@.len() == 0)
        &&& forall|k: int|
            0 <= k < self.clauses@.len() ==> valid_lits(
                #[trigger] self.clauses@[k]@,
                self.vars->0 as int,
            )
    }

    fn read_line(&mut self, line: &Vec<u8>)
        requires
            old(self).inv(),
        ensures
            final(self).inv(),
            final(self).state() == read_line(old(self).state(), line@),
    {
        let ghost st = self.state();
        if self.error.is_some() || self.stopped {
            return;
        }
        if line.len() > 0 && line[0] == 99 {
            return;
        }
        if line.len() > 0 && line[0] == 37 {
            self.stopped = true;
            assert(self.state().clauses =~= st.clauses);
            return;
        }
        let toks = split_tokens(line);
        let ghost ts = tokens(line@);
        if toks.len() == 0 {
            return;
        }
        assert(toks@[0]@ == ts[0]);
        if toks[0].len() == 1 && toks[0][0] == 112 {
            assert(is_p(ts[0])) by {
                assert(ts[0] =~= seq![112u8]);
            }
            if self.vars.is_some() {
                self.error = Some(ParseError::DuplicateHeader);
                return;
            }
            if toks.len() != 4 {
                self.error = Some(ParseError::BadHeader);
                return;
            }
            assert(toks@[1]@ == ts[1]);
            assert(toks@[2]@ == ts[2]);
            assert(toks@[3]@ == ts[3]);
            let t1 = &toks[1];
            if !(t1.len() == 3 && t1[0] == 99 && t1[1] == 110 && t1[2] == 102) {
                proof {
                    if is_cnf(ts[1]) {
                        assert(ts[1][0] == 99u8 && ts[1][1] == 110u8 && ts[1][2] == 102u8);
                    }
                }
                self.error = Some(ParseError::NotCnf);
                return;
            }
            assert(is_cnf(ts[1])) by {
                assert(ts[1] =~= seq![99u8, 110u8, 102u8]);
            }
            let limit: u64 = if (i32::MAX as usize) <= usize::MAX / 2 {
                i32::MAX as u64
            } else {
                (usize::MAX / 2) as u64
            };
            match read_number(&toks[2], false, limit) {
                None => {
                    self.error = Some(ParseError::BadVariableCount);
                    return;
                },
                Some(n) => {
                    if n > limit as i128 {
                        self.error = Some(ParseError::TooManyVariables);
                        return;
                    }
                    match read_number(&toks[3], false, u64::MAX) {
                        None => {
                            self.error = Some(ParseError::BadClauseCount);
                            return;
                        },
                        Some(m) => {
                            if m > u64::MAX as i128 {
                                self.error = Some(ParseError::BadClauseCount);
                                return;
                            }
                        },
                    }
                    self.vars = Some(n as usize);
                    assert(self.state().clauses =~= st.clauses);
                    return;
                },
            }
        }
        proof {
            if is_p(ts[0]) {
                assert(toks@[0]@[0] == 112u8);
            }
        }
        match self.vars {
            None => {
                self.error = Some(ParseError::MissingHeader);
            },
            Some(n) => {
                assert(Seq::new(toks@.len(), |k: int| toks@[k]@) =~= ts);
                match read_clause(&toks, n) {
                    Err(e) => {
                        self.error = Some(e);
                    },
                    Ok(c) => {
                        proof {
                            lemma_clause_valid(ts, n as int);
                        }
                        let ghost before = self.clauses@;
                        self.clauses.push(c);
                        assert(self.state().clauses =~= st.clauses.push(c@));
                        assert(self.state() == ReadState { clauses: st.clauses.push(c@), ..st });
                        assert forall|k: int| 0 <= k < self.clauses@.len() implies valid_lits(
                            #[trigger] self.clauses@[k]@,
                            self.vars->0 as int,
                        ) by {
                            if k < before.len() {
                                assert(self.clauses@[k] == before[k]);
                            }
                        }
                    },
                }
            },
        }
    }
}

/// Reads a formula in DIMACS CNF text: `c` lines are comments, a `%` line
/// ends the input, one `p cnf <variables> <clauses>` line must come before
/// any clause line, and a clause line lists signed literals (zeros are
/// dropped). On success the state holds the clauses as original ones, with
/// an empty trail and zero activity.
pub fn parse_dimacs(input: &Vec<u8>) -> (r: Result<SolverState, ParseError>)
    ensures
        r matches Ok(st) ==> {
            &&& formula_of(input@) matches Ok((n, cls))
            &&& st.wf()
            &&& st.num_vars() == n
            &&& st.db() == cls
            &&& st.trail().len() == 0
            &&& st.original_count() == cls.len()
            &&& forall|k: int| 0 <= k < st.activity().len() ==> st.activity()[k] == 0
        },
        r matches Err(e) ==> formula_of(input@) == Err::<(nat, Seq<Seq<i32>>), ParseError>(e),
        formula_of(input@) is Ok ==> r is Ok,
{
    let ghost s = input@;
    let mut reader = Reader { vars: None, clauses: Vec::new(), stopped: false, error: None };
    let mut cur: Vec<u8> = Vec::new();
    let mut i: usize = 0;
    proof {
        assert(reader.state().clauses =~= Seq::<Seq<i32>>::empty());
        assert(reader.state() == read_lines(Seq::empty()));
    }
    while i < input.len()
        invariant
            s == input@,
            i <= s.len(),
            reader.inv(),
            reader.state() == read_lines(line_state(s.take(i as int)).0),
            cur@ == line_state(s.take(i as int)).1,
        decreases s.len() - i,
    {
        assert(s.take(i + 1).drop_last() =~= s.take(i as int));
        let b = input[i];
        if b == 10 {
            let ghost done = line_state(s.take(i as int)).0;
            reader.read_line(&cur);
            assert(done.push(cur@).drop_last() =~= done);
            cur = Vec::new();
        } else {
            cur.push(b);
        }
        i = i + 1;
    }
    assert(s.take(i as int) =~= s);
    if cur.len() > 0 {
        let ghost done = line_state(s).0;
        reader.read_line(&cur);
        assert(done.push(cur@).drop_last() =~= done);
    }
    match reader.error {
        Some(e) => {
            return Err(e);
        },
        None => {},
    }
    let n = match reader.vars {
        Some(n) => n,
        None => {
            return Err(ParseError::MissingHeader);
        },
    };
    let mut state = SolverState::new();
    state.set_vars(n);
    let mut activity: Vec<u64> = Vec::new();
    let mut k: usize = 0;
    while k < 2 * n
        invariant
            n <= max_vars(),
            k <= 2 * n,
            activity@.len() == k,
            forall|j: int| 0 <= j < k ==> activity@[j] == 0,
        decreases 2 * n - k,
    {
        activity.push(0);
        k = k + 1;
    }
    state.set_activity(activity);
    let ghost cls = reader.state().clauses;
    let count = reader.clauses.len();
    let mut c: usize = 0;
    while c < count
        invariant
            c <= count,
            count == reader.clauses@.len(),
            reader.inv(),
            reader.vars == Some(n),
            cls == reader.state().clauses,
            state.wf(),
            state.num_vars() == n,
            state.trail().len() == 0,
            state.db() == cls.take(c as int),
            state.activity().len() == 2 * n,
            forall|j: int| 0 <= j < state.activity().len() ==> state.activity()[j] == 0,
        decreases count - c,
    {
        let lits = copy_lits(&reader.clauses[c]);
        assert(valid_lits(reader.clauses@[c as int]@, n as int));
        state.add_clause(Clause::from_vec(lits));
        assert(cls.take(c + 1) =~= cls.take(c as int).push(cls[c as int]));
        c = c + 1;
    }
    assert(cls.take(count as int) =~= cls);
    state.set_clauses(count);
    Ok(state)
}

} // verus!
