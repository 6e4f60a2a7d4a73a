//! A partial valuation of the variables `1..=n`.
use vstd::prelude::*;
use crate::literal::{lit_var, valid_lit, var_of};
use crate::solver_state::SolverMove;
use crate::trail::move_lit;

verus! {

/// The value of each variable, `None` where it is open; variable `v` stands at `v - 1`.
pub struct Assignment {
    assignments: Vec<Option<bool>>,
}

impl View for Assignment {
    type V = Seq<Option<bool>>;

    closed spec fn view(&self) -> Seq<Option<bool>> {
        self.assignments@
    }
}

/// The value that the last entry of `list` on variable `v` gives it, if any.
pub open spec fn list_value(list: Seq<SolverMove>, v: int) -> Option<bool>
    decreases list.len(),
{
    if list.len() == 0 {
        None
    } else if lit_var(move_lit(list.last())) == v {
        Some(move_lit(list.last()) > 0)
    } else {
        list_value(list.drop_last(), v)
    }
}

/// A flat list of assignments (no verdict markers) over the variables `1..=n`.
pub open spec fn valid_move_list(list: Seq<SolverMove>, n: int) -> bool {
    forall|i: int|
        0 <= i < list.len() ==> {
            &&& !(#[trigger] list[i] is Sat)
            &&& !(list[i] is Conflict)
            &&& valid_lit(move_lit(list[i]), n)
        }
}

/// The decimal digits of `x`, as ASCII bytes.
pub open spec fn decimal(x: nat) -> Seq<u8>
    decreases x,
{
    if x < 10 {
        seq![(48 + x) as u8]
    } else {
        decimal(x / 10).push((48 + x % 10) as u8)
    }
}

/// The text of a valuation: for each assigned variable in increasing order,
/// its number (after a `-` where it is false) and a space.
pub open spec fn render(a: Seq<Option<bool>>) -> Seq<u8>
    decreases a.len(),
{
    if a.len() == 0 {
        Seq::empty()
    } else {
        let rest = render(a.drop_last());
        match a.last() {
            Some(true) => rest + decimal(a.len()) + seq![32u8],
            Some(false) => rest + seq![45u8] + decimal(a.len()) + seq![32u8],
            None => rest,
        }
    }
}

/// Every byte of `b` is ASCII.
pub open spec fn is_ascii(b: Seq<u8>) -> bool {
    forall|i: int| 0 <= i < b.len() ==> #[trigger] b[i] < 128
}

proof fn lemma_decimal_ascii(x: nat)
    ensures
        is_ascii(decimal(x)),
    decreases x,
{
    if x >= 10 {
        lemma_decimal_ascii(x / 10);
    }
}

/// Appends the decimal digits of `x`.
pub fn push_decimal(buf: &mut Vec<u8>, x: usize)
    ensures
        final(buf)@ == old(buf)@ + decimal(x as nat),
    decreases x,
{
    if x >= 10 {
        push_decimal(buf, x / 10);
    }
    buf.push((48 + x % 10) as u8);
    proof {
        if x >= 10 {
            assert(final(buf)@ =~= old(buf)@ + decimal(x as nat));
        } else {
            assert(final(buf)@ =~= old(buf)@ + decimal(x as nat));
        }
    }
}

/// Relies on String::from_utf8: ASCII bytes are valid UTF-8, one char each.
#[verifier::external_body]
pub(crate) fn ascii_text(bytes: Vec<u8>) -> (s: String)
    requires
        is_ascii(bytes@),
    ensures
        s@ == bytes@.map_values(|b: u8| b as char),
{
    String::from_utf8(bytes).unwrap_or_default()
}

impl Assignment {
    /// The valuation that a flat list of moves leaves: each variable takes the
    /// value of the last move on it.
    pub fn from_movelist(list: &Vec<SolverMove>, vars: usize) -> (r: Assignment)
        requires
            valid_move_list(list@, vars as int),
        ensures
            r@.len() == vars,
            forall|k: int| 0 <= k < vars ==> #[trigger] r@[k] == list_value(list@, k + 1),
    {
        let mut values: Vec<Option<bool>> = Vec::new();
        let mut k: usize = 0;
        while k < vars
            invariant
                k <= vars,
                values@.len() == k,
                forall|j: int| 0 <= j < k ==> values@[j] is None,
            decreases vars - k,
        {
            values.push(None);
            k = k + 1;
        }
        let mut i: usize = 0;
        while i < list.len()
            invariant
                i <= list@.len(),
                valid_move_list(list@, vars as int),
                values@.len() == vars,
                forall|j: int|
                    0 <= j < vars ==> #[trigger] values@[j] == list_value(list@.take(i as int), j + 1),
            decreases list@.len() - i,
        {
            let item = list[i];
            assert(list@.take(i + 1).drop_last() =~= list@.take(i as int));
            assert(valid_lit(move_lit(list@[i as int]), vars as int));
            let lit: i32 = match item {
                SolverMove::Propagate { variable, clause: _ } => variable,
                SolverMove::Decide(variable) => variable,
                SolverMove::DecideFromConflict(variable, _) => variable,
                SolverMove::Sat() => 0,
                SolverMove::Conflict(_) => 0,
            };
            let index = var_of(lit);
            values.set(index - 1, Some(lit > 0));
            i = i + 1;
        }
        assert(list@.take(list@.len() as int) =~= list@);
        Assignment { assignments: values }
    }

    /// The valuation that `values` spells out, variable `v` at `v - 1`.
    pub fn from_values(values: Vec<Option<bool>>) -> (r: Assignment)
        ensures
            r@ == values@,
    {
        Assignment { assignments: values }
    }

    /// The number of variables.
    pub fn len(&self) -> (r: usize)
        ensures
            r == self@.len(),
    {
        self.assignments.len()
    }

    /// The text of the valuation, as bytes.
    pub fn render_bytes(&self) -> (r: Vec<u8>)
        ensures
            r@ == render(self@),
            is_ascii(r@),
    {
        let mut buf: Vec<u8> = Vec::new();
        let n = self.assignments.len();
        let mut i: usize = 0;
        while i < n
            invariant
                i <= n,
                n == self@.len(),
                buf@ == render(self@.take(i as int)),
                is_ascii(buf@),
            decreases n - i,
        {
            let ghost before = buf@;
            assert(self@.take(i + 1).drop_last() =~= self@.take(i as int));
            proof {
                lemma_decimal_ascii((i + 1) as nat);
            }
            match self.assignments[i] {
                Some(val) => {
                    if !val {
                        buf.push(45u8);
                    }
                    push_decimal(&mut buf, i + 1);
                    buf.push(32u8);
                    if val {
                        assert(buf@ =~= before + decimal((i + 1) as nat) + seq![32u8]);
                    } else {
                        assert(buf@ =~= before + seq![45u8] + decimal((i + 1) as nat) + seq![32u8]);
                    }
                },
                None => {},
            }
            i = i + 1;
        }
        assert(self@.take(n as int) =~= self@);
        buf
    }

    /// The text of the valuation: each assigned variable in increasing
    /// order, negated where false, each followed by a space.
    pub fn to_string(&self) -> (r: String)
        ensures
            r@ == render(self@).map_values(|b: u8| b as char),
    {
        ascii_text(self.render_bytes())
    }

    /// The value of variable `var` (counted from 1).
    pub fn get(&self, var: usize) -> (r: Option<bool>)
        requires
            1 <= var <= self@.len(),
        ensures
            r == self@[var - 1],
    {
        self.assignments[var - 1]
    }
}

} // verus!
