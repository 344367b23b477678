//! The term vocabulary: operand constants, operator symbols, and the
//! structural conditions a postfix sequence must meet.

use vstd::prelude::*;

verus! {

/// Largest result that is recorded in the solution table.
pub const MAX_RES: usize = 1000;

/// Capacity of the reusable expression buffer; bounds the candidate length.
pub const MAX_EXPR_LEN: usize = 50;

/// One of the four binary operators.
#[derive(Clone, Copy, Debug, PartialEq, Eq, Structural)]
pub enum Op {
    Add,
    Sub,
    Mul,
    Div,
}

/// One slot of a postfix expression: a numeric operand, an operator, or the
/// placeholder that pre-fills the working buffer and must never be part of a
/// completed expression.
#[derive(Clone, Copy, Debug, PartialEq, Eq, Structural)]
pub enum Term {
    Empty,
    Number(i64),
    Operator(Op),
}

/// Precedence of an operator: multiplicative operators bind tighter.
pub open spec fn op_prece(op: Op) -> int {
    match op {
        Op::Mul | Op::Div => 2,
        Op::Add | Op::Sub => 1,
    }
}

/// Precedence used when deciding parenthesization; a bare operand gets the
/// out-of-band rank `OPERAND_PRECE`, which never forces parentheses.
pub const OPERAND_PRECE: u32 = 99;

/// Returns the precedence of `op`.
pub fn get_op_prece(op: Op) -> (r: u32)
    ensures
        r as int == op_prece(op),
{
    match op {
        Op::Mul | Op::Div => 2,
        Op::Add | Op::Sub => 1,
    }
}

/// Number of operand terms in `s`.
pub open spec fn num_cnt_of(s: Seq<Term>) -> int
    decreases s.len(),
{
    if s.len() == 0 {
        0
    } else {
        num_cnt_of(s.drop_last()) + (if s.last() is Number {
            1int
        } else {
            0int
        })
    }
}

/// Number of operator terms in `s`.
pub open spec fn op_cnt_of(s: Seq<Term>) -> int
    decreases s.len(),
{
    if s.len() == 0 {
        0
    } else {
        op_cnt_of(s.drop_last()) + (if s.last() is Operator {
            1int
        } else {
            0int
        })
    }
}

/// Every nonempty prefix of `s` holds strictly more operands than operators:
/// the classic postfix well-formedness condition on prefixes.
pub open spec fn prefix_ok(s: Seq<Term>) -> bool {
    forall|j: int|
        1 <= j <= s.len() ==> #[trigger] num_cnt_of(s.take(j)) > op_cnt_of(s.take(j))
}

/// Every term of `s` is drawn from the alphabet `alpha`.
pub open spec fn from_alphabet(s: Seq<Term>, alpha: Seq<Term>) -> bool {
    forall|j: int| 0 <= j < s.len() ==> alpha.contains(#[trigger] s[j])
}

/// A usable alphabet holds only operands and operators, never the placeholder.
pub open spec fn alpha_wf(alpha: Seq<Term>) -> bool {
    forall|j: int| 0 <= j < alpha.len() ==> !(#[trigger] alpha[j] is Empty)
}

/// The two counts are nonnegative and sum to the length of the sequence when
/// no slot holds the placeholder, and never beyond it.
pub proof fn lemma_cnt_bounds(s: Seq<Term>)
    ensures
        0 <= num_cnt_of(s),
        0 <= op_cnt_of(s),
        num_cnt_of(s) + op_cnt_of(s) <= s.len(),
        (forall|k: int| 0 <= k < s.len() ==> !(#[trigger] s[k] is Empty)) ==> num_cnt_of(s)
            + op_cnt_of(s) == s.len(),
    decreases s.len(),
{
    if s.len() > 0 {
        lemma_cnt_bounds(s.drop_last());
    }
}

/// Appending one term raises exactly the count of its kind.
pub proof fn lemma_cnt_push(s: Seq<Term>, t: Term)
    ensures
        num_cnt_of(s.push(t)) == num_cnt_of(s) + (if t is Number {
            1int
        } else {
            0int
        }),
        op_cnt_of(s.push(t)) == op_cnt_of(s) + (if t is Operator {
            1int
        } else {
            0int
        }),
{
    assert(s.push(t).drop_last() =~= s);
}

/// Appending an operand keeps the prefix condition, as does appending an
/// operator while at least two more operands than operators have been placed
/// — the prune the enumerator applies.
pub proof fn lemma_prefix_ok_push(s: Seq<Term>, t: Term)
    requires
        prefix_ok(s),
        t is Number || (t is Operator && num_cnt_of(s) > op_cnt_of(s) + 1),
    ensures
        prefix_ok(s.push(t)),
{
    lemma_cnt_bounds(s);
    lemma_cnt_push(s, t);
    assert forall|j: int|
        1 <= j <= s.push(t).len() implies num_cnt_of(#[trigger] s.push(t).take(j)) > op_cnt_of(
        s.push(t).take(j),
    ) by {
        if j <= s.len() {
            assert(s.push(t).take(j) =~= s.take(j));
            assert(num_cnt_of(s.take(j)) > op_cnt_of(s.take(j)));
        } else {
            assert(s.push(t).take(j) =~= s.push(t));
            if s.len() >= 1 {
                assert(num_cnt_of(s.take(s.len() as int)) > op_cnt_of(s.take(s.len() as int)));
                assert(s.take(s.len() as int) =~= s);
            }
        }
    }
}

/// The default vocabulary: the digit-2 repunits and all four operators.
pub open spec fn default_alpha() -> Seq<Term> {
    seq![
        Term::Number(2),
        Term::Number(22),
        Term::Number(222),
        Term::Number(2222),
        Term::Operator(Op::Add),
        Term::Operator(Op::Sub),
        Term::Operator(Op::Mul),
        Term::Operator(Op::Div),
    ]
}

/// Builds the default vocabulary that `get_seq` enumerates over.
pub fn default_terms() -> (v: Vec<Term>)
    ensures
        v@ == default_alpha(),
{
    let mut v: Vec<Term> = Vec::new();
    v.push(Term::Number(2));
    v.push(Term::Number(22));
    v.push(Term::Number(222));
    v.push(Term::Number(2222));
    v.push(Term::Operator(Op::Add));
    v.push(Term::Operator(Op::Sub));
    v.push(Term::Operator(Op::Mul));
    v.push(Term::Operator(Op::Div));
    proof {
        assert(v@ =~= default_alpha());
    }
    v
}

} // verus!
