//! The infix renderer: a stack machine converting a postfix sequence into a
//! minimally parenthesized infix string.
//!
//! Each stack entry carries the rendered text of one subexpression together
//! with the precedence of its top-level operator (`OPERAND_PRECE` for a bare
//! operand). In a composite rendering, every operator left unparenthesized at
//! the top level binds at least as tight as the root operator, so the root's
//! precedence is also the minimum precedence over the text's top-level
//! operators. An operand side is parenthesized when it is composite and binds
//! looser than the operator being applied: strictly looser on the left,
//! looser or equal on the right, which disambiguates the non-associative
//! operators.

use vstd::prelude::*;
use vstd::string::StringExecFns;
use vstd::utf8::is_ascii_chars;

use crate::eval::{eval_postfix, eval_state, EvalError};
use crate::terms::{get_op_prece, op_prece, Op, Term, OPERAND_PRECE};

verus! {

/// The symbol of an operator.
pub open spec fn op_char(op: Op) -> char {
    match op {
        Op::Add => '+',
        Op::Sub => '-',
        Op::Mul => '*',
        Op::Div => '/',
    }
}

/// The text an operator contributes: its symbol between single spaces.
pub open spec fn op_text(op: Op) -> Seq<char> {
    seq![' ', op_char(op), ' ']
}

/// `t` between parentheses.
pub open spec fn wrap_parens(t: Seq<char>) -> Seq<char> {
    seq!['('] + t + seq![')']
}

/// The character of a decimal digit.
pub open spec fn dec_digit_char(d: int) -> char {
    if d == 0 {
        '0'
    } else if d == 1 {
        '1'
    } else if d == 2 {
        '2'
    } else if d == 3 {
        '3'
    } else if d == 4 {
        '4'
    } else if d == 5 {
        '5'
    } else if d == 6 {
        '6'
    } else if d == 7 {
        '7'
    } else if d == 8 {
        '8'
    } else {
        '9'
    }
}

/// The decimal digits of a nonnegative integer, most significant first.
pub open spec fn dec_nat(m: nat) -> Seq<char>
    decreases m,
{
    if m < 10 {
        seq![dec_digit_char(m as int)]
    } else {
        dec_nat(m / 10) + seq![dec_digit_char((m % 10) as int)]
    }
}

/// The decimal text of an integer: a `-` sign ahead of the digits when
/// negative.
pub open spec fn dec_str(v: int) -> Seq<char> {
    if v < 0 {
        seq!['-'] + dec_nat((-v) as nat)
    } else {
        dec_nat(v as nat)
    }
}

/// Relies on `i64`'s `Display` implementation, through `format!`: it writes
/// the value's decimal digits, preceded by `-` when the value is negative.
#[verifier::external_body]
fn int_to_string(v: i64) -> (r: String)
    ensures
        r@ == dec_str(v as int),
{
    format!("{}", v)
}

/// One step of the rendering machine over (text, precedence) pairs.
pub open spec fn render_step(st: Seq<(Seq<char>, int)>, t: Term) -> Result<
    Seq<(Seq<char>, int)>,
    EvalError,
> {
    match t {
        Term::Number(v) => Ok(st.push((dec_str(v as int), OPERAND_PRECE as int))),
        Term::Operator(op) => if st.len() < 2 {
            Err(EvalError::StackUnderflow)
        } else {
            let a = st[st.len() - 2];
            let b = st[st.len() - 1];
            let at = if a.1 < op_prece(op) {
                wrap_parens(a.0)
            } else {
                a.0
            };
            let bt = if b.1 <= op_prece(op) {
                wrap_parens(b.0)
            } else {
                b.0
            };
            Ok(st.drop_last().drop_last().push((at + op_text(op) + bt, op_prece(op))))
        },
        Term::Empty => arbitrary(),
    }
}

/// The rendering stack after the first `j` terms of `s`, or the first
/// structural error.
pub open spec fn render_state(s: Seq<Term>, j: int) -> Result<Seq<(Seq<char>, int)>, EvalError>
    decreases j,
{
    if j <= 0 {
        Ok(Seq::empty())
    } else {
        match render_state(s, j - 1) {
            Ok(st) => render_step(st, s[j - 1]),
            Err(e) => Err(e),
        }
    }
}

/// The infix rendering of the whole sequence: run the machine over every
/// term, then demand that exactly one subexpression remains.
pub open spec fn render_postfix(s: Seq<Term>) -> Result<Seq<char>, EvalError> {
    match render_state(s, s.len() as int) {
        Ok(st) => if st.len() == 1 {
            Ok(st[0].0)
        } else {
            Err(EvalError::IncompleteExpression)
        },
        Err(e) => Err(e),
    }
}

/// Once the rendering machine has failed, every later state reports the same
/// error.
pub proof fn lemma_render_err_persists(s: Seq<Term>, j: int, k: int, e: EvalError)
    requires
        0 <= j <= k,
        render_state(s, j) == Err::<Seq<(Seq<char>, int)>, EvalError>(e),
    ensures
        render_state(s, k) == Err::<Seq<(Seq<char>, int)>, EvalError>(e),
    decreases k - j,
{
    if k > j {
        lemma_render_err_persists(s, j, k - 1, e);
    }
}

/// While the evaluator runs without error, the renderer runs without error
/// too, with a stack of the same height: the two machines share their stack
/// discipline, and rendering does not look at division validity.
pub proof fn lemma_render_like_eval(s: Seq<Term>, j: int)
    requires
        0 <= j <= s.len(),
        forall|k: int| 0 <= k < j ==> !(#[trigger] s[k] is Empty),
        eval_state(s, j) is Ok,
    ensures
        render_state(s, j) is Ok,
        render_state(s, j)->Ok_0.len() == eval_state(s, j)->Ok_0.len(),
    decreases j,
{
    if j > 0 {
        lemma_render_like_eval(s, j - 1);
    }
}

/// A sequence with a defined value has a defined rendering.
pub proof fn lemma_eval_ok_render_ok(s: Seq<Term>)
    requires
        forall|k: int| 0 <= k < s.len() ==> !(#[trigger] s[k] is Empty),
        eval_postfix(s) is Ok,
    ensures
        render_postfix(s) is Ok,
{
    lemma_render_like_eval(s, s.len() as int);
}

/// Ten to the `k`.
pub open spec fn pow10(k: nat) -> int
    decreases k,
{
    if k == 0 {
        1
    } else {
        10 * pow10((k - 1) as nat)
    }
}

/// The decimal digits of `m` are ASCII, at least one, and at most `k` of them
/// when `m < pow10(k)`.
pub proof fn lemma_dec_nat_wf(m: nat, k: nat)
    requires
        1 <= k,
        m < pow10(k),
    ensures
        is_ascii_chars(dec_nat(m)),
        1 <= dec_nat(m).len() <= k,
    decreases m,
{
    if m < 10 {
        assert(is_ascii_chars(dec_nat(m))) by {
            assert(dec_nat(m) =~= seq![dec_digit_char(m as int)]);
        };
    } else {
        assert(k >= 2) by {
            if k == 1 {
                assert(pow10(1) == 10);
            }
        };
        assert(m / 10 < pow10((k - 1) as nat)) by {
            assert(pow10(k) == 10 * pow10((k - 1) as nat));
            assert(m < 10 * pow10((k - 1) as nat));
            assert(m / 10 < pow10((k - 1) as nat)) by (nonlinear_arith)
                requires
                    m < 10 * pow10((k - 1) as nat),
                    m >= 10,
            ;
        };
        lemma_dec_nat_wf(m / 10, (k - 1) as nat);
    }
}

/// The decimal text of a machine integer is ASCII and 1 to 20 characters.
pub proof fn lemma_dec_str_wf(v: int)
    requires
        i64::MIN <= v <= i64::MAX,
    ensures
        is_ascii_chars(dec_str(v)),
        1 <= dec_str(v).len() <= 20,
{
    reveal_with_fuel(pow10, 20);
    if v < 0 {
        lemma_dec_nat_wf((-v) as nat, 19);
    } else {
        lemma_dec_nat_wf(v as nat, 19);
    }
}

/// Total length of the texts on a rendering stack.
pub open spec fn texts_len(st: Seq<(Seq<char>, int)>) -> int
    decreases st.len(),
{
    if st.len() == 0 {
        0
    } else {
        texts_len(st.drop_last()) + st.last().0.len()
    }
}

/// The total text length is nonnegative and bounds each single entry.
pub proof fn lemma_texts_len_entry(st: Seq<(Seq<char>, int)>, k: int)
    requires
        0 <= k < st.len(),
    ensures
        texts_len(st) >= st[k].0.len(),
    decreases st.len(),
{
    lemma_texts_len_nonneg(st.drop_last());
    if k < st.len() - 1 {
        lemma_texts_len_entry(st.drop_last(), k);
    }
}

/// The total text length is nonnegative.
pub proof fn lemma_texts_len_nonneg(st: Seq<(Seq<char>, int)>)
    ensures
        texts_len(st) >= 0,
    decreases st.len(),
{
    if st.len() > 0 {
        lemma_texts_len_nonneg(st.drop_last());
    }
}

/// Every text the rendering machine builds is ASCII and nonempty, and the
/// texts of a state reached after `j` terms hold at most `27 * j` characters
/// in all.
pub proof fn lemma_render_state_wf(s: Seq<Term>, j: int)
    requires
        0 <= j <= s.len(),
        forall|k: int| 0 <= k < j ==> !(#[trigger] s[k] is Empty),
        render_state(s, j) is Ok,
    ensures
        texts_len(render_state(s, j)->Ok_0) <= 27 * j,
        forall|k: int|
            0 <= k < render_state(s, j)->Ok_0.len() ==> is_ascii_chars(
                #[trigger] render_state(s, j)->Ok_0[k].0,
            ) && 1 <= render_state(s, j)->Ok_0[k].0.len(),
    decreases j,
{
    if j > 0 {
        lemma_render_state_wf(s, j - 1);
        let st = render_state(s, j - 1)->Ok_0;
        let st1 = render_state(s, j)->Ok_0;
        match s[j - 1] {
            Term::Number(v) => {
                lemma_dec_str_wf(v as int);
                assert(st1.drop_last() =~= st);
                assert(texts_len(st1) == texts_len(st) + dec_str(v as int).len());
            },
            Term::Operator(op) => {
                let a = st[st.len() - 2];
                let b = st[st.len() - 1];
                let at = if a.1 < op_prece(op) {
                    wrap_parens(a.0)
                } else {
                    a.0
                };
                let bt = if b.1 <= op_prece(op) {
                    wrap_parens(b.0)
                } else {
                    b.0
                };
                let nt = at + op_text(op) + bt;
                assert(st1.drop_last() =~= st.drop_last().drop_last());
                assert(st1.last() == (nt, op_prece(op)));
                assert(st.drop_last().last() == a);
                assert(texts_len(st.drop_last()) == texts_len(st.drop_last().drop_last())
                    + a.0.len());
                assert(texts_len(st) == texts_len(st.drop_last().drop_last()) + a.0.len()
                    + b.0.len());
                assert(nt.len() <= a.0.len() + b.0.len() + 7);
                assert(is_ascii_chars(nt)) by {
                    assert(forall|i: int|
                        0 <= i < nt.len() ==> '\0' <= #[trigger] nt[i] <= '\u{7f}');
                };
                assert(texts_len(st1) == texts_len(st.drop_last().drop_last()) + nt.len());
            },
            Term::Empty => {
                assert(false);
            },
        }
    }
}

/// Representation of one rendered subexpression on the executable stack.
pub struct SubExpr {
    /// The rendered text.
    pub text: String,
    /// Precedence of the top-level operator, `OPERAND_PRECE` for an operand.
    pub prece: u32,
}

/// The mathematical image of the executable rendering stack.
pub open spec fn rsubs_of(st: Seq<SubExpr>) -> Seq<(Seq<char>, int)> {
    st.map_values(|e: SubExpr| (e.text@, e.prece as int))
}

/// Returns the operator's infix text: its symbol between single spaces.
pub fn op_str(op: Op) -> (r: &'static str)
    ensures
        r@ == op_text(op),
{
    match op {
        Op::Add => {
            proof {
                reveal_strlit(" + ");
                assert(" + "@ =~= op_text(Op::Add));
            }
            " + "
        },
        Op::Sub => {
            proof {
                reveal_strlit(" - ");
                assert(" - "@ =~= op_text(Op::Sub));
            }
            " - "
        },
        Op::Mul => {
            proof {
                reveal_strlit(" * ");
                assert(" * "@ =~= op_text(Op::Mul));
            }
            " * "
        },
        Op::Div => {
            proof {
                reveal_strlit(" / ");
                assert(" / "@ =~= op_text(Op::Div));
            }
            " / "
        },
    }
}

/// Puts parentheses around a rendered subexpression.
fn parenthesize(s: String) -> (r: String)
    ensures
        r@ == wrap_parens(s@),
{
    proof {
        reveal_strlit("(");
        reveal_strlit(")");
        assert("("@ =~= seq!['(']);
        assert(")"@ =~= seq![')']);
    }
    let mut r = String::from_str("(");
    r.append(s.as_str());
    r.append(")");
    proof {
        assert(r@ =~= wrap_parens(s@));
    }
    r
}

/// Renders the first `n` terms of `expr`, read as a postfix expression, as a
/// minimally parenthesized infix string. Fails under exactly the stack
/// conditions under which evaluation fails, without evaluating.
pub fn post2in(expr: &Vec<Term>, n: usize) -> (r: Result<String, EvalError>)
    requires
        n <= expr@.len(),
        forall|k: int| 0 <= k < n ==> !(#[trigger] expr@[k] is Empty),
    ensures
        r matches Ok(s) ==> render_postfix(expr@.take(n as int)) == Ok::<Seq<char>, EvalError>(
            s@,
        ),
        r matches Err(e) ==> render_postfix(expr@.take(n as int)) == Err::<Seq<char>, EvalError>(
            e,
        ),
{
    let ghost pfx = expr@.take(n as int);
    let mut stack: Vec<SubExpr> = Vec::new();
    proof {
        assert(rsubs_of(stack@) =~= Seq::<(Seq<char>, int)>::empty());
    }
    for i in 0..n
        invariant
            n <= expr@.len(),
            forall|k: int| 0 <= k < n ==> !(#[trigger] expr@[k] is Empty),
            pfx == expr@.take(n as int),
            render_state(pfx, i as int) == Ok::<Seq<(Seq<char>, int)>, EvalError>(
                rsubs_of(stack@),
            ),
    {
        proof {
            assert(pfx[i as int] == expr@[i as int]);
        }
        match expr[i] {
            Term::Number(num) => {
                let text = int_to_string(num);
                stack.push(SubExpr { text, prece: OPERAND_PRECE });
                proof {
                    assert(rsubs_of(stack@) =~= render_state(pfx, i as int)->Ok_0.push(
                        (dec_str(num as int), OPERAND_PRECE as int),
                    ));
                }
            },
            Term::Operator(op) => {
                if stack.len() < 2 {
                    proof {
                        lemma_render_err_persists(pfx, i + 1, n as int, EvalError::StackUnderflow);
                    }
                    return Err(EvalError::StackUnderflow);
                }
                let ghost st = rsubs_of(stack@);
                let b = stack.pop().unwrap();
                let a = stack.pop().unwrap();
                proof {
                    assert((a.text@, a.prece as int) == st[st.len() - 2]);
                    assert((b.text@, b.prece as int) == st[st.len() - 1]);
                }
                let p = get_op_prece(op);
                let at = if a.prece < p {
                    parenthesize(a.text)
                } else {
                    a.text
                };
                let bt = if b.prece <= p {
                    parenthesize(b.text)
                } else {
                    b.text
                };
                let mut text = at;
                text.append(op_str(op));
                text.append(bt.as_str());
                stack.push(SubExpr { text, prece: p });
                proof {
                    assert(rsubs_of(stack@.drop_last()) =~= st.drop_last().drop_last());
                    assert(rsubs_of(stack@) =~= rsubs_of(stack@.drop_last()).push(
                        (stack@.last().text@, stack@.last().prece as int),
                    ));
                }
            },
            Term::Empty => {
                proof {
                    assert(false);
                }
            },
        }
    }
    proof {
        assert(pfx.len() == n as int);
    }
    if stack.len() == 1 {
        let top = stack.pop().unwrap();
        proof {
            assert(rsubs_of(stack@.push(top))[0].0 == top.text@);
        }
        Ok(top.text)
    } else {
        Err(EvalError::IncompleteExpression)
    }
}

/// Length of an ASCII string in characters, which for ASCII text equals its
/// length in bytes.
pub fn ascii_len(s: &str) -> (n: usize)
    requires
        is_ascii_chars(s@),
        s@.len() <= usize::MAX,
    ensures
        n == s@.len(),
{
    proof {
        broadcast use vstd::string::is_ascii_spec_bytes;

        assert(vstd::string::is_ascii(s));
    }
    s.len()
}

} // verus!
