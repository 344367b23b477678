//! The evaluator: a stack machine computing the integer value of a postfix
//! sequence under exact integer arithmetic, or the error that invalidates it.

use vstd::prelude::*;

use crate::terms::{num_cnt_of, op_cnt_of, prefix_ok, Op, Term};

verus! {

/// Why a candidate expression has no recorded value.
#[derive(Clone, Copy, Debug, PartialEq, Eq, Structural)]
pub enum EvalError {
    /// An operator arrived with fewer than two values on the stack.
    StackUnderflow,
    /// A division by zero, or one that leaves a remainder.
    InexactOrZeroDivision,
    /// An intermediate value does not fit in `i64`.
    Overflow,
    /// The final stack holds a number of values other than one.
    IncompleteExpression,
}

/// `v` itself when it fits in `i64`, otherwise the overflow error.
pub open spec fn fit_i64(v: int) -> Result<int, EvalError> {
    if i64::MIN <= v <= i64::MAX {
        Ok(v)
    } else {
        Err(EvalError::Overflow)
    }
}

/// Exact arithmetic for one operator: division succeeds only when the divisor
/// is nonzero and divides the dividend evenly.
pub open spec fn apply_op(op: Op, a: int, b: int) -> Result<int, EvalError> {
    match op {
        Op::Add => fit_i64(a + b),
        Op::Sub => fit_i64(a - b),
        Op::Mul => fit_i64(a * b),
        Op::Div => if b == 0 || a % b != 0 {
            Err(EvalError::InexactOrZeroDivision)
        } else {
            fit_i64(a / b)
        },
    }
}

/// One step of the evaluation machine: push an operand, or apply an operator
/// to the two most recent values. The placeholder term is unconstrained; the
/// executable code never feeds it to the machine.
pub open spec fn eval_step(st: Seq<int>, t: Term) -> Result<Seq<int>, EvalError> {
    match t {
        Term::Number(v) => Ok(st.push(v as int)),
        Term::Operator(op) => if st.len() < 2 {
            Err(EvalError::StackUnderflow)
        } else {
            match apply_op(op, st[st.len() - 2], st[st.len() - 1]) {
                Ok(v) => Ok(st.drop_last().drop_last().push(v)),
                Err(e) => Err(e),
            }
        },
        Term::Empty => arbitrary(),
    }
}

/// The evaluation stack after the first `j` terms of `s`, or the first error.
pub open spec fn eval_state(s: Seq<Term>, j: int) -> Result<Seq<int>, EvalError>
    decreases j,
{
    if j <= 0 {
        Ok(Seq::empty())
    } else {
        match eval_state(s, j - 1) {
            Ok(st) => eval_step(st, s[j - 1]),
            Err(e) => Err(e),
        }
    }
}

/// The value of the whole sequence: run the machine over every term, then
/// demand that exactly one value remains.
pub open spec fn eval_postfix(s: Seq<Term>) -> Result<int, EvalError> {
    match eval_state(s, s.len() as int) {
        Ok(st) => if st.len() == 1 {
            Ok(st[0])
        } else {
            Err(EvalError::IncompleteExpression)
        },
        Err(e) => Err(e),
    }
}

/// Widens the machine-word result of the executable evaluator to the
/// mathematical result the model speaks of.
pub open spec fn res_widen(r: Result<i64, EvalError>) -> Result<int, EvalError> {
    match r {
        Ok(v) => Ok(v as int),
        Err(e) => Err(e),
    }
}

/// Sequence of the mathematical values of a machine-word stack.
pub open spec fn ints_of(st: Seq<i64>) -> Seq<int> {
    st.map_values(|v: i64| v as int)
}

/// Computes the value of the first `n` terms of `expr`, read as a postfix
/// expression: operands are pushed, operators consume the two most recent
/// values, and exactly one value must remain. Division is exact or fails;
/// an intermediate outside `i64` fails with the overflow error.
pub fn calc(expr: &Vec<Term>, n: usize) -> (r: Result<i64, EvalError>)
    requires
        n <= expr@.len(),
        forall|k: int| 0 <= k < n ==> !(#[trigger] expr@[k] is Empty),
    ensures
        res_widen(r) == eval_postfix(expr@.take(n as int)),
{
    let ghost pfx = expr@.take(n as int);
    let mut stack: Vec<i64> = Vec::new();
    proof {
        assert(ints_of(stack@) =~= Seq::<int>::empty());
    }
    for i in 0..n
        invariant
            n <= expr@.len(),
            forall|k: int| 0 <= k < n ==> !(#[trigger] expr@[k] is Empty),
            pfx == expr@.take(n as int),
            eval_state(pfx, i as int) == Ok::<Seq<int>, EvalError>(ints_of(stack@)),
    {
        proof {
            assert(pfx[i as int] == expr@[i as int]);
        }
        match expr[i] {
            Term::Number(num) => {
                stack.push(num);
                proof {
                    assert(ints_of(stack@) =~= eval_state(pfx, i as int)->Ok_0.push(num as int));
                }
            },
            Term::Operator(op) => {
                if stack.len() < 2 {
                    proof {
                        lemma_eval_err_persists(pfx, i + 1, n as int, EvalError::StackUnderflow);
                    }
                    return Err(EvalError::StackUnderflow);
                }
                let ghost st = ints_of(stack@);
                let b = stack.pop().unwrap();
                let a = stack.pop().unwrap();
                proof {
                    assert(a as int == st[st.len() - 2]);
                    assert(b as int == st[st.len() - 1]);
                }
                let res: i64 = match op {
                    Op::Add => match a.checked_add(b) {
                        Some(v) => v,
                        None => {
                            proof {
                                lemma_eval_err_persists(pfx, i + 1, n as int, EvalError::Overflow);
                            }
                            return Err(EvalError::Overflow);
                        },
                    },
                    Op::Sub => match a.checked_sub(b) {
                        Some(v) => v,
                        None => {
                            proof {
                                lemma_eval_err_persists(pfx, i + 1, n as int, EvalError::Overflow);
                            }
                            return Err(EvalError::Overflow);
                        },
                    },
                    Op::Mul => match a.checked_mul(b) {
                        Some(v) => v,
                        None => {
                            proof {
                                lemma_eval_err_persists(pfx, i + 1, n as int, EvalError::Overflow);
                            }
                            return Err(EvalError::Overflow);
                        },
                    },
                    Op::Div => {
                        if b == 0 {
                            proof {
                                lemma_eval_err_persists(
                                    pfx,
                                    i + 1,
                                    n as int,
                                    EvalError::InexactOrZeroDivision,
                                );
                            }
                            return Err(EvalError::InexactOrZeroDivision);
                        }
                        if b == -1 {
                            proof {
                                assert(a as int % (-1int) == 0);
                                assert(a as int / (-1int) == -(a as int));
                            }
                            if a == i64::MIN {
                                proof {
                                    lemma_eval_err_persists(
                                        pfx,
                                        i + 1,
                                        n as int,
                                        EvalError::Overflow,
                                    );
                                }
                                return Err(EvalError::Overflow);
                            }
                            -a
                        } else {
                            let rem = a.checked_rem_euclid(b).unwrap();
                            if rem != 0 {
                                proof {
                                    lemma_eval_err_persists(
                                        pfx,
                                        i + 1,
                                        n as int,
                                        EvalError::InexactOrZeroDivision,
                                    );
                                }
                                return Err(EvalError::InexactOrZeroDivision);
                            }
                            proof {
                                vstd::arithmetic::div_mod::lemma_fundamental_div_mod(
                                    a as int,
                                    b as int,
                                );
                                let q0 = a as int / b as int;
                                assert(i64::MIN <= q0 <= i64::MAX) by (nonlinear_arith)
                                    requires
                                        a as int == b as int * q0 + 0,
                                        b != 0 && b != -1,
                                        i64::MIN <= a <= i64::MAX,
                                        i64::MIN <= b <= i64::MAX,
                                ;
                            }
                            a.checked_div_euclid(b).unwrap()
                        }
                    },
                };
                stack.push(res);
                proof {
                    assert(ints_of(stack@) =~= st.drop_last().drop_last().push(res as int));
                }
            },
            Term::Empty => {
                proof {
                    assert(false);
                }
            },
        }
    }
    proof {
        assert(pfx.len() == n as int);
    }
    if stack.len() == 1 {
        let v = stack[0];
        proof {
            assert(ints_of(stack@)[0] == v as int);
        }
        Ok(v)
    } else {
        Err(EvalError::IncompleteExpression)
    }
}

/// Once the machine has failed, every later state reports the same error.
pub proof fn lemma_eval_err_persists(s: Seq<Term>, j: int, k: int, e: EvalError)
    requires
        0 <= j <= k,
        eval_state(s, j) == Err::<Seq<int>, EvalError>(e),
    ensures
        eval_state(s, k) == Err::<Seq<int>, EvalError>(e),
    decreases k - j,
{
    if k > j {
        lemma_eval_err_persists(s, j, k - 1, e);
    }
}

/// While the machine runs without error, the stack height equals the count of
/// operands consumed minus the count of operators consumed, and that height
/// stays strictly positive after the first term.
pub proof fn lemma_eval_state_counts(s: Seq<Term>, j: int)
    requires
        0 <= j <= s.len(),
        forall|k: int| 0 <= k < j ==> !(#[trigger] s[k] is Empty),
        eval_state(s, j) is Ok,
    ensures
        eval_state(s, j)->Ok_0.len() == num_cnt_of(s.take(j)) - op_cnt_of(s.take(j)),
        forall|k: int| 1 <= k <= j ==> #[trigger] num_cnt_of(s.take(k)) > op_cnt_of(s.take(k)),
    decreases j,
{
    if j > 0 {
        lemma_eval_state_counts(s, j - 1);
        assert(s.take(j).drop_last() =~= s.take(j - 1));
        assert(s.take(j).last() == s[j - 1]);
    }
}

/// A candidate that passes the enumerator's checks — drawn from placeholder-
/// free terms, every prefix keeping more operands than operators, and ending
/// with exactly one more operand than operators — evaluates totally: it
/// either has a value or fails with an arithmetic error, and the machine
/// never underflows nor ends on an incomplete stack.
pub proof fn lemma_accepted_candidate_total(s: Seq<Term>)
    requires
        forall|k: int| 0 <= k < s.len() ==> !(#[trigger] s[k] is Empty),
        prefix_ok(s),
        num_cnt_of(s) == op_cnt_of(s) + 1,
    ensures
        eval_postfix(s) is Ok || eval_postfix(s) == Err::<int, EvalError>(
            EvalError::InexactOrZeroDivision,
        ) || eval_postfix(s) == Err::<int, EvalError>(EvalError::Overflow),
{
    lemma_state_arith_only(s, s.len() as int);
    assert(s.take(s.len() as int) =~= s);
}

/// While the prefix condition holds, the machine can fail only on
/// arithmetic: an operator always finds two values on the stack.
proof fn lemma_state_arith_only(s: Seq<Term>, j: int)
    requires
        0 <= j <= s.len(),
        forall|k: int| 0 <= k < s.len() ==> !(#[trigger] s[k] is Empty),
        prefix_ok(s),
    ensures
        match eval_state(s, j) {
            Ok(st) => st.len() == num_cnt_of(s.take(j)) - op_cnt_of(s.take(j)),
            Err(e) => e == EvalError::InexactOrZeroDivision || e == EvalError::Overflow,
        },
    decreases j,
{
    if j > 0 {
        lemma_state_arith_only(s, j - 1);
        assert(s.take(j).drop_last() =~= s.take(j - 1));
        assert(s.take(j).last() == s[j - 1]);
        if eval_state(s, j - 1) is Ok && s[j - 1] is Operator {
            assert(num_cnt_of(s.take(j)) > op_cnt_of(s.take(j)));
            crate::terms::lemma_cnt_bounds(s.take(j));
        }
    }
}

/// A sequence whose value is defined holds exactly one more operand than it
/// holds operators, and satisfies the prefix condition; conversely, a
/// sequence that breaks either can never evaluate to a value.
pub proof fn lemma_eval_ok_structure(s: Seq<Term>)
    requires
        forall|k: int| 0 <= k < s.len() ==> !(#[trigger] s[k] is Empty),
        eval_postfix(s) is Ok,
    ensures
        num_cnt_of(s) == op_cnt_of(s) + 1,
        prefix_ok(s),
{
    lemma_eval_state_counts(s, s.len() as int);
    assert(s.take(s.len() as int) =~= s);
}

} // verus!
