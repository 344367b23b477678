//! The enumerator: recursive backtracking over every postfix sequence of a
//! given odd length drawn from the term alphabet, pruned by the structural
//! validity invariant, together with the solution table it fills.
//!
//! The executable search is proved equal to the mathematical mirror
//! `sel_spec`, so a run's outcome is a function of its configuration alone.

use vstd::prelude::*;
use vstd::utf8::is_ascii_chars;

use crate::eval::{eval_postfix, lemma_eval_ok_structure, EvalError};
use crate::render::{
    ascii_len, lemma_eval_ok_render_ok, lemma_render_state_wf, lemma_texts_len_entry, post2in,
    render_postfix,
};
use crate::terms::{
    alpha_wf, default_alpha, default_terms, from_alphabet, lemma_cnt_bounds, lemma_cnt_push,
    num_cnt_of, op_cnt_of, prefix_ok, Term, MAX_EXPR_LEN, MAX_RES,
};

verus! {

/// The mathematical image of the solution table: one character sequence per
/// result value.
pub open spec fn table_view(t: Seq<String>) -> Seq<Seq<char>> {
    t.map_values(|s: String| s@)
}

/// A table entry is ASCII text short enough to measure; renderings of
/// candidates that fit the expression buffer always are.
pub open spec fn entry_wf(t: Seq<char>) -> bool {
    is_ascii_chars(t) && t.len() <= 27 * (MAX_EXPR_LEN as int)
}

/// A well-formed table has one well-formed entry per result in
/// `0 ..= MAX_RES`.
pub open spec fn table_wf(tb: Seq<Seq<char>>) -> bool {
    &&& tb.len() == MAX_RES as int + 1
    &&& forall|v: int| 0 <= v < tb.len() ==> entry_wf(#[trigger] tb[v])
}

/// The table every run starts from: all entries empty.
pub open spec fn empty_table() -> Seq<Seq<char>> {
    Seq::new((MAX_RES + 1) as nat, |v: int| Seq::<char>::empty())
}

/// What one completed candidate does to the table: if it passes the leaf
/// count check, evaluates to an in-range result and renders, its rendering
/// replaces the entry for that result when the entry is empty or strictly
/// longer.
pub open spec fn leaf_update(tb: Seq<Seq<char>>, s: Seq<Term>) -> Seq<Seq<char>> {
    if num_cnt_of(s) == op_cnt_of(s) + 1 {
        match eval_postfix(s) {
            Ok(v) => if 0 <= v <= MAX_RES as int {
                match render_postfix(s) {
                    Ok(t) => if tb[v].len() == 0 || tb[v].len() > t.len() {
                        tb.update(v, t)
                    } else {
                        tb
                    },
                    Err(_) => tb,
                }
            } else {
                tb
            },
            Err(_) => tb,
        }
    } else {
        tb
    }
}

/// The table after the backtracking search has filled positions `i ..< n`,
/// having already chosen `prefix` for positions `0 ..< i`.
pub open spec fn sel_spec(
    alpha: Seq<Term>,
    i: int,
    n: int,
    prefix: Seq<Term>,
    tb: Seq<Seq<char>>,
) -> Seq<Seq<char>>
    decreases n - i, alpha.len() + 1,
{
    if i < 0 || i >= n {
        leaf_update(tb, prefix)
    } else {
        sel_spec_from(alpha, 0, i, n, prefix, tb)
    }
}

/// As `sel_spec`, but trying only the alphabet terms from index `j` on at
/// position `i`; an operator is tried only when the prefix keeps at least two
/// more operands than operators, the prune that preserves postfix validity.
pub open spec fn sel_spec_from(
    alpha: Seq<Term>,
    j: int,
    i: int,
    n: int,
    prefix: Seq<Term>,
    tb: Seq<Seq<char>>,
) -> Seq<Seq<char>>
    decreases n - i, alpha.len() - j,
{
    if i < 0 || i >= n || j < 0 || j >= alpha.len() {
        tb
    } else {
        let t = alpha[j];
        let tb1 = match t {
            Term::Number(_) => sel_spec(alpha, i + 1, n, prefix.push(t), tb),
            Term::Operator(_) => if num_cnt_of(prefix) > op_cnt_of(prefix) + 1 {
                sel_spec(alpha, i + 1, n, prefix.push(t), tb)
            } else {
                tb
            },
            Term::Empty => tb,
        };
        sel_spec_from(alpha, j + 1, i, n, prefix, tb1)
    }
}

/// The table after `size` rounds over the default alphabet: round `r` (from
/// `1`) enumerates every candidate of length `2r - 1`.
pub open spec fn table_after(size: int) -> Seq<Seq<char>>
    decreases size,
{
    if size <= 0 {
        empty_table()
    } else {
        sel_spec(default_alpha(), 0, 2 * size - 1, Seq::empty(), table_after(size - 1))
    }
}

/// How a table entry may move in one search step: it stays, or it becomes a
/// nonempty text that is strictly shorter than the nonempty text it replaces.
pub open spec fn improved(o: Seq<char>, w: Seq<char>) -> bool {
    w == o || (0 < w.len() && (o.len() == 0 || w.len() < o.len()))
}

/// A full-length sequence the search rooted at `prefix` can reach: it extends
/// `prefix` to length `n` with terms drawn from `alpha`.
pub open spec fn candidate_for(alpha: Seq<Term>, prefix: Seq<Term>, n: int, s: Seq<Term>) -> bool {
    &&& s.len() == n
    &&& s.take(prefix.len() as int) == prefix
    &&& from_alphabet(s.skip(prefix.len() as int), alpha)
}

/// The table accounts for candidate `s`: if `s` has an in-range value, the
/// entry for that value is nonempty and no longer than the rendering of `s`.
pub open spec fn covered(tb: Seq<Seq<char>>, s: Seq<Term>) -> bool {
    eval_postfix(s) matches Ok(v) ==> (0 <= v <= MAX_RES as int ==> (render_postfix(
        s,
    ) matches Ok(t) ==> 0 < tb[v].len() <= t.len()))
}

/// `text` is the rendering of some candidate of the search rooted at `prefix`
/// whose value is `v`.
pub open spec fn sol_witness(
    alpha: Seq<Term>,
    prefix: Seq<Term>,
    n: int,
    v: int,
    text: Seq<char>,
) -> bool {
    exists|s: Seq<Term>|
        #[trigger] candidate_for(alpha, prefix, n, s) && eval_postfix(s) == Ok::<int, EvalError>(v)
            && render_postfix(s) == Ok::<Seq<char>, EvalError>(text)
}

/// No term of a candidate drawn from a well-formed alphabet behind a
/// placeholder-free prefix is the placeholder.
proof fn lemma_candidate_no_empty(alpha: Seq<Term>, prefix: Seq<Term>, n: int, s: Seq<Term>)
    requires
        alpha_wf(alpha),
        candidate_for(alpha, prefix, n, s),
        forall|k: int| 0 <= k < prefix.len() ==> !(#[trigger] prefix[k] is Empty),
        prefix.len() <= n,
    ensures
        forall|k: int| 0 <= k < s.len() ==> !(#[trigger] s[k] is Empty),
{
    let i = prefix.len() as int;
    assert forall|k: int| 0 <= k < s.len() implies !(#[trigger] s[k] is Empty) by {
        if k < i {
            assert(s.take(i)[k] == s[k]);
        } else {
            assert(s.skip(i)[k - i] == s[k]);
            assert(alpha.contains(s.skip(i)[k - i]));
        }
    }
}

/// What the leaf step guarantees: the table stays well formed, entries only
/// improve, a changed entry comes from the candidate itself, and the
/// candidate ends up covered.
proof fn lemma_leaf_props(alpha: Seq<Term>, n: int, prefix: Seq<Term>, tb: Seq<Seq<char>>)
    requires
        alpha_wf(alpha),
        0 <= n <= MAX_EXPR_LEN as int,
        prefix.len() == n,
        from_alphabet(prefix, alpha),
        table_wf(tb),
    ensures
        table_wf(leaf_update(tb, prefix)),
        forall|v: int|
            0 <= v < tb.len() ==> improved(#[trigger] tb[v], leaf_update(tb, prefix)[v]),
        forall|v: int|
            0 <= v < tb.len() && leaf_update(tb, prefix)[v] != tb[v] ==> sol_witness(
                alpha,
                prefix,
                n,
                v,
                leaf_update(tb, prefix)[v],
            ),
        covered(leaf_update(tb, prefix), prefix),
{
    let r = leaf_update(tb, prefix);
    assert(forall|k: int|
        0 <= k < prefix.len() ==> alpha.contains(#[trigger] prefix[k]));
    if eval_postfix(prefix) is Ok {
        let v = eval_postfix(prefix)->Ok_0;
        lemma_eval_ok_structure(prefix);
        if 0 <= v <= MAX_RES as int {
            lemma_eval_ok_render_ok(prefix);
            let t = render_postfix(prefix)->Ok_0;
            lemma_render_state_wf(prefix, n);
            let st = crate::render::render_state(prefix, n)->Ok_0;
            lemma_texts_len_entry(st, 0);
            assert(entry_wf(t));
            assert(0 < t.len());
            assert(candidate_for(alpha, prefix, n, prefix)) by {
                assert(prefix.take(prefix.len() as int) =~= prefix);
                assert(prefix.skip(prefix.len() as int) =~= Seq::<Term>::empty());
            };
            if tb[v].len() == 0 || tb[v].len() > t.len() {
                assert(r == tb.update(v, t));
                assert(sol_witness(alpha, prefix, n, v, t));
            }
        }
    }
}

/// The search from `prefix` only improves the table, explains every entry it
/// changes by a candidate it visited, and covers every candidate it can
/// reach.
pub proof fn lemma_sel_spec_props(
    alpha: Seq<Term>,
    i: int,
    n: int,
    prefix: Seq<Term>,
    tb: Seq<Seq<char>>,
)
    requires
        alpha_wf(alpha),
        0 <= i <= n,
        n <= MAX_EXPR_LEN as int,
        prefix.len() == i,
        from_alphabet(prefix, alpha),
        prefix_ok(prefix),
        table_wf(tb),
    ensures
        table_wf(sel_spec(alpha, i, n, prefix, tb)),
        forall|v: int|
            0 <= v < tb.len() ==> improved(#[trigger] tb[v], sel_spec(alpha, i, n, prefix, tb)[v]),
        forall|v: int|
            0 <= v < tb.len() && sel_spec(alpha, i, n, prefix, tb)[v] != tb[v] ==> sol_witness(
                alpha,
                prefix,
                n,
                v,
                sel_spec(alpha, i, n, prefix, tb)[v],
            ),
        forall|s: Seq<Term>|
            #[trigger] candidate_for(alpha, prefix, n, s) ==> covered(
                sel_spec(alpha, i, n, prefix, tb),
                s,
            ),
    decreases n - i, alpha.len() + 1,
{
    let r = sel_spec(alpha, i, n, prefix, tb);
    if i >= n {
        lemma_leaf_props(alpha, n, prefix, tb);
        assert forall|s: Seq<Term>| #[trigger] candidate_for(alpha, prefix, n, s) implies covered(
            r,
            s,
        ) by {
            assert(s =~= prefix);
        }
    } else {
        lemma_sel_spec_from_props(alpha, 0, i, n, prefix, tb);
        assert forall|s: Seq<Term>| #[trigger] candidate_for(alpha, prefix, n, s) implies covered(
            r,
            s,
        ) by {
            assert(s.skip(i)[0] == s[i]);
            assert(alpha.contains(s[i]));
            assert(alpha.skip(0) =~= alpha);
        }
    }
}

/// As `lemma_sel_spec_props`, for the tail of the alphabet from index `j`:
/// the candidates covered are those whose term at position `i` occurs there.
proof fn lemma_sel_spec_from_props(
    alpha: Seq<Term>,
    j: int,
    i: int,
    n: int,
    prefix: Seq<Term>,
    tb: Seq<Seq<char>>,
)
    requires
        alpha_wf(alpha),
        0 <= j <= alpha.len(),
        0 <= i < n,
        n <= MAX_EXPR_LEN as int,
        prefix.len() == i,
        from_alphabet(prefix, alpha),
        prefix_ok(prefix),
        table_wf(tb),
    ensures
        table_wf(sel_spec_from(alpha, j, i, n, prefix, tb)),
        forall|v: int|
            0 <= v < tb.len() ==> improved(
                #[trigger] tb[v],
                sel_spec_from(alpha, j, i, n, prefix, tb)[v],
            ),
        forall|v: int|
            0 <= v < tb.len() && sel_spec_from(alpha, j, i, n, prefix, tb)[v] != tb[v]
                ==> sol_witness(alpha, prefix, n, v, sel_spec_from(alpha, j, i, n, prefix, tb)[v]),
        forall|s: Seq<Term>|
            #[trigger] candidate_for(alpha, prefix, n, s) && alpha.skip(j).contains(s[i])
                ==> covered(sel_spec_from(alpha, j, i, n, prefix, tb), s),
    decreases n - i, alpha.len() - j,
{
    let r = sel_spec_from(alpha, j, i, n, prefix, tb);
    assert(forall|k: int|
        0 <= k < prefix.len() ==> alpha.contains(#[trigger] prefix[k]));
    if j >= alpha.len() {
        assert(forall|s: Seq<Term>| !alpha.skip(j).contains(s[i]));
        return ;
    }
    let t = alpha[j];
    assert(alpha.contains(t));
    let recursed = t is Number || (t is Operator && num_cnt_of(prefix) > op_cnt_of(prefix) + 1);
    let tb1 = if recursed {
        sel_spec(alpha, i + 1, n, prefix.push(t), tb)
    } else {
        tb
    };
    assert(tb1 == match t {
        Term::Number(_) => sel_spec(alpha, i + 1, n, prefix.push(t), tb),
        Term::Operator(_) => if num_cnt_of(prefix) > op_cnt_of(prefix) + 1 {
            sel_spec(alpha, i + 1, n, prefix.push(t), tb)
        } else {
            tb
        },
        Term::Empty => tb,
    });
    if recursed {
        assert(from_alphabet(prefix.push(t), alpha)) by {
            assert(forall|k: int|
                0 <= k < prefix.len() ==> prefix.push(t)[k] == #[trigger] prefix[k]);
        };
        crate::terms::lemma_prefix_ok_push(prefix, t);
        lemma_sel_spec_props(alpha, i + 1, n, prefix.push(t), tb);
    }
    lemma_sel_spec_from_props(alpha, j + 1, i, n, prefix, tb1);
    assert(r == sel_spec_from(alpha, j + 1, i, n, prefix, tb1));
    // entries only improve, transitively
    assert forall|v: int| 0 <= v < tb.len() implies improved(#[trigger] tb[v], r[v]) by {
        assert(improved(tb[v], tb1[v]));
        assert(improved(tb1[v], r[v]));
    }
    // a changed entry has a witnessing candidate
    assert forall|v: int| 0 <= v < tb.len() && r[v] != tb[v] implies sol_witness(
        alpha,
        prefix,
        n,
        v,
        r[v],
    ) by {
        if r[v] == tb1[v] {
            assert(tb1[v] != tb[v]);
            let w = choose|s: Seq<Term>|
                #[trigger] candidate_for(alpha, prefix.push(t), n, s) && eval_postfix(s) == Ok::<
                    int,
                    EvalError,
                >(v) && render_postfix(s) == Ok::<Seq<char>, EvalError>(tb1[v]);
            lemma_extend_candidate(alpha, prefix, t, n, w);
            assert(candidate_for(alpha, prefix, n, w));
        }
    }
    // every candidate whose term at position i lies in the tail is covered
    assert forall|s: Seq<Term>|
        #[trigger] candidate_for(alpha, prefix, n, s) && alpha.skip(j).contains(
            s[i],
        ) implies covered(r, s) by {
        let k = choose|k: int| 0 <= k < alpha.skip(j).len() && alpha.skip(j)[k] == s[i];
        if k == 0 {
            assert(s[i] == t);
            assert(s.take(i + 1) =~= prefix.push(t)) by {
                assert(forall|m: int| 0 <= m < i ==> s.take(i + 1)[m] == #[trigger] s.take(i)[m]);
            };
            assert(candidate_for(alpha, prefix.push(t), n, s)) by {
                assert(forall|m: int|
                    0 <= m < s.skip(i + 1).len() ==> #[trigger] s.skip(i + 1)[m] == s.skip(i)[m
                        + 1]);
            };
            if recursed {
                assert(covered(tb1, s));
                lemma_covered_persists(tb1, r, s);
            } else {
                // the prune: such a candidate can have no value at all
                if eval_postfix(s) is Ok {
                    lemma_candidate_no_empty(alpha, prefix, n, s);
                    lemma_eval_ok_structure(s);
                    crate::terms::lemma_cnt_push(prefix, t);
                    assert(num_cnt_of(s.take(i + 1)) > op_cnt_of(s.take(i + 1)));
                    assert(false);
                }
            }
        } else {
            assert(alpha.skip(j + 1).contains(s[i])) by {
                assert(alpha.skip(j + 1)[k - 1] == alpha.skip(j)[k]);
            };
        }
    }
}

/// A candidate of the search rooted at `prefix.push(t)` is a candidate of the
/// search rooted at `prefix`, when `t` comes from the alphabet.
proof fn lemma_extend_candidate(
    alpha: Seq<Term>,
    prefix: Seq<Term>,
    t: Term,
    n: int,
    s: Seq<Term>,
)
    requires
        alpha.contains(t),
        prefix.len() + 1 <= n,
        candidate_for(alpha, prefix.push(t), n, s),
    ensures
        candidate_for(alpha, prefix, n, s),
{
    let i = prefix.len() as int;
    assert(s.take(i) =~= prefix) by {
        assert(forall|m: int| 0 <= m < i ==> #[trigger] s.take(i + 1)[m] == s[m]);
        assert(forall|m: int| 0 <= m < i ==> prefix.push(t)[m] == #[trigger] prefix[m]);
    };
    assert(from_alphabet(s.skip(i), alpha)) by {
        assert(s.skip(i)[0] == s[i]);
        assert(s[i] == s.take(i + 1)[i]);
        assert(s[i] == t);
        assert(forall|m: int|
            1 <= m < s.skip(i).len() ==> #[trigger] s.skip(i)[m] == s.skip(i + 1)[m - 1]);
        assert(forall|m: int|
            0 <= m < s.skip(i + 1).len() ==> alpha.contains(#[trigger] s.skip(i + 1)[m]));
    };
}

/// Entries that only improve keep every candidate covered.
proof fn lemma_covered_persists(t1: Seq<Seq<char>>, t2: Seq<Seq<char>>, s: Seq<Term>)
    requires
        covered(t1, s),
        t1.len() == MAX_RES as int + 1,
        t1.len() == t2.len(),
        forall|v: int| 0 <= v < t1.len() ==> improved(#[trigger] t1[v], t2[v]),
    ensures
        covered(t2, s),
{
    if eval_postfix(s) is Ok {
        let v = eval_postfix(s)->Ok_0;
        if 0 <= v <= MAX_RES as int && render_postfix(s) is Ok {
            assert(improved(t1[v], t2[v]));
        }
    }
}

/// A sequence a whole run with `size` rounds enumerates: drawn from the
/// default vocabulary, of length at most `2 * size - 1`.
pub open spec fn run_candidate(size: int, s: Seq<Term>) -> bool {
    from_alphabet(s, default_alpha()) && 1 <= s.len() <= 2 * size - 1
}

/// `text` is the rendering of some candidate of a whole run whose value is
/// `v`: every nonempty solution table entry is such a rendering.
pub open spec fn run_witness(size: int, v: int, text: Seq<char>) -> bool {
    exists|s: Seq<Term>|
        #[trigger] run_candidate(size, s) && eval_postfix(s) == Ok::<int, EvalError>(v)
            && render_postfix(s) == Ok::<Seq<char>, EvalError>(text)
}

/// The laws of a completed run: every nonempty entry is the rendering of a
/// candidate that evaluates to its index, and no candidate of the run
/// evaluates to an in-range result with a strictly shorter rendering than the
/// stored one.
pub proof fn lemma_table_after_props(size: int)
    requires
        0 <= size,
        2 * size <= MAX_EXPR_LEN as int + 1,
    ensures
        table_wf(table_after(size)),
        forall|v: int|
            0 <= v < table_after(size).len() && table_after(size)[v].len() != 0 ==> run_witness(
                size,
                v,
                #[trigger] table_after(size)[v],
            ),
        forall|s: Seq<Term>| #[trigger] run_candidate(size, s) ==> covered(table_after(size), s),
    decreases size,
{
    if size <= 0 {
        assert(table_wf(empty_table()));
        assert(forall|v: int|
            0 <= v < empty_table().len() ==> #[trigger] empty_table()[v].len() == 0);
    } else {
        lemma_table_after_props(size - 1);
        let prev = table_after(size - 1);
        let alpha = default_alpha();
        let n = 2 * size - 1;
        assert(alpha_wf(alpha));
        lemma_sel_spec_props(alpha, 0, n, Seq::empty(), prev);
        let cur = table_after(size);
        assert(cur == sel_spec(alpha, 0, n, Seq::empty(), prev));
        assert forall|v: int| 0 <= v < cur.len() && cur[v].len() != 0 implies run_witness(
            size,
            v,
            #[trigger] cur[v],
        ) by {
            if cur[v] == prev[v] {
                let w = choose|s: Seq<Term>|
                    #[trigger] run_candidate(size - 1, s) && eval_postfix(s) == Ok::<
                        int,
                        EvalError,
                    >(v) && render_postfix(s) == Ok::<Seq<char>, EvalError>(prev[v]);
                assert(run_candidate(size, w));
            } else {
                let w = choose|s: Seq<Term>|
                    #[trigger] candidate_for(alpha, Seq::empty(), n, s) && eval_postfix(s) == Ok::<
                        int,
                        EvalError,
                    >(v) && render_postfix(s) == Ok::<Seq<char>, EvalError>(cur[v]);
                assert(w.skip(0) =~= w);
                assert(run_candidate(size, w));
            }
        }
        assert forall|s: Seq<Term>| #[trigger] run_candidate(size, s) implies covered(cur, s) by {
            if eval_postfix(s) is Ok {
                assert(forall|k: int|
                    0 <= k < s.len() ==> alpha.contains(#[trigger] s[k]));
                lemma_eval_ok_structure(s);
                lemma_cnt_bounds(s);
                assert(s.len() == 2 * op_cnt_of(s) + 1);
                if s.len() <= 2 * (size - 1) - 1 {
                    assert(run_candidate(size - 1, s));
                    lemma_covered_persists(prev, cur, s);
                } else {
                    assert(s.len() == n);
                    assert(candidate_for(alpha, Seq::empty(), n, s)) by {
                        assert(s.take(0) =~= Seq::<Term>::empty());
                        assert(s.skip(0) =~= s);
                    };
                }
            }
        }
    }
}

/// Fills positions `i ..< n` of the expression buffer with every alphabet
/// choice in order, pruning extensions that can no longer form a valid
/// postfix sequence; at full length, evaluates the candidate and records its
/// rendering in the solution table when it reaches a new result or a shorter
/// rendering of a known one.
pub fn sel(
    alpha: &Vec<Term>,
    i: usize,
    n: usize,
    expr: &mut Vec<Term>,
    num_cnt: usize,
    oper_cnt: usize,
    sols: &mut Vec<String>,
)
    requires
        alpha_wf(alpha@),
        i <= n,
        n <= old(expr)@.len(),
        n <= MAX_EXPR_LEN,
        from_alphabet(old(expr)@.take(i as int), alpha@),
        prefix_ok(old(expr)@.take(i as int)),
        num_cnt as int == num_cnt_of(old(expr)@.take(i as int)),
        oper_cnt as int == op_cnt_of(old(expr)@.take(i as int)),
        table_wf(table_view(old(sols)@)),
    ensures
        final(expr)@.len() == old(expr)@.len(),
        final(expr)@.take(i as int) == old(expr)@.take(i as int),
        table_view(final(sols)@) == sel_spec(
            alpha@,
            i as int,
            n as int,
            old(expr)@.take(i as int),
            table_view(old(sols)@),
        ),
        table_wf(table_view(final(sols)@)),
    decreases n - i,
{
    let ghost prefix = expr@.take(i as int);
    let ghost tb0 = table_view(sols@);
    proof {
        lemma_cnt_bounds(prefix);
        assert(forall|k: int|
            0 <= k < prefix.len() ==> !(#[trigger] prefix[k] is Empty)) by {
            assert(forall|k: int| 0 <= k < prefix.len() ==> alpha@.contains(#[trigger] prefix[k]));
        };
    }
    if i == n {
        proof {
            assert(prefix =~= expr@.take(n as int));
            assert(forall|k: int| 0 <= k < n ==> #[trigger] expr@[k] == prefix[k]);
        }
        if num_cnt != oper_cnt + 1 {
            proof {
                assert(table_view(sols@) == leaf_update(tb0, prefix));
            }
            return ;
        }
        let res = crate::eval::calc(expr, n);
        let num = match res {
            Ok(num) => num,
            Err(_) => {
                proof {
                    assert(table_view(sols@) == leaf_update(tb0, prefix));
                }
                return ;
            },
        };
        if num < 0 || num > MAX_RES as i64 {
            proof {
                assert(table_view(sols@) == leaf_update(tb0, prefix));
            }
            return ;
        }
        let infix = match post2in(expr, n) {
            Ok(s) => s,
            Err(_) => {
                proof {
                    lemma_eval_ok_render_ok(prefix);
                    assert(false);
                }
                vstd::pervasive::unreached()
            },
        };
        proof {
            lemma_render_state_wf(prefix, n as int);
            let st = crate::render::render_state(prefix, n as int)->Ok_0;
            lemma_texts_len_entry(st, 0);
            assert(infix@ == st[0].0);
            assert(entry_wf(infix@));
            assert(1 <= infix@.len());
        }
        let nu = num as usize;
        proof {
            assert(table_view(sols@)[nu as int] == sols@[nu as int]@);
            assert(entry_wf(table_view(sols@)[nu as int]));
        }
        let cur_len = ascii_len(sols[nu].as_str());
        let new_len = ascii_len(infix.as_str());
        if cur_len == 0 || cur_len > new_len {
            sols[nu] = infix;
            proof {
                assert(table_view(sols@) =~~= leaf_update(tb0, prefix));
            }
        } else {
            proof {
                assert(table_view(sols@) == leaf_update(tb0, prefix));
            }
        }
        return ;
    }
    let alen = alpha.len();
    for j in 0..alen
        invariant
            alpha@.len() == alen,
            alpha_wf(alpha@),
            i < n,
            expr@.len() == old(expr)@.len(),
            n <= expr@.len(),
            n <= MAX_EXPR_LEN,
            expr@.take(i as int) == prefix,
            from_alphabet(prefix, alpha@),
            prefix_ok(prefix),
            num_cnt as int == num_cnt_of(prefix),
            oper_cnt as int == op_cnt_of(prefix),
            num_cnt + oper_cnt <= i,
            table_wf(table_view(sols@)),
            sel_spec_from(alpha@, j as int, i as int, n as int, prefix, table_view(sols@))
                == sel_spec_from(alpha@, 0, i as int, n as int, prefix, tb0),
    {
        let ghost tb_in = table_view(sols@);
        let t = alpha[j];
        expr[i] = t;
        proof {
            assert(expr@.take(i as int) =~= prefix);
            assert(expr@.take(i as int + 1) =~= prefix.push(t));
            lemma_cnt_push(prefix, t);
            assert(from_alphabet(prefix.push(t), alpha@)) by {
                assert(alpha@.contains(t));
                assert(forall|k: int|
                    0 <= k < prefix.len() ==> prefix.push(t)[k] == #[trigger] prefix[k]);
            };
        }
        match t {
            Term::Number(_) => {
                proof {
                    crate::terms::lemma_prefix_ok_push(prefix, t);
                }
                sel(alpha, i + 1, n, expr, num_cnt + 1, oper_cnt, sols);
            },
            Term::Operator(_) => {
                if num_cnt > oper_cnt + 1 {
                    proof {
                        crate::terms::lemma_prefix_ok_push(prefix, t);
                    }
                    sel(alpha, i + 1, n, expr, num_cnt, oper_cnt + 1, sols);
                }
            },
            Term::Empty => {
                proof {
                    assert(alpha@.contains(t));
                    assert(false);
                }
            },
        }
        proof {
            assert(expr@.take(i as int) =~= prefix);
            assert(sel_spec_from(alpha@, j as int, i as int, n as int, prefix, tb_in)
                == sel_spec_from(alpha@, j as int + 1, i as int, n as int, prefix, table_view(
                sols@,
            )));
        }
    }
    proof {
        assert(sel_spec_from(alpha@, alen as int, i as int, n as int, prefix, table_view(sols@))
            == table_view(sols@));
    }
}

/// Enumerates every candidate of each odd length `1, 3, ..., 2 * size - 1`
/// over the default vocabulary and returns the solution table: for each
/// result in `0 ..= MAX_RES`, the shortest infix rendering of a candidate
/// reaching it, or the empty string. The outcome is a function of `size`
/// alone, so two runs with the same configuration return identical tables.
pub fn get_seq(size: usize) -> (sols: Vec<String>)
    requires
        2 * size <= MAX_EXPR_LEN + 1,
    ensures
        sols@.len() == MAX_RES as int + 1,
        table_view(sols@) == table_after(size as int),
        forall|v: int|
            0 <= v < sols@.len() && sols@[v]@.len() != 0 ==> run_witness(
                size as int,
                v,
                #[trigger] sols@[v]@,
            ),
        forall|s: Seq<Term>|
            #[trigger] run_candidate(size as int, s) ==> covered(table_view(sols@), s),
{
    let alpha = default_terms();
    let mut sols: Vec<String> = Vec::new();
    let mut v: usize = 0;
    while v < MAX_RES + 1
        invariant
            v <= MAX_RES + 1,
            sols@.len() == v as int,
            forall|k: int| 0 <= k < v as int ==> #[trigger] sols@[k]@ == Seq::<char>::empty(),
        decreases MAX_RES + 1 - v,
    {
        sols.push(String::new());
        v = v + 1;
    }
    proof {
        assert(table_view(sols@) =~~= empty_table());
        assert(table_wf(empty_table()));
    }
    let mut expr: Vec<Term> = Vec::new();
    let mut e: usize = 0;
    while e < MAX_EXPR_LEN
        invariant
            e <= MAX_EXPR_LEN,
            expr@.len() == e as int,
        decreases MAX_EXPR_LEN - e,
    {
        expr.push(Term::Empty);
        e = e + 1;
    }
    for r in 0..size
        invariant
            2 * size <= MAX_EXPR_LEN + 1,
            expr@.len() == MAX_EXPR_LEN as int,
            alpha@ == default_alpha(),
            table_wf(table_view(sols@)),
            table_view(sols@) == table_after(r as int),
    {
        let n = 2 * r + 1;
        proof {
            assert(expr@.take(0) =~= Seq::<Term>::empty());
            lemma_cnt_bounds(Seq::<Term>::empty());
        }
        sel(&alpha, 0, n, &mut expr, 0, 0, &mut sols);
        proof {
            assert(table_view(sols@) == table_after(r as int + 1));
        }
    }
    proof {
        lemma_table_after_props(size as int);
        assert(forall|v: int|
            0 <= v < sols@.len() ==> #[trigger] sols@[v]@ == table_view(sols@)[v]);
    }
    sols
}

} // verus!
