//! What evaluating an expression means: an expression tree, the text and
//! the tokens that write it with the usual precedence (unary signs bind
//! tightest, then `*`, `/`, `%`, then `+`, `-`, all binary operators grouping
//! to the left), and the proof that reading such a text, reordering its
//! tokens into postfix and evaluating them gives the tree's value. The tree
//! records what the text may add without changing the value: parentheses
//! around any part, unary plus signs, repeated signs, and zero digits in
//! front of a numeral.
use vstd::prelude::*;

use crate::my_bc::base::{BASE_10, magnitude_numeral, numeral_value};
use crate::my_bc::eval::{
    BinaryOperator, Evaluation, Operator, Outcome, State, Stop, StopRule, Token, UnaryOperator, apply_binary,
    binary_then, evaluation, lemma_scan_numeral_ascii, numeral_end, postfix_outcome, prefix_result, prepend_token, run_postfix,
    scan, shunt, stops, to_postfix, token_precedence, unwind,
};
use crate::my_bc::laws::{distinct_chars, law_numeral_round_trip};
use vstd::utf8::is_ascii_chars;
use crate::my_bc::operators::signed_negate;
use crate::my_bc::Signed;

verus! {

/// An arithmetic expression, as it is written: a number (with the count of
/// zero digits written in front of its numeral), a unary minus, a unary
/// plus, parentheses written around an expression, or a binary operation.
pub enum Expr {
    Number(Signed, nat),
    Negate(Box<Expr>),
    Plus(Box<Expr>),
    Group(Box<Expr>),
    Binary(BinaryOperator, Box<Expr>, Box<Expr>),
}

/// The binding strength of a binary operator.
pub open spec fn binary_precedence(op: BinaryOperator) -> int {
    token_precedence(Token::Operator(Operator::Binary(op)))
}

/// The operand of a binary operator `op` on its left needs parentheses when
/// its own operator binds less strongly.
pub open spec fn left_needs_group(op: BinaryOperator, e: Expr) -> bool {
    match e {
        Expr::Binary(inner, _, _) => binary_precedence(inner) < binary_precedence(op),
        _ => false,
    }
}

/// The operand of a binary operator `op` on its right needs parentheses when
/// its own operator does not bind more strongly (operators group to the left).
pub open spec fn right_needs_group(op: BinaryOperator, e: Expr) -> bool {
    match e {
        Expr::Binary(inner, _, _) => binary_precedence(inner) <= binary_precedence(op),
        _ => false,
    }
}

/// The tokens `e` in parentheses.
pub open spec fn grouped(inner: Seq<Token>) -> Seq<Token> {
    seq![Token::Operator(Operator::BeginGroup)] + inner + seq![Token::Operator(Operator::EndGroup)]
}

/// The tokens that write `e` with the usual precedence: parentheses where
/// the precedence needs them, and where `e` has a group.
pub open spec fn tokens_of(e: Expr) -> Seq<Token>
    decreases e,
{
    match e {
        Expr::Number(v, _) => seq![Token::Operand(v)],
        Expr::Negate(a) => seq![Token::Operator(Operator::Unary(UnaryOperator::Minus))] + if (*a) is Binary {
            grouped(tokens_of(*a))
        } else {
            tokens_of(*a)
        },
        Expr::Plus(a) => if (*a) is Binary {
            grouped(tokens_of(*a))
        } else {
            tokens_of(*a)
        },
        Expr::Group(a) => grouped(tokens_of(*a)),
        Expr::Binary(op, l, r) => (if left_needs_group(op, *l) {
            grouped(tokens_of(*l))
        } else {
            tokens_of(*l)
        }) + seq![Token::Operator(Operator::Binary(op))] + (if right_needs_group(op, *r) {
            grouped(tokens_of(*r))
        } else {
            tokens_of(*r)
        }),
    }
}

/// The postfix form of `e`: operands first, then the operator.
pub open spec fn postfix_of(e: Expr) -> Seq<Token>
    decreases e,
{
    match e {
        Expr::Number(v, _) => seq![Token::Operand(v)],
        Expr::Negate(a) => postfix_of(*a) + seq![Token::Operator(Operator::Unary(UnaryOperator::Minus))],
        Expr::Plus(a) => postfix_of(*a),
        Expr::Group(a) => postfix_of(*a),
        Expr::Binary(op, l, r) => postfix_of(*l) + postfix_of(*r) + seq![
            Token::Operator(Operator::Binary(op)),
        ],
    }
}

/// The value of `e`, or `None` when it divides by zero.
pub open spec fn value_of(e: Expr) -> Option<Signed>
    decreases e,
{
    match e {
        Expr::Number(v, _) => Some(v),
        Expr::Negate(a) => match value_of(*a) {
            Some(v) => Some(signed_negate(v)),
            None => None,
        },
        Expr::Plus(a) => value_of(*a),
        Expr::Group(a) => value_of(*a),
        Expr::Binary(op, l, r) => match value_of(*l) {
            Some(a) => match value_of(*r) {
                Some(b) => apply_binary(op, a, b),
                None => None,
            },
            None => None,
        },
    }
}

/// How evaluating `e` ends.
pub open spec fn outcome_of(e: Expr) -> Outcome {
    match value_of(e) {
        Some(v) => Outcome::Value(v),
        None => Outcome::DivisionByZero,
    }
}

/// `ts` holds `a` from position `i` on.
pub open spec fn holds_at<A>(ts: Seq<A>, i: int, a: Seq<A>) -> bool {
    &&& 0 <= i
    &&& i + a.len() <= ts.len()
    &&& forall|k: int| 0 <= k < a.len() ==> ts[i + k] == a[k]
}

proof fn lemma_holds_at_split<A>(ts: Seq<A>, i: int, a: Seq<A>, b: Seq<A>)
    requires
        holds_at(ts, i, a + b),
    ensures
        holds_at(ts, i, a),
        holds_at(ts, i + a.len(), b),
{
    assert forall|k: int| 0 <= k < a.len() implies ts[i + k] == a[k] by {
        assert((a + b)[k] == a[k]);
    }
    assert forall|k: int| 0 <= k < b.len() implies ts[i + a.len() + k] == b[k] by {
        assert((a + b)[a.len() + k] == b[k]);
    }
}

// ---------------------------------------------------------------------------
// Evaluating a postfix form.

/// Evaluating the postfix form of `e` pushes its value, or stops on a
/// division by zero.
proof fn lemma_run_postfix_of(ts: Seq<Token>, i: int, e: Expr, stack: Seq<Signed>)
    requires
        holds_at(ts, i, postfix_of(e)),
    ensures
        run_postfix(ts, i as nat, stack) == match value_of(e) {
            Some(v) => run_postfix(ts, (i + postfix_of(e).len()) as nat, stack.push(v)),
            None => Outcome::DivisionByZero,
        },
    decreases e,
{
    match e {
        Expr::Number(v, _) => {
            assert(ts[i + 0] == postfix_of(e)[0]);
        },
        Expr::Plus(a) => {
            lemma_run_postfix_of(ts, i, *a, stack);
        },
        Expr::Group(a) => {
            lemma_run_postfix_of(ts, i, *a, stack);
        },
        Expr::Negate(a) => {
            let pa = postfix_of(*a);
            let minus = seq![Token::Operator(Operator::Unary(UnaryOperator::Minus))];
            lemma_holds_at_split(ts, i, pa, minus);
            lemma_run_postfix_of(ts, i, *a, stack);
            assert(ts[i + pa.len() + 0] == minus[0]);
            if let Some(v) = value_of(*a) {
                assert(stack.push(v).drop_last().push(signed_negate(stack.push(v).last())) =~= stack.push(
                    signed_negate(v),
                ));
            }
        },
        Expr::Binary(op, l, r) => {
            let pl = postfix_of(*l);
            let pr = postfix_of(*r);
            let o = seq![Token::Operator(Operator::Binary(op))];
            assert(postfix_of(e) == pl + pr + o);
            lemma_holds_at_split(ts, i, pl + pr, o);
            lemma_holds_at_split(ts, i, pl, pr);
            lemma_run_postfix_of(ts, i, *l, stack);
            if let Some(a) = value_of(*l) {
                lemma_run_postfix_of(ts, i + pl.len(), *r, stack.push(a));
                if let Some(b) = value_of(*r) {
                    let st = stack.push(a).push(b);
                    assert(ts[i + (pl + pr).len() + 0] == o[0]);
                    assert(st[st.len() - 2] == a);
                    assert(st.subrange(0, st.len() - 2) =~= stack);
                }
            }
        },
    }
}

// ---------------------------------------------------------------------------
// Reordering into postfix.

/// The operators still on the stack after the tokens of `e` are read.
pub open spec fn pending(e: Expr) -> Seq<Token>
    decreases e,
{
    match e {
        Expr::Number(_, _) => seq![],
        Expr::Negate(a) => seq![Token::Operator(Operator::Unary(UnaryOperator::Minus))] + if (*a) is Binary {
            seq![]
        } else {
            pending(*a)
        },
        Expr::Plus(a) => if (*a) is Binary {
            seq![]
        } else {
            pending(*a)
        },
        Expr::Group(_) => seq![],
        Expr::Binary(op, l, r) => seq![Token::Operator(Operator::Binary(op))] + if right_needs_group(
            op,
            *r,
        ) {
            seq![]
        } else {
            pending(*r)
        },
    }
}

/// The output written after the tokens of `e` are read.
pub open spec fn done(e: Expr) -> Seq<Token>
    decreases e,
{
    match e {
        Expr::Number(v, _) => seq![Token::Operand(v)],
        Expr::Negate(a) => if (*a) is Binary {
            postfix_of(*a)
        } else {
            done(*a)
        },
        Expr::Plus(a) => if (*a) is Binary {
            postfix_of(*a)
        } else {
            done(*a)
        },
        Expr::Group(a) => postfix_of(*a),
        Expr::Binary(op, l, r) => postfix_of(*l) + if right_needs_group(op, *r) {
            postfix_of(*r)
        } else {
            done(*r)
        },
    }
}

/// The least binding strength among the operators of `e` outside
/// parentheses (3, the strongest, when there is none).
pub open spec fn root_precedence(e: Expr) -> int {
    match e {
        Expr::Binary(op, _, _) => binary_precedence(op),
        _ => 3,
    }
}

/// The pending operators bind at least as strongly as the root of `e`, and
/// none is a parenthesis.
proof fn lemma_pending_strength(e: Expr)
    ensures
        forall|k: int|
            0 <= k < pending(e).len() ==> token_precedence(#[trigger] pending(e)[k]) >= root_precedence(e)
                && (pending(e)[k] matches Token::Operator(op) && !(op is BeginGroup)),
    decreases e,
{
    match e {
        Expr::Number(_, _) => {},
        Expr::Group(_) => {},
        Expr::Plus(a) => {
            if !((*a) is Binary) {
                lemma_pending_strength(*a);
            }
        },
        Expr::Negate(a) => {
            if !((*a) is Binary) {
                lemma_pending_strength(*a);
            }
            let p = pending(e);
            assert forall|k: int| 0 <= k < p.len() implies token_precedence(#[trigger] p[k]) >= 3 && (
            p[k] matches Token::Operator(op) && !(op is BeginGroup)) by {
                if k > 0 {
                    assert(p[k] == pending(*a)[k - 1]);
                }
            }
        },
        Expr::Binary(op, l, r) => {
            if !right_needs_group(op, *r) {
                lemma_pending_strength(*r);
            }
            let p = pending(e);
            assert forall|k: int| 0 <= k < p.len() implies token_precedence(#[trigger] p[k])
                >= binary_precedence(op) && (p[k] matches Token::Operator(o) && !(o is BeginGroup)) by {
                if k > 0 {
                    assert(p[k] == pending(*r)[k - 1]);
                }
            }
        },
    }
}

/// The postfix form is the written output followed by the pending operators
/// from the top down.
proof fn lemma_done_pending(e: Expr)
    ensures
        postfix_of(e) == done(e) + pending(e).reverse(),
    decreases e,
{
    match e {
        Expr::Number(_, _) => {
            assert(postfix_of(e) =~= done(e) + pending(e).reverse());
        },
        Expr::Group(_) => {
            assert(postfix_of(e) =~= done(e) + pending(e).reverse());
        },
        Expr::Plus(a) => {
            if (*a) is Binary {
                assert(postfix_of(e) =~= done(e) + pending(e).reverse());
            } else {
                lemma_done_pending(*a);
            }
        },
        Expr::Negate(a) => {
            let minus = seq![Token::Operator(Operator::Unary(UnaryOperator::Minus))];
            if (*a) is Binary {
                assert(pending(e) =~= minus);
                assert(postfix_of(e) =~= done(e) + pending(e).reverse());
            } else {
                lemma_done_pending(*a);
                assert((minus + pending(*a)).reverse() =~= pending(*a).reverse() + minus);
                assert(postfix_of(e) =~= done(e) + pending(e).reverse());
            }
        },
        Expr::Binary(op, l, r) => {
            let o = seq![Token::Operator(Operator::Binary(op))];
            if right_needs_group(op, *r) {
                assert(pending(e) =~= o);
                assert(postfix_of(e) =~= done(e) + pending(e).reverse());
            } else {
                lemma_done_pending(*r);
                assert((o + pending(*r)).reverse() =~= pending(*r).reverse() + o);
                assert(postfix_of(e) =~= done(e) + pending(e).reverse());
            }
        },
    }
}

/// Moving operators that bind at least as strongly as `p` off a stack whose
/// part below them binds less strongly moves exactly them.
proof fn lemma_unwind_below(out: Seq<Token>, st: Seq<Token>, ops: Seq<Token>, p: i32)
    requires
        forall|k: int| 0 <= k < ops.len() ==> token_precedence(#[trigger] ops[k]) >= p,
        st.len() == 0 || token_precedence(st.last()) < p,
    ensures
        unwind(out, st + ops, StopRule::Below(p)) == (out + ops.reverse(), st),
    decreases ops.len(),
{
    if ops.len() == 0 {
        assert(st + ops =~= st);
        assert(out + ops.reverse() =~= out);
    } else {
        let top = ops.last();
        assert((st + ops).last() == top);
        assert((st + ops).drop_last() =~= st + ops.drop_last());
        lemma_unwind_below(out.push(top), st, ops.drop_last(), p);
        assert(out.push(top) + ops.drop_last().reverse() =~= out + ops.reverse());
    }
}

/// Moving operators down to an opening parenthesis moves exactly those
/// above it.
proof fn lemma_unwind_group(out: Seq<Token>, st: Seq<Token>, ops: Seq<Token>)
    requires
        st.len() > 0,
        st.last() == Token::Operator(Operator::BeginGroup),
        forall|k: int| 0 <= k < ops.len() ==> (#[trigger] ops[k] matches Token::Operator(op) && !(op is BeginGroup)),
    ensures
        unwind(out, st + ops, StopRule::AtBeginGroup) == (out + ops.reverse(), st),
    decreases ops.len(),
{
    if ops.len() == 0 {
        assert(st + ops =~= st);
        assert(out + ops.reverse() =~= out);
    } else {
        let top = ops.last();
        assert((st + ops).last() == top);
        assert((st + ops).drop_last() =~= st + ops.drop_last());
        lemma_unwind_group(out.push(top), st, ops.drop_last());
        assert(out.push(top) + ops.drop_last().reverse() =~= out + ops.reverse());
    }
}

/// Moving the whole stack reverses it onto the output.
proof fn lemma_unwind_never(out: Seq<Token>, st: Seq<Token>)
    ensures
        unwind(out, st, StopRule::Never) == (out + st.reverse(), Seq::<Token>::empty()),
    decreases st.len(),
{
    if st.len() == 0 {
        assert(out + st.reverse() =~= out);
        assert(st =~= Seq::<Token>::empty());
    } else {
        lemma_unwind_never(out.push(st.last()), st.drop_last());
        assert(out.push(st.last()) + st.drop_last().reverse() =~= out + st.reverse());
    }
}

/// A stack on which `e` can be read: below a binary operator at the root of
/// `e` nothing binds as strongly.
pub open spec fn guards(st: Seq<Token>, e: Expr) -> bool {
    e is Binary ==> (st.len() == 0 || token_precedence(st.last()) < root_precedence(e))
}

/// Reading a grouped `e` on any stack writes its whole postfix form.
proof fn lemma_shunt_grouped(ts: Seq<Token>, i: int, e: Expr, out: Seq<Token>, st: Seq<Token>)
    requires
        holds_at(ts, i, grouped(tokens_of(e))),
    ensures
        shunt(ts, i as nat, out, st) == shunt(
            ts,
            (i + grouped(tokens_of(e)).len()) as nat,
            out + postfix_of(e),
            st,
        ),
    decreases e, 1nat,
{
    let bg = Token::Operator(Operator::BeginGroup);
    let eg = Token::Operator(Operator::EndGroup);
    let te = tokens_of(e);
    lemma_holds_at_split(ts, i, seq![bg] + te, seq![eg]);
    lemma_holds_at_split(ts, i, seq![bg], te);
    assert(ts[i + 0] == seq![bg][0]);
    let inner = st.push(bg);
    lemma_shunt_expr(ts, i + 1, e, out, inner);
    let j = i + 1 + te.len();
    assert(ts[j + 0] == seq![eg][0]);
    lemma_pending_strength(e);
    lemma_unwind_group(out + done(e), inner, pending(e));
    lemma_done_pending(e);
    assert(out + done(e) + pending(e).reverse() =~= out + postfix_of(e));
    assert(inner.drop_last() =~= st);
}

/// Reading the tokens of `e` on a stack that guards it writes `done(e)` and
/// leaves `pending(e)` on the stack.
proof fn lemma_shunt_expr(ts: Seq<Token>, i: int, e: Expr, out: Seq<Token>, st: Seq<Token>)
    requires
        holds_at(ts, i, tokens_of(e)),
        guards(st, e),
    ensures
        shunt(ts, i as nat, out, st) == shunt(
            ts,
            (i + tokens_of(e).len()) as nat,
            out + done(e),
            st + pending(e),
        ),
    decreases e, 0nat,
{
    match e {
        Expr::Number(v, _) => {
            assert(ts[i + 0] == tokens_of(e)[0]);
            assert(st + pending(e) =~= st);
            assert(out.push(Token::Operand(v)) =~= out + done(e));
        },
        Expr::Group(a) => {
            lemma_shunt_grouped(ts, i, *a, out, st);
            assert(st + pending(e) =~= st);
        },
        Expr::Plus(a) => {
            if (*a) is Binary {
                lemma_shunt_grouped(ts, i, *a, out, st);
                assert(st + pending(e) =~= st);
            } else {
                lemma_shunt_expr(ts, i, *a, out, st);
            }
        },
        Expr::Negate(a) => {
            let minus = Token::Operator(Operator::Unary(UnaryOperator::Minus));
            let rest = if (*a) is Binary {
                grouped(tokens_of(*a))
            } else {
                tokens_of(*a)
            };
            lemma_holds_at_split(ts, i, seq![minus], rest);
            assert(ts[i + 0] == seq![minus][0]);
            assert(token_precedence(minus) == 3);
            if st.len() > 0 {
                assert(stops(StopRule::AtMost(3), st.last()));
            }
            assert(unwind(out, st, StopRule::AtMost(3)) == (out, st));
            if (*a) is Binary {
                lemma_shunt_grouped(ts, i + 1, *a, out, st.push(minus));
                assert(st + pending(e) =~= st.push(minus));
            } else {
                lemma_shunt_expr(ts, i + 1, *a, out, st.push(minus));
                assert(st + pending(e) =~= st.push(minus) + pending(*a));
            }
        },
        Expr::Binary(op, l, r) => {
            let o = Token::Operator(Operator::Binary(op));
            let p = binary_precedence(op);
            let left = if left_needs_group(op, *l) {
                grouped(tokens_of(*l))
            } else {
                tokens_of(*l)
            };
            let right = if right_needs_group(op, *r) {
                grouped(tokens_of(*r))
            } else {
                tokens_of(*r)
            };
            assert(tokens_of(e) == left + seq![o] + right);
            lemma_holds_at_split(ts, i, left + seq![o], right);
            lemma_holds_at_split(ts, i, left, seq![o]);
            // The left operand.
            let ghost pl: Seq<Token>;
            if left_needs_group(op, *l) {
                lemma_shunt_grouped(ts, i, *l, out, st);
                pl = seq![];
            } else {
                lemma_shunt_expr(ts, i, *l, out, st);
                pl = pending(*l);
                lemma_pending_strength(*l);
                lemma_done_pending(*l);
            }
            let j = i + left.len();
            let out1 = if left_needs_group(op, *l) {
                out + postfix_of(*l)
            } else {
                out + done(*l)
            };
            assert(shunt(ts, i as nat, out, st) == shunt(ts, j as nat, out1, st + pl));
            // The operator.
            assert(ts[j + 0] == seq![o][0]);
            assert(token_precedence(o) == p);
            assert forall|k: int| 0 <= k < pl.len() implies token_precedence(#[trigger] pl[k]) >= p as i32 by {
                if !left_needs_group(op, *l) {
                    assert(token_precedence(pending(*l)[k]) >= root_precedence(*l));
                }
            }
            lemma_unwind_below(out1, st, pl, p as i32);
            let out2 = out1 + pl.reverse();
            assert(out2 == out + postfix_of(*l)) by {
                if left_needs_group(op, *l) {
                    assert(pl.reverse() =~= Seq::<Token>::empty());
                    assert(out1 + pl.reverse() =~= out1);
                } else {
                    assert(out + done(*l) + pending(*l).reverse() =~= out + (done(*l) + pending(
                        *l,
                    ).reverse()));
                }
            }
            let st2 = st.push(o);
            assert(shunt(ts, j as nat, out1, st + pl) == shunt(ts, (j + 1) as nat, out2, st2));
            // The right operand.
            let k = j + 1;
            if right_needs_group(op, *r) {
                lemma_shunt_grouped(ts, k, *r, out2, st2);
                assert(st + pending(e) =~= st2);
                assert(out2 + postfix_of(*r) =~= out + done(e));
            } else {
                lemma_shunt_expr(ts, k, *r, out2, st2);
                assert(st + pending(e) =~= st2 + pending(*r));
                assert(out2 + done(*r) =~= out + done(e));
            }
        },
    }
}

/// Reordering the tokens of `e` into postfix gives the postfix form of `e`.
pub proof fn law_to_postfix_of_tokens(e: Expr)
    ensures
        to_postfix(tokens_of(e)) == postfix_of(e),
{
    let ts = tokens_of(e);
    assert(holds_at(ts, 0, ts));
    lemma_shunt_expr(ts, 0, e, seq![], seq![]);
    lemma_unwind_never(done(e), Seq::<Token>::empty() + pending(e));
    lemma_done_pending(e);
    assert(Seq::<Token>::empty() + done(e) =~= done(e));
    assert(Seq::<Token>::empty() + pending(e) =~= pending(e));
}

/// Evaluating the postfix form of `e` gives the value of `e`.
pub proof fn law_postfix_value(e: Expr)
    ensures
        postfix_outcome(postfix_of(e)) == outcome_of(e),
{
    let ts = postfix_of(e);
    assert(holds_at(ts, 0, ts));
    lemma_run_postfix_of(ts, 0, e, seq![]);
    if let Some(v) = value_of(e) {
        assert(Seq::<Signed>::empty().push(v).last() == v);
    }
}

/// The tokens of an expression written with the usual precedence, reordered
/// into postfix and evaluated, give the expression's value (or a division by
/// zero).
pub proof fn law_precedence(e: Expr)
    ensures
        postfix_outcome(to_postfix(tokens_of(e))) == outcome_of(e),
{
    law_to_postfix_of_tokens(e);
    law_postfix_value(e);
}

// ---------------------------------------------------------------------------
// Reading the text of an expression.

/// The character of a binary operator.
pub open spec fn operator_char(op: BinaryOperator) -> char {
    match op {
        BinaryOperator::Add => '+',
        BinaryOperator::Sub => '-',
        BinaryOperator::Mul => '*',
        BinaryOperator::Div => '/',
        BinaryOperator::Modulo => '%',
    }
}

/// The characters `inner` in parentheses.
pub open spec fn grouped_text(inner: Seq<char>) -> Seq<char> {
    seq!['('] + inner + seq![')']
}

/// The text that writes `e` with the usual precedence, its numbers in
/// `base`: parentheses where the precedence needs them and where `e` has a
/// group, a `+` for each unary plus, and each number's zero digits in front
/// of its numeral.
pub open spec fn text_of(e: Expr, base: Seq<char>) -> Seq<char>
    decreases e,
{
    match e {
        Expr::Number(v, zeros) => Seq::new(zeros, |k: int| base[0]) + magnitude_numeral(v.magnitude, base),
        Expr::Negate(a) => seq!['-'] + if (*a) is Binary {
            grouped_text(text_of(*a, base))
        } else {
            text_of(*a, base)
        },
        Expr::Plus(a) => seq!['+'] + if (*a) is Binary {
            grouped_text(text_of(*a, base))
        } else {
            text_of(*a, base)
        },
        Expr::Group(a) => grouped_text(text_of(*a, base)),
        Expr::Binary(op, l, r) => (if left_needs_group(op, *l) {
            grouped_text(text_of(*l, base))
        } else {
            text_of(*l, base)
        }) + seq![operator_char(op)] + (if right_needs_group(op, *r) {
            grouped_text(text_of(*r, base))
        } else {
            text_of(*r, base)
        }),
    }
}

/// Every number of `e` can be written in `base`: it is not negative, as the
/// numbers of a text are not, and it is zero where `base` has a single digit.
pub open spec fn numbers_in_base(e: Expr, base: Seq<char>) -> bool
    decreases e,
{
    match e {
        Expr::Number(v, _) => !v.negative && (base.len() >= 2 || v.magnitude == 0),
        Expr::Negate(a) => numbers_in_base(*a, base),
        Expr::Plus(a) => numbers_in_base(*a, base),
        Expr::Group(a) => numbers_in_base(*a, base),
        Expr::Binary(_, l, r) => numbers_in_base(*l, base) && numbers_in_base(*r, base),
    }
}

/// A base of one or more distinct ASCII digits, none of which is a
/// parenthesis or an operator character.
pub open spec fn plain_base(base: Seq<char>) -> bool {
    &&& is_ascii_chars(base)
    &&& distinct_chars(base)
    &&& base.len() >= 1
    &&& forall|k: int|
        0 <= k < base.len() ==> {
            let c = #[trigger] base[k];
            c != '(' && c != ')' && c != '+' && c != '-' && c != '*' && c != '/' && c != '%'
        }
}

/// Position `j` of `s` does not continue a numeral.
pub open spec fn numeral_stops(s: Seq<char>, base: Seq<char>, j: int) -> bool {
    j >= s.len() || !base.contains(s[j])
}

proof fn lemma_prefix_assoc(a: Seq<Token>, b: Seq<Token>, r: Result<Seq<Token>, Stop>)
    ensures
        prefix_result(a, prefix_result(b, r)) == prefix_result(a + b, r),
{
    if let Ok(x) = r {
        assert(a + (b + x) =~= a + b + x);
    }
}

proof fn lemma_prepend_is_prefix(t: Token, r: Result<Seq<Token>, Stop>)
    ensures
        prepend_token(t, r) == prefix_result(seq![t], r),
{
}

/// A run of digits that stops at `j` ends at `j`.
proof fn lemma_numeral_end_at(s: Seq<char>, base: Seq<char>, i: nat, j: nat)
    requires
        i <= j <= s.len(),
        forall|k: int| i <= k < j ==> base.contains(#[trigger] s[k]),
        numeral_stops(s, base, j as int),
    ensures
        numeral_end(s, base, i) == j,
    decreases j - i,
{
    if i < j {
        lemma_numeral_end_at(s, base, i + 1, j);
    }
}

/// The characters of a plain base are not parentheses or operators.
pub proof fn lemma_plain_digit(base: Seq<char>, c: char)
    requires
        plain_base(base),
        base.contains(c),
    ensures
        c != '(' && c != ')' && c != '+' && c != '-' && c != '*' && c != '/' && c != '%',
{
    let k = choose|k: int| 0 <= k < base.len() && base[k] == c;
    assert(base[k] == c);
}

/// Zero digits written in front of a numeral do not change its value.
proof fn lemma_leading_zeros(zeros: nat, g: Seq<char>, base: Seq<char>)
    requires
        plain_base(base),
    ensures
        numeral_value(Seq::new(zeros, |k: int| base[0]) + g, base) == numeral_value(g, base),
    decreases g.len(), zeros,
{
    let z = Seq::new(zeros, |k: int| base[0]);
    let b = crate::my_bc::text::utf8_len(base);
    if g.len() == 0 {
        assert(z + g =~= z);
        if zeros > 0 {
            let z1 = Seq::new((zeros - 1) as nat, |k: int| base[0]);
            lemma_leading_zeros((zeros - 1) as nat, g, base);
            assert(z1 + g =~= z1);
            assert(z.drop_last() =~= z1);
            assert(z.last() == base[0]);
            crate::my_bc::laws::lemma_digit_index(base, 0);
            assert(numeral_value(z1, base) == 0);
            assert(0 * b == 0) by (nonlinear_arith);
        }
    } else {
        lemma_leading_zeros(zeros, g.drop_last(), base);
        assert((z + g).drop_last() =~= z + g.drop_last());
        assert((z + g).last() == g.last());
    }
}

/// Reading a grouped expression in a text reads its tokens in parentheses.
proof fn lemma_scan_grouped(s: Seq<char>, base: Seq<char>, i: int, e: Expr, gc: nat)
    requires
        plain_base(base),
        is_ascii_chars(s),
        numbers_in_base(e, base),
        holds_at(s, i, grouped_text(text_of(e, base))),
    ensures
        scan(s, base, i as nat, State::ExpectOperand, gc) == prefix_result(
            grouped(tokens_of(e)),
            scan(s, base, (i + grouped_text(text_of(e, base)).len()) as nat, State::ExpectOperator, gc),
        ),
    decreases e, 1nat,
{
    let te = text_of(e, base);
    let bg = Token::Operator(Operator::BeginGroup);
    let eg = Token::Operator(Operator::EndGroup);
    lemma_holds_at_split(s, i, seq!['('] + te, seq![')']);
    lemma_holds_at_split(s, i, seq!['('], te);
    assert(s[i + 0] == seq!['('][0]);
    let j = i + 1 + te.len();
    assert(s[j + 0] == seq![')'][0]);
    if base.contains(s[j]) {
        lemma_plain_digit(base, s[j]);
    }
    lemma_scan_expr(s, base, i + 1, e, gc + 1);
    let after = scan(s, base, (j + 1) as nat, State::ExpectOperator, gc);
    assert(scan(s, base, j as nat, State::ExpectOperator, gc + 1) == prepend_token(eg, after));
    lemma_prepend_is_prefix(eg, after);
    lemma_prefix_assoc(tokens_of(e), seq![eg], after);
    let inner = scan(s, base, (i + 1) as nat, State::ExpectOperand, gc + 1);
    lemma_prepend_is_prefix(bg, inner);
    lemma_prefix_assoc(seq![bg], tokens_of(e) + seq![eg], after);
    assert(seq![bg] + (tokens_of(e) + seq![eg]) =~= grouped(tokens_of(e)));
}

/// Reading the text of a number reads its operand.
proof fn lemma_scan_number(s: Seq<char>, base: Seq<char>, i: int, v: Signed, zeros: nat, gc: nat)
    requires
        plain_base(base),
        is_ascii_chars(s),
        !v.negative,
        base.len() >= 2 || v.magnitude == 0,
        holds_at(s, i, text_of(Expr::Number(v, zeros), base)),
        numeral_stops(s, base, i + text_of(Expr::Number(v, zeros), base).len()),
    ensures
        scan(s, base, i as nat, State::ExpectOperand, gc) == prefix_result(
            seq![Token::Operand(v)],
            scan(s, base, (i + text_of(Expr::Number(v, zeros), base).len()) as nat, State::ExpectOperator, gc),
        ),
{
    let t = text_of(Expr::Number(v, zeros), base);
    let j = i + t.len();
    law_numeral_round_trip(v.magnitude, base);
    let g = magnitude_numeral(v.magnitude, base);
    let z = Seq::new(zeros, |k: int| base[0]);
    assert(t == z + g);
    assert(base.contains(base[0]));
    assert forall|k: int| 0 <= k < t.len() implies base.contains(#[trigger] t[k]) by {
        if k < zeros {
            assert(t[k] == base[0]);
        } else {
            assert(t[k] == g[k - zeros]);
        }
    }
    lemma_leading_zeros(zeros, g, base);
    assert(s[i + 0] == t[0]);
    assert(base.contains(t[0]));
    lemma_plain_digit(base, t[0]);
    assert forall|k: int| i <= k < j implies base.contains(#[trigger] s[k]) by {
        assert(s[i + (k - i)] == t[k - i]);
    }
    lemma_numeral_end_at(s, base, i as nat, j as nat);
    assert(s.subrange(i, j) =~= t);
    lemma_scan_numeral_ascii(s, base, i as nat, gc);
    lemma_prepend_is_prefix(Token::Operand(v), scan(s, base, j as nat, State::ExpectOperator, gc));
}

/// Reading the text of `e`, followed by something that does not continue a
/// numeral, reads the tokens of `e`.
proof fn lemma_scan_expr(s: Seq<char>, base: Seq<char>, i: int, e: Expr, gc: nat)
    requires
        plain_base(base),
        is_ascii_chars(s),
        numbers_in_base(e, base),
        holds_at(s, i, text_of(e, base)),
        numeral_stops(s, base, i + text_of(e, base).len()),
    ensures
        scan(s, base, i as nat, State::ExpectOperand, gc) == prefix_result(
            tokens_of(e),
            scan(s, base, (i + text_of(e, base).len()) as nat, State::ExpectOperator, gc),
        ),
    decreases e, 0nat,
{
    let t = text_of(e, base);
    let j = i + t.len();
    match e {
        Expr::Number(v, zeros) => {
            lemma_scan_number(s, base, i, v, zeros, gc);
        },
        Expr::Group(a) => {
            lemma_scan_grouped(s, base, i, *a, gc);
        },
        Expr::Plus(a) => {
            let rest = if (*a) is Binary {
                grouped_text(text_of(*a, base))
            } else {
                text_of(*a, base)
            };
            lemma_holds_at_split(s, i, seq!['+'], rest);
            assert(s[i + 0] == seq!['+'][0]);
            if (*a) is Binary {
                lemma_scan_grouped(s, base, i + 1, *a, gc);
            } else {
                lemma_scan_expr(s, base, i + 1, *a, gc);
            }
        },
        Expr::Negate(a) => {
            let minus = Token::Operator(Operator::Unary(UnaryOperator::Minus));
            let rest = if (*a) is Binary {
                grouped_text(text_of(*a, base))
            } else {
                text_of(*a, base)
            };
            lemma_holds_at_split(s, i, seq!['-'], rest);
            assert(s[i + 0] == seq!['-'][0]);
            let after = scan(s, base, j as nat, State::ExpectOperator, gc);
            let inner = scan(s, base, (i + 1) as nat, State::ExpectOperand, gc);
            lemma_prepend_is_prefix(minus, inner);
            if (*a) is Binary {
                lemma_scan_grouped(s, base, i + 1, *a, gc);
                lemma_prefix_assoc(seq![minus], grouped(tokens_of(*a)), after);
            } else {
                lemma_scan_expr(s, base, i + 1, *a, gc);
                lemma_prefix_assoc(seq![minus], tokens_of(*a), after);
            }
        },
        Expr::Binary(op, l, r) => {
            let o = Token::Operator(Operator::Binary(op));
            let c = operator_char(op);
            let left = if left_needs_group(op, *l) {
                grouped_text(text_of(*l, base))
            } else {
                text_of(*l, base)
            };
            let right = if right_needs_group(op, *r) {
                grouped_text(text_of(*r, base))
            } else {
                text_of(*r, base)
            };
            let left_tokens = if left_needs_group(op, *l) {
                grouped(tokens_of(*l))
            } else {
                tokens_of(*l)
            };
            let right_tokens = if right_needs_group(op, *r) {
                grouped(tokens_of(*r))
            } else {
                tokens_of(*r)
            };
            assert(t == left + seq![c] + right);
            lemma_holds_at_split(s, i, left + seq![c], right);
            lemma_holds_at_split(s, i, left, seq![c]);
            let k = i + left.len();
            assert(s[k + 0] == seq![c][0]);
            if base.contains(c) {
                lemma_plain_digit(base, c);
            }
            let after = scan(s, base, j as nat, State::ExpectOperator, gc);
            let right_scan = scan(s, base, (k + 1) as nat, State::ExpectOperand, gc);
            // The right operand.
            if right_needs_group(op, *r) {
                lemma_scan_grouped(s, base, k + 1, *r, gc);
            } else {
                lemma_scan_expr(s, base, k + 1, *r, gc);
            }
            assert(right_scan == prefix_result(right_tokens, after));
            // The operator.
            assert(scan(s, base, k as nat, State::ExpectOperator, gc) == binary_then(op, right_scan)) by {
                match op {
                    BinaryOperator::Add => {},
                    BinaryOperator::Sub => {},
                    BinaryOperator::Mul => {},
                    BinaryOperator::Div => {},
                    BinaryOperator::Modulo => {},
                }
            }
            lemma_prepend_is_prefix(o, right_scan);
            lemma_prefix_assoc(seq![o], right_tokens, after);
            // The left operand.
            let op_scan = scan(s, base, k as nat, State::ExpectOperator, gc);
            if left_needs_group(op, *l) {
                lemma_scan_grouped(s, base, i, *l, gc);
            } else {
                lemma_scan_expr(s, base, i, *l, gc);
            }
            lemma_prefix_assoc(left_tokens, seq![o] + right_tokens, after);
            assert(left_tokens + (seq![o] + right_tokens) =~= tokens_of(e));
        },
    }
}

/// The text of an expression whose numbers can be written in a plain base
/// is ASCII.
proof fn lemma_text_ascii(e: Expr, base: Seq<char>)
    requires
        plain_base(base),
        numbers_in_base(e, base),
    ensures
        is_ascii_chars(text_of(e, base)),
    decreases e,
{
    let t = text_of(e, base);
    match e {
        Expr::Number(v, zeros) => {
            law_numeral_round_trip(v.magnitude, base);
            let g = magnitude_numeral(v.magnitude, base);
            assert forall|k: int| 0 <= k < t.len() implies '\0' <= #[trigger] t[k] <= '\u{7f}' by {
                let c = if k < zeros {
                    base[0]
                } else {
                    g[k - zeros]
                };
                assert(t[k] == c);
                assert(base.contains(c));
                let d = choose|d: int| 0 <= d < base.len() && base[d] == c;
                assert(base[d] == c);
            }
        },
        Expr::Negate(a) => {
            lemma_text_ascii(*a, base);
        },
        Expr::Plus(a) => {
            lemma_text_ascii(*a, base);
        },
        Expr::Group(a) => {
            lemma_text_ascii(*a, base);
        },
        Expr::Binary(op, l, r) => {
            lemma_text_ascii(*l, base);
            lemma_text_ascii(*r, base);
        },
    }
}

/// The text of an expression written with the usual precedence, with
/// non-negative numbers in a plain base, evaluates to the expression's value,
/// or to the error "division by zero".
pub proof fn law_evaluation_of_text(e: Expr, base: Seq<char>)
    requires
        plain_base(base),
        numbers_in_base(e, base),
    ensures
        evaluation(text_of(e, base), base) == match value_of(e) {
            Some(v) => Evaluation::Value(v),
            None => Evaluation::Error("division by zero"@),
        },
{
    let s = text_of(e, base);
    assert(holds_at(s, 0, s));
    lemma_text_ascii(e, base);
    lemma_scan_expr(s, base, 0, e, 0);
    assert(scan(s, base, s.len(), State::ExpectOperator, 0) == Ok::<Seq<Token>, Stop>(seq![]));
    assert(tokens_of(e) + seq![] =~= tokens_of(e));
    law_precedence(e);
}

/// The decimal base is plain.
pub proof fn lemma_base10_plain()
    ensures
        plain_base(BASE_10@),
{
    reveal_strlit("0123456789");
    assert(BASE_10@ =~= seq!['0', '1', '2', '3', '4', '5', '6', '7', '8', '9']);
}

/// What `eval` computes for the decimal text of an expression written with
/// the usual precedence: its value, or the error "division by zero".
pub proof fn law_eval_of_decimal_text(e: Expr)
    requires
        numbers_in_base(e, BASE_10@),
    ensures
        evaluation(text_of(e, BASE_10@), BASE_10@) == match value_of(e) {
            Some(v) => Evaluation::Value(v),
            None => Evaluation::Error("division by zero"@),
        },
{
    lemma_base10_plain();
    law_evaluation_of_text(e, BASE_10@);
}

} // verus!
