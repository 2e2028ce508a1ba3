//! What reordering into postfix keeps: for the tokens of any text that
//! reads, the postfix form has no parentheses, holds the same operands in
//! the same order, and the same operators as often.
use vstd::prelude::*;

use crate::my_bc::eval::{
    Operator, State, Stop, StopRule, Token, prefix_result, prepend_token, remaining, scan, shunt,
    state_rank, stops, to_postfix, token_precedence, unwind,
};
use crate::my_bc::text::{boundary_char, utf8_len};
use crate::my_bc::Signed;

verus! {

/// The operands of `ts`, in order.
pub open spec fn operands(ts: Seq<Token>) -> Seq<Signed>
    decreases ts.len(),
{
    if ts.len() == 0 {
        seq![]
    } else {
        match ts.last() {
            Token::Operand(v) => operands(ts.drop_last()).push(v),
            _ => operands(ts.drop_last()),
        }
    }
}

/// How often `t` occurs in `ts`.
pub open spec fn count_of(ts: Seq<Token>, t: Token) -> nat
    decreases ts.len(),
{
    if ts.len() == 0 {
        0
    } else {
        count_of(ts.drop_last(), t) + if ts.last() == t {
            1nat
        } else {
            0nat
        }
    }
}

/// The opening parenthesis token.
pub open spec fn begin_group() -> Token {
    Token::Operator(Operator::BeginGroup)
}

/// The closing parenthesis token.
pub open spec fn end_group() -> Token {
    Token::Operator(Operator::EndGroup)
}

/// A parenthesis token.
pub open spec fn is_group(t: Token) -> bool {
    t == begin_group() || t == end_group()
}

/// Parentheses opened and not yet closed in `ts`.
pub open spec fn open_groups(ts: Seq<Token>) -> int {
    count_of(ts, begin_group()) - count_of(ts, end_group())
}

/// Every closing parenthesis of `ts` closes one opened before it, and all
/// are closed.
pub open spec fn balanced(ts: Seq<Token>) -> bool {
    &&& open_groups(ts) == 0
    &&& forall|k: int| 0 <= k <= ts.len() ==> open_groups(#[trigger] ts.take(k)) >= 0
}

proof fn lemma_concat(a: Seq<Token>, b: Seq<Token>)
    ensures
        operands(a + b) == operands(a) + operands(b),
        forall|t: Token| #[trigger] count_of(a + b, t) == count_of(a, t) + count_of(b, t),
    decreases b.len(),
{
    if b.len() == 0 {
        assert(a + b =~= a);
        assert(operands(a) + operands(b) =~= operands(a));
        assert forall|t: Token| #[trigger] count_of(a + b, t) == count_of(a, t) + count_of(b, t) by {
            assert(count_of(b, t) == 0);
        }
    } else {
        lemma_concat(a, b.drop_last());
        assert((a + b).drop_last() =~= a + b.drop_last());
        assert((a + b).last() == b.last());
        assert forall|t: Token| #[trigger] count_of(a + b, t) == count_of(a, t) + count_of(b, t) by {
            assert(count_of(a + b, t) == count_of((a + b).drop_last(), t) + if (a + b).last() == t {
                1nat
            } else {
                0nat
            });
            assert(count_of(a + b.drop_last(), t) == count_of(a, t) + count_of(b.drop_last(), t));
        }
        match b.last() {
            Token::Operand(v) => {
                assert(operands(a) + operands(b.drop_last()).push(v) =~= (operands(a) + operands(
                    b.drop_last(),
                )).push(v));
            },
            _ => {},
        }
    }
}

proof fn lemma_single(t: Token)
    ensures
        count_of(seq![t], t) == 1,
        forall|u: Token| u != t ==> #[trigger] count_of(seq![t], u) == 0,
        operands(seq![t]) == match t {
            Token::Operand(v) => seq![v],
            _ => Seq::<Signed>::empty(),
        },
{
    let e = Seq::<Token>::empty();
    assert(seq![t].drop_last() =~= e);
    assert(count_of(e, t) == 0);
    assert(count_of(seq![t], t) == count_of(seq![t].drop_last(), t) + 1);
    assert forall|u: Token| u != t implies #[trigger] count_of(seq![t], u) == 0 by {
        assert(count_of(e, u) == 0);
        assert(count_of(seq![t], u) == count_of(seq![t].drop_last(), u) + 0);
    }
    assert(operands(e) == Seq::<Signed>::empty());
    match t {
        Token::Operand(v) => {
            assert(Seq::<Signed>::empty().push(v) =~= seq![v]);
        },
        _ => {},
    }
}

proof fn lemma_push(a: Seq<Token>, t: Token)
    ensures
        operands(a.push(t)) == operands(a) + operands(seq![t]),
        forall|u: Token| #[trigger] count_of(a.push(t), u) == count_of(a, u) + count_of(seq![t], u),
{
    assert(a.push(t) =~= a + seq![t]);
    lemma_concat(a, seq![t]);
}

proof fn lemma_reverse(a: Seq<Token>)
    ensures
        forall|t: Token| #[trigger] count_of(a.reverse(), t) == count_of(a, t),
    decreases a.len(),
{
    if a.len() > 0 {
        lemma_reverse(a.drop_last());
        assert(a.reverse() =~= seq![a.last()] + a.drop_last().reverse());
        lemma_concat(seq![a.last()], a.drop_last().reverse());
        lemma_single(a.last());
        assert(a.drop_last().push(a.last()) =~= a);
        lemma_push(a.drop_last(), a.last());
    }
}

/// A sequence without operands has no operands.
proof fn lemma_no_operands(a: Seq<Token>)
    requires
        forall|k: int| 0 <= k < a.len() ==> !(#[trigger] a[k] is Operand),
    ensures
        operands(a) == Seq::<Signed>::empty(),
    decreases a.len(),
{
    if a.len() > 0 {
        lemma_no_operands(a.drop_last());
        assert(!(a[a.len() - 1] is Operand));
    }
}

/// A token that occurs nowhere is counted zero times, and one that is
/// counted zero times occurs nowhere.
proof fn lemma_count_zero(a: Seq<Token>, t: Token)
    ensures
        (count_of(a, t) == 0) <==> (forall|k: int| 0 <= k < a.len() ==> #[trigger] a[k] != t),
    decreases a.len(),
{
    if a.len() > 0 {
        lemma_count_zero(a.drop_last(), t);
        if count_of(a, t) == 0 {
            assert forall|k: int| 0 <= k < a.len() implies #[trigger] a[k] != t by {
                if k < a.len() - 1 {
                    assert(a[k] == a.drop_last()[k]);
                }
            }
        } else {
            if forall|k: int| 0 <= k < a.len() ==> #[trigger] a[k] != t {
                assert forall|k: int| 0 <= k < a.drop_last().len() implies #[trigger] a.drop_last()[k]
                    != t by {
                    assert(a.drop_last()[k] == a[k]);
                }
                assert(a[a.len() - 1] != t);
            }
        }
    }
}

/// What `unwind` does: it moves a top part of the stack, none of whose
/// tokens stops it, reversed onto the output.
proof fn lemma_unwind_shape(out: Seq<Token>, st: Seq<Token>, rule: StopRule) -> (j: int)
    ensures
        0 <= j <= st.len(),
        unwind(out, st, rule) == (out + st.subrange(j, st.len() as int).reverse(), st.subrange(0, j)),
        forall|k: int| j <= k < st.len() ==> !stops(rule, #[trigger] st[k]),
        j > 0 ==> stops(rule, st[j - 1]),
    decreases st.len(),
{
    if st.len() == 0 || stops(rule, st.last()) {
        assert(st.subrange(st.len() as int, st.len() as int).reverse() =~= Seq::<Token>::empty());
        assert(out + Seq::<Token>::empty() =~= out);
        assert(st.subrange(0, st.len() as int) =~= st);
        st.len() as int
    } else {
        let top = st.last();
        let rest = st.drop_last();
        let j = lemma_unwind_shape(out.push(top), rest, rule);
        assert(rest.subrange(0, j) =~= st.subrange(0, j));
        assert(out.push(top) + rest.subrange(j, rest.len() as int).reverse() =~= out + st.subrange(
            j,
            st.len() as int,
        ).reverse());
        assert forall|k: int| j <= k < st.len() implies !stops(rule, #[trigger] st[k]) by {
            if k < st.len() - 1 {
                assert(st[k] == rest[k]);
            }
        }
        if j > 0 {
            assert(st[j - 1] == rest[j - 1]);
        }
        j
    }
}

/// What holds while `ts` is reordered, after its first `i` tokens: the
/// output has no parentheses and holds the operands read so far; the stack
/// holds operators and opening parentheses, one for each still open; and
/// each operator read so far is on the output or on the stack.
pub open spec fn reorder_state(ts: Seq<Token>, i: int, out: Seq<Token>, st: Seq<Token>) -> bool {
    &&& 0 <= i <= ts.len()
    &&& operands(out) == operands(ts.take(i))
    &&& forall|k: int| 0 <= k < out.len() ==> !is_group(#[trigger] out[k])
    &&& forall|k: int| 0 <= k < st.len() ==> !(#[trigger] st[k] is Operand) && st[k] != end_group()
    &&& count_of(st, begin_group()) == open_groups(ts.take(i))
    &&& forall|t: Token|
        !is_group(t) && !(t is Operand) ==> #[trigger] count_of(out, t) + count_of(st, t) == count_of(
            ts.take(i),
            t,
        )
}

/// Moving tokens that are not parentheses from the stack to the output
/// keeps the state.
proof fn lemma_move_keeps(
    ts: Seq<Token>,
    i: int,
    out: Seq<Token>,
    st: Seq<Token>,
    j: int,
)
    requires
        reorder_state(ts, i, out, st),
        0 <= j <= st.len(),
        forall|k: int| j <= k < st.len() ==> #[trigger] st[k] != begin_group(),
    ensures
        reorder_state(ts, i, out + st.subrange(j, st.len() as int).reverse(), st.subrange(0, j)),
{
    let moved = st.subrange(j, st.len() as int);
    let low = st.subrange(0, j);
    assert(low + moved =~= st);
    lemma_concat(low, moved);
    lemma_concat(out, moved.reverse());
    lemma_reverse(moved);
    assert forall|k: int| 0 <= k < moved.reverse().len() implies !(#[trigger] moved.reverse()[k] is Operand) by {
        assert(moved.reverse()[k] == st[st.len() - 1 - k]);
    }
    lemma_no_operands(moved.reverse());
    assert(operands(out) + Seq::<Signed>::empty() =~= operands(out));
    let new_out = out + moved.reverse();
    assert forall|k: int| 0 <= k < new_out.len() implies !is_group(#[trigger] new_out[k]) by {
        if k >= out.len() {
            assert(new_out[k] == st[st.len() - 1 - (k - out.len())]);
        }
    }
    lemma_count_zero(moved, begin_group());
}

/// One token of reordering keeps the state.
proof fn lemma_reorder_step(ts: Seq<Token>, i: int, out: Seq<Token>, st: Seq<Token>) -> (r: (
    Seq<Token>,
    Seq<Token>,
))
    requires
        reorder_state(ts, i, out, st),
        i < ts.len(),
        balanced(ts),
    ensures
        reorder_state(ts, i + 1, r.0, r.1),
        shunt(ts, i as nat, out, st) == shunt(ts, (i + 1) as nat, r.0, r.1),
{
    let t = ts[i];
    let taken = ts.take(i + 1);
    assert(taken =~= ts.take(i).push(t));
    lemma_push(ts.take(i), t);
    lemma_single(t);
    assert(open_groups(ts.take(i + 1)) >= 0);
    match t {
        Token::Operand(v) => {
            let o2 = out.push(t);
            lemma_push(out, t);
            assert forall|k: int| 0 <= k < o2.len() implies !is_group(#[trigger] o2[k]) by {
                if k < out.len() {
                    assert(o2[k] == out[k]);
                }
            }
            assert(reorder_state(ts, i + 1, o2, st));
            (o2, st)
        },
        Token::Operator(op) => {
            match op {
                Operator::BeginGroup => {
                    let s2 = st.push(t);
                    lemma_push(st, t);
                    lemma_no_operands(seq![t]);
                    assert(operands(ts.take(i)) + Seq::<Signed>::empty() =~= operands(ts.take(i)));
                    assert forall|k: int| 0 <= k < s2.len() implies !(#[trigger] s2[k] is Operand) && s2[k]
                        != end_group() by {
                        if k < st.len() {
                            assert(s2[k] == st[k]);
                        }
                    }
                    assert(reorder_state(ts, i + 1, out, s2));
                    (out, s2)
                },
                Operator::EndGroup => {
                    let j = lemma_unwind_shape(out, st, StopRule::AtBeginGroup);
                    lemma_move_keeps(ts, i, out, st, j);
                    let o1 = out + st.subrange(j, st.len() as int).reverse();
                    let s1 = st.subrange(0, j);
                    // A parenthesis is open, so the move stops at one.
                    assert(count_of(st, begin_group()) >= 1);
                    lemma_count_zero(st, begin_group());
                    let b = choose|k: int| 0 <= k < st.len() && st[k] == begin_group();
                    assert(st[b] == begin_group());
                    if j == 0 {
                        assert(stops(StopRule::AtBeginGroup, st[b]));
                    }
                    assert(j > 0);
                    assert(s1.last() == begin_group());
                    let s2 = s1.drop_last();
                    assert(s2.push(begin_group()) =~= s1);
                    lemma_push(s2, begin_group());
                    lemma_single(begin_group());
                    lemma_no_operands(seq![t]);
                    assert(operands(ts.take(i)) + Seq::<Signed>::empty() =~= operands(ts.take(i)));
                    assert forall|k: int| 0 <= k < s2.len() implies !(#[trigger] s2[k] is Operand) && s2[k]
                        != end_group() by {
                        assert(s2[k] == st[k]);
                    }
                    assert(reorder_state(ts, i + 1, o1, s2));
                    (o1, s2)
                },
                _ => {
                    let rule = if op is Unary {
                        StopRule::AtMost(token_precedence(t) as i32)
                    } else {
                        StopRule::Below(token_precedence(t) as i32)
                    };
                    assert(token_precedence(t) >= 1);
                    let j = lemma_unwind_shape(out, st, rule);
                    assert forall|k: int| j <= k < st.len() implies #[trigger] st[k] != begin_group() by {
                        assert(!stops(rule, st[k]));
                    }
                    lemma_move_keeps(ts, i, out, st, j);
                    let o1 = out + st.subrange(j, st.len() as int).reverse();
                    let s1 = st.subrange(0, j);
                    let s2 = s1.push(t);
                    lemma_push(s1, t);
                    lemma_no_operands(seq![t]);
                    assert(operands(ts.take(i)) + Seq::<Signed>::empty() =~= operands(ts.take(i)));
                    assert forall|k: int| 0 <= k < s2.len() implies !(#[trigger] s2[k] is Operand) && s2[k]
                        != end_group() by {
                        if k < s1.len() {
                            assert(s2[k] == st[k]);
                        }
                    }
                    assert(reorder_state(ts, i + 1, o1, s2));
                    (o1, s2)
                },
            }
        },
    }
}

/// Reordering from a state that holds ends in a postfix form with no
/// parentheses, the operands in order and the operators as often.
proof fn lemma_reorder_rest(ts: Seq<Token>, i: int, out: Seq<Token>, st: Seq<Token>)
    requires
        reorder_state(ts, i, out, st),
        balanced(ts),
    ensures
        ({
            let p = shunt(ts, i as nat, out, st);
            &&& forall|k: int| 0 <= k < p.len() ==> !is_group(#[trigger] p[k])
            &&& operands(p) == operands(ts)
            &&& forall|t: Token| !is_group(t) && !(t is Operand) ==> #[trigger] count_of(p, t) == count_of(ts, t)
        }),
    decreases ts.len() - i,
{
    if i < ts.len() {
        let (o2, s2) = lemma_reorder_step(ts, i, out, st);
        lemma_reorder_rest(ts, i + 1, o2, s2);
    } else {
        assert(ts.take(i) =~= ts);
        let j = lemma_unwind_shape(out, st, StopRule::Never);
        assert(j == 0);
        assert(st.subrange(0, st.len() as int) =~= st);
        lemma_count_zero(st, begin_group());
        lemma_move_keeps(ts, i, out, st, 0);
    }
}

/// Reordering the tokens of a text with balanced parentheses into postfix
/// drops the parentheses, keeps the operands in order, and keeps each
/// operator as often as it occurs.
pub proof fn law_postfix_structure(ts: Seq<Token>)
    requires
        balanced(ts),
    ensures
        forall|k: int| 0 <= k < to_postfix(ts).len() ==> !is_group(#[trigger] to_postfix(ts)[k]),
        operands(to_postfix(ts)) == operands(ts),
        forall|t: Token|
            !is_group(t) && !(t is Operand) ==> #[trigger] count_of(to_postfix(ts), t) == count_of(ts, t),
{
    assert(ts.take(0) =~= Seq::<Token>::empty());
    assert(reorder_state(ts, 0, seq![], seq![]));
    lemma_reorder_rest(ts, 0, seq![], seq![]);
}

/// The parentheses of a token in front of a sequence.
proof fn lemma_prepend_groups(t: Token, y: Seq<Token>)
    ensures
        open_groups((seq![t] + y).take(0)) == 0,
        forall|k: int|
            1 <= k <= y.len() + 1 ==> #[trigger] open_groups((seq![t] + y).take(k)) == open_groups(seq![t])
                + open_groups(y.take(k - 1)),
        open_groups(seq![t]) == (if t == begin_group() {
            1int
        } else if t == end_group() {
            -1int
        } else {
            0int
        }),
{
    let x = seq![t] + y;
    assert(x.take(0) =~= Seq::<Token>::empty());
    assert(count_of(Seq::<Token>::empty(), begin_group()) == 0);
    assert(count_of(Seq::<Token>::empty(), end_group()) == 0);
    lemma_single(t);
    assert(begin_group() != end_group());
    assert forall|k: int| 1 <= k <= y.len() + 1 implies #[trigger] open_groups(x.take(k)) == open_groups(
        seq![t],
    ) + open_groups(y.take(k - 1)) by {
        assert(x.take(k) =~= seq![t] + y.take(k - 1));
        lemma_concat(seq![t], y.take(k - 1));
    }
}

/// The tokens that a text reads to, from a point with `gc` parentheses
/// open, close exactly those and never more.
proof fn lemma_scan_balanced(
    s: Seq<char>,
    base: Seq<char>,
    index: nat,
    state: State,
    gc: nat,
    x: Seq<Token>,
)
    requires
        scan(s, base, index, state, gc) == Ok::<Seq<Token>, Stop>(x),
    ensures
        open_groups(x) == -gc,
        forall|k: int| 0 <= k <= x.len() ==> open_groups(#[trigger] x.take(k)) >= -gc,
    decreases remaining(s, index), state_rank(state),
{
    if index >= s.len() {
        assert(x.take(0) =~= x);
        assert(count_of(x, begin_group()) == 0);
        assert(count_of(x, end_group()) == 0);
    } else {
        let c = s[index as int];
        let (t, inner, next_index, next_state, prepended): (Token, nat, nat, State, bool) = if c == '(' {
            (begin_group(), gc + 1, index + 1, State::ExpectOperand, true)
        } else if c == ')' {
            (end_group(), (gc - 1) as nat, index + 1, State::ExpectOperator, true)
        } else {
            match state {
                State::ExpectOperand => if c == '-' {
                    (Token::Operator(Operator::Unary(crate::my_bc::eval::UnaryOperator::Minus)), gc, index + 1, State::ExpectOperand, true)
                } else if c == '+' {
                    // A unary plus reads to no token; the first entry is unused.
                    (begin_group(), gc, index + 1, State::ExpectOperand, false)
                } else {
                    let k = match boundary_char(s, index) {
                        Some(k) => k,
                        None => index,
                    };
                    let end = crate::my_bc::eval::numeral_end(s, base, k);
                    if boundary_char(s, index) is Some {
                        crate::my_bc::eval::lemma_numeral_start(s, base, index, k);
                    }
                    (
                        Token::Operand(
                            Signed {
                                negative: false,
                                magnitude: crate::my_bc::base::numeral_value(
                                    s.subrange(k as int, end as int),
                                    base,
                                ),
                            },
                        ),
                        gc,
                        utf8_len(s.take(end as int)),
                        State::ExpectOperator,
                        true,
                    )
                },
                State::ExpectOperator => {
                    let op = if c == '+' {
                        crate::my_bc::eval::BinaryOperator::Add
                    } else if c == '-' {
                        crate::my_bc::eval::BinaryOperator::Sub
                    } else if c == '*' {
                        crate::my_bc::eval::BinaryOperator::Mul
                    } else if c == '/' {
                        crate::my_bc::eval::BinaryOperator::Div
                    } else {
                        crate::my_bc::eval::BinaryOperator::Modulo
                    };
                    (Token::Operator(Operator::Binary(op)), gc, index + 1, State::ExpectOperand, true)
                },
            }
        };
        let rest = scan(s, base, next_index, next_state, inner);
        if prepended {
            assert(scan(s, base, index, state, gc) == prepend_token(t, rest));
            let y = rest->Ok_0;
            assert(rest == Ok::<Seq<Token>, Stop>(y));
            lemma_scan_balanced(s, base, next_index, next_state, inner, y);
            assert(x == seq![t] + y);
            lemma_prepend_groups(t, y);
            assert(x.take(x.len() as int) =~= x);
            assert(y.take(y.len() as int) =~= y);
            assert(open_groups(x) == open_groups(x.take(y.len() as int + 1)));
            assert forall|k: int| 0 <= k <= x.len() implies open_groups(#[trigger] x.take(k)) >= -gc by {
                if k >= 1 {
                    assert(open_groups(x.take(k)) == open_groups(seq![t]) + open_groups(y.take(k - 1)));
                }
            }
        } else {
            assert(scan(s, base, index, state, gc) == rest);
            lemma_scan_balanced(s, base, next_index, next_state, inner, x);
        }
    }
}

/// The postfix form of what a text reads to has no parentheses, holds the
/// text's operands in order, and each of its operators as often.
pub proof fn law_parsed_postfix_structure(s: Seq<char>, base: Seq<char>, ts: Seq<Token>)
    requires
        scan(s, base, 0, State::ExpectOperand, 0) == Ok::<Seq<Token>, Stop>(ts),
    ensures
        forall|k: int| 0 <= k < to_postfix(ts).len() ==> !is_group(#[trigger] to_postfix(ts)[k]),
        operands(to_postfix(ts)) == operands(ts),
        forall|t: Token|
            !is_group(t) && !(t is Operand) ==> #[trigger] count_of(to_postfix(ts), t) == count_of(ts, t),
{
    lemma_scan_balanced(s, base, 0, State::ExpectOperand, 0, ts);
    law_postfix_structure(ts);
}

} // verus!
