//! What the pieces of evaluation mean, stated over integers and characters:
//! the operation that a binary operator applies, how operators group when
//! reordered into postfix, what each digit of a numeral is worth, and that a
//! written number reads back with its sign in any plain base.
use vstd::prelude::*;
use vstd::utf8::is_ascii_chars;

use crate::my_bc::base::{magnitude_numeral, numeral_value, formatted, radix_digits};
use crate::my_bc::eval::{
    BinaryOperator, Evaluation, Operator, Token, UnaryOperator, apply_binary, evaluation, to_postfix,
};
use crate::my_bc::laws::{
    distinct_chars, law_add_value, law_mul_value, law_numeral_round_trip, law_sub_value,
    law_truncated_division, lemma_digit_index,
};
use crate::my_bc::precedence::{Expr, law_evaluation_of_text, lemma_plain_digit, plain_base, text_of};
use crate::my_bc::text::{lemma_ascii_utf8_len, utf8_len};
use crate::my_bc::Signed;

verus! {

/// The absolute value of `x`.
pub open spec fn abs(x: int) -> int {
    if x < 0 {
        -x
    } else {
        x
    }
}

/// The quotient of `x` by `y` truncated toward zero: the quotient of the
/// absolute values, negative when exactly one of `x` and `y` is.
pub open spec fn truncated_quotient(x: int, y: int) -> int {
    if (x < 0) == (y < 0) {
        abs(x) / abs(y)
    } else {
        -(abs(x) / abs(y))
    }
}

/// The operation that evaluation applies for each binary operator: `+`, `-`
/// and `*` give the sum, difference and product of the values; `/` gives the
/// quotient truncated toward zero and `%` the remainder that goes with it
/// (dividend minus quotient times divisor), and both give nothing for a
/// divisor of zero.
pub proof fn law_apply_binary(a: Signed, b: Signed)
    ensures
        apply_binary(BinaryOperator::Add, a, b) matches Some(r) && r.value() == a.value() + b.value(),
        apply_binary(BinaryOperator::Sub, a, b) matches Some(r) && r.value() == a.value() - b.value(),
        apply_binary(BinaryOperator::Mul, a, b) matches Some(r) && r.value() == a.value() * b.value(),
        b.value() == 0 ==> apply_binary(BinaryOperator::Div, a, b) is None,
        b.value() == 0 ==> apply_binary(BinaryOperator::Modulo, a, b) is None,
        b.value() != 0 ==> (apply_binary(BinaryOperator::Div, a, b) matches Some(q) && q.value()
            == truncated_quotient(a.value(), b.value())),
        b.value() != 0 ==> (apply_binary(BinaryOperator::Modulo, a, b) matches Some(r) && r.value()
            == a.value() - truncated_quotient(a.value(), b.value()) * b.value()),
{
    law_add_value(a, b);
    law_sub_value(a, b);
    law_mul_value(a, b);
    if b.magnitude != 0 {
        law_truncated_division(a, b);
        let q = apply_binary(BinaryOperator::Div, a, b)->Some_0;
        assert(abs(a.value()) == a.magnitude);
        assert(abs(b.value()) == b.magnitude);
        assert(q.value() == truncated_quotient(a.value(), b.value()));
    }
}

/// Whether `op` is one of the operators that bind more strongly: `*`, `/`
/// and `%`.
pub open spec fn multiplicative(op: BinaryOperator) -> bool {
    op is Mul || op is Div || op is Modulo
}

/// The token of a binary operator.
pub open spec fn binary(op: BinaryOperator) -> Token {
    Token::Operator(Operator::Binary(op))
}

/// The token of unary minus.
pub open spec fn minus() -> Token {
    Token::Operator(Operator::Unary(UnaryOperator::Minus))
}

/// How two binary operators group in postfix: `x o1 y o2 z` is reordered
/// to `x y o1 z o2` (the first operation first) when `o1` binds at least as
/// strongly as `o2`, that is unless `o1` is `+` or `-` and `o2` is `*`, `/`
/// or `%`; then it is reordered to `x y z o2 o1`. So `*`, `/` and `%` bind
/// equally and group to the left, as do `+` and `-`, and the first three
/// bind more strongly than the last two.
pub proof fn law_postfix_grouping(x: Signed, y: Signed, z: Signed, o1: BinaryOperator, o2: BinaryOperator)
    ensures
        multiplicative(o1) || !multiplicative(o2) ==> to_postfix(
            seq![Token::Operand(x), binary(o1), Token::Operand(y), binary(o2), Token::Operand(z)],
        ) == seq![Token::Operand(x), Token::Operand(y), binary(o1), Token::Operand(z), binary(o2)],
        !multiplicative(o1) && multiplicative(o2) ==> to_postfix(
            seq![Token::Operand(x), binary(o1), Token::Operand(y), binary(o2), Token::Operand(z)],
        ) == seq![Token::Operand(x), Token::Operand(y), Token::Operand(z), binary(o2), binary(o1)],
{
    reveal_with_fuel(crate::my_bc::eval::shunt, 7);
    reveal_with_fuel(crate::my_bc::eval::unwind, 4);
    let ts = seq![Token::Operand(x), binary(o1), Token::Operand(y), binary(o2), Token::Operand(z)];
    assert(ts.len() == 5);
    assert(to_postfix(ts) =~= if multiplicative(o1) || !multiplicative(o2) {
        seq![Token::Operand(x), Token::Operand(y), binary(o1), Token::Operand(z), binary(o2)]
    } else {
        seq![Token::Operand(x), Token::Operand(y), Token::Operand(z), binary(o2), binary(o1)]
    });
}

/// Unary minus binds more strongly than every binary operator: `-x o y` is
/// reordered to `x - y o` and `x o -y` to `x y - o`.
pub proof fn law_postfix_minus(x: Signed, y: Signed, o: BinaryOperator)
    ensures
        to_postfix(seq![minus(), Token::Operand(x), binary(o), Token::Operand(y)]) == seq![
            Token::Operand(x),
            minus(),
            Token::Operand(y),
            binary(o),
        ],
        to_postfix(seq![Token::Operand(x), binary(o), minus(), Token::Operand(y)]) == seq![
            Token::Operand(x),
            Token::Operand(y),
            minus(),
            binary(o),
        ],
{
    reveal_with_fuel(crate::my_bc::eval::shunt, 6);
    reveal_with_fuel(crate::my_bc::eval::unwind, 4);
    assert(to_postfix(seq![minus(), Token::Operand(x), binary(o), Token::Operand(y)]) =~= seq![
        Token::Operand(x),
        minus(),
        Token::Operand(y),
        binary(o),
    ]);
    assert(to_postfix(seq![Token::Operand(x), binary(o), minus(), Token::Operand(y)]) =~= seq![
        Token::Operand(x),
        Token::Operand(y),
        minus(),
        binary(o),
    ]);
}

/// Numerals are positional: in a base of distinct ASCII characters, the
/// character at position `k` of the base is the digit worth `k`, and writing
/// it after a numeral multiplies the numeral's value by the number of digits
/// and adds `k`. Conversely the numeral of `k` is that one character, and the
/// numeral of `q * b + k` (for `q` at least one, `b` the number of digits) is
/// the numeral of `q` followed by that character.
pub proof fn law_numeral_positional(s: Seq<char>, base: Seq<char>, k: int, q: nat)
    requires
        is_ascii_chars(base),
        distinct_chars(base),
        0 <= k < base.len(),
    ensures
        numeral_value(s.push(base[k]), base) == numeral_value(s, base) * base.len() + k,
        magnitude_numeral(k as nat, base) == seq![base[k]],
        base.len() >= 2 && q >= 1 ==> magnitude_numeral((q * base.len() + k) as nat, base)
            == magnitude_numeral(q, base).push(base[k]),
{
    lemma_ascii_utf8_len(base);
    lemma_digit_index(base, k);
    let b = base.len();
    assert(s.push(base[k]).drop_last() =~= s);
    assert(radix_digits(k as nat, utf8_len(base)) == seq![k as nat]);
    assert(magnitude_numeral(k as nat, base) =~= seq![base[k]]);
    if b >= 2 && q >= 1 {
        let m = (q * b + k) as nat;
        assert(q * b >= b) by (nonlinear_arith)
            requires
                q >= 1,
                b >= 2,
        ;
        vstd::arithmetic::div_mod::lemma_fundamental_div_mod_converse(m as int, b as int, q as int, k);
        assert(radix_digits(m, b) == radix_digits(q, b).push(k as nat));
        assert(magnitude_numeral(m, base) =~= magnitude_numeral(q, base).push(base[k]));
    }
}

/// In any plain base, what `format_base` writes starts with a minus sign
/// exactly when the number is nonzero and flagged negative, and evaluating
/// it gives the number back (a zero flagged negative comes back as a zero
/// that is not).
pub proof fn law_formatted_reads_back(n: Signed, base: Seq<char>)
    requires
        plain_base(base),
        base.len() >= 2 || n.magnitude == 0,
    ensures
        formatted(n, base).len() >= 1,
        (formatted(n, base)[0] == '-') == (n.negative && n.magnitude != 0),
        evaluation(formatted(n, base), base) == Evaluation::Value(
            Signed { negative: n.negative && n.magnitude != 0, magnitude: n.magnitude },
        ),
{
    let v = Signed { negative: false, magnitude: n.magnitude };
    let number = Expr::Number(v, 0);
    law_numeral_round_trip(n.magnitude, base);
    let g = magnitude_numeral(n.magnitude, base);
    assert(text_of(number, base) =~= g);
    assert(base.contains(g[0]));
    lemma_plain_digit(base, g[0]);
    assert(crate::my_bc::precedence::numbers_in_base(number, base));
    if n.negative && n.magnitude != 0 {
        let e = Expr::Negate(Box::new(number));
        assert(text_of(e, base) =~= formatted(n, base));
        assert(crate::my_bc::precedence::numbers_in_base(e, base));
        law_evaluation_of_text(e, base);
    } else {
        assert(text_of(number, base) =~= formatted(n, base));
        law_evaluation_of_text(number, base);
    }
}

} // verus!
