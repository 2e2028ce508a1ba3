//! Laws of the arithmetic, stated over the views that the operations'
//! contracts use.
use vstd::prelude::*;

use crate::my_bc::operators::{
    magnitude_of, signed_add, signed_compare, signed_div, signed_mul, signed_negate, signed_rem,
    signed_sub,
};
use crate::my_bc::base::{
    BASE_10, all_in_base, formatted, lemma_radix_digits_bound, magnitude_numeral, numeral_value,
    radix_digits,
};
use crate::my_bc::eval::{
    Evaluation, Operator, State, Stop, Token, UnaryOperator, evaluation, numeral_end, postfix_outcome, scan,
    shunt, to_postfix, unwind, StopRule, run_postfix,
};
use crate::my_bc::text::{
    byte_index_of, first_index_of, lemma_ascii_utf8_len, lemma_first_index_of, utf8_len,
};
use crate::my_bc::Signed;
use vstd::utf8::is_ascii_chars;

verus! {

/// Negating twice gives back the same number, sign flag included.
pub proof fn law_negate_involution(a: Signed)
    ensures
        signed_negate(signed_negate(a)) == a,
{
}

/// Negation flips the sign of the value.
pub proof fn law_negate_value(a: Signed)
    ensures
        signed_negate(a).value() == -a.value(),
{
}

/// The sum's value is the sum of the values.
pub proof fn law_add_value(a: Signed, b: Signed)
    ensures
        signed_add(a, b).value() == a.value() + b.value(),
{
}

/// The difference's value is the difference of the values.
pub proof fn law_sub_value(a: Signed, b: Signed)
    ensures
        signed_sub(a, b).value() == a.value() - b.value(),
{
}

/// Subtracting is adding the negation, sign flag included.
pub proof fn law_sub_is_add_negate(a: Signed, b: Signed)
    ensures
        signed_sub(a, b) == signed_add(a, signed_negate(b)),
{
}

/// Addition commutes, sign flag included.
pub proof fn law_add_commutative(a: Signed, b: Signed)
    ensures
        signed_add(a, b) == signed_add(b, a),
{
}

/// Addition associates, sign flag included.
pub proof fn law_add_associative(a: Signed, b: Signed, c: Signed)
    ensures
        signed_add(signed_add(a, b), c) == signed_add(a, signed_add(b, c)),
{
}

/// Adding a zero not flagged negative keeps the value; it keeps the number
/// itself unless that is a zero flagged negative.
pub proof fn law_add_zero(a: Signed)
    ensures
        signed_add(a, Signed { negative: false, magnitude: 0 }).value() == a.value(),
        !(a.negative && a.magnitude == 0) ==> signed_add(a, Signed { negative: false, magnitude: 0 })
            == a,
{
}

/// A number minus itself is a zero not flagged negative.
pub proof fn law_sub_self(a: Signed)
    ensures
        signed_sub(a, a) == (Signed { negative: false, magnitude: 0 }),
{
}

/// The product's value is the product of the values.
pub proof fn law_mul_value(a: Signed, b: Signed)
    ensures
        signed_mul(a, b).value() == a.value() * b.value(),
{
    let x = a.magnitude as int;
    let y = b.magnitude as int;
    assert(x * y >= 0) by (nonlinear_arith)
        requires
            x >= 0,
            y >= 0,
    ;
    assert((-x) * y == -(x * y)) by (nonlinear_arith);
    assert(x * (-y) == -(x * y)) by (nonlinear_arith);
    assert((-x) * (-y) == x * y) by (nonlinear_arith);
}

/// Multiplication commutes, sign flag included.
pub proof fn law_mul_commutative(a: Signed, b: Signed)
    ensures
        signed_mul(a, b) == signed_mul(b, a),
{
    let (x, y) = (a.value(), b.value());
    assert(x * y == y * x) by (nonlinear_arith);
    let (m, n) = (a.magnitude, b.magnitude);
    assert(m * n == n * m) by (nonlinear_arith);
}

/// Multiplication associates, sign flag included.
pub proof fn law_mul_associative(a: Signed, b: Signed, c: Signed)
    ensures
        signed_mul(signed_mul(a, b), c) == signed_mul(a, signed_mul(b, c)),
{
    law_mul_value(a, b);
    law_mul_value(b, c);
    law_mul_value(signed_mul(a, b), c);
    law_mul_value(a, signed_mul(b, c));
    let (x, y, z) = (a.value(), b.value(), c.value());
    assert((x * y) * z == x * (y * z)) by (nonlinear_arith);
    let (m, n, k) = (a.magnitude, b.magnitude, c.magnitude);
    assert((m * n) * k == m * (n * k)) by (nonlinear_arith);
}

/// Multiplication distributes over addition, in value.
pub proof fn law_mul_distributes(a: Signed, b: Signed, c: Signed)
    ensures
        signed_mul(a, signed_add(b, c)).value() == signed_add(signed_mul(a, b), signed_mul(a, c)).value(),
{
    law_mul_value(a, signed_add(b, c));
    law_mul_value(a, b);
    law_mul_value(a, c);
    let (x, y, z) = (a.value(), b.value(), c.value());
    assert(x * (y + z) == x * y + x * z) by (nonlinear_arith);
}

/// Truncated division: the quotient times the divisor plus the remainder is
/// the dividend, the remainder is smaller than the divisor in magnitude and,
/// unless it is zero, has the sign of the dividend, and the quotient is the
/// quotient of the magnitudes, negative when the signs differ.
pub proof fn law_truncated_division(a: Signed, b: Signed)
    requires
        b.magnitude != 0,
    ensures
        signed_div(a, b).value() * b.value() + signed_rem(a, b).value() == a.value(),
        signed_rem(a, b).magnitude < b.magnitude,
        signed_rem(a, b).value() == 0 || ((signed_rem(a, b).value() < 0) == (a.value() < 0)),
        signed_div(a, b).value() == (if (a.value() < 0) == (b.value() < 0) {
            (magnitude_of(a.value()) / magnitude_of(b.value())) as int
        } else {
            -((magnitude_of(a.value()) / magnitude_of(b.value())) as int)
        }),
{
    let m = a.magnitude as int;
    let n = b.magnitude as int;
    vstd::arithmetic::div_mod::lemma_fundamental_div_mod(m, n);
    vstd::arithmetic::div_mod::lemma_mod_bound(m, n);
    vstd::arithmetic::div_mod::lemma_div_pos_is_pos(m, n);
    let q = m / n;
    let r = m % n;
    assert(m == n * q + r);
    assert((-q) * n == -(q * n)) by (nonlinear_arith);
    assert(q * (-n) == -(q * n)) by (nonlinear_arith);
    assert((-q) * (-n) == q * n) by (nonlinear_arith);
    assert(n * q == q * n) by (nonlinear_arith);
    if m == 0 {
        assert(0int / n == 0) by (nonlinear_arith)
            requires
                n > 0,
        ;
    }
    if m != 0 && m < n {
        vstd::arithmetic::div_mod::lemma_small_mod(m as nat, n as nat);
    }
}

/// `compare` is antisymmetric.
pub proof fn law_compare_antisymmetric(a: Signed, b: Signed)
    ensures
        signed_compare(a, b) == -signed_compare(b, a),
{
}

/// `compare` reports equality exactly for equal numbers, sign flag included.
pub proof fn law_compare_equal(a: Signed, b: Signed)
    ensures
        (signed_compare(a, b) == 0) <==> (a == b),
{
}

/// `compare` is transitive.
pub proof fn law_compare_transitive(a: Signed, b: Signed, c: Signed)
    requires
        signed_compare(a, b) <= 0,
        signed_compare(b, c) <= 0,
    ensures
        signed_compare(a, c) <= 0,
{
}

/// `compare` agrees with the order of the values, except that of two zeros
/// the one flagged negative comes first.
pub proof fn law_compare_value(a: Signed, b: Signed)
    ensures
        a.value() < b.value() ==> signed_compare(a, b) == -1,
        a.value() > b.value() ==> signed_compare(a, b) == 1,
        a.value() == b.value() ==> signed_compare(a, b) == (if a.negative == b.negative {
            0int
        } else if a.negative {
            -1int
        } else {
            1int
        }),
{
}

/// No character occurs twice in `s`.
pub open spec fn distinct_chars(s: Seq<char>) -> bool {
    forall|i: int, j: int| 0 <= i < j < s.len() ==> s[i] != s[j]
}

/// In a base of distinct ASCII characters, the character at position `k`
/// stands for `k`.
pub proof fn lemma_digit_index(base: Seq<char>, k: int)
    requires
        is_ascii_chars(base),
        distinct_chars(base),
        0 <= k < base.len(),
    ensures
        byte_index_of(base, base[k]) == k,
{
    assert(base.contains(base[k]));
    lemma_first_index_of(base, base[k]);
    let f = first_index_of(base, base[k]) as int;
    if f < k {
        assert(base[f] != base[k]);
    }
    if f > k {
        assert(base[k] != base[k]);
    }
    assert(f == k);
    lemma_ascii_utf8_len(base);
    assert(utf8_len(base.take(k)) == k);
}

/// Reading back the numeral that `format_base` writes for a magnitude gives
/// the magnitude, in any base of two or more distinct ASCII characters, and
/// for zero in a base of one.
pub proof fn law_numeral_round_trip(m: nat, base: Seq<char>)
    requires
        is_ascii_chars(base),
        distinct_chars(base),
        base.len() >= 2 || (base.len() == 1 && m == 0),
    ensures
        magnitude_numeral(m, base).len() >= 1,
        all_in_base(magnitude_numeral(m, base), base),
        numeral_value(magnitude_numeral(m, base), base) == m,
    decreases m,
{
    lemma_ascii_utf8_len(base);
    let b = utf8_len(base);
    if b >= 2 {
        lemma_radix_digits_bound(m, b);
    }
    let d = radix_digits(m, b);
    let f = magnitude_numeral(m, base);
    if m < b {
        assert(d == seq![m]);
        assert(f =~= seq![base[m as int]]);
        lemma_digit_index(base, m as int);
        assert(f.drop_last() =~= Seq::<char>::empty());
        assert(base.contains(f[0]));
        assert(numeral_value(f.drop_last(), base) == 0);
        assert(0 * b == 0) by (nonlinear_arith);
        assert(numeral_value(f, base) == numeral_value(f.drop_last(), base) * b + byte_index_of(
            base,
            f.last(),
        ));
    } else {
        vstd::arithmetic::div_mod::lemma_div_decreases(m as int, b as int);
        vstd::arithmetic::div_mod::lemma_fundamental_div_mod(m as int, b as int);
        law_numeral_round_trip(m / b, base);
        let g = magnitude_numeral(m / b, base);
        assert(d == radix_digits(m / b, b).push(m % b));
        assert(d[d.len() - 1] < b);
        assert(f =~= g.push(base[(m % b) as int]));
        assert(f.drop_last() =~= g);
        lemma_digit_index(base, (m % b) as int);
        assert forall|i: int| 0 <= i < f.len() implies base.contains(#[trigger] f[i]) by {
            if i < g.len() {
                assert(f[i] == g[i]);
            } else {
                assert(f[i] == base[(m % b) as int]);
            }
        }
        assert((m / b) * b + m % b == m) by (nonlinear_arith)
            requires
                m == b * (m / b) + m % b,
        ;
        assert(numeral_value(f, base) == numeral_value(f.drop_last(), base) * b + byte_index_of(
            base,
            f.last(),
        ));
    }
}

/// What `format_base` writes for a number that is not negative reads back,
/// through `from_base`, as its magnitude (in a base of one digit, the number
/// zero is all that can be written).
pub proof fn law_format_then_read(n: Signed, base: Seq<char>)
    requires
        is_ascii_chars(base),
        distinct_chars(base),
        base.len() >= 2 || (base.len() == 1 && n.magnitude == 0),
        !(n.negative && n.magnitude != 0),
    ensures
        all_in_base(formatted(n, base), base),
        numeral_value(formatted(n, base), base) == n.magnitude,
{
    law_numeral_round_trip(n.magnitude, base);
}

/// The characters of the decimal base.
proof fn lemma_base10()
    ensures
        BASE_10@ =~= seq!['0', '1', '2', '3', '4', '5', '6', '7', '8', '9'],
        is_ascii_chars(BASE_10@),
        distinct_chars(BASE_10@),
{
    reveal_strlit("0123456789");
}

/// A run of digits reaching the end of `s` ends at the end.
proof fn lemma_numeral_end_to_end(s: Seq<char>, base: Seq<char>, i: nat)
    requires
        i <= s.len(),
        forall|k: int| i <= k < s.len() ==> base.contains(#[trigger] s[k]),
    ensures
        numeral_end(s, base, i) == s.len(),
    decreases s.len() - i,
{
    if i < s.len() {
        lemma_numeral_end_to_end(s, base, i + 1);
    }
}

/// Evaluating what `format_base10` writes gives the number back (a zero
/// flagged negative comes back as a zero that is not).
#[verifier::spinoff_prover]
pub proof fn law_eval_reads_formatted(n: Signed)
    ensures
        evaluation(formatted(n, BASE_10@), BASE_10@) == Evaluation::Value(
            Signed { negative: n.negative && n.magnitude != 0, magnitude: n.magnitude },
        ),
{
    let base = BASE_10@;
    lemma_base10();
    law_numeral_round_trip(n.magnitude, base);
    let g = magnitude_numeral(n.magnitude, base);
    let f = formatted(n, base);
    let v = Signed { negative: false, magnitude: n.magnitude };
    let operand = Token::Operand(v);
    let start: nat = if n.negative && n.magnitude != 0 {
        1
    } else {
        0
    };
    assert(f.subrange(start as int, f.len() as int) =~= g);
    assert forall|k: int| start <= k < f.len() implies base.contains(#[trigger] f[k]) by {
        assert(f[k] == g[k - start]);
    }
    lemma_numeral_end_to_end(f, base, start);
    let c = f[start as int];
    assert(base.contains(c));
    assert(c != '(' && c != ')' && c != '-' && c != '+');
    assert(is_ascii_chars(f)) by {
        assert forall|k: int| 0 <= k < f.len() implies '\0' <= #[trigger] f[k] <= '\u{7f}' by {
            if k >= start {
                assert(base.contains(f[k]));
                let j = choose|j: int| 0 <= j < base.len() && base[j] == f[k];
                assert(base[j] == f[k]);
            }
        }
    }
    assert(is_ascii_chars(f.take(numeral_end(f, base, start) as int))) by {
        assert(f.take(f.len() as int) =~= f);
    }
    crate::my_bc::eval::lemma_scan_numeral_ascii(f, base, start, 0);
    assert(f.subrange(start as int, numeral_end(f, base, start) as int) =~= g);
    assert(scan(f, base, f.len(), State::ExpectOperator, 0) == Ok::<Seq<Token>, Stop>(seq![]));
    assert(scan(f, base, start, State::ExpectOperand, 0) == Ok::<Seq<Token>, Stop>(seq![operand]));
    if n.negative && n.magnitude != 0 {
        let minus = Token::Operator(Operator::Unary(UnaryOperator::Minus));
        assert(f[0] == '-');
        assert(seq![minus] + seq![operand] =~= seq![minus, operand]);
        assert(scan(f, base, 0, State::ExpectOperand, 0) == Ok::<Seq<Token>, Stop>(
            seq![minus, operand],
        ));
        let ts = seq![minus, operand];
        assert(unwind(seq![], seq![], StopRule::AtMost(3)) == (Seq::<Token>::empty(), Seq::<Token>::empty()));
        assert(unwind(seq![operand, minus], Seq::<Token>::empty(), StopRule::Never) == (
            seq![operand, minus],
            Seq::<Token>::empty(),
        ));
        assert(unwind(seq![operand], seq![minus], StopRule::Never) == (
            seq![operand, minus],
            Seq::<Token>::empty(),
        )) by {
            assert(seq![operand].push(minus) =~= seq![operand, minus]);
            assert(seq![minus].drop_last() =~= Seq::<Token>::empty());
        }
        assert(shunt(ts, 2, seq![operand], seq![minus]) == seq![operand, minus]);
        assert(shunt(ts, 1, seq![], seq![minus]) == seq![operand, minus]) by {
            assert(Seq::<Token>::empty().push(operand) =~= seq![operand]);
        }
        assert(to_postfix(ts) == seq![operand, minus]) by {
            assert(Seq::<Token>::empty().push(minus) =~= seq![minus]);
        }
        let p = seq![operand, minus];
        let negated = Signed { negative: true, magnitude: n.magnitude };
        assert(run_postfix(p, 2, seq![negated]) == crate::my_bc::eval::Outcome::Value(negated));
        assert(run_postfix(p, 1, seq![v]) == crate::my_bc::eval::Outcome::Value(negated)) by {
            assert(seq![v].drop_last().push(signed_negate(v)) =~= seq![negated]);
        }
        assert(postfix_outcome(p) == crate::my_bc::eval::Outcome::Value(negated)) by {
            assert(Seq::<Signed>::empty().push(v) =~= seq![v]);
        }
    } else {
        let ts = seq![operand];
        assert(shunt(ts, 1, seq![operand], seq![]) == seq![operand]);
        assert(to_postfix(ts) == seq![operand]) by {
            assert(Seq::<Token>::empty().push(operand) =~= seq![operand]);
        }
        assert(run_postfix(ts, 1, seq![v]) == crate::my_bc::eval::Outcome::Value(v));
        assert(postfix_outcome(ts) == crate::my_bc::eval::Outcome::Value(v)) by {
            assert(Seq::<Signed>::empty().push(v) =~= seq![v]);
        }
    }
}

/// Each character of a base of distinct ASCII characters stands for its
/// position.
proof fn lemma_char_index(base: Seq<char>, c: char) -> (k: int)
    requires
        is_ascii_chars(base),
        distinct_chars(base),
        base.contains(c),
    ensures
        0 <= k < base.len(),
        base[k] == c,
        byte_index_of(base, c) == k,
{
    let k = choose|k: int| 0 <= k < base.len() && base[k] == c;
    lemma_digit_index(base, k);
    k
}

/// A numeral that does not start with the zero digit is worth at least one.
proof fn lemma_numeral_positive(s: Seq<char>, base: Seq<char>)
    requires
        is_ascii_chars(base),
        distinct_chars(base),
        base.len() >= 2,
        s.len() >= 1,
        all_in_base(s, base),
        s[0] != base[0],
    ensures
        numeral_value(s, base) >= 1,
    decreases s.len(),
{
    lemma_ascii_utf8_len(base);
    let b = utf8_len(base);
    let c = s.last();
    assert(base.contains(s[s.len() - 1]));
    let k = lemma_char_index(base, c);
    if s.len() == 1 {
        assert(s.drop_last().len() == 0);
        assert(numeral_value(s.drop_last(), base) == 0);
        assert(0 * b == 0) by (nonlinear_arith);
        assert(k != 0);
    } else {
        let t = s.drop_last();
        assert forall|i: int| 0 <= i < t.len() implies base.contains(#[trigger] t[i]) by {
            assert(t[i] == s[i]);
        }
        lemma_numeral_positive(t, base);
        let v = numeral_value(t, base);
        assert(v * b >= 1) by (nonlinear_arith)
            requires
                v >= 1,
                b >= 2,
        ;
    }
}

/// Formatting the value of a numeral without a leading zero digit (other
/// than the numeral of zero itself) writes the numeral back, in any base of
/// distinct ASCII characters.
pub proof fn law_read_then_format(s: Seq<char>, base: Seq<char>)
    requires
        is_ascii_chars(base),
        distinct_chars(base),
        base.len() >= 1,
        s.len() >= 1,
        all_in_base(s, base),
        s[0] != base[0] || s.len() == 1,
    ensures
        magnitude_numeral(numeral_value(s, base), base) == s,
    decreases s.len(),
{
    lemma_ascii_utf8_len(base);
    let b = utf8_len(base);
    let c = s.last();
    assert(base.contains(s[s.len() - 1]));
    let k = lemma_char_index(base, c);
    let t = s.drop_last();
    let v = numeral_value(s, base);
    if s.len() == 1 {
        assert(t.len() == 0);
        assert(numeral_value(t, base) == 0);
        assert(0 * b == 0) by (nonlinear_arith);
        assert(v == k);
        assert(radix_digits(v, b) == seq![v]);
        assert(magnitude_numeral(v, base) =~= s);
    } else {
        assert(base.len() >= 2) by {
            assert(base.contains(s[0]));
            let j = choose|j: int| 0 <= j < base.len() && base[j] == s[0];
            assert(base[j] == s[0]);
        }
        assert forall|i: int| 0 <= i < t.len() implies base.contains(#[trigger] t[i]) by {
            assert(t[i] == s[i]);
        }
        law_read_then_format(t, base);
        lemma_numeral_positive(t, base);
        let w = numeral_value(t, base);
        assert(v == w * b + k);
        assert(v >= b) by (nonlinear_arith)
            requires
                v == w * b + k,
                w >= 1,
                k >= 0,
                b >= 2,
        ;
        vstd::arithmetic::div_mod::lemma_fundamental_div_mod_converse(v as int, b as int, w as int, k as int);
        assert(radix_digits(v, b) == radix_digits(w, b).push(k as nat));
        assert(magnitude_numeral(v, base) =~= magnitude_numeral(w, base).push(base[k]));
        assert(t.push(c) =~= s);
    }
}

} // verus!
