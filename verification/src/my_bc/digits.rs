//! The mathematical model of a digit vector: little-endian base-8 digits and
//! the natural number they denote, with the lemmas the arithmetic relies on.
use vstd::prelude::*;

verus! {

/// `8^e`, the weight of the digit at position `e`.
pub open spec fn pow8(e: nat) -> nat
    decreases e,
{
    if e == 0 {
        1
    } else {
        8 * pow8((e - 1) as nat)
    }
}

/// The digit at position `i`, or 0 past either end of the sequence.
pub open spec fn digit_at(s: Seq<u8>, i: int) -> nat {
    if 0 <= i < s.len() {
        s[i] as nat
    } else {
        0
    }
}

/// The value of the `n` lowest digits of `s` (digits past the end count as 0).
pub open spec fn prefix_value(s: Seq<u8>, n: nat) -> nat
    decreases n,
{
    if n == 0 {
        0
    } else {
        prefix_value(s, (n - 1) as nat) + digit_at(s, n - 1) * pow8((n - 1) as nat)
    }
}

/// The natural number denoted by the little-endian base-8 digits `s`.
pub open spec fn digits_value(s: Seq<u8>) -> nat {
    prefix_value(s, s.len())
}

/// Every entry is a base-8 digit.
pub open spec fn is_digit_seq(s: Seq<u8>) -> bool {
    forall|i: int| 0 <= i < s.len() ==> s[i] < 8
}

/// The canonical form of a magnitude: at least one digit, and no leading
/// (most significant) zero except for the single digit of zero itself.
pub open spec fn is_canonical(s: Seq<u8>) -> bool {
    &&& s.len() >= 1
    &&& is_digit_seq(s)
    &&& (s.len() == 1 || s.last() != 0)
}

/// Every power of eight is at least one.
pub proof fn lemma_pow8_positive(e: nat)
    ensures
        pow8(e) >= 1,
    decreases e,
{
    if e > 0 {
        lemma_pow8_positive((e - 1) as nat);
    }
}

/// Powers of eight grow with the exponent.
pub proof fn lemma_pow8_monotone(a: nat, b: nat)
    requires
        a <= b,
    ensures
        pow8(a) <= pow8(b),
    decreases b,
{
    if a < b {
        lemma_pow8_monotone(a, (b - 1) as nat);
        lemma_pow8_positive((b - 1) as nat);
    }
}

/// Exponents add when powers of eight multiply.
pub proof fn lemma_pow8_add(a: nat, b: nat)
    ensures
        pow8(a + b) == pow8(a) * pow8(b),
    decreases b,
{
    if b > 0 {
        lemma_pow8_add(a, (b - 1) as nat);
        let p = pow8(a);
        let q = pow8((b - 1) as nat);
        assert((a + b - 1) as nat == a + (b - 1) as nat);
        assert(pow8(a + b) == 8 * pow8((a + b - 1) as nat));
        assert(pow8((a + b - 1) as nat) == p * q);
        assert(pow8(b) == 8 * q);
        assert(8 * (p * q) == p * (8 * q)) by (nonlinear_arith);
    } else {
        assert(pow8(0) == 1);
        assert(a + b == a);
    }
}

/// Only the digits below `n` matter to `prefix_value(s, n)`.
pub proof fn lemma_prefix_value_agree(s1: Seq<u8>, s2: Seq<u8>, n: nat)
    requires
        forall|k: int| 0 <= k < n ==> digit_at(s1, k) == digit_at(s2, k),
    ensures
        prefix_value(s1, n) == prefix_value(s2, n),
    decreases n,
{
    if n > 0 {
        lemma_prefix_value_agree(s1, s2, (n - 1) as nat);
        assert(digit_at(s1, n - 1) == digit_at(s2, n - 1));
    }
}

/// Past the end of the sequence the prefix value is the whole value.
pub proof fn lemma_prefix_value_beyond(s: Seq<u8>, n: nat)
    requires
        n >= s.len(),
    ensures
        prefix_value(s, n) == digits_value(s),
    decreases n,
{
    if n > s.len() {
        lemma_prefix_value_beyond(s, (n - 1) as nat);
    }
}

/// The `n` lowest digits are worth less than `8^n`.
pub proof fn lemma_prefix_value_bound(s: Seq<u8>, n: nat)
    requires
        is_digit_seq(s),
    ensures
        prefix_value(s, n) < pow8(n),
    decreases n,
{
    if n > 0 {
        lemma_prefix_value_bound(s, (n - 1) as nat);
        let d = digit_at(s, n - 1);
        let p = pow8((n - 1) as nat);
        assert(d <= 7);
        assert(d * p <= 7 * p) by (nonlinear_arith)
            requires
                d <= 7,
        ;
    }
}

/// A digit sequence is worth less than `8^len`.
pub proof fn lemma_value_bound(s: Seq<u8>)
    requires
        is_digit_seq(s),
    ensures
        digits_value(s) < pow8(s.len()),
{
    lemma_prefix_value_bound(s, s.len());
}

/// Appending a most significant digit.
pub proof fn lemma_value_push(s: Seq<u8>, d: u8)
    ensures
        digits_value(s.push(d)) == digits_value(s) + d * pow8(s.len()),
        d == 0 ==> digits_value(s.push(d)) == digits_value(s),
        d == 1 ==> digits_value(s.push(d)) == digits_value(s) + pow8(s.len()),
{
    let p = pow8(s.len());
    assert(d == 0 ==> d * p == 0) by (nonlinear_arith);
    assert(d == 1 ==> d * p == p) by (nonlinear_arith);
    let t = s.push(d);
    assert(digit_at(t, s.len() as int) == d);
    lemma_prefix_value_agree(t, s, s.len());
}

/// Removing the most significant digit.
pub proof fn lemma_value_drop_last(s: Seq<u8>)
    requires
        s.len() > 0,
    ensures
        digits_value(s) == digits_value(s.drop_last()) + s.last() * pow8((s.len() - 1) as nat),
{
    assert(s.drop_last().push(s.last()) =~= s);
    lemma_value_push(s.drop_last(), s.last());
}

/// A canonical sequence of two or more digits is at least `8^(len - 1)`.
pub proof fn lemma_value_lower(s: Seq<u8>)
    requires
        is_canonical(s),
        s.len() >= 2,
    ensures
        digits_value(s) >= pow8((s.len() - 1) as nat),
{
    lemma_value_drop_last(s);
    let p = pow8((s.len() - 1) as nat);
    let l = s.last() as nat;
    assert(l >= 1);
    assert(l * p >= p) by (nonlinear_arith)
        requires
            l >= 1,
    ;
}

/// A canonical sequence is zero exactly when it is the single digit 0.
pub proof fn lemma_value_zero(s: Seq<u8>)
    requires
        is_canonical(s),
    ensures
        (digits_value(s) == 0) <==> (s.len() == 1 && s[0] == 0),
{
    if s.len() >= 2 {
        lemma_value_lower(s);
        lemma_pow8_positive((s.len() - 1) as nat);
    } else {
        lemma_value_drop_last(s);
        assert(s.drop_last().len() == 0);
    }
}

/// Prepending a least significant digit multiplies by 8 and adds it.
pub proof fn lemma_value_cons(d: u8, s: Seq<u8>)
    ensures
        digits_value(seq![d] + s) == d + 8 * digits_value(s),
    decreases s.len(),
{
    if s.len() == 0 {
        assert(seq![d] + s =~= seq![d]);
        lemma_value_drop_last(seq![d]);
        assert(seq![d].drop_last().len() == 0);
        assert(pow8(0) == 1);
        assert(digits_value(s) == 0);
    } else {
        let t = s.drop_last();
        let x = s.last();
        lemma_value_cons(d, t);
        assert((seq![d] + t).push(x) =~= seq![d] + s);
        lemma_value_push(seq![d] + t, x);
        lemma_value_drop_last(s);
        let p = pow8(t.len());
        assert((seq![d] + t).len() == t.len() + 1);
        assert(pow8((t.len() + 1) as nat) == 8 * p);
        assert(t.len() == (s.len() - 1) as nat);
        assert(x * (8 * p) == 8 * (x * p)) by (nonlinear_arith);
    }
}

/// Two digit sequences of one length that agree above position `j` and
/// differ at `j` are ordered as their digits at `j`.
pub proof fn lemma_value_compare_at(a: Seq<u8>, b: Seq<u8>, j: int)
    requires
        a.len() == b.len(),
        is_digit_seq(a),
        is_digit_seq(b),
        0 <= j < a.len(),
        a[j] > b[j],
        forall|k: int| j < k < a.len() ==> a[k] == b[k],
    ensures
        digits_value(a) > digits_value(b),
{
    lemma_prefix_gap(a, b, j, a.len());
}

proof fn lemma_prefix_gap(a: Seq<u8>, b: Seq<u8>, j: int, n: nat)
    requires
        a.len() == b.len(),
        is_digit_seq(a),
        is_digit_seq(b),
        0 <= j < n <= a.len(),
        a[j] > b[j],
        forall|k: int| j < k < a.len() ==> a[k] == b[k],
    ensures
        prefix_value(a, n) > prefix_value(b, n),
    decreases n,
{
    if n == j + 1 {
        let p = pow8(j as nat);
        lemma_prefix_value_bound(b, j as nat);
        let da = a[j] as nat;
        let db = b[j] as nat;
        assert(da * p >= db * p + p) by (nonlinear_arith)
            requires
                da >= db + 1,
        ;
    } else {
        lemma_prefix_gap(a, b, j, (n - 1) as nat);
    }
}

} // verus!
