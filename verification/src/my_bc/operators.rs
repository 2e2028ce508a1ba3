//! Signed arbitrary-precision arithmetic: negation, comparison, the four
//! operations and the remainder, each stated over the sign-and-magnitude view.
use vstd::prelude::*;

use crate::my_bc::digits::{
    digit_at, digits_value, is_canonical, is_digit_seq, lemma_pow8_positive, lemma_prefix_value_beyond,
    lemma_value_bound, lemma_value_compare_at, lemma_value_drop_last, lemma_value_lower,
    lemma_value_cons, lemma_value_push, pow8, prefix_value,
};
use crate::my_bc::{Number, Signed, StorageType, INTERNAL_COMPUTATION_BASE, clone, is_zero, one, zero};

verus! {

/// The absolute value of an integer.
pub open spec fn magnitude_of(v: int) -> nat {
    if v < 0 {
        (-v) as nat
    } else {
        v as nat
    }
}

/// The same magnitude with the sign flag flipped.
pub open spec fn signed_negate(a: Signed) -> Signed {
    Signed { negative: !a.negative, magnitude: a.magnitude }
}

/// The order that `compare` reports: numbers of one sign flag compare by
/// value; otherwise the one flagged negative is the smaller, so that a zero
/// flagged negative comes before a zero that is not.
pub open spec fn signed_compare(a: Signed, b: Signed) -> int {
    if a.negative != b.negative {
        if a.negative {
            -1
        } else {
            1
        }
    } else if a.value() < b.value() {
        -1
    } else if a.value() > b.value() {
        1
    } else {
        0
    }
}

/// The sum; it is flagged negative when it is below zero, and also when both
/// operands are flagged negative.
pub open spec fn signed_add(a: Signed, b: Signed) -> Signed {
    let v = a.value() + b.value();
    Signed { negative: (a.negative && b.negative) || v < 0, magnitude: magnitude_of(v) }
}

/// The difference; it is flagged negative when it is below zero, and also when
/// the left operand is flagged negative and the right one is not.
pub open spec fn signed_sub(a: Signed, b: Signed) -> Signed {
    let v = a.value() - b.value();
    Signed { negative: (a.negative && !b.negative) || v < 0, magnitude: magnitude_of(v) }
}

/// The product; it is flagged negative exactly when it is below zero.
pub open spec fn signed_mul(a: Signed, b: Signed) -> Signed {
    Signed { negative: a.value() * b.value() < 0, magnitude: a.magnitude * b.magnitude }
}

/// The quotient truncated toward zero; unless the dividend is zero, it is
/// flagged negative when the operands' flags differ.
pub open spec fn signed_div(a: Signed, b: Signed) -> Signed {
    Signed {
        negative: a.magnitude != 0 && a.negative != b.negative,
        magnitude: a.magnitude / b.magnitude,
    }
}

/// The remainder of the truncated division; unless the dividend is zero, it
/// carries the dividend's flag.
pub open spec fn signed_rem(a: Signed, b: Signed) -> Signed {
    Signed { negative: a.magnitude != 0 && a.negative, magnitude: a.magnitude % b.magnitude }
}

/// The number of operands flagged negative, which the mutual recursion of
/// `add` and `sub` decreases.
pub closed spec fn negative_count(lhs: &Number, rhs: &Number) -> int {
    (if lhs@.negative {
        1int
    } else {
        0int
    }) + (if rhs@.negative {
        1int
    } else {
        0int
    })
}

/// The same magnitude with the opposite sign flag.
pub fn negate(n: &Number) -> (r: Number)
    ensures
        r@ == signed_negate(n@),
{
    let mut result = clone(n);
    proof {
        use_type_invariant(&result);
    }

    result.negative = !result.negative;
    result
}

/// 1, 0 or -1 as `lhs` is after, equal to or before `rhs` in the order of
/// [`signed_compare`].
pub fn compare(lhs: &Number, rhs: &Number) -> (r: i32)
    ensures
        r == signed_compare(lhs@, rhs@),
{
    proof {
        use_type_invariant(lhs);
        use_type_invariant(rhs);
    }
    let ghost a = lhs.rdigits@;
    let ghost b = rhs.rdigits@;
    let k: i32 = if lhs.negative {
        -1
    } else {
        1
    };

    if lhs.negative == rhs.negative {
        if lhs.rdigits.len() > rhs.rdigits.len() {
            proof {
                lemma_value_lower(a);
                lemma_value_bound(b);
                crate::my_bc::digits::lemma_pow8_monotone(b.len(), (a.len() - 1) as nat);
            }
            1 * k
        } else if lhs.rdigits.len() < rhs.rdigits.len() {
            proof {
                lemma_value_lower(b);
                lemma_value_bound(a);
                crate::my_bc::digits::lemma_pow8_monotone(a.len(), (b.len() - 1) as nat);
            }
            -1 * k
        } else {
            let n = lhs.rdigits.len();
            let mut i = n;
            while i > 0
                invariant
                    a == lhs.rdigits@,
                    b == rhs.rdigits@,
                    n == a.len(),
                    n == b.len(),
                    i <= n,
                    is_canonical(a),
                    is_canonical(b),
                    k == (if lhs.negative {
                        -1i32
                    } else {
                        1i32
                    }),
                    lhs.negative == rhs.negative,
                    forall|j: int| i <= j < n ==> a[j] == b[j],
                decreases i,
            {
                i = i - 1;
                if lhs.rdigits[i] > rhs.rdigits[i] {
                    proof {
                        lemma_value_compare_at(a, b, i as int);
                    }
                    return 1 * k;
                } else if lhs.rdigits[i] < rhs.rdigits[i] {
                    proof {
                        lemma_value_compare_at(b, a, i as int);
                    }
                    return -1 * k;
                }
            }
            assert(a =~= b);
            0
        }
    } else if lhs.negative {
        -1
    } else {
        1
    }
}

/// One column of an addition: the digit and the carry out.
fn add_digit(lhs: StorageType, rhs: StorageType, carry: bool) -> (r: (StorageType, bool))
    requires
        lhs < 8,
        rhs < 8,
    ensures
        r.0 < 8,
        r.0 + (if r.1 {
            8int
        } else {
            0int
        }) == lhs + rhs + (if carry {
            1int
        } else {
            0int
        }),
{
    let sum = (lhs as i32) + (rhs as i32) + (if carry {
        1
    } else {
        0
    });

    if sum >= INTERNAL_COMPUTATION_BASE {
        ((sum - INTERNAL_COMPUTATION_BASE) as StorageType, true)
    } else {
        (sum as StorageType, false)
    }
}

/// The sum of the magnitudes, flagged non-negative.
fn add_internal(lhs: &Number, rhs: &Number) -> (r: Number)
    ensures
        r@ == (Signed { negative: false, magnitude: lhs@.magnitude + rhs@.magnitude }),
{
    proof {
        use_type_invariant(lhs);
        use_type_invariant(rhs);
    }
    let ghost a = lhs.rdigits@;
    let ghost b = rhs.rdigits@;
    let mut i: usize = 0;
    let mut digits: Vec<StorageType> = Vec::new();
    let mut carry = false;

    assert(digits_value(digits@) == 0);
    while i < lhs.rdigits.len() || i < rhs.rdigits.len()
        invariant
            a == lhs.rdigits@,
            b == rhs.rdigits@,
            is_canonical(a),
            is_canonical(b),
            i <= a.len() || i <= b.len(),
            digits@.len() == i,
            is_digit_seq(digits@),
            digits_value(digits@) + (if carry {
                pow8(i as nat)
            } else {
                0
            }) == prefix_value(a, i as nat) + prefix_value(b, i as nat),
        decreases (if a.len() > b.len() {
            a.len()
        } else {
            b.len()
        }) - i,
    {
        let lhsi: StorageType = if i < lhs.rdigits.len() {
            lhs.rdigits[i]
        } else {
            0
        };
        let rhsi: StorageType = if i < rhs.rdigits.len() {
            rhs.rdigits[i]
        } else {
            0
        };
        let (sum, b_out) = add_digit(lhsi, rhsi, carry);

        proof {
            assert(lhsi == digit_at(a, i as int));
            assert(rhsi == digit_at(b, i as int));
            lemma_value_push(digits@, sum);
            let p = pow8(i as nat);
            assert(pow8((i + 1) as nat) == 8 * p);
            let c: int = if carry {
                1
            } else {
                0
            };
            let co: int = if b_out {
                1
            } else {
                0
            };
            assert(sum + 8 * co == lhsi + rhsi + c);
            assert(sum * p + co * (8 * p) == lhsi * p + rhsi * p + c * p) by (nonlinear_arith)
                requires
                    sum + 8 * co == lhsi + rhsi + c,
            ;
        }
        digits.push(sum);
        carry = b_out;
        i = i + 1;
    }
    proof {
        lemma_prefix_value_beyond(a, i as nat);
        lemma_prefix_value_beyond(b, i as nat);
    }
    if carry {
        proof {
            lemma_value_push(digits@, 1);
        }
        digits.push(1);
    } else {
        proof {
            assert(digits_value(digits@) == digits_value(a) + digits_value(b));
            if digits@.len() >= 2 && digits@.last() == 0 {
                lemma_value_drop_last(digits@);
                assert(digits@.last() * pow8((digits@.len() - 1) as nat) == 0);
                lemma_value_bound(digits@.drop_last());
                if a.len() == i {
                    lemma_value_lower(a);
                } else {
                    lemma_value_lower(b);
                }
                assert(false);
            }
        }
    }
    Number { rdigits: digits, negative: false }
}

/// The sum of `lhs` and `rhs`.
pub fn add(lhs: &Number, rhs: &Number) -> (r: Number)
    ensures
        r@ == signed_add(lhs@, rhs@),
    decreases negative_count(lhs, rhs),
{
    if !lhs.negative && !rhs.negative {
        add_internal(lhs, rhs)
    } else if lhs.negative && rhs.negative {
        negate(&add_internal(lhs, rhs))
    } else if lhs.negative {
        self::sub(rhs, &negate(lhs))
    } else {
        self::sub(lhs, &negate(rhs))
    }
}

/// One column of a subtraction: the digit and the borrow out.
fn sub_digit(lhs: StorageType, rhs: StorageType, carry: bool) -> (r: (StorageType, bool))
    requires
        lhs < 8,
        rhs < 8,
    ensures
        r.0 < 8,
        r.0 - (if r.1 {
            8int
        } else {
            0int
        }) == lhs - rhs - (if carry {
            1int
        } else {
            0int
        }),
{
    let diff = (lhs as i32) - (rhs as i32) - (if carry {
        1
    } else {
        0
    });

    if diff < 0 {
        ((diff + INTERNAL_COMPUTATION_BASE) as StorageType, true)
    } else {
        (diff as StorageType, false)
    }
}

/// The difference of the magnitudes, when the left one is not the smaller.
fn sub_internal(lhs: &Number, rhs: &Number) -> (r: Number)
    requires
        lhs@.magnitude >= rhs@.magnitude,
    ensures
        r@ == (Signed { negative: false, magnitude: (lhs@.magnitude - rhs@.magnitude) as nat }),
{
    proof {
        use_type_invariant(lhs);
        use_type_invariant(rhs);
    }
    let ghost a = lhs.rdigits@;
    let ghost b = rhs.rdigits@;
    let mut i: usize = 0;
    let mut digits: Vec<StorageType> = Vec::new();
    let mut carry = false;

    assert(digits_value(digits@) == 0);
    while i < lhs.rdigits.len() || i < rhs.rdigits.len()
        invariant
            a == lhs.rdigits@,
            b == rhs.rdigits@,
            is_canonical(a),
            is_canonical(b),
            i <= a.len() || i <= b.len(),
            digits@.len() == i,
            is_digit_seq(digits@),
            digits_value(digits@) - (if carry {
                pow8(i as nat)
            } else {
                0
            }) == prefix_value(a, i as nat) - prefix_value(b, i as nat),
        decreases (if a.len() > b.len() {
            a.len()
        } else {
            b.len()
        }) - i,
    {
        let lhsi: StorageType = if i < lhs.rdigits.len() {
            lhs.rdigits[i]
        } else {
            0
        };
        let rhsi: StorageType = if i < rhs.rdigits.len() {
            rhs.rdigits[i]
        } else {
            0
        };
        let (diff, b_out) = sub_digit(lhsi, rhsi, carry);

        proof {
            assert(lhsi == digit_at(a, i as int));
            assert(rhsi == digit_at(b, i as int));
            lemma_value_push(digits@, diff);
            let p = pow8(i as nat);
            assert(pow8((i + 1) as nat) == 8 * p);
            let c: int = if carry {
                1
            } else {
                0
            };
            let co: int = if b_out {
                1
            } else {
                0
            };
            assert(diff - 8 * co == lhsi - rhsi - c);
            assert(diff * p - co * (8 * p) == lhsi * p - rhsi * p - c * p) by (nonlinear_arith)
                requires
                    diff - 8 * co == lhsi - rhsi - c,
            ;
        }
        digits.push(diff);
        carry = b_out;
        i = i + 1;
    }
    proof {
        lemma_prefix_value_beyond(a, i as nat);
        lemma_prefix_value_beyond(b, i as nat);
        lemma_value_bound(digits@);
    }
    while digits.len() > 1 && digits[digits.len() - 1] == 0
        invariant
            digits@.len() >= 1,
            is_digit_seq(digits@),
            digits_value(digits@) == lhs@.magnitude - rhs@.magnitude,
        decreases digits@.len(),
    {
        proof {
            lemma_value_drop_last(digits@);
            let last = digits@.last();
            assert(last == 0);
            assert(last * pow8((digits@.len() - 1) as nat) == 0) by (nonlinear_arith)
                requires
                    last == 0,
            ;
        }
        digits.pop();
    }
    Number { rdigits: digits, negative: false }
}

/// The difference `lhs - rhs`.
pub fn sub(lhs: &Number, rhs: &Number) -> (r: Number)
    ensures
        r@ == signed_sub(lhs@, rhs@),
    decreases negative_count(lhs, rhs),
{
    if !lhs.negative && !rhs.negative {
        let value = compare(lhs, rhs);
        if value > 0 {
            sub_internal(lhs, rhs)
        } else if value < 0 {
            negate(&sub_internal(rhs, lhs))
        } else {
            zero()
        }
    } else if lhs.negative && rhs.negative {
        self::add(lhs, &negate(&rhs))
    } else if lhs.negative {
        negate(&self::add(&negate(lhs), rhs))
    } else {
        self::add(lhs, &negate(rhs))
    }
}

/// `8^exponent`: `exponent` zero digits under a one.
fn power_of_base(exponent: usize) -> (r: Number)
    ensures
        r@ == (Signed { negative: false, magnitude: pow8(exponent as nat) }),
{
    let mut digits: Vec<StorageType> = Vec::new();
    let mut i: usize = 0;
    assert(digits_value(digits@) == 0);
    while i < exponent
        invariant
            i <= exponent,
            digits@.len() == i,
            forall|j: int| 0 <= j < i ==> digits@[j] == 0,
            digits_value(digits@) == 0,
        decreases exponent - i,
    {
        proof {
            lemma_value_push(digits@, 0);
        }
        digits.push(0);
        i = i + 1;
    }
    proof {
        lemma_value_push(digits@, 1);
    }
    digits.push(1);
    Number { rdigits: digits, negative: false }
}

/// `n` with `places` zero digits put under it: `n * 8^places`.
fn shifted(n: &Number, places: usize) -> (r: Number)
    requires
        n@.magnitude > 0,
    ensures
        r@ == (Signed { negative: n@.negative, magnitude: n@.magnitude * pow8(places as nat) }),
{
    proof {
        use_type_invariant(n);
        crate::my_bc::digits::lemma_value_zero(n.rdigits@);
    }
    let mut digits = n.rdigits.clone();
    assert(digits@ =~= n.rdigits@);
    let mut i: usize = 0;
    proof {
        let m = n@.magnitude;
        assert(pow8(0) == 1);
        assert(m * 1 == m) by (nonlinear_arith);
    }
    while i < places
        invariant
            i <= places,
            is_digit_seq(digits@),
            digits@.len() >= 1,
            digits@.last() == n.rdigits@.last(),
            digits@.len() == 1 ==> digits@ == n.rdigits@,
            digits_value(digits@) == n@.magnitude * pow8(i as nat),
        decreases places - i,
    {
        proof {
            lemma_value_cons(0, digits@);
            let m = n@.magnitude;
            let p = pow8(i as nat);
            assert(pow8((i + 1) as nat) == 8 * p);
            assert(8 * (m * p) == m * (8 * p)) by (nonlinear_arith);
            assert(digits@.insert(0, 0) =~= seq![0u8] + digits@);
        }
        digits.insert(0, 0);
        i = i + 1;
    }
    Number { rdigits: digits, negative: n.negative }
}

/// `n` with its lowest digit, a zero, taken away: `n / 8`.
fn unshifted(n: Number) -> (r: Number)
    requires
        n@.magnitude % 8 == 0,
        n@.magnitude >= 8,
    ensures
        r@ == (Signed { negative: n@.negative, magnitude: n@.magnitude / 8 }),
{
    proof {
        use_type_invariant(&n);
    }
    let Number { rdigits: mut digits, negative } = n;
    let ghost s = digits@;
    proof {
        assert(seq![s[0]] + s.drop_first() =~= s);
        lemma_value_cons(s[0], s.drop_first());
        if s.len() == 1 {
            lemma_value_drop_last(s);
            assert(s.drop_last().len() == 0);
        }
        assert(s[0] == 0);
        assert(s.remove(0) =~= s.drop_first());
    }
    digits.remove(0);
    Number { rdigits: digits, negative }
}

/// The product of the magnitudes, by long multiplication through repeated
/// addition of shifted copies of `lhs`.
fn mul_internal(lhs: &Number, rhs: &Number) -> (r: Number)
    requires
        !lhs@.negative,
        !rhs@.negative,
        lhs@.magnitude > 0,
    ensures
        r@ == (Signed { negative: false, magnitude: lhs@.magnitude * rhs@.magnitude }),
{
    proof {
        use_type_invariant(rhs);
        lemma_value_bound(rhs.rdigits@);
    }
    let ghost lm = lhs@.magnitude;
    let ghost rm = rhs@.magnitude;
    let mut result = zero();
    let mut count = clone(rhs);
    let mut len = rhs.rdigits.len();
    proof {
        assert(0 + rm * lm == lm * rm) by (nonlinear_arith);
    }

    while len > 0
        invariant
            !lhs@.negative,
            lm == lhs@.magnitude,
            rm == rhs@.magnitude,
            lm > 0,
            !result@.negative,
            !count@.negative,
            result@.magnitude + count@.magnitude * lm == lm * rm,
            count@.magnitude < pow8(len as nat),
        decreases len,
    {
        let sub_rhs = power_of_base(len - 1);
        let add_rhs = shifted(lhs, len - 1);
        let ghost p = pow8((len - 1) as nat);
        proof {
            assert(pow8(len as nat) == 8 * p);
            lemma_pow8_positive((len - 1) as nat);
        }
        while compare(&count, &sub_rhs) >= 0
            invariant
                lm == lhs@.magnitude,
                p >= 1,
                !result@.negative,
                !count@.negative,
                result@.magnitude + count@.magnitude * lm == lm * rm,
                sub_rhs@ == (Signed { negative: false, magnitude: p }),
                add_rhs@ == (Signed { negative: false, magnitude: lm * p }),
            decreases count@.magnitude,
        {
            let ghost r0 = result@.magnitude;
            let ghost c0 = count@.magnitude;
            result = self::add(&result, &add_rhs);
            count = self::sub(&count, &sub_rhs);
            proof {
                assert(r0 + lm * p + (c0 - p) * lm == r0 + c0 * lm) by (nonlinear_arith);
            }
        }
        len = len - 1;
    }
    proof {
        assert(pow8(0) == 1);
        assert(count@.magnitude == 0);
        assert(0 * lm == 0);
    }
    result
}

proof fn lemma_product_sign(a: Signed, b: Signed)
    ensures
        (a.magnitude * b.magnitude == 0) <==> (a.magnitude == 0 || b.magnitude == 0),
        (a.value() * b.value() < 0) <==> (a.magnitude != 0 && b.magnitude != 0 && a.negative
            != b.negative),
{
    let x = a.magnitude as int;
    let y = b.magnitude as int;
    assert((x * y == 0) <==> (x == 0 || y == 0)) by (nonlinear_arith)
        requires
            x >= 0,
            y >= 0,
    ;
    assert(x > 0 && y > 0 ==> x * y > 0) by (nonlinear_arith);
    assert(x > 0 && y > 0 ==> (-x) * y < 0 && x * (-y) < 0 && (-x) * (-y) > 0) by (nonlinear_arith);
    assert(x == 0 || y == 0 ==> (-x) * y == 0 && x * (-y) == 0 && (-x) * (-y) == 0 && x * y == 0)
        by (nonlinear_arith);
}

/// The product of `lhs` and `rhs`.
pub fn mul(lhs: &Number, rhs: &Number) -> (r: Number)
    ensures
        r@ == signed_mul(lhs@, rhs@),
{
    proof {
        lemma_product_sign(lhs@, rhs@);
    }
    if is_zero(lhs) || is_zero(rhs) {
        zero()
    } else if !lhs.negative && !rhs.negative {
        mul_internal(lhs, rhs)
    } else if lhs.negative && rhs.negative {
        mul_internal(&negate(lhs), &negate(rhs))
    } else if lhs.negative {
        negate(&mul_internal(&negate(lhs), rhs))
    } else {
        negate(&mul_internal(lhs, &negate(rhs)))
    }
}

/// Quotient and remainder of the magnitudes, by long division: each round
/// finds the largest `rhs * 8^t` not above the remainder and takes it away as
/// often as it fits.
fn div_modulo_internal(lhs: &Number, rhs: &Number) -> (r: (Number, Number))
    requires
        !lhs@.negative,
        !rhs@.negative,
        rhs@.magnitude > 0,
    ensures
        r.0@ == (Signed { negative: false, magnitude: lhs@.magnitude / rhs@.magnitude }),
        r.1@ == (Signed { negative: false, magnitude: lhs@.magnitude % rhs@.magnitude }),
{
    let ghost lm = lhs@.magnitude;
    let ghost rm = rhs@.magnitude;
    let mut quotient = zero();
    let mut remainder = clone(lhs);
    let one = one();
    proof {
        assert(0 * rm == 0) by (nonlinear_arith);
    }

    while compare(&remainder, rhs) >= 0
        invariant
            lm == lhs@.magnitude,
            rm == rhs@.magnitude,
            rm > 0,
            !rhs@.negative,
            one@ == (Signed { negative: false, magnitude: 1 }),
            !quotient@.negative,
            !remainder@.negative,
            quotient@.magnitude * rm + remainder@.magnitude == lm,
        decreases remainder@.magnitude,
    {
        let mut k = clone(&one);
        let mut kb = clone(rhs);
        let mut c = zero();
        let ghost mut t: nat = 0;
        proof {
            assert(pow8(0) == 1);
            assert(rm * 1 == rm) by (nonlinear_arith);
        }

        while compare(&kb, &remainder) <= 0
            invariant
                rm == rhs@.magnitude,
                rm > 0,
                !remainder@.negative,
                rm <= remainder@.magnitude,
                k@ == (Signed { negative: false, magnitude: pow8(t) }),
                kb@ == (Signed { negative: false, magnitude: rm * pow8(t) }),
                t >= 1 ==> rm * pow8((t - 1) as nat) <= remainder@.magnitude,
            decreases remainder@.magnitude - kb@.magnitude / 8,
        {
            proof {
                lemma_pow8_positive(t);
                assert(rm * pow8(t) > 0) by (nonlinear_arith)
                    requires
                        rm > 0,
                        pow8(t) >= 1,
                ;
                assert(pow8(t + 1) == 8 * pow8(t));
                assert(rm * (8 * pow8(t)) == 8 * (rm * pow8(t))) by (nonlinear_arith);
            }
            let ghost pt = pow8(t);
            k = shifted(&k, 1);
            kb = shifted(&kb, 1);
            proof {
                assert(pow8(0) == 1);
                assert(pow8(1) == 8);
                assert(k@.magnitude == pt * 8);
                assert(kb@.magnitude == (rm * pt) * 8);
                assert((rm * pt) * 8 == rm * (8 * pt)) by (nonlinear_arith);
                t = t + 1;
                assert(pow8(t) == 8 * pt);
            }
        }
        proof {
            if t == 0 {
                assert(rm * pow8(t) == rm) by (nonlinear_arith)
                    requires
                        pow8(t) == 1,
                ;
            }
            assert(t >= 1);
            let q = pow8((t - 1) as nat);
            assert(pow8(t) == 8 * q);
            lemma_pow8_positive((t - 1) as nat);
            assert(rm * pow8(t) == 8 * (rm * q)) by (nonlinear_arith)
                requires
                    pow8(t) == 8 * q,
            ;
            assert(rm * q >= 1) by (nonlinear_arith)
                requires
                    rm >= 1,
                    q >= 1,
            ;
        }
        k = unshifted(k);
        kb = unshifted(kb);
        let ghost kbm = kb@.magnitude;
        let ghost km = k@.magnitude;
        let ghost rem = remainder@.magnitude;
        proof {
            assert(kbm == rm * km);
            assert(kbm <= rem);
            assert(kbm >= 1);
            assert(kbm * 0 == 0) by (nonlinear_arith);
            assert(c@.magnitude == 0);
        }
        while compare(&self::mul(&kb, &c), &remainder) <= 0
            invariant
                kb@ == (Signed { negative: false, magnitude: kbm }),
                one@ == (Signed { negative: false, magnitude: 1 }),
                remainder@ == (Signed { negative: false, magnitude: rem }),
                kbm >= 1,
                !c@.negative,
                kbm * c@.magnitude <= rem + kbm,
            decreases rem + kbm - kbm * c@.magnitude,
        {
            let ghost c0 = c@.magnitude;
            c = self::add(&c, &one);
            proof {
                assert(kbm * (c0 + 1) == kbm * c0 + kbm) by (nonlinear_arith);
            }
        }
        let ghost cm = c@.magnitude;
        proof {
            if cm == 0 {
                assert(kbm * cm == 0) by (nonlinear_arith)
                    requires
                        cm == 0,
                ;
            }
            assert(cm >= 1);
            assert(kbm * cm == kbm * (cm - 1) + kbm) by (nonlinear_arith);
        }
        c = self::sub(&c, &one);
        let ghost c1 = c@.magnitude;
        proof {
            assert(c1 == cm - 1);
            assert(kbm * c1 >= kbm) by (nonlinear_arith)
                requires
                    c1 >= 1,
                    kbm >= 1,
            ;
        }

        let ghost q0 = quotient@.magnitude;
        quotient = self::add(&quotient, &self::mul(&k, &c));
        remainder = self::sub(&remainder, &self::mul(&kb, &c));
        proof {
            assert((q0 + km * c1) * rm + (rem - kbm * c1) == q0 * rm + rem) by (nonlinear_arith)
                requires
                    kbm == rm * km,
            ;
        }
    }
    proof {
        vstd::arithmetic::div_mod::lemma_fundamental_div_mod_converse(
            lm as int,
            rm as int,
            quotient@.magnitude as int,
            remainder@.magnitude as int,
        );
    }
    (quotient, remainder)
}

/// The quotient truncated toward zero and the remainder, or the error
/// "division by zero" when `rhs` is zero.
pub fn div_modulo(lhs: &Number, rhs: &Number) -> (r: Result<(Number, Number), String>)
    ensures
        (rhs@.magnitude == 0) <==> r is Err,
        r matches Err(e) ==> e@ == "division by zero"@,
        r matches Ok((q, m)) ==> q@ == signed_div(lhs@, rhs@) && m@ == signed_rem(lhs@, rhs@),
{
    if is_zero(rhs) {
        Err(String::from_str("division by zero"))
    } else if is_zero(lhs) {
        proof {
            let b = rhs@.magnitude as int;
            assert(0int / b == 0 && 0int % b == 0) by (nonlinear_arith)
                requires
                    b > 0,
            ;
        }
        Ok((zero(), zero()))
    } else if !lhs.negative && !rhs.negative {
        Ok(div_modulo_internal(lhs, rhs))
    } else if lhs.negative && rhs.negative {
        let (quotient, remainder) = div_modulo_internal(&negate(lhs), &negate(rhs));
        Ok((quotient, negate(&remainder)))
    } else if lhs.negative {
        let (quotient, remainder) = div_modulo_internal(&negate(lhs), rhs);
        Ok((negate(&quotient), negate(&remainder)))
    } else {
        let (quotient, remainder) = div_modulo_internal(lhs, &negate(rhs));
        Ok((negate(&quotient), remainder))
    }
}

/// The quotient truncated toward zero, or the error "division by zero".
pub fn div(lhs: &Number, rhs: &Number) -> (r: Result<Number, String>)
    ensures
        (rhs@.magnitude == 0) <==> r is Err,
        r matches Err(e) ==> e@ == "division by zero"@,
        r matches Ok(q) ==> q@ == signed_div(lhs@, rhs@),
{
    match div_modulo(lhs, rhs) {
        Ok((q, _)) => Ok(q),
        Err(err) => Err(err),
    }
}

/// The remainder of the truncated division, or the error "division by zero".
pub fn modulo(lhs: &Number, rhs: &Number) -> (r: Result<Number, String>)
    ensures
        (rhs@.magnitude == 0) <==> r is Err,
        r matches Err(e) ==> e@ == "division by zero"@,
        r matches Ok(m) ==> m@ == signed_rem(lhs@, rhs@),
{
    match div_modulo(lhs, rhs) {
        Ok((_, r)) => Ok(r),
        Err(err) => Err(err),
    }
}

} // verus!
