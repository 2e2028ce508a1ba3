//! Reading and writing magnitudes in a positional base whose digits are the
//! characters of a string.
use vstd::prelude::*;

use crate::my_bc::digits::{digits_value, is_canonical, lemma_value_cons};
use crate::my_bc::operators::{compare, div_modulo, negate};
use crate::my_bc::text::{
    byte_index_of, lemma_utf8_len_positive, str_find_char, string_push, utf8_len,
};
use crate::my_bc::{Number, Signed, clone, from_usize, is_zero, zero};

verus! {

/// The binary digits.
pub const BASE_2: &'static str = "01";

/// The octal digits.
pub const BASE_8: &'static str = "01234567";

/// The decimal digits.
pub const BASE_10: &'static str = "0123456789";

/// The hexadecimal digits, in upper case.
pub const BASE_16: &'static str = "0123456789ABCDEF";

/// Every character of `n` occurs in `base`.
pub open spec fn all_in_base(n: Seq<char>, base: Seq<char>) -> bool {
    forall|i: int| 0 <= i < n.len() ==> base.contains(#[trigger] n[i])
}

/// The value of the numeral `n` read as `from_base` reads it: the radix is the
/// byte length of `base`, and each character stands for the byte offset of
/// its first occurrence in `base`.
pub open spec fn numeral_value(n: Seq<char>, base: Seq<char>) -> nat
    decreases n.len(),
{
    if n.len() == 0 {
        0
    } else {
        numeral_value(n.drop_last(), base) * utf8_len(base) + byte_index_of(base, n.last())
    }
}

/// The digits of `m` in radix `b`, most significant first, without leading
/// zeros (zero itself is the single digit 0).
pub open spec fn radix_digits(m: nat, b: nat) -> Seq<nat>
    decreases m,
{
    if b < 2 || m < b {
        seq![m]
    } else {
        proof {
            vstd::arithmetic::div_mod::lemma_div_decreases(m as int, b as int);
        }
        radix_digits(m / b, b).push(m % b)
    }
}

/// Every digit of `m` in radix `utf8_len(base)` indexes a character of `base`.
pub open spec fn digits_fit_base(m: nat, base: Seq<char>) -> bool {
    forall|i: int|
        0 <= i < radix_digits(m, utf8_len(base)).len() ==> #[trigger] radix_digits(
            m,
            utf8_len(base),
        )[i] < base.len()
}

/// The numeral of a magnitude: each digit written as the character of `base`
/// at that position.
pub open spec fn magnitude_numeral(m: nat, base: Seq<char>) -> Seq<char> {
    radix_digits(m, utf8_len(base)).map_values(|d: nat| base[d as int])
}

/// What `format_base` writes: a minus sign for a nonzero number flagged
/// negative, then the numeral of the magnitude.
pub open spec fn formatted(n: Signed, base: Seq<char>) -> Seq<char> {
    if n.negative && n.magnitude != 0 {
        seq!['-'] + magnitude_numeral(n.magnitude, base)
    } else {
        magnitude_numeral(n.magnitude, base)
    }
}

/// The number that the numeral `n` denotes in `base`, or `None` when a
/// character of `n` is not a digit of `base`.
pub fn from_base(n: &str, base: &str) -> (r: Option<Number>)
    requires
        utf8_len(base@) <= usize::MAX,
    ensures
        r is Some <==> all_in_base(n@, base@),
        r matches Some(x) ==> x@ == (Signed { negative: false, magnitude: numeral_value(n@, base@) }),
{
    let mut result = zero();
    let count = n.unicode_len();
    let base_len = base.len();
    let mut i: usize = 0;
    proof {
        assert(n@.take(0) =~= Seq::<char>::empty());
    }

    while i < count
        invariant
            count == n@.len(),
            base_len == utf8_len(base@),
            i <= count,
            result@ == (Signed { negative: false, magnitude: numeral_value(n@.take(i as int), base@) }),
            forall|j: int| 0 <= j < i ==> base@.contains(#[trigger] n@[j]),
        decreases count - i,
    {
        let c = n.get_char(i);
        if let Some(index) = str_find_char(base, c) {
            let digit = from_usize(index);
            let clone = clone(&result);
            let ghost v = result@.magnitude;
            proof {
                lemma_utf8_len_positive(base@);
            }

            let mut j: usize = 1;
            while j < base_len
                invariant
                    1 <= j <= base_len,
                    clone@ == (Signed { negative: false, magnitude: v }),
                    result@ == (Signed { negative: false, magnitude: v * (j as nat) }),
                decreases base_len - j,
            {
                result = crate::my_bc::operators::add(&result, &clone);
                proof {
                    assert(v * j + v == v * (j + 1)) by (nonlinear_arith);
                }
                j = j + 1;
            }
            result = crate::my_bc::operators::add(&result, &digit);
            proof {
                let t = n@.take((i + 1) as int);
                assert(t.drop_last() =~= n@.take(i as int));
                assert(t.last() == c);
            }
        } else {
            return None;
        }
        i = i + 1;
    }
    proof {
        assert(n@.take(count as int) =~= n@);
    }
    Some(result)
}

/// `from_base` in base ten.
pub fn from_base10(n: &str) -> (r: Option<Number>)
    ensures
        r is Some <==> all_in_base(n@, BASE_10@),
        r matches Some(x) ==> x@ == (Signed {
            negative: false,
            magnitude: numeral_value(n@, BASE_10@),
        }),
{
    proof {
        reveal_strlit("0123456789");
        crate::my_bc::text::lemma_ascii_utf8_len(BASE_10@);
    }
    from_base(n, BASE_10)
}

/// The magnitude of `n` as a machine integer.
fn to_usize(n: &Number) -> (r: usize)
    requires
        n@.magnitude <= usize::MAX,
    ensures
        r == n@.magnitude,
{
    proof {
        use_type_invariant(n);
    }
    let ghost s = n.rdigits@;
    let mut result: usize = 0;
    let mut i = n.rdigits.len();
    proof {
        assert(s.subrange(i as int, s.len() as int) =~= Seq::<u8>::empty());
        lemma_suffix_value_le(s, i as int);
    }

    while i > 0
        invariant
            s == n.rdigits@,
            is_canonical(s),
            i <= s.len(),
            result == digits_value(s.subrange(i as int, s.len() as int)),
            digits_value(s) == n@.magnitude,
            n@.magnitude <= usize::MAX,
        decreases i,
    {
        i = i - 1;
        proof {
            let t = s.subrange(i as int, s.len() as int);
            assert(t =~= seq![s[i as int]] + s.subrange(i + 1, s.len() as int));
            lemma_value_cons(s[i as int], s.subrange(i + 1, s.len() as int));
            lemma_suffix_value_le(s, i as int);
        }
        result = result * 8 + (n.rdigits[i] as usize);
    }
    proof {
        assert(s.subrange(0, s.len() as int) =~= s);
    }
    result
}

/// Every suffix of a digit sequence is worth at most the whole.
proof fn lemma_suffix_value_le(s: Seq<u8>, j: int)
    requires
        0 <= j <= s.len(),
    ensures
        digits_value(s.subrange(j, s.len() as int)) <= digits_value(s),
    decreases j,
{
    if j == 0 {
        assert(s.subrange(0, s.len() as int) =~= s);
    } else {
        lemma_suffix_value_le(s, j - 1);
        assert(s.subrange(j - 1, s.len() as int) =~= seq![s[j - 1]] + s.subrange(j, s.len() as int));
        lemma_value_cons(s[j - 1], s.subrange(j, s.len() as int));
    }
}

/// The digits of a radix-`b` numeral are below `b`.
pub proof fn lemma_radix_digits_bound(m: nat, b: nat)
    requires
        b >= 2,
    ensures
        forall|i: int| 0 <= i < radix_digits(m, b).len() ==> #[trigger] radix_digits(m, b)[i] < b,
    decreases m,
{
    if m >= b {
        vstd::arithmetic::div_mod::lemma_div_decreases(m as int, b as int);
        vstd::arithmetic::div_mod::lemma_mod_bound(m as int, b as int);
        lemma_radix_digits_bound(m / b, b);
        let d = radix_digits(m, b);
        assert(d == radix_digits(m / b, b).push(m % b));
        assert forall|i: int| 0 <= i < d.len() implies #[trigger] d[i] < b by {
            if i < d.len() - 1 {
                assert(d[i] == radix_digits(m / b, b)[i]);
            }
        }
    }
}

/// The numeral of the magnitude of `n`, which is not flagged negative unless
/// it is zero.
fn format_digits(n: &Number, base_len: &Number, base: &str) -> (r: String)
    requires
        !n@.negative || n@.magnitude == 0,
        1 <= utf8_len(base@) <= usize::MAX,
        utf8_len(base@) >= 2 || n@.magnitude == 0,
        base_len@ == (Signed { negative: false, magnitude: utf8_len(base@) }),
        digits_fit_base(n@.magnitude, base@),
    ensures
        r@ == magnitude_numeral(n@.magnitude, base@),
    decreases n@.magnitude,
{
    let ghost m = n@.magnitude;
    let ghost b = utf8_len(base@);
    let mut s = String::new();
    if let Ok((q, r)) = div_modulo(n, base_len) {
        proof {
            vstd::arithmetic::div_mod::lemma_mod_bound(m as int, b as int);
        }
        if compare(n, base_len) >= 0 {
            proof {
                vstd::arithmetic::div_mod::lemma_div_decreases(m as int, b as int);
                let d = radix_digits(m, b);
                assert(d == radix_digits(m / b, b).push(m % b));
                assert forall|i: int| 0 <= i < radix_digits(m / b, b).len() implies #[trigger] radix_digits(
                    m / b,
                    b,
                )[i] < base@.len() by {
                    assert(d[i] == radix_digits(m / b, b)[i]);
                }
            }
            let high = format_digits(&q, base_len, base);
            s.append(high.as_str());
        }
        proof {
            let d = radix_digits(m, b);
            if m < b {
                vstd::arithmetic::div_mod::lemma_small_mod(m, b);
            }
            assert(d[d.len() - 1] == m % b);
        }
        let index = to_usize(&r);
        string_push(&mut s, base.get_char(index));
        proof {
            let d = radix_digits(m, b);
            if m >= b {
                assert(d.map_values(|x: nat| base@[x as int]) =~= radix_digits(m / b, b).map_values(
                    |x: nat| base@[x as int],
                ).push(base@[(m % b) as int]));
            } else {
                assert(d.map_values(|x: nat| base@[x as int]) =~= seq![base@[m as int]]);
            }
        }
        s
    } else {
        proof {
            assert(false);
        }
        s
    }
}

/// The numeral of `n` in `base`, with a minus sign when it is negative.
/// A base of one byte writes zero only (any other number would need a
/// numeral without end).
pub fn format_base(n: &Number, base: &str) -> (r: String)
    requires
        1 <= utf8_len(base@) <= usize::MAX,
        utf8_len(base@) >= 2 || n@.magnitude == 0,
        digits_fit_base(n@.magnitude, base@),
    ensures
        r@ == formatted(n@, base@),
{
    let mut s = String::new();
    let mut n = clone(n);

    if n.negative && !is_zero(&n) {
        s.append("-");
        n = negate(&n);
    }
    proof {
        reveal_strlit("-");
    }
    let digits = format_digits(&n, &from_usize(base.len()), base);
    s.append(digits.as_str());
    s
}

/// `format_base` in base ten.
pub fn format_base10(n: &Number) -> (r: String)
    ensures
        r@ == formatted(n@, BASE_10@),
{
    proof {
        reveal_strlit("0123456789");
        crate::my_bc::text::lemma_ascii_utf8_len(BASE_10@);
        lemma_radix_digits_bound(n@.magnitude, 10);
    }
    format_base(n, BASE_10)
}

} // verus!
