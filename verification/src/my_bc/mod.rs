//! An arbitrary-precision integer calculator: numbers stored as base-8
//! digits with a sign, the four operations and the remainder, reading and
//! writing numerals in any base, and evaluating infix expressions.
use vstd::prelude::*;

pub mod digits;
pub mod grammar;
pub mod meaning;
pub mod laws;
pub mod precedence;
pub mod reorder;
pub mod text;

mod base;
mod eval;
mod operators;

pub use crate::my_bc::base::{
    BASE_10, BASE_16, BASE_2, BASE_8, all_in_base, digits_fit_base, format_base, format_base10, formatted,
    from_base, from_base10, lemma_radix_digits_bound, magnitude_numeral, numeral_value, radix_digits,
};
pub use crate::my_bc::eval::{
    BinaryOperator, Evaluation, Infix, Operator, Outcome, Postfix, State, Stop, StopRule, Token, UnaryOperator,
    apply_binary, checked_eval, checked_eval_base, checked_eval_postfix, eval, eval_base, eval_postfix,
    evaluation, infix_to_postfix, parse_infix, postfix_outcome, run_postfix, scan, shunt, stops,
    to_postfix, token_precedence, unwind,
};
pub use crate::my_bc::operators::{
    add, compare, div, div_modulo, magnitude_of, modulo, mul, negate, signed_add, signed_compare,
    signed_div, signed_mul, signed_negate, signed_rem, signed_sub, sub,
};

use crate::my_bc::digits::{
    digits_value, is_canonical, is_digit_seq, lemma_pow8_add, lemma_value_drop_last, lemma_value_push,
    lemma_value_zero, pow8,
};

verus! {

/// The storage type of one base-8 digit.
type StorageType = u8;

/// The base in which magnitudes are stored.
const INTERNAL_COMPUTATION_BASE: i32 = 8;

/// The mathematical view of a [`Number`]: a sign flag and a magnitude.
/// A zero magnitude may carry either sign flag.
pub struct Signed {
    pub negative: bool,
    pub magnitude: nat,
}

impl Signed {
    /// The integer that the sign and magnitude denote.
    pub open spec fn value(self) -> int {
        if self.negative {
            -(self.magnitude as int)
        } else {
            self.magnitude as int
        }
    }
}

/// An arbitrary-precision integer: little-endian base-8 digits and a sign.
#[derive(Debug)]
pub struct Number {
    rdigits: Vec<StorageType>,
    negative: bool,
}

impl Number {
    #[verifier::type_invariant]
    spec fn well_formed(self) -> bool {
        is_canonical(self.rdigits@)
    }
}

impl View for Number {
    type V = Signed;

    closed spec fn view(&self) -> Signed {
        Signed { negative: self.negative, magnitude: digits_value(self.rdigits@) }
    }
}

/// Whether `n` is zero, whatever its sign flag.
pub fn is_zero(n: &Number) -> (r: bool)
    ensures
        r == (n@.magnitude == 0),
{
    proof {
        use_type_invariant(n);
        lemma_value_zero(n.rdigits@);
    }
    n.rdigits.len() == 1 && n.rdigits[0] == 0
}

/// The number 0.
pub fn zero() -> (r: Number)
    ensures
        r@ == (Signed { negative: false, magnitude: 0 }),
{
    let digits: Vec<StorageType> = vec![0];
    proof {
        lemma_value_drop_last(digits@);
        assert(digits@.drop_last().len() == 0);
    }
    Number { rdigits: digits, negative: false }
}

/// The number 1.
pub fn one() -> (r: Number)
    ensures
        r@ == (Signed { negative: false, magnitude: 1 }),
{
    let digits: Vec<StorageType> = vec![1];
    proof {
        lemma_value_drop_last(digits@);
        assert(digits@.drop_last().len() == 0);
    }
    Number { rdigits: digits, negative: false }
}

/// The non-negative number `n`.
pub fn from_usize(n: usize) -> (r: Number)
    ensures
        r@ == (Signed { negative: false, magnitude: n as nat }),
{
    let mut n = n;
    let mut digits: Vec<StorageType> = Vec::new();
    let ghost requested = n;
    assert(pow8(0) == 1);
    assert(digits_value(digits@) == 0);
    while n >= (INTERNAL_COMPUTATION_BASE as usize)
        invariant
            is_digit_seq(digits@),
            digits_value(digits@) + n * pow8(digits@.len()) == requested,
            digits@.len() > 0 ==> n > 0,
        decreases n,
    {
        let d = (n % (INTERNAL_COMPUTATION_BASE as usize)) as StorageType;
        proof {
            lemma_value_push(digits@, d);
            let p = pow8(digits@.len());
            assert(pow8(digits@.len() + 1) == 8 * p) by {
                lemma_pow8_add(digits@.len(), 1);
            }
            let q = n / 8;
            assert(n == 8 * q + d);
            assert(n * p == d * p + q * (8 * p)) by (nonlinear_arith)
                requires
                    n == 8 * q + d,
            ;
        }
        digits.push(d);
        n = n / (INTERNAL_COMPUTATION_BASE as usize);
    }
    proof {
        lemma_value_push(digits@, n as u8);
    }
    digits.push(n as StorageType);
    Number { rdigits: digits, negative: false }
}

/// A copy of `n`.
pub fn clone(n: &Number) -> (r: Number)
    ensures
        r@ == n@,
{
    proof {
        use_type_invariant(n);
    }
    let digits = n.rdigits.clone();
    assert(digits@ =~= n.rdigits@);
    Number { rdigits: digits, negative: n.negative }
}

} // verus!
