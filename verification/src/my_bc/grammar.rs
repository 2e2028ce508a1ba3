//! When reading a text succeeds, stated directly: in a plain base, a text
//! reads to tokens exactly when each of its characters may stand where it
//! stands and its parentheses balance; otherwise reading reports the first
//! character that may not stand there, or the end of the text.
use vstd::prelude::*;
use vstd::utf8::is_ascii_chars;

use crate::my_bc::eval::{
    Stop, State, Token, invalid_message, lemma_numeral_end, lemma_scan_numeral_ascii, mismatched_message,
    numeral_end, scan,
};
use crate::my_bc::precedence::{lemma_plain_digit, plain_base};

verus! {

/// A character that can stand in a text: a digit of `base`, a parenthesis
/// or an operator character.
pub open spec fn text_char(base: Seq<char>, c: char) -> bool {
    base.contains(c) || c == '(' || c == ')' || c == '+' || c == '-' || c == '*' || c == '/' || c == '%'
}

/// A character that ends an operand: a digit of `base` or a closing
/// parenthesis.
pub open spec fn ends_operand(base: Seq<char>, c: char) -> bool {
    base.contains(c) || c == ')'
}

/// Character `i` of `s` may stand after what precedes it: it can stand in a
/// text; `*`, `/` and `%` stand only right after an operand; a digit never
/// stands right after a closing parenthesis.
pub open spec fn fits_at(s: Seq<char>, base: Seq<char>, i: int) -> bool {
    let c = s[i];
    &&& text_char(base, c)
    &&& (c == '*' || c == '/' || c == '%') ==> i > 0 && ends_operand(base, s[i - 1])
    &&& base.contains(c) ==> !(i > 0 && s[i - 1] == ')')
}

/// The parentheses left open by the first `i` characters of `s`.
pub open spec fn depth(s: Seq<char>, i: int) -> int
    decreases i,
{
    if i <= 0 {
        0
    } else {
        depth(s, i - 1) + if s[i - 1] == '(' {
            1int
        } else if s[i - 1] == ')' {
            -1int
        } else {
            0int
        }
    }
}

/// Character `i` of `s` is a fault: it may not stand there, or it closes a
/// parenthesis that is not open.
pub open spec fn fault_at(s: Seq<char>, base: Seq<char>, i: int) -> bool {
    !fits_at(s, base, i) || (s[i] == ')' && depth(s, i) <= 0)
}

/// The message for the fault at character `i`.
pub open spec fn fault_message(s: Seq<char>, base: Seq<char>, i: int) -> Seq<char> {
    if !fits_at(s, base, i) {
        invalid_message(i as nat, s[i])
    } else {
        mismatched_message(i as nat)
    }
}

/// No character from `i` to `j` is a fault.
pub open spec fn no_fault_between(s: Seq<char>, base: Seq<char>, i: int, j: int) -> bool {
    forall|k: int| i <= k < j ==> !#[trigger] fault_at(s, base, k)
}

/// What reading `s` from character `i` on comes to: `None` when it reads to
/// tokens, or the message of its first fault from `i` on, or of parentheses
/// left open at the end.
spec fn outcome_from(s: Seq<char>, base: Seq<char>, i: int) -> Option<Seq<char>>
    decreases s.len() - i,
{
    if i >= s.len() {
        if depth(s, s.len() as int) == 0 {
            None
        } else {
            Some(mismatched_message(s.len()))
        }
    } else if fault_at(s, base, i) {
        Some(fault_message(s, base, i))
    } else {
        outcome_from(s, base, i + 1)
    }
}

/// What the reader expects at character `i`: an operator right after an
/// operand, else an operand.
spec fn state_at(s: Seq<char>, base: Seq<char>, i: int) -> State {
    if i > 0 && ends_operand(base, s[i - 1]) {
        State::ExpectOperator
    } else {
        State::ExpectOperand
    }
}

/// Whether `r` is what `outcome_from` says reading comes to.
spec fn agrees(r: Result<Seq<Token>, Stop>, o: Option<Seq<char>>) -> bool {
    match o {
        None => r is Ok,
        Some(m) => r == Err::<Seq<Token>, Stop>(Stop::Error(m)),
    }
}

/// A character that can stand in a text over a plain base is ASCII.
proof fn lemma_text_char_ascii(base: Seq<char>, c: char)
    requires
        plain_base(base),
        text_char(base, c),
    ensures
        '\0' <= c <= '\u{7f}',
{
    if base.contains(c) {
        let j = choose|j: int| 0 <= j < base.len() && base[j] == c;
        assert(base[j] == c);
    }
}

/// Without faults, parentheses never close more than they opened.
proof fn lemma_depth_non_negative(s: Seq<char>, base: Seq<char>, i: int)
    requires
        0 <= i <= s.len(),
        no_fault_between(s, base, 0, i),
    ensures
        depth(s, i) >= 0,
    decreases i,
{
    if i > 0 {
        lemma_depth_non_negative(s, base, i - 1);
        assert(!fault_at(s, base, i - 1));
    }
}

/// No faults inside a run of digits: the outcome from its start is the
/// outcome from its end, and the depth does not change along it.
proof fn lemma_digits_run(s: Seq<char>, base: Seq<char>, i: int, e: int)
    requires
        plain_base(base),
        0 <= i <= e <= s.len(),
        i < e ==> !fault_at(s, base, i),
        forall|k: int| i <= k < e ==> base.contains(#[trigger] s[k]),
    ensures
        no_fault_between(s, base, i, e),
        outcome_from(s, base, i) == outcome_from(s, base, e),
        depth(s, e) == depth(s, i),
    decreases e - i,
{
    if i < e {
        lemma_plain_digit(base, s[i]);
        if i + 1 < e {
            assert(s[i + 1 - 1] == s[i]);
            lemma_plain_digit(base, s[i + 1]);
            assert(!fault_at(s, base, i + 1));
        }
        lemma_digits_run(s, base, i + 1, e);
    }
}

/// Reading from a character where a token starts, with the state and the
/// open parentheses that the characters before it leave, comes to what
/// `outcome_from` says.
proof fn lemma_reading_from(s: Seq<char>, base: Seq<char>, i: int)
    requires
        plain_base(base),
        0 <= i <= s.len(),
        no_fault_between(s, base, 0, i),
        i > 0 && i < s.len() ==> !(base.contains(s[i - 1]) && base.contains(s[i])),
    ensures
        depth(s, i) >= 0,
        agrees(scan(s, base, i as nat, state_at(s, base, i), depth(s, i) as nat), outcome_from(s, base, i)),
    decreases s.len() - i,
{
    lemma_depth_non_negative(s, base, i);
    let gc = depth(s, i) as nat;
    let st = state_at(s, base, i);
    if i < s.len() {
        let c = s[i];
        assert(depth(s, i + 1) == depth(s, i) + if c == '(' {
            1int
        } else if c == ')' {
            -1int
        } else {
            0int
        });
        if base.contains(c) {
            lemma_plain_digit(base, c);
        }
        if fault_at(s, base, i) {
            if c == ')' {
            } else if st is ExpectOperator {
                assert(i > 0 && ends_operand(base, s[i - 1]));
            }
        } else if base.contains(c) {
            // A numeral: the reader expects an operand here.
            assert(st is ExpectOperand);
            let e = numeral_end(s, base, i as nat) as int;
            lemma_numeral_end(s, base, i as nat);
            lemma_digits_run(s, base, i, e);
            assert forall|k: int| 0 <= k < e implies '\0' <= #[trigger] s.take(e)[k] <= '\u{7f}' by {
                if k < i {
                    assert(!fault_at(s, base, k));
                }
                lemma_text_char_ascii(base, s[k]);
            }
            lemma_scan_numeral_ascii(s, base, i as nat, gc);
            assert(no_fault_between(s, base, 0, e)) by {
                assert forall|k: int| 0 <= k < e implies !#[trigger] fault_at(s, base, k) by {
                    if k >= i {
                        assert(no_fault_between(s, base, i, e));
                    }
                }
            }
            assert(state_at(s, base, e) is ExpectOperator);
            lemma_reading_from(s, base, e);
        } else {
            assert(no_fault_between(s, base, 0, i + 1));
            lemma_reading_from(s, base, i + 1);
            if c == '*' || c == '/' || c == '%' {
                assert(st is ExpectOperator);
            }
        }
    }
}

/// The outcome from `i` on is reading to tokens exactly when no character
/// from `i` on is a fault and the parentheses balance; else it is the message
/// of the first fault from `i` on, or of the parentheses left open.
proof fn lemma_outcome_from(s: Seq<char>, base: Seq<char>, i: int)
    requires
        0 <= i <= s.len(),
    ensures
        no_fault_between(s, base, i, s.len() as int) && depth(s, s.len() as int) == 0 ==> outcome_from(
            s,
            base,
            i,
        ) is None,
        no_fault_between(s, base, i, s.len() as int) && depth(s, s.len() as int) != 0 ==> outcome_from(
            s,
            base,
            i,
        ) == Some(mismatched_message(s.len())),
        forall|j: int|
            i <= j < s.len() && #[trigger] fault_at(s, base, j) && no_fault_between(s, base, i, j)
                ==> outcome_from(s, base, i) == Some(fault_message(s, base, j)),
    decreases s.len() - i,
{
    if i < s.len() {
        lemma_outcome_from(s, base, i + 1);
        assert forall|j: int|
            i <= j < s.len() && #[trigger] fault_at(s, base, j) && no_fault_between(s, base, i, j)
                implies outcome_from(s, base, i) == Some(fault_message(s, base, j)) by {
            if j > i {
                assert(!fault_at(s, base, i));
                assert(no_fault_between(s, base, i + 1, j));
            }
        }
        if no_fault_between(s, base, i, s.len() as int) {
            assert(!fault_at(s, base, i));
            assert(no_fault_between(s, base, i + 1, s.len() as int));
        }
    }
}

/// Reading a text whose numbers are written in a plain base gives tokens
/// exactly when every character may stand where it stands and closes no
/// parenthesis that is not open, and the parentheses balance at the end.
/// Otherwise the error is the first fault: "N: invalid character 'C'" for a
/// character that may not stand there, "N: mismatched parenthesis" for a
/// parenthesis closed that is not open, or for parentheses left open at the
/// end (N is then the length of the text).
pub proof fn law_reading(s: Seq<char>, base: Seq<char>)
    requires
        plain_base(base),
    ensures
        scan(s, base, 0, State::ExpectOperand, 0) is Ok <==> no_fault_between(s, base, 0, s.len() as int)
            && depth(s, s.len() as int) == 0,
        forall|i: int|
            0 <= i < s.len() && #[trigger] fault_at(s, base, i) && no_fault_between(s, base, 0, i)
                ==> scan(s, base, 0, State::ExpectOperand, 0) == Err::<Seq<Token>, Stop>(
                Stop::Error(fault_message(s, base, i)),
            ),
        no_fault_between(s, base, 0, s.len() as int) && depth(s, s.len() as int) != 0 ==> scan(
            s,
            base,
            0,
            State::ExpectOperand,
            0,
        ) == Err::<Seq<Token>, Stop>(Stop::Error(mismatched_message(s.len()))),
{
    lemma_reading_from(s, base, 0);
    lemma_outcome_from(s, base, 0);
    assert(state_at(s, base, 0) is ExpectOperand);
    assert(depth(s, 0) == 0);
    if !no_fault_between(s, base, 0, s.len() as int) {
        lemma_first_fault(s, base, s.len() as int);
    }
}

/// Where some character before `j` is a fault, there is a first one.
proof fn lemma_first_fault(s: Seq<char>, base: Seq<char>, j: int)
    requires
        0 <= j <= s.len(),
        !no_fault_between(s, base, 0, j),
    ensures
        exists|i: int| 0 <= i < j && #[trigger] fault_at(s, base, i) && no_fault_between(s, base, 0, i),
    decreases j,
{
    if no_fault_between(s, base, 0, j - 1) {
        assert(fault_at(s, base, j - 1));
    } else {
        lemma_first_fault(s, base, j - 1);
        let i = choose|i: int| 0 <= i < j - 1 && #[trigger] fault_at(s, base, i) && no_fault_between(s, base, 0, i);
        assert(fault_at(s, base, i));
    }
}

} // verus!
