//! Text helpers: the byte-level facts of UTF-8 strings that reading numerals
//! rests on (`str::len` and `str::find` count bytes), and the few `std`
//! string calls that vstd gives no specification.
use vstd::prelude::*;
use vstd::utf8::{encode_scalar, encode_utf8, is_ascii_chars, is_ascii_chars_encode_utf8};

verus! {

/// The length in bytes of the UTF-8 encoding of `s`.
pub open spec fn utf8_len(s: Seq<char>) -> nat {
    encode_utf8(s).len()
}

/// The position of the first `c` in `s` (the length of `s` when there is none).
pub open spec fn first_index_of(s: Seq<char>, c: char) -> nat
    decreases s.len(),
{
    if s.len() == 0 {
        0
    } else if s[0] == c {
        0
    } else {
        1 + first_index_of(s.drop_first(), c)
    }
}

/// The byte offset of the first `c` in `s`, as `str::find` reports it.
pub open spec fn byte_index_of(s: Seq<char>, c: char) -> nat {
    utf8_len(s.take(first_index_of(s, c) as int))
}

/// The decimal digits of `n`, as `Display` writes an unsigned integer.
pub open spec fn decimal_chars(n: nat) -> Seq<char>
    decreases n,
{
    if n < 10 {
        seq![digit_char(n)]
    } else {
        decimal_chars(n / 10).push(digit_char(n % 10))
    }
}

/// The character of a decimal digit.
pub open spec fn digit_char(d: nat) -> char {
    if d == 0 {
        '0'
    } else if d == 1 {
        '1'
    } else if d == 2 {
        '2'
    } else if d == 3 {
        '3'
    } else if d == 4 {
        '4'
    } else if d == 5 {
        '5'
    } else if d == 6 {
        '6'
    } else if d == 7 {
        '7'
    } else if d == 8 {
        '8'
    } else {
        '9'
    }
}

/// The character of `s` at which byte `b` of its UTF-8 encoding starts a
/// character, or `None` when byte `b` falls inside a character (or past the
/// end): where slicing the text from byte `b` is allowed.
pub open spec fn boundary_char(s: Seq<char>, b: nat) -> Option<nat> {
    if exists|k: nat| k <= s.len() && #[trigger] utf8_len(s.take(k as int)) == b {
        Some(choose|k: nat| k <= s.len() && #[trigger] utf8_len(s.take(k as int)) == b)
    } else {
        None
    }
}

/// The encoding of two sequences one after the other is the two encodings
/// one after the other.
pub proof fn lemma_encode_utf8_concat(a: Seq<char>, b: Seq<char>)
    ensures
        encode_utf8(a + b) == encode_utf8(a) + encode_utf8(b),
    decreases a.len(),
{
    if a.len() == 0 {
        assert(a + b =~= b);
        assert(encode_utf8(a) =~= Seq::<u8>::empty());
        assert(Seq::<u8>::empty() + encode_utf8(b) =~= encode_utf8(b));
    } else {
        assert((a + b)[0] == a[0]);
        assert((a + b).drop_first() =~= a.drop_first() + b);
        lemma_encode_utf8_concat(a.drop_first(), b);
        assert(encode_scalar(a[0] as u32) + (encode_utf8(a.drop_first()) + encode_utf8(b))
            =~= (encode_scalar(a[0] as u32) + encode_utf8(a.drop_first())) + encode_utf8(b));
    }
}

/// A character takes one to four bytes.
pub proof fn lemma_char_utf8_len(c: char)
    ensures
        utf8_len(seq![c]) == encode_scalar(c as u32).len(),
        1 <= utf8_len(seq![c]) <= 4,
        (c as u32) < 0x80 ==> utf8_len(seq![c]) == 1,
{
    assert(seq![c].drop_first() =~= Seq::<char>::empty());
    assert(encode_utf8(seq![c]) =~= encode_scalar(c as u32) + encode_utf8(Seq::<char>::empty()));
}

/// Taking one more character adds its bytes.
pub proof fn lemma_utf8_len_take(s: Seq<char>, k: int)
    requires
        0 <= k < s.len(),
    ensures
        utf8_len(s.take(k + 1)) == utf8_len(s.take(k)) + utf8_len(seq![s[k]]),
        utf8_len(s.take(k)) < utf8_len(s.take(k + 1)),
{
    assert(s.take(k + 1) =~= s.take(k) + seq![s[k]]);
    lemma_encode_utf8_concat(s.take(k), seq![s[k]]);
    lemma_char_utf8_len(s[k]);
}

/// Longer prefixes take more bytes, and each character at least one.
pub proof fn lemma_utf8_len_prefixes(s: Seq<char>, j: int, k: int)
    requires
        0 <= j <= k <= s.len(),
    ensures
        utf8_len(s.take(j)) + (k - j) <= utf8_len(s.take(k)),
        j < k ==> utf8_len(s.take(j)) < utf8_len(s.take(k)),
    decreases k - j,
{
    if j < k {
        lemma_utf8_len_prefixes(s, j, k - 1);
        lemma_utf8_len_take(s, k - 1);
    }
}

/// The prefix of `k` characters starts a character at byte
/// `utf8_len(s.take(k))`.
pub proof fn lemma_boundary_char(s: Seq<char>, k: nat)
    requires
        k <= s.len(),
    ensures
        boundary_char(s, utf8_len(s.take(k as int))) == Some(k),
{
    let b = utf8_len(s.take(k as int));
    assert(utf8_len(s.take(k as int)) == b);
    let c = choose|c: nat| c <= s.len() && #[trigger] utf8_len(s.take(c as int)) == b;
    if c < k {
        lemma_utf8_len_prefixes(s, c as int, k as int);
    } else if c > k {
        lemma_utf8_len_prefixes(s, k as int, c as int);
    }
}

/// A byte strictly between the starts of characters `k - 1` and `k` starts
/// no character.
pub proof fn lemma_no_boundary_char(s: Seq<char>, k: nat, b: nat)
    requires
        0 < k <= s.len(),
        utf8_len(s.take(k - 1)) < b < utf8_len(s.take(k as int)),
    ensures
        boundary_char(s, b) is None,
{
    if exists|c: nat| c <= s.len() && #[trigger] utf8_len(s.take(c as int)) == b {
        let c = choose|c: nat| c <= s.len() && #[trigger] utf8_len(s.take(c as int)) == b;
        if c < k {
            lemma_utf8_len_prefixes(s, c as int, k - 1);
        } else {
            lemma_utf8_len_prefixes(s, k as int, c as int);
        }
    }
}

/// `char::len_utf8`: the number of bytes of `c`.
pub(crate) fn char_utf8_len(c: char) -> (w: usize)
    ensures
        w == utf8_len(seq![c]),
        1 <= w <= 4,
{
    proof {
        lemma_char_utf8_len(c);
        vstd::utf8::char_is_scalar(c);
    }
    let u = c as u32;
    if u <= 0x7F {
        1
    } else if u <= 0x7FF {
        2
    } else if u <= 0xFFFF {
        3
    } else {
        4
    }
}

/// `str::find` with a `char` pattern: the byte index of the first
/// occurrence of `c` in `s`, or `None` when `c` does not occur.
#[verifier::external_body]
pub(crate) fn str_find_char(s: &str, c: char) -> (r: Option<usize>)
    ensures
        r is Some <==> s@.contains(c),
        r matches Some(i) ==> i as nat == byte_index_of(s@, c),
{
    s.find(c)
}

/// `String::push`: appends the character `c`.
#[verifier::external_body]
pub(crate) fn string_push(s: &mut String, c: char)
    ensures
        final(s)@ == old(s)@.push(c),
{
    s.push(c)
}

/// The character of the decimal digit `d`.
fn decimal_digit(d: usize) -> (c: char)
    requires
        d < 10,
    ensures
        c == digit_char(d as nat),
{
    match d {
        0 => '0',
        1 => '1',
        2 => '2',
        3 => '3',
        4 => '4',
        5 => '5',
        6 => '6',
        7 => '7',
        8 => '8',
        _ => '9',
    }
}

/// The decimal digits of `n`, as `Display` writes an unsigned integer.
pub(crate) fn usize_to_string(n: usize) -> (r: String)
    ensures
        r@ == decimal_chars(n as nat),
    decreases n,
{
    let mut s = if n >= 10 {
        usize_to_string(n / 10)
    } else {
        String::new()
    };
    string_push(&mut s, decimal_digit(n % 10));
    s
}

/// A non-empty sequence of characters takes at least one byte.
pub proof fn lemma_utf8_len_positive(s: Seq<char>)
    requires
        s.len() > 0,
    ensures
        utf8_len(s) > 0,
{
    assert(encode_utf8(s) == vstd::utf8::encode_scalar(s[0] as u32) + encode_utf8(s.drop_first()));
}

/// The first occurrence is inside the sequence and holds `c`, and no earlier
/// position does.
pub proof fn lemma_first_index_of(s: Seq<char>, c: char)
    requires
        s.contains(c),
    ensures
        first_index_of(s, c) < s.len(),
        s[first_index_of(s, c) as int] == c,
        forall|k: int| 0 <= k < first_index_of(s, c) ==> s[k] != c,
    decreases s.len(),
{
    if s[0] != c {
        let i = choose|i: int| 0 <= i < s.len() && s[i] == c;
        assert(s.drop_first()[i - 1] == c);
        lemma_first_index_of(s.drop_first(), c);
        assert forall|k: int| 0 <= k < first_index_of(s, c) implies s[k] != c by {
            if k > 0 {
                assert(s[k] == s.drop_first()[k - 1]);
            }
        }
    }
}

/// In ASCII text each character is one byte, so byte counts are character
/// counts.
pub proof fn lemma_ascii_utf8_len(s: Seq<char>)
    requires
        is_ascii_chars(s),
    ensures
        utf8_len(s) == s.len(),
        forall|k: int| 0 <= k <= s.len() ==> #[trigger] utf8_len(s.take(k)) == k,
{
    is_ascii_chars_encode_utf8(s);
    assert forall|k: int| 0 <= k <= s.len() implies #[trigger] utf8_len(s.take(k)) == k by {
        assert(is_ascii_chars(s.take(k)));
        is_ascii_chars_encode_utf8(s.take(k));
    }
}

} // verus!
