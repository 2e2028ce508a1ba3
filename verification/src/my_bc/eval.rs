//! Expressions: reading an infix expression into tokens, reordering them into
//! postfix (operator-precedence parsing with a stack), and evaluating the
//! postfix form on a stack of numbers.
use vstd::prelude::*;
use vstd::utf8::is_ascii_chars;

use crate::my_bc::base::{BASE_10, all_in_base, from_base, numeral_value};
use crate::my_bc::operators::{
    div, modulo, negate, signed_add, signed_div, signed_mul, signed_negate, signed_rem, signed_sub,
};
use crate::my_bc::text::{
    boundary_char, char_utf8_len, decimal_chars, lemma_ascii_utf8_len, lemma_boundary_char, lemma_no_boundary_char,
    lemma_utf8_len_prefixes, lemma_utf8_len_take, str_find_char, string_push, usize_to_string, utf8_len,
};
use crate::my_bc::{Number, Signed, clone, zero};

verus! {

/// An operator of one operand.
#[derive(Debug, Copy, Clone)]
pub enum UnaryOperator {
    Minus,
}

/// An operator of two operands.
#[derive(Debug, Copy, Clone)]
pub enum BinaryOperator {
    Add,
    Sub,
    Mul,
    Div,
    Modulo,
}

/// An operator token: a parenthesis or an operation.
#[derive(Debug, Copy, Clone)]
pub enum Operator {
    BeginGroup,
    EndGroup,
    Unary(UnaryOperator),
    Binary(BinaryOperator),
}

/// A token of an expression: a number or an operator.
#[derive(Debug)]
enum ExpressionNodeData {
    Operand(Number),
    Operator(Operator),
}

/// A token of an expression, as the specifications see it.
pub enum Token {
    Operand(Signed),
    Operator(Operator),
}

impl View for ExpressionNodeData {
    type V = Token;

    closed spec fn view(&self) -> Token {
        match self {
            ExpressionNodeData::Operand(n) => Token::Operand(n@),
            ExpressionNodeData::Operator(o) => Token::Operator(*o),
        }
    }
}

/// The tokens of an expression in the order in which they were read.
#[derive(Debug)]
pub struct Infix(Vec<ExpressionNodeData>);

/// The tokens of an expression in postfix order.
#[derive(Debug)]
pub struct Postfix(Vec<ExpressionNodeData>);

spec fn tokens_view(v: Seq<ExpressionNodeData>) -> Seq<Token> {
    v.map_values(|d: ExpressionNodeData| d@)
}

impl View for Infix {
    type V = Seq<Token>;

    closed spec fn view(&self) -> Seq<Token> {
        tokens_view(self.0@)
    }
}

impl View for Postfix {
    type V = Seq<Token>;

    closed spec fn view(&self) -> Seq<Token> {
        tokens_view(self.0@)
    }
}

/// What the reader expects next.
#[derive(Debug, Copy, Clone)]
pub enum State {
    ExpectOperand,
    ExpectOperator,
}

/// Why reading stops before the end of the text: an error, with its
/// message; or a numeral whose position, taken as a byte offset into the
/// text, falls inside a character, where slicing the text panics.
pub enum Stop {
    Error(Seq<char>),
    InsideChar,
}

/// How far reading from `index` is from the end of `s` (nothing past it).
pub open spec fn remaining(s: Seq<char>, index: nat) -> nat {
    if index < s.len() {
        (s.len() - index) as nat
    } else {
        0
    }
}

/// Expecting an operand comes before expecting an operator at one position.
pub open spec fn state_rank(state: State) -> nat {
    match state {
        State::ExpectOperand => 1,
        State::ExpectOperator => 0,
    }
}

/// `t` in front of the tokens of a successful read; an error passes through.
pub open spec fn prepend_token(t: Token, r: Result<Seq<Token>, Stop>) -> Result<Seq<Token>, Stop> {
    match r {
        Ok(ts) => Ok(seq![t] + ts),
        Err(e) => Err(e),
    }
}

/// `ts` in front of the tokens of a successful read; an error passes through.
pub open spec fn prefix_result(ts: Seq<Token>, r: Result<Seq<Token>, Stop>) -> Result<Seq<Token>, Stop> {
    match r {
        Ok(x) => Ok(ts + x),
        Err(e) => Err(e),
    }
}

/// The end of the run of digits of `base` that starts at `i`.
pub open spec fn numeral_end(s: Seq<char>, base: Seq<char>, i: nat) -> nat
    decreases s.len() - i,
{
    if i >= s.len() || !base.contains(s[i as int]) {
        i
    } else {
        numeral_end(s, base, i + 1)
    }
}

/// The message for an unmatched parenthesis found at position `index`.
pub open spec fn mismatched_message(index: nat) -> Seq<char> {
    decimal_chars(index) + ": mismatched parenthesis"@
}

/// The message for a character at `index` that cannot stand there.
pub open spec fn invalid_message(index: nat, c: char) -> Seq<char> {
    decimal_chars(index) + ": invalid character '"@ + seq![c] + "'"@
}

/// The tokens of `s` from position `index` on, read in `state` with
/// `group_count` parentheses open, or why reading stops. Position `index`
/// picks the character `s[index]`; a numeral found there is taken from byte
/// `index` of the text's UTF-8 encoding, which must start a character, up to
/// the first character that is not a digit of `base`, and reading goes on at
/// the byte offset where the numeral ends. In ASCII text bytes and characters
/// count alike.
pub open spec fn scan(s: Seq<char>, base: Seq<char>, index: nat, state: State, group_count: nat) -> Result<Seq<Token>, Stop>
    decreases remaining(s, index), state_rank(state),
{
    if index >= s.len() {
        if group_count == 0 {
            Ok(seq![])
        } else {
            Err(Stop::Error(mismatched_message(index)))
        }
    } else {
        let c = s[index as int];
        if c == '(' {
            prepend_token(
                Token::Operator(Operator::BeginGroup),
                scan(s, base, index + 1, State::ExpectOperand, group_count + 1),
            )
        } else if c == ')' {
            if group_count == 0 {
                Err(Stop::Error(mismatched_message(index)))
            } else {
                prepend_token(
                    Token::Operator(Operator::EndGroup),
                    scan(s, base, index + 1, State::ExpectOperator, (group_count - 1) as nat),
                )
            }
        } else {
            match state {
                State::ExpectOperand => {
                    if c == '-' {
                        prepend_token(
                            Token::Operator(Operator::Unary(UnaryOperator::Minus)),
                            scan(s, base, index + 1, State::ExpectOperand, group_count),
                        )
                    } else if c == '+' {
                        scan(s, base, index + 1, State::ExpectOperand, group_count)
                    } else if base.contains(c) {
                        match boundary_char(s, index) {
                            None => Err(Stop::InsideChar),
                            Some(k) => {
                                let end = numeral_end(s, base, k);
                                let next = utf8_len(s.take(end as int));
                                proof {
                                    lemma_numeral_start(s, base, index, k);
                                }
                                prepend_token(
                                    Token::Operand(
                                        Signed {
                                            negative: false,
                                            magnitude: numeral_value(s.subrange(k as int, end as int), base),
                                        },
                                    ),
                                    scan(s, base, next, State::ExpectOperator, group_count),
                                )
                            },
                        }
                    } else {
                        Err(Stop::Error(invalid_message(index, c)))
                    }
                },
                State::ExpectOperator => {
                    if c == '+' {
                        binary_then(BinaryOperator::Add, scan(s, base, index + 1, State::ExpectOperand, group_count))
                    } else if c == '-' {
                        binary_then(BinaryOperator::Sub, scan(s, base, index + 1, State::ExpectOperand, group_count))
                    } else if c == '*' {
                        binary_then(BinaryOperator::Mul, scan(s, base, index + 1, State::ExpectOperand, group_count))
                    } else if c == '/' {
                        binary_then(BinaryOperator::Div, scan(s, base, index + 1, State::ExpectOperand, group_count))
                    } else if c == '%' {
                        binary_then(
                            BinaryOperator::Modulo,
                            scan(s, base, index + 1, State::ExpectOperand, group_count),
                        )
                    } else {
                        Err(Stop::Error(invalid_message(index, c)))
                    }
                },
            }
        }
    }
}

/// A binary operator token in front of a read.
pub open spec fn binary_then(op: BinaryOperator, r: Result<Seq<Token>, Stop>) -> Result<Seq<Token>, Stop> {
    prepend_token(Token::Operator(Operator::Binary(op)), r)
}

/// The run of digits that starts at a digit ends past it, inside `s`, and
/// holds only digits.
pub proof fn lemma_numeral_end(s: Seq<char>, base: Seq<char>, i: nat)
    requires
        i <= s.len(),
    ensures
        i <= numeral_end(s, base, i) <= s.len(),
        i < s.len() && base.contains(s[i as int]) ==> numeral_end(s, base, i) > i,
        forall|k: int| i <= k < numeral_end(s, base, i) ==> base.contains(#[trigger] s[k]),
        numeral_end(s, base, i) < s.len() ==> !base.contains(s[numeral_end(s, base, i) as int]),
    decreases s.len() - i,
{
    if i < s.len() && base.contains(s[i as int]) {
        lemma_numeral_end(s, base, i + 1);
    }
}

/// A numeral found at position `index` starts at character `k`, where byte
/// `index` starts, and ends no earlier.
pub proof fn lemma_numeral_start(s: Seq<char>, base: Seq<char>, index: nat, k: nat)
    requires
        index < s.len(),
        boundary_char(s, index) == Some(k),
    ensures
        k <= index,
        utf8_len(s.take(k as int)) == index,
        k <= numeral_end(s, base, k) <= s.len(),
        index <= utf8_len(s.take(numeral_end(s, base, k) as int)),
{
    assert(exists|j: nat| j <= s.len() && #[trigger] utf8_len(s.take(j as int)) == index);
    lemma_utf8_len_prefixes(s, 0, k as int);
    lemma_numeral_end(s, base, k);
    lemma_utf8_len_prefixes(s, k as int, numeral_end(s, base, k) as int);
}

/// Where the text up to the end of a numeral is ASCII, the numeral is read
/// from its own position to the end of its run of digits, and reading goes
/// on there.
pub proof fn lemma_scan_numeral_ascii(s: Seq<char>, base: Seq<char>, index: nat, gc: nat)
    requires
        index < s.len(),
        is_ascii_chars(s.take(numeral_end(s, base, index) as int)),
        base.contains(s[index as int]),
        s[index as int] != '(' && s[index as int] != ')' && s[index as int] != '-' && s[index as int] != '+',
    ensures
        scan(s, base, index, State::ExpectOperand, gc) == prepend_token(
            Token::Operand(
                Signed {
                    negative: false,
                    magnitude: numeral_value(s.subrange(index as int, numeral_end(s, base, index) as int), base),
                },
            ),
            scan(s, base, numeral_end(s, base, index), State::ExpectOperator, gc),
        ),
{
    let e = numeral_end(s, base, index);
    lemma_numeral_end(s, base, index);
    let p = s.take(e as int);
    lemma_ascii_utf8_len(p);
    assert(p.take(index as int) =~= s.take(index as int));
    assert(p.take(e as int) =~= s.take(e as int));
    assert(utf8_len(s.take(index as int)) == index);
    lemma_boundary_char(s, index);
    assert(utf8_len(s.take(e as int)) == e);
}

proof fn lemma_prefix_prepend(ts: Seq<Token>, t: Token, r: Result<Seq<Token>, Stop>)
    ensures
        prefix_result(ts, prepend_token(t, r)) == prefix_result(ts.push(t), r),
{
    if let Ok(x) = r {
        assert(ts + (seq![t] + x) =~= ts.push(t) + x);
    }
}

/// The message "N: mismatched parenthesis".
fn mismatched_parenthesis(index: usize) -> (r: String)
    ensures
        r@ == mismatched_message(index as nat),
{
    let mut m = usize_to_string(index);
    m.append(": mismatched parenthesis");
    m
}

/// The message "N: invalid character 'C'".
fn invalid_character(index: usize, c: char) -> (r: String)
    ensures
        r@ == invalid_message(index as nat, c),
{
    let mut m = usize_to_string(index);
    m.append(": invalid character '");
    string_push(&mut m, c);
    m.append("'");
    m
}

/// Pushes `t` after `tokens`, whose view is `before`.
fn push_token(tokens: &mut Vec<ExpressionNodeData>, t: ExpressionNodeData, Ghost(before): Ghost<Seq<Token>>)
    requires
        tokens_view(old(tokens)@) == before,
    ensures
        tokens_view(final(tokens)@) == before.push(t@),
{
    tokens.push(t);
    proof {
        assert(tokens_view(tokens@) =~= before.push(t@));
    }
}

/// The character at which byte `index` of `s` starts, and `index` itself, or
/// `None` when byte `index` falls inside a character.
fn char_at_byte(s: &str, len: usize, index: usize) -> (r: Option<usize>)
    requires
        len == s@.len(),
        index < len,
        utf8_len(s@) <= usize::MAX,
    ensures
        match r {
            Some(k) => boundary_char(s@, index as nat) == Some(k as nat),
            None => boundary_char(s@, index as nat) is None,
        },
{
    let mut k: usize = 0;
    let mut pos: usize = 0;
    proof {
        assert(s@.take(len as int) =~= s@);
        lemma_utf8_len_prefixes(s@, 0, len as int);
        assert(s@.take(0) =~= Seq::<char>::empty());
    }
    while pos < index
        invariant
            len == s@.len(),
            index < len <= utf8_len(s@),
            utf8_len(s@) <= usize::MAX,
            s@.take(len as int) == s@,
            k <= len,
            pos == utf8_len(s@.take(k as int)),
            k > 0 ==> utf8_len(s@.take(k - 1)) < index,
        decreases len - k,
    {
        proof {
            if k == len {
                assert(false);
            }
            lemma_utf8_len_take(s@, k as int);
            lemma_utf8_len_prefixes(s@, k + 1, len as int);
        }
        let w = char_utf8_len(s.get_char(k));
        pos = pos + w;
        k = k + 1;
    }
    if pos == index {
        proof {
            lemma_boundary_char(s@, k as nat);
        }
        Some(k)
    } else {
        proof {
            lemma_no_boundary_char(s@, k as nat, index as nat);
        }
        None
    }
}

/// The numeral at position `index` of `s`, taken from byte `index` (which
/// must start a character) to the end of its run of digits, with the byte
/// offset where it ends; `None` when byte `index` falls inside a character.
fn read_numeral(s: &str, len: usize, base: &str, index: usize) -> (r: Option<(Number, usize)>)
    requires
        len == s@.len(),
        index < len,
        utf8_len(s@) <= usize::MAX,
        utf8_len(base@) <= usize::MAX,
    ensures
        match r {
            None => boundary_char(s@, index as nat) is None,
            Some((n, next)) => boundary_char(s@, index as nat) matches Some(k) && n@ == (Signed {
                negative: false,
                magnitude: numeral_value(s@.subrange(k as int, numeral_end(s@, base@, k) as int), base@),
            }) && next == utf8_len(s@.take(numeral_end(s@, base@, k) as int)) && index <= next <= utf8_len(s@),
        },
{
    let k = match char_at_byte(s, len, index) {
        Some(k) => k,
        None => {
            return None;
        },
    };
    proof {
        lemma_numeral_start(s@, base@, index as nat, k as nat);
        lemma_numeral_end(s@, base@, k as nat);
        assert(s@.take(len as int) =~= s@);
    }
    let mut end = k;
    let mut next = index;
    while end < len && str_find_char(base, s.get_char(end)).is_some()
        invariant
            len == s@.len(),
            utf8_len(s@) <= usize::MAX,
            s@.take(len as int) == s@,
            k <= end <= len,
            next == utf8_len(s@.take(end as int)),
            numeral_end(s@, base@, k as nat) == numeral_end(s@, base@, end as nat),
            forall|j: int| k <= j < end ==> base@.contains(#[trigger] s@[j]),
        decreases len - end,
    {
        proof {
            lemma_utf8_len_take(s@, end as int);
            lemma_utf8_len_prefixes(s@, end + 1, len as int);
        }
        let w = char_utf8_len(s.get_char(end));
        next = next + w;
        end = end + 1;
    }
    proof {
        assert(numeral_end(s@, base@, end as nat) == end);
        lemma_utf8_len_prefixes(s@, end as int, len as int);
    }
    let number = s.substring_char(k, end);
    proof {
        assert(all_in_base(number@, base@));
    }
    match from_base(number, base) {
        Some(value) => Some((value, next)),
        None => {
            proof {
                assert(false);
            }
            None
        },
    }
}

/// Reads `s` from position `index` on, after `tokens`; `None` where reading
/// slices the text inside a character.
fn parse_from(
    s: &str,
    len: usize,
    base: &str,
    index: usize,
    state: State,
    tokens: Vec<ExpressionNodeData>,
    group_count: usize,
) -> (r: Option<Result<Infix, String>>)
    requires
        len == s@.len(),
        index <= utf8_len(s@) <= usize::MAX,
        group_count <= index,
        utf8_len(base@) <= usize::MAX,
    ensures
        match r {
            Some(Ok(i)) => prefix_result(tokens_view(tokens@), scan(s@, base@, index as nat, state, group_count as nat))
                == Ok::<Seq<Token>, Stop>(i@),
            Some(Err(e)) => prefix_result(tokens_view(tokens@), scan(s@, base@, index as nat, state, group_count as nat))
                == Err::<Seq<Token>, Stop>(Stop::Error(e@)),
            None => scan(s@, base@, index as nat, state, group_count as nat) == Err::<Seq<Token>, Stop>(
                Stop::InsideChar,
            ),
        },
    decreases remaining(s@, index as nat), state_rank(state),
{
    let ghost before = tokens_view(tokens@);
    proof {
        assert(s@.take(len as int) =~= s@);
        lemma_utf8_len_prefixes(s@, 0, len as int);
        assert(s@.take(0) =~= Seq::<char>::empty());
    }
    if index < len {
        let c = s.get_char(index);
        let mut tokens = tokens;
        match c {
            '(' => {
                let t = ExpressionNodeData::Operator(Operator::BeginGroup);
                proof {
                    lemma_prefix_prepend(before, t@, scan(s@, base@, (index + 1) as nat, State::ExpectOperand, (group_count + 1) as nat));
                }
                push_token(&mut tokens, t, Ghost(before));
                parse_from(s, len, base, index + 1, State::ExpectOperand, tokens, group_count + 1)
            },
            ')' => {
                if group_count == 0 {
                    Some(Err(mismatched_parenthesis(index)))
                } else {
                    let t = ExpressionNodeData::Operator(Operator::EndGroup);
                    proof {
                        lemma_prefix_prepend(before, t@, scan(s@, base@, (index + 1) as nat, State::ExpectOperator, (group_count - 1) as nat));
                    }
                    push_token(&mut tokens, t, Ghost(before));
                    parse_from(s, len, base, index + 1, State::ExpectOperator, tokens, group_count - 1)
                }
            },
            _ => match state {
                State::ExpectOperand => {
                    if c == '-' {
                        let t = ExpressionNodeData::Operator(Operator::Unary(UnaryOperator::Minus));
                        proof {
                            lemma_prefix_prepend(before, t@, scan(s@, base@, (index + 1) as nat, State::ExpectOperand, group_count as nat));
                        }
                        push_token(&mut tokens, t, Ghost(before));
                        parse_from(s, len, base, index + 1, State::ExpectOperand, tokens, group_count)
                    } else if c == '+' {
                        parse_from(s, len, base, index + 1, State::ExpectOperand, tokens, group_count)
                    } else if str_find_char(base, c).is_some() {
                        let (value, next) = match read_numeral(s, len, base, index) {
                            Some(read) => read,
                            None => {
                                return None;
                            },
                        };
                        let t = ExpressionNodeData::Operand(value);
                        proof {
                            lemma_prefix_prepend(before, t@, scan(s@, base@, next as nat, State::ExpectOperator, group_count as nat));
                        }
                        push_token(&mut tokens, t, Ghost(before));
                        parse_from(s, len, base, next, State::ExpectOperator, tokens, group_count)
                    } else {
                        Some(Err(invalid_character(index, c)))
                    }
                },
                State::ExpectOperator => {
                    let op = match c {
                        '+' => Some(BinaryOperator::Add),
                        '-' => Some(BinaryOperator::Sub),
                        '*' => Some(BinaryOperator::Mul),
                        '/' => Some(BinaryOperator::Div),
                        '%' => Some(BinaryOperator::Modulo),
                        _ => None,
                    };
                    match op {
                        Some(op) => {
                            let t = ExpressionNodeData::Operator(Operator::Binary(op));
                            proof {
                                lemma_prefix_prepend(before, t@, scan(s@, base@, (index + 1) as nat, State::ExpectOperand, group_count as nat));
                            }
                            push_token(&mut tokens, t, Ghost(before));
                            parse_from(s, len, base, index + 1, State::ExpectOperand, tokens, group_count)
                        },
                        None => Some(Err(invalid_character(index, c))),
                    }
                },
            },
        }
    } else {
        if group_count == 0 {
            proof {
                assert(before + seq![] =~= before);
            }
            Some(Ok(Infix(tokens)))
        } else {
            Some(Err(mismatched_parenthesis(index)))
        }
    }
}

/// The tokens of the expression `s`, whose numbers are written in `base`, or
/// the message of its first error; `None` where reading slices the text
/// inside a character.
fn read_infix(s: &str, base: &str) -> (r: Option<Result<Infix, String>>)
    requires
        utf8_len(base@) <= usize::MAX,
    ensures
        match r {
            Some(Ok(i)) => scan(s@, base@, 0, State::ExpectOperand, 0) == Ok::<Seq<Token>, Stop>(i@),
            Some(Err(e)) => scan(s@, base@, 0, State::ExpectOperand, 0) == Err::<Seq<Token>, Stop>(Stop::Error(e@)),
            None => scan(s@, base@, 0, State::ExpectOperand, 0) == Err::<Seq<Token>, Stop>(Stop::InsideChar),
        },
{
    let bytes = s.as_bytes().len();
    proof {
        assert(bytes == utf8_len(s@));
    }
    let len = s.unicode_len();
    let tokens: Vec<ExpressionNodeData> = Vec::new();
    proof {
        assert(tokens_view(tokens@) =~= Seq::<Token>::empty());
        let r = scan(s@, base@, 0, State::ExpectOperand, 0);
        if let Ok(x) = r {
            assert(Seq::<Token>::empty() + x =~= x);
        }
    }
    parse_from(s, len, base, 0, State::ExpectOperand, tokens, 0)
}

/// The tokens of the expression `s`, whose numbers are written in `base`, or
/// the message of the first error in it (see [`scan`]; the positions in the
/// messages are the reader's positions).
pub fn parse_infix(s: &str, base: &str) -> (r: Result<Infix, String>)
    requires
        utf8_len(base@) <= usize::MAX,
        !(scan(s@, base@, 0, State::ExpectOperand, 0) matches Err(Stop::InsideChar)),
    ensures
        match r {
            Ok(i) => scan(s@, base@, 0, State::ExpectOperand, 0) == Ok::<Seq<Token>, Stop>(i@),
            Err(e) => scan(s@, base@, 0, State::ExpectOperand, 0) == Err::<Seq<Token>, Stop>(Stop::Error(e@)),
        },
{
    match read_infix(s, base) {
        Some(r) => r,
        None => {
            proof {
                assert(false);
            }
            Err(String::new())
        },
    }
}

/// The binding strength of a token; operands and parentheses have none.
pub open spec fn token_precedence(t: Token) -> int {
    match t {
        Token::Operand(_) => 0,
        Token::Operator(op) => match op {
            Operator::BeginGroup => 0,
            Operator::EndGroup => 0,
            Operator::Binary(BinaryOperator::Add) => 1,
            Operator::Binary(BinaryOperator::Sub) => 1,
            Operator::Binary(BinaryOperator::Mul) => 2,
            Operator::Binary(BinaryOperator::Div) => 2,
            Operator::Binary(BinaryOperator::Modulo) => 2,
            Operator::Unary(UnaryOperator::Minus) => 3,
        },
    }
}

/// Where moving operators from the stack to the output stops.
#[derive(Debug, Copy, Clone)]
pub enum StopRule {
    /// At an opening parenthesis.
    AtBeginGroup,
    /// At an operator binding no more strongly than the given precedence.
    AtMost(i32),
    /// At an operator binding less strongly than the given precedence.
    Below(i32),
    /// Nowhere: the whole stack moves.
    Never,
}

/// Whether the stack top `t` stops the move under `rule`.
pub open spec fn stops(rule: StopRule, t: Token) -> bool {
    match rule {
        StopRule::AtBeginGroup => t matches Token::Operator(Operator::BeginGroup),
        StopRule::AtMost(p) => token_precedence(t) <= p,
        StopRule::Below(p) => token_precedence(t) < p,
        StopRule::Never => false,
    }
}

/// Moves tokens from the top (the end) of `stack` to the end of `out` until
/// the stack is empty or its top stops the move.
pub open spec fn unwind(out: Seq<Token>, stack: Seq<Token>, rule: StopRule) -> (Seq<Token>, Seq<Token>)
    decreases stack.len(),
{
    if stack.len() == 0 || stops(rule, stack.last()) {
        (out, stack)
    } else {
        unwind(out.push(stack.last()), stack.drop_last(), rule)
    }
}

/// Operator-precedence parsing of `tokens` from position `i` on, with the
/// output so far in `out` and the pending operators in `stack`: operands go
/// to the output; an opening parenthesis is stacked; a closing one moves the
/// stack down to the opening one, which it drops; a unary operator is stacked
/// over anything; a binary operator first moves the operators that bind at
/// least as strongly; at the end the whole stack moves.
pub open spec fn shunt(tokens: Seq<Token>, i: nat, out: Seq<Token>, stack: Seq<Token>) -> Seq<Token>
    decreases tokens.len() - i,
{
    if i >= tokens.len() {
        unwind(out, stack, StopRule::Never).0
    } else {
        let t = tokens[i as int];
        match t {
            Token::Operand(_) => shunt(tokens, i + 1, out.push(t), stack),
            Token::Operator(op) => match op {
                Operator::BeginGroup => shunt(tokens, i + 1, out, stack.push(t)),
                Operator::EndGroup => {
                    let moved = unwind(out, stack, StopRule::AtBeginGroup);
                    let rest = if moved.1.len() > 0 {
                        moved.1.drop_last()
                    } else {
                        moved.1
                    };
                    shunt(tokens, i + 1, moved.0, rest)
                },
                Operator::Unary(_) => {
                    let moved = unwind(out, stack, StopRule::AtMost(token_precedence(t) as i32));
                    shunt(tokens, i + 1, moved.0, moved.1.push(t))
                },
                Operator::Binary(_) => {
                    let moved = unwind(out, stack, StopRule::Below(token_precedence(t) as i32));
                    shunt(tokens, i + 1, moved.0, moved.1.push(t))
                },
            },
        }
    }
}

/// The postfix order of the tokens `tokens`.
pub open spec fn to_postfix(tokens: Seq<Token>) -> Seq<Token> {
    shunt(tokens, 0, seq![], seq![])
}

fn is_expression_node_data_begin_group(data: &ExpressionNodeData) -> (r: bool)
    ensures
        r == (data@ matches Token::Operator(Operator::BeginGroup)),
{
    match data {
        ExpressionNodeData::Operand(_) => false,
        ExpressionNodeData::Operator(operator) => match operator {
            Operator::BeginGroup => true,
            _ => false,
        },
    }
}

fn get_expression_node_data_precedence(data: &ExpressionNodeData) -> (r: i32)
    ensures
        r == token_precedence(data@),
{
    match data {
        ExpressionNodeData::Operand(_) => 0,
        ExpressionNodeData::Operator(operator) => match operator {
            Operator::BeginGroup => 0,
            Operator::EndGroup => 0,
            Operator::Binary(BinaryOperator::Add) => 1,
            Operator::Binary(BinaryOperator::Sub) => 1,
            Operator::Binary(BinaryOperator::Mul) => 2,
            Operator::Binary(BinaryOperator::Div) => 2,
            Operator::Binary(BinaryOperator::Modulo) => 2,
            Operator::Unary(UnaryOperator::Minus) => 3,
        },
    }
}

/// Whether the stack top `data` stops the move under `rule`.
fn stop_if(data: &ExpressionNodeData, rule: StopRule) -> (r: bool)
    ensures
        r == stops(rule, data@),
{
    match rule {
        StopRule::AtBeginGroup => is_expression_node_data_begin_group(data),
        StopRule::AtMost(p) => get_expression_node_data_precedence(data) <= p,
        StopRule::Below(p) => get_expression_node_data_precedence(data) < p,
        StopRule::Never => false,
    }
}

/// Moves operators from the top of `stack` to `output` until `rule` stops it.
fn push_stack_to_infix(output: &mut Vec<ExpressionNodeData>, stack: &mut Vec<ExpressionNodeData>, rule: StopRule)
    ensures
        (tokens_view(final(output)@), tokens_view(final(stack)@)) == unwind(
            tokens_view(old(output)@),
            tokens_view(old(stack)@),
            rule,
        ),
{
    while stack.len() > 0 && !stop_if(&stack[stack.len() - 1], rule)
        invariant
            unwind(tokens_view(old(output)@), tokens_view(old(stack)@), rule) == unwind(
                tokens_view(output@),
                tokens_view(stack@),
                rule,
            ),
        decreases stack@.len(),
    {
        let ghost o = tokens_view(output@);
        let ghost st = tokens_view(stack@);
        match stack.pop() {
            Some(top) => {
                output.push(top);
            },
            None => {},
        }
        proof {
            assert(tokens_view(output@) =~= o.push(st.last()));
            assert(tokens_view(stack@) =~= st.drop_last());
        }
    }
}

/// The postfix form of an expression.
pub fn infix_to_postfix(node: &Infix) -> (r: Postfix)
    ensures
        r@ == to_postfix(node@),
{
    let mut output: Vec<ExpressionNodeData> = Vec::new();
    let mut stack: Vec<ExpressionNodeData> = Vec::new();
    let n = node.0.len();
    let mut i: usize = 0;
    proof {
        assert(tokens_view(output@) =~= Seq::<Token>::empty());
        assert(tokens_view(stack@) =~= Seq::<Token>::empty());
    }

    while i < n
        invariant
            n == node.0@.len(),
            i <= n,
            to_postfix(node@) == shunt(node@, i as nat, tokens_view(output@), tokens_view(stack@)),
        decreases n - i,
    {
        let ghost o = tokens_view(output@);
        let ghost st = tokens_view(stack@);
        let ghost t = node@[i as int];
        assert(t == node.0@[i as int]@);
        match &node.0[i] {
            ExpressionNodeData::Operand(operand) => {
                output.push(ExpressionNodeData::Operand(clone(operand)));
                proof {
                    assert(tokens_view(output@) =~= o.push(t));
                }
            },
            ExpressionNodeData::Operator(operator) => {
                match operator {
                    Operator::BeginGroup => {
                        stack.push(ExpressionNodeData::Operator(*operator));
                        proof {
                            assert(tokens_view(stack@) =~= st.push(t));
                        }
                    },
                    Operator::EndGroup => {
                        push_stack_to_infix(&mut output, &mut stack, StopRule::AtBeginGroup);
                        if stack.len() > 0 {
                            let ghost st2 = tokens_view(stack@);
                            stack.pop();
                            proof {
                                assert(tokens_view(stack@) =~= st2.drop_last());
                            }
                        }
                    },
                    Operator::Unary(_) => {
                        let p = get_expression_node_data_precedence(&node.0[i]);
                        push_stack_to_infix(&mut output, &mut stack, StopRule::AtMost(p));
                        let ghost st2 = tokens_view(stack@);
                        stack.push(ExpressionNodeData::Operator(*operator));
                        proof {
                            assert(tokens_view(stack@) =~= st2.push(t));
                        }
                    },
                    Operator::Binary(_) => {
                        let p = get_expression_node_data_precedence(&node.0[i]);
                        push_stack_to_infix(&mut output, &mut stack, StopRule::Below(p));
                        let ghost st2 = tokens_view(stack@);
                        stack.push(ExpressionNodeData::Operator(*operator));
                        proof {
                            assert(tokens_view(stack@) =~= st2.push(t));
                        }
                    },
                }
            },
        }
        i = i + 1;
    }
    push_stack_to_infix(&mut output, &mut stack, StopRule::Never);
    Postfix(output)
}

/// How evaluating a postfix form ends: with a value, with a division by
/// zero, or on a malformed form (an operator short of operands, a
/// parenthesis, or no operand at all).
pub enum Outcome {
    Value(Signed),
    DivisionByZero,
    Malformed,
}

/// A binary operation on the view, or `None` for a division by zero.
pub open spec fn apply_binary(op: BinaryOperator, lhs: Signed, rhs: Signed) -> Option<Signed> {
    match op {
        BinaryOperator::Add => Some(signed_add(lhs, rhs)),
        BinaryOperator::Sub => Some(signed_sub(lhs, rhs)),
        BinaryOperator::Mul => Some(signed_mul(lhs, rhs)),
        BinaryOperator::Div => if rhs.magnitude == 0 {
            None
        } else {
            Some(signed_div(lhs, rhs))
        },
        BinaryOperator::Modulo => if rhs.magnitude == 0 {
            None
        } else {
            Some(signed_rem(lhs, rhs))
        },
    }
}

/// Evaluation of `tokens` from position `i` on with the operand stack `stack`
/// (top at the end): an operand is pushed; an operator takes its operands
/// from the top and pushes its result; at the end the top is the value.
pub open spec fn run_postfix(tokens: Seq<Token>, i: nat, stack: Seq<Signed>) -> Outcome
    decreases tokens.len() - i,
{
    if i >= tokens.len() {
        if stack.len() > 0 {
            Outcome::Value(stack.last())
        } else {
            Outcome::Malformed
        }
    } else {
        match tokens[i as int] {
            Token::Operand(v) => run_postfix(tokens, i + 1, stack.push(v)),
            Token::Operator(op) => match op {
                Operator::Unary(_) => if stack.len() >= 1 {
                    run_postfix(tokens, i + 1, stack.drop_last().push(signed_negate(stack.last())))
                } else {
                    Outcome::Malformed
                },
                Operator::Binary(b) => if stack.len() >= 2 {
                    match apply_binary(b, stack[stack.len() - 2], stack.last()) {
                        Some(v) => run_postfix(
                            tokens,
                            i + 1,
                            stack.subrange(0, stack.len() - 2).push(v),
                        ),
                        None => Outcome::DivisionByZero,
                    }
                } else {
                    Outcome::Malformed
                },
                _ => Outcome::Malformed,
            },
        }
    }
}

/// How evaluating the postfix form `tokens` ends.
pub open spec fn postfix_outcome(tokens: Seq<Token>) -> Outcome {
    run_postfix(tokens, 0, seq![])
}

spec fn numbers_view(v: Seq<Number>) -> Seq<Signed> {
    v.map_values(|n: Number| n@)
}

/// Replaces the top of the stack by its negation; `false` on an empty stack.
fn do_op1(stack: &mut Vec<Number>) -> (r: bool)
    ensures
        r == (old(stack)@.len() >= 1),
        r ==> numbers_view(final(stack)@) == numbers_view(old(stack)@).drop_last().push(
            signed_negate(numbers_view(old(stack)@).last()),
        ),
{
    let ghost st = numbers_view(stack@);
    match stack.pop() {
        Some(number) => {
            stack.push(negate(&number));
            proof {
                assert(numbers_view(stack@) =~= st.drop_last().push(signed_negate(st.last())));
            }
            true
        },
        None => false,
    }
}

/// Replaces the two top numbers by the result of `op` on them (the lower one
/// on the left); `None` when there are fewer than two, `Some(Err(..))` on a
/// division by zero.
fn do_op2(stack: &mut Vec<Number>, op: BinaryOperator) -> (r: Option<Result<(), String>>)
    ensures
        ({
            let st = numbers_view(old(stack)@);
            if st.len() < 2 {
                r is None
            } else {
                match apply_binary(op, st[st.len() - 2], st.last()) {
                    Some(v) => r == Some(Ok::<(), String>(())) && numbers_view(final(stack)@) == st.subrange(
                        0,
                        st.len() - 2,
                    ).push(v),
                    None => r matches Some(Err(e)) && e@ == "division by zero"@,
                }
            }
        }),
{
    let ghost st = numbers_view(stack@);
    if stack.len() < 2 {
        return None;
    }
    let rhs = match stack.pop() {
        Some(rhs) => rhs,
        None => {
            return None;
        },
    };
    let lhs = match stack.pop() {
        Some(lhs) => lhs,
        None => {
            return None;
        },
    };
    proof {
        assert(numbers_view(stack@) =~= st.subrange(0, st.len() - 2));
    }
    let result = match op {
        BinaryOperator::Add => Ok(crate::my_bc::operators::add(&lhs, &rhs)),
        BinaryOperator::Sub => Ok(crate::my_bc::operators::sub(&lhs, &rhs)),
        BinaryOperator::Mul => Ok(crate::my_bc::operators::mul(&lhs, &rhs)),
        BinaryOperator::Div => div(&lhs, &rhs),
        BinaryOperator::Modulo => modulo(&lhs, &rhs),
    };
    match result {
        Ok(result) => {
            let ghost below = numbers_view(stack@);
            stack.push(result);
            proof {
                assert(numbers_view(stack@) =~= below.push(result@));
            }
            Some(Ok(()))
        },
        Err(err) => Some(Err(err)),
    }
}

/// Applies an operator of a postfix form to the stack; `None` when the form
/// is malformed there.
fn do_op(stack: &mut Vec<Number>, op: &Operator) -> (r: Option<Result<(), String>>)
    ensures
        ({
            let st = numbers_view(old(stack)@);
            match *op {
                Operator::Unary(_) => if st.len() >= 1 {
                    r == Some(Ok::<(), String>(())) && numbers_view(final(stack)@) == st.drop_last().push(
                        signed_negate(st.last()),
                    )
                } else {
                    r is None
                },
                Operator::Binary(b) => if st.len() < 2 {
                    r is None
                } else {
                    match apply_binary(b, st[st.len() - 2], st.last()) {
                        Some(v) => r == Some(Ok::<(), String>(())) && numbers_view(final(stack)@)
                            == st.subrange(0, st.len() - 2).push(v),
                        None => r matches Some(Err(e)) && e@ == "division by zero"@,
                    }
                },
                _ => r is None,
            }
        }),
{
    match op {
        Operator::BeginGroup => None,
        Operator::EndGroup => None,
        Operator::Unary(_) => {
            if do_op1(stack) {
                Some(Ok(()))
            } else {
                None
            }
        },
        Operator::Binary(op) => do_op2(stack, *op),
    }
}

/// The value of a postfix form, the message of a division by zero, or
/// `None` when the form is malformed.
pub fn checked_eval_postfix(node: &Postfix) -> (r: Option<Result<Number, String>>)
    ensures
        match postfix_outcome(node@) {
            Outcome::Value(v) => r matches Some(Ok(n)) && n@ == v,
            Outcome::DivisionByZero => r matches Some(Err(e)) && e@ == "division by zero"@,
            Outcome::Malformed => r is None,
        },
{
    let mut stack: Vec<Number> = Vec::new();
    let n = node.0.len();
    let mut i: usize = 0;
    proof {
        assert(numbers_view(stack@) =~= Seq::<Signed>::empty());
    }

    while i < n
        invariant
            n == node.0@.len(),
            i <= n,
            postfix_outcome(node@) == run_postfix(node@, i as nat, numbers_view(stack@)),
        decreases n - i,
    {
        let ghost st = numbers_view(stack@);
        assert(node@[i as int] == node.0@[i as int]@);
        match &node.0[i] {
            ExpressionNodeData::Operand(number) => {
                stack.push(clone(number));
                proof {
                    assert(numbers_view(stack@) =~= st.push(number@));
                }
            },
            ExpressionNodeData::Operator(op) => {
                match do_op(&mut stack, op) {
                    Some(Ok(())) => {},
                    Some(Err(err)) => {
                        return Some(Err(err));
                    },
                    None => {
                        return None;
                    },
                }
            },
        }
        i = i + 1;
    }
    match stack.pop() {
        Some(number) => Some(Ok(number)),
        None => None,
    }
}

/// The value of a postfix form, or the error "division by zero".
pub fn eval_postfix(node: &Postfix) -> (r: Result<Number, String>)
    requires
        !(postfix_outcome(node@) is Malformed),
    ensures
        match postfix_outcome(node@) {
            Outcome::Value(v) => r matches Ok(n) && n@ == v,
            Outcome::DivisionByZero => r matches Err(e) && e@ == "division by zero"@,
            Outcome::Malformed => false,
        },
{
    match checked_eval_postfix(node) {
        Some(result) => result,
        None => {
            proof {
                assert(false);
            }
            Err(String::new())
        },
    }
}

/// How evaluating an expression ends: with a value, with an error message,
/// on a malformed expression (see [`Outcome`]), or where reading slices the
/// text inside a character (see [`Stop`]).
pub enum Evaluation {
    Value(Signed),
    Error(Seq<char>),
    Malformed,
    InsideChar,
}

/// How evaluating the expression `expr`, with numbers in `base`, ends.
pub open spec fn evaluation(expr: Seq<char>, base: Seq<char>) -> Evaluation {
    match scan(expr, base, 0, State::ExpectOperand, 0) {
        Err(Stop::Error(e)) => Evaluation::Error(e),
        Err(Stop::InsideChar) => Evaluation::InsideChar,
        Ok(tokens) => match postfix_outcome(to_postfix(tokens)) {
            Outcome::Value(v) => Evaluation::Value(v),
            Outcome::DivisionByZero => Evaluation::Error("division by zero"@),
            Outcome::Malformed => Evaluation::Malformed,
        },
    }
}

/// Evaluates `expression`, or `None` where the evaluation panics: on a
/// malformed expression, or where reading slices the text inside a character.
pub fn checked_eval_base(expression: &str, base: &str) -> (r: Option<Result<Number, String>>)
    requires
        utf8_len(base@) <= usize::MAX,
    ensures
        match evaluation(expression@, base@) {
            Evaluation::Value(v) => r matches Some(Ok(n)) && n@ == v,
            Evaluation::Error(m) => r matches Some(Err(e)) && e@ == m,
            Evaluation::Malformed => r is None,
            Evaluation::InsideChar => r is None,
        },
{
    match read_infix(expression, base) {
        Some(Ok(infix)) => checked_eval_postfix(&infix_to_postfix(&infix)),
        Some(Err(err)) => Some(Err(err)),
        None => None,
    }
}

/// The value of `expression`, whose numbers are written in `base`, or the
/// message of its error.
pub fn eval_base(expression: &str, base: &str) -> (r: Result<Number, String>)
    requires
        utf8_len(base@) <= usize::MAX,
        !(evaluation(expression@, base@) is Malformed),
        !(evaluation(expression@, base@) is InsideChar),
    ensures
        match evaluation(expression@, base@) {
            Evaluation::Value(v) => r matches Ok(n) && n@ == v,
            Evaluation::Error(m) => r matches Err(e) && e@ == m,
            Evaluation::Malformed => false,
            Evaluation::InsideChar => false,
        },
{
    match parse_infix(expression, base) {
        Ok(infix) => eval_postfix(&infix_to_postfix(&infix)),
        Err(err) => Err(err),
    }
}

/// `checked_eval_base` in base ten.
pub fn checked_eval(expression: &str) -> (r: Option<Result<Number, String>>)
    ensures
        match evaluation(expression@, BASE_10@) {
            Evaluation::Value(v) => r matches Some(Ok(n)) && n@ == v,
            Evaluation::Error(m) => r matches Some(Err(e)) && e@ == m,
            Evaluation::Malformed => r is None,
            Evaluation::InsideChar => r is None,
        },
{
    proof {
        reveal_strlit("0123456789");
        lemma_ascii_utf8_len(BASE_10@);
    }
    checked_eval_base(expression, BASE_10)
}

/// `eval_base` in base ten.
pub fn eval(expression: &str) -> (r: Result<Number, String>)
    requires
        !(evaluation(expression@, BASE_10@) is Malformed),
        !(evaluation(expression@, BASE_10@) is InsideChar),
    ensures
        match evaluation(expression@, BASE_10@) {
            Evaluation::Value(v) => r matches Ok(n) && n@ == v,
            Evaluation::Error(m) => r matches Err(e) && e@ == m,
            Evaluation::Malformed => false,
            Evaluation::InsideChar => false,
        },
{
    proof {
        reveal_strlit("0123456789");
        lemma_ascii_utf8_len(BASE_10@);
    }
    eval_base(expression, BASE_10)
}

} // verus!
