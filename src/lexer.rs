use vstd::prelude::*;

use crate::error::CMapError;
use crate::text::{push_char, scalar_char};

verus! {

broadcast use vstd::std_specs::vec::axiom_vec_index_decreases;

/// The abstract form of a token.
pub enum Token {
    LiteralString(Seq<u8>),
    Name(Seq<u8>),
    Number(Seq<char>),
    Integer(i64),
    Array(Seq<Token>),
    Operator(Seq<char>),
    Boolean(bool),
    Dictionary(Seq<(Seq<u8>, Token)>),
}

/// A token of the CMap grammar.
#[derive(Debug)]
pub enum Value {
    LiteralString(Vec<u8>),
    Name(Vec<u8>),
    Number(String),
    Integer(i64),
    Array(Vec<Value>),
    Operator(String),
    Boolean(bool),
    Dictionary(Vec<(Vec<u8>, Value)>),
}

/// The abstract form of a token.
pub open spec fn token_of(v: Value) -> Token
    decreases v,
{
    match v {
        Value::LiteralString(s) => Token::LiteralString(s@),
        Value::Name(s) => Token::Name(s@),
        Value::Number(s) => Token::Number(s@),
        Value::Integer(i) => Token::Integer(i),
        Value::Array(a) => Token::Array(
            Seq::new(a.len() as nat, |i: int| if 0 <= i < a.len() { token_of(a[i]) } else { Token::Boolean(false) }),
        ),
        Value::Operator(s) => Token::Operator(s@),
        Value::Boolean(b) => Token::Boolean(b),
        Value::Dictionary(d) => Token::Dictionary(
            Seq::new(d.len() as nat, |i: int| if 0 <= i < d.len() { (d[i].0@, token_of(d[i].1)) } else { (Seq::empty(), Token::Boolean(false)) }),
        ),
    }
}

/// The name of a token's kind, as type errors report it.
pub open spec fn kind_name(t: Token) -> Seq<char> {
    match t {
        Token::LiteralString(_) => "LiteralString"@,
        Token::Name(_) => "Name"@,
        Token::Number(_) => "Number"@,
        Token::Integer(_) => "Integer"@,
        Token::Array(_) => "Array"@,
        Token::Operator(_) => "Operator"@,
        Token::Boolean(_) => "Boolean"@,
        Token::Dictionary(_) => "Dictionary"@,
    }
}

impl Value {
    /// The bytes of a literal or hexadecimal string token.
    pub fn as_literal_string(&self) -> (r: Result<&[u8], CMapError>)
        ensures
            match token_of(*self) {
                Token::LiteralString(s) => r matches Ok(x) && x@ == s,
                _ => r matches Err(CMapError::CMapType { expected, found }) && expected@
                    == "LiteralString"@ && found@ == kind_name(token_of(*self)),
            },
    {
        match self {
            Value::LiteralString(s) => Ok(s.as_slice()),
            _ => self.expect_type("LiteralString"),
        }
    }

    /// The bytes of a name token.
    pub fn as_name(&self) -> (r: Result<&[u8], CMapError>)
        ensures
            match token_of(*self) {
                Token::Name(s) => r matches Ok(x) && x@ == s,
                _ => r matches Err(CMapError::CMapType { expected, found }) && expected@ == "Name"@
                    && found@ == kind_name(token_of(*self)),
            },
    {
        match self {
            Value::Name(s) => Ok(s.as_slice()),
            _ => self.expect_type("Name"),
        }
    }

    /// The value of an integer token.
    pub fn as_integer(&self) -> (r: Result<i64, CMapError>)
        ensures
            match token_of(*self) {
                Token::Integer(i) => r == Ok::<i64, CMapError>(i),
                _ => r matches Err(CMapError::CMapType { expected, found }) && expected@
                    == "Integer"@ && found@ == kind_name(token_of(*self)),
            },
    {
        match self {
            Value::Integer(i) => Ok(*i),
            _ => self.expect_type("Integer"),
        }
    }

    /// The type error that this token gives where a token of another kind was expected.
    pub fn expect_type<T>(&self, expected: &'static str) -> (r: Result<T, CMapError>)
        ensures
            r matches Err(CMapError::CMapType { expected: e, found }) && e == expected && found@
                == kind_name(token_of(*self)),
    {
        Err(CMapError::CMapType { expected, found: self.get_type() })
    }

    /// The name of this token's kind.
    pub fn get_type(&self) -> (r: &'static str)
        ensures
            r@ == kind_name(token_of(*self)),
    {
        match self {
            Value::LiteralString(_) => "LiteralString",
            Value::Name(_) => "Name",
            Value::Number(_) => "Number",
            Value::Integer(_) => "Integer",
            Value::Array(_) => "Array",
            Value::Operator(_) => "Operator",
            Value::Boolean(_) => "Boolean",
            Value::Dictionary(_) => "Dictionary",
        }
    }
}

/// The abstract forms of a list of tokens.
pub open spec fn tokens_of(v: Seq<Value>) -> Seq<Token> {
    v.map_values(|x: Value| token_of(x))
}

pub open spec fn is_space(c: u8) -> bool {
    c == 32 || c == 9 || c == 10 || c == 13 || c == 0 || c == 12
}

pub open spec fn is_digit(c: u8) -> bool {
    48 <= c && c <= 57
}

pub open spec fn is_oct(c: u8) -> bool {
    48 <= c && c <= 55
}

pub open spec fn is_hex(c: u8) -> bool {
    is_digit(c) || (65 <= c && c <= 70) || (97 <= c && c <= 102)
}

pub open spec fn hex_digit(c: u8) -> u8 {
    if is_digit(c) {
        (c - 48) as u8
    } else if 65 <= c && c <= 70 {
        (c - 55) as u8
    } else {
        (c - 87) as u8
    }
}

pub open spec fn is_operator_byte(c: u8) -> bool {
    (65 <= c && c <= 90) || (97 <= c && c <= 122) || c == 42 || c == 39 || c == 34
}

/// Bytes that end a name: whitespace, delimiters, `%` and `#`.
pub open spec fn is_name_end(c: u8) -> bool {
    c == 32 || c == 9 || c == 10 || c == 13 || c == 12 || c == 40 || c == 41 || c == 60 || c == 62
        || c == 91 || c == 93 || c == 123 || c == 125 || c == 47 || c == 37 || c == 35
}

/// ASCII bytes as characters.
pub open spec fn ascii_chars(s: Seq<u8>) -> Seq<char> {
    s.map_values(|c: u8| (c as u32) as char)
}

/// The position after whitespace and comments from `p`; `in_comment` says whether `p` lies
/// inside a comment, which a line break ends.
pub open spec fn skip(b: Seq<u8>, p: int, in_comment: bool) -> int
    decreases b.len() - p,
{
    if p < 0 || p >= b.len() {
        p
    } else if in_comment {
        skip(b, p + 1, !(b[p] == 10 || b[p] == 13))
    } else if is_space(b[p]) {
        skip(b, p + 1, false)
    } else if b[p] == 37 {
        skip(b, p + 1, true)
    } else {
        p
    }
}

/// The bytes of a name after its `/`, with `#xx` read as one byte, and where it ends.
pub open spec fn name_body(b: Seq<u8>, p: int) -> (Seq<u8>, int)
    decreases b.len() - p,
{
    if p < 0 || p >= b.len() {
        (Seq::empty(), p)
    } else if b[p] == 35 {
        if p + 2 < b.len() && is_hex(b[p + 1]) && is_hex(b[p + 2]) {
            let r = name_body(b, p + 3);
            (seq![(hex_digit(b[p + 1]) * 16 + hex_digit(b[p + 2])) as u8] + r.0, r.1)
        } else {
            (Seq::empty(), p)
        }
    } else if is_name_end(b[p]) {
        (Seq::empty(), p)
    } else {
        let r = name_body(b, p + 1);
        (seq![b[p]] + r.0, r.1)
    }
}

/// The bytes of a hexadecimal string after its `<`, and the position after its `>`.
pub open spec fn hex_body(b: Seq<u8>, p: int) -> Option<(Seq<u8>, int)>
    decreases b.len() - p,
{
    if p < 0 || p >= b.len() {
        None
    } else if b[p] == 62 {
        Some((Seq::empty(), p + 1))
    } else if p + 1 < b.len() && is_hex(b[p]) && is_hex(b[p + 1]) {
        match hex_body(b, p + 2) {
            Some(r) => Some((seq![(hex_digit(b[p]) * 16 + hex_digit(b[p + 1])) as u8] + r.0, r.1)),
            None => None,
        }
    } else {
        None
    }
}

/// The end of the run of operator bytes from `p`.
pub open spec fn operator_end(b: Seq<u8>, p: int) -> int
    decreases b.len() - p,
{
    if 0 <= p < b.len() && is_operator_byte(b[p]) {
        operator_end(b, p + 1)
    } else {
        p
    }
}

/// How many octal digits, at most three, stand from `p`.
pub open spec fn oct_len(b: Seq<u8>, p: int) -> int {
    if p + 1 < b.len() && is_oct(b[p + 1]) {
        if p + 2 < b.len() && is_oct(b[p + 2]) {
            3
        } else {
            2
        }
    } else {
        1
    }
}

/// The value of the `n` octal digits from `p`.
pub open spec fn oct_value(b: Seq<u8>, p: int, n: int) -> int
    decreases n,
{
    if n <= 0 {
        0
    } else {
        oct_value(b, p, n - 1) * 8 + (b[p + n - 1] - 48)
    }
}

/// What an escape gives, `p` standing just after the backslash, and where it ends.
pub open spec fn escape(b: Seq<u8>, p: int) -> (Seq<u8>, int) {
    if p < 0 || p >= b.len() {
        (Seq::empty(), p)
    } else {
        let c = b[p];
        if c == 92 || c == 40 || c == 41 {
            (seq![c], p + 1)
        } else if c == 110 {
            (seq![10u8], p + 1)
        } else if c == 114 {
            (seq![13u8], p + 1)
        } else if c == 116 {
            (seq![9u8], p + 1)
        } else if c == 98 {
            (seq![8u8], p + 1)
        } else if c == 102 {
            (seq![12u8], p + 1)
        } else if is_oct(c) {
            let n = oct_len(b, p);
            let v = oct_value(b, p, n);
            if v <= 255 {
                (seq![v as u8], p + n)
            } else {
                (Seq::empty(), p)
            }
        } else if c == 13 {
            if p + 1 < b.len() && b[p + 1] == 10 {
                (Seq::empty(), p + 2)
            } else {
                (Seq::empty(), p + 1)
            }
        } else if c == 10 {
            (Seq::empty(), p + 1)
        } else {
            (Seq::empty(), p)
        }
    }
}

/// The bytes of a literal string from `p`, inside `depth` open nested parentheses, and the
/// position after the `)` that closes it. Nested parentheses are kept.
pub open spec fn string_body(b: Seq<u8>, p: int, depth: nat) -> Option<(Seq<u8>, int)>
    decreases b.len() - p,
{
    if p < 0 || p >= b.len() {
        None
    } else {
        let c = b[p];
        let step: (Seq<u8>, int, nat) = if c == 41 {
            (seq![41u8], p + 1, (depth - 1) as nat)
        } else if c == 40 {
            (seq![40u8], p + 1, depth + 1)
        } else if c == 92 {
            let e = escape(b, p + 1);
            (e.0, e.1, depth)
        } else {
            (seq![c], p + 1, depth)
        };
        if c == 41 && depth == 0 {
            Some((Seq::empty(), p + 1))
        } else if step.1 <= p {
            None
        } else {
            match string_body(b, step.1, step.2) {
                Some(r) => Some((step.0 + r.0, r.1)),
                None => None,
            }
        }
    }
}

/// The end of the run of decimal digits from `p`.
pub open spec fn digits_end(b: Seq<u8>, p: int) -> int
    decreases b.len() - p,
{
    if 0 <= p < b.len() && is_digit(b[p]) {
        digits_end(b, p + 1)
    } else {
        p
    }
}

/// The value of a run of decimal digits.
pub open spec fn dec_value(s: Seq<u8>) -> nat
    decreases s.len(),
{
    if s.len() == 0 {
        0
    } else {
        dec_value(s.drop_last()) * 10 + (s.last() - 48) as nat
    }
}

/// One more than the largest `i64`.
pub const I64_LIMIT: u128 = 0x8000_0000_0000_0000;

/// A number from `p`: an integer where it has no point and fits in `i64`, else its text.
pub open spec fn number(b: Seq<u8>, p: int) -> Option<(Token, int)> {
    let s = if 0 <= p < b.len() && (b[p] == 43 || b[p] == 45) {
        p + 1
    } else {
        p
    };
    if 0 <= s < b.len() && is_digit(b[s]) {
        let e = digits_end(b, s);
        if e < b.len() && b[e] == 46 {
            let f = digits_end(b, e + 1);
            Some((Token::Number(ascii_chars(b.subrange(p, f))), f))
        } else {
            let v = dec_value(b.subrange(s, e));
            if s > p && b[p] == 45 && v <= I64_LIMIT {
                Some((Token::Integer((0 - v) as i64), e))
            } else if !(s > p && b[p] == 45) && v < I64_LIMIT {
                Some((Token::Integer(v as i64), e))
            } else {
                Some((Token::Number(ascii_chars(b.subrange(p, e))), e))
            }
        }
    } else if 0 <= s && s + 1 < b.len() && b[s] == 46 && is_digit(b[s + 1]) {
        let f = digits_end(b, s + 1);
        Some((Token::Number(ascii_chars(b.subrange(p, f))), f))
    } else {
        None
    }
}

/// Whether `q` lies after `p` and within the input. Each token takes at least one byte, so
/// this holds wherever the grammar goes on after a token; it bounds the recursion.
pub open spec fn forward(b: Seq<u8>, p: int, q: int) -> bool {
    p < q && q <= b.len()
}

/// Whether the bytes from `p` begin with `w`.
pub open spec fn starts_with(b: Seq<u8>, p: int, w: Seq<u8>) -> bool {
    0 <= p && p + w.len() <= b.len() && b.subrange(p, p + w.len()) == w
}

/// One token from `p`, and the position after it and the whitespace that follows.
pub open spec fn value(b: Seq<u8>, p: int) -> Option<(Token, int)>
    decreases b.len() - p, 0int,
{
    if p < 0 || p >= b.len() {
        None
    } else {
        let c = b[p];
        if starts_with(b, p, seq![116u8, 114, 117, 101]) {
            Some((Token::Boolean(true), skip(b, p + 4, false)))
        } else if starts_with(b, p, seq![102u8, 97, 108, 115, 101]) {
            Some((Token::Boolean(false), skip(b, p + 5, false)))
        } else if c == 43 || c == 45 || c == 46 || is_digit(c) {
            match number(b, p) {
                Some(r) => Some((r.0, skip(b, r.1, false))),
                None => None,
            }
        } else if c == 47 {
            let r = name_body(b, p + 1);
            Some((Token::Name(r.0), skip(b, r.1, false)))
        } else if is_operator_byte(c) {
            let e = operator_end(b, p);
            Some((Token::Operator(ascii_chars(b.subrange(p, e))), skip(b, e, false)))
        } else if c == 40 {
            match string_body(b, p + 1, 0) {
                Some(r) => Some((Token::LiteralString(r.0), skip(b, r.1, false))),
                None => None,
            }
        } else if c == 60 && p + 1 < b.len() && b[p + 1] == 60 {
            let q = skip(b, p + 2, false);
            if !forward(b, p, q) {
                None
            } else {
                match dict_items(b, q) {
                    Some(r) => Some((Token::Dictionary(r.0), r.1)),
                    None => None,
                }
            }
        } else if c == 60 {
            match hex_body(b, p + 1) {
                Some(r) => Some((Token::LiteralString(r.0), skip(b, r.1, false))),
                None => None,
            }
        } else if c == 91 {
            let q = skip(b, p + 1, false);
            if !forward(b, p, q) {
                None
            } else {
                match array_items(b, q) {
                    Some(r) => Some((Token::Array(r.0), r.1)),
                    None => None,
                }
            }
        } else {
            None
        }
    }
}

/// The items of an array from `p` up to its `]`, and the position after it and the
/// whitespace that follows.
pub open spec fn array_items(b: Seq<u8>, p: int) -> Option<(Seq<Token>, int)>
    decreases b.len() - p, 1int,
{
    if p < 0 || p >= b.len() {
        None
    } else if b[p] == 93 {
        Some((Seq::empty(), skip(b, p + 1, false)))
    } else {
        match value(b, p) {
            Some(v) => if !forward(b, p, v.1) {
                None
            } else {
                match array_items(b, v.1) {
                    Some(r) => Some((seq![v.0] + r.0, r.1)),
                    None => None,
                }
            },
            None => None,
        }
    }
}

/// The entries of a dictionary from `p` up to its `>>`, and the position after it and the
/// whitespace that follows.
pub open spec fn dict_items(b: Seq<u8>, p: int) -> Option<(Seq<(Seq<u8>, Token)>, int)>
    decreases b.len() - p, 1int,
{
    if p < 0 || p >= b.len() {
        None
    } else if b[p] == 62 {
        if p + 1 < b.len() && b[p + 1] == 62 {
            Some((Seq::empty(), skip(b, p + 2, false)))
        } else {
            None
        }
    } else if b[p] == 47 {
        let k = name_body(b, p + 1);
        let q = skip(b, k.1, false);
        if !forward(b, p, q) {
            None
        } else {
            match value(b, q) {
                Some(v) => if !forward(b, p, v.1) {
                    None
                } else {
                    match dict_items(b, v.1) {
                        Some(r) => Some((seq![(k.0, v.0)] + r.0, r.1)),
                        None => None,
                    }
                },
                None => None,
            }
        }
    } else {
        None
    }
}

/// The tokens from `p` to the end of the input.
pub open spec fn items(b: Seq<u8>, p: int) -> Option<Seq<Token>>
    decreases b.len() - p,
{
    if p < 0 || p >= b.len() {
        Some(Seq::empty())
    } else {
        match value(b, p) {
            Some(v) => if !forward(b, p, v.1) {
                None
            } else {
                match items(b, v.1) {
                    Some(r) => Some(seq![v.0] + r),
                    None => None,
                }
            },
            None => None,
        }
    }
}

/// The tokens of a whole input, if it follows the grammar throughout.
pub open spec fn lex(b: Seq<u8>) -> Option<Seq<Token>> {
    items(b, skip(b, 0, false))
}

/// The abstract forms of dictionary entries.
pub open spec fn entries_of(d: Seq<(Vec<u8>, Value)>) -> Seq<(Seq<u8>, Token)> {
    d.map_values(|e: (Vec<u8>, Value)| (e.0@, token_of(e.1)))
}

fn space_byte(c: u8) -> (r: bool)
    ensures
        r == is_space(c),
{
    c == 32 || c == 9 || c == 10 || c == 13 || c == 0 || c == 12
}

fn digit_byte(c: u8) -> (r: bool)
    ensures
        r == is_digit(c),
{
    48 <= c && c <= 57
}

fn oct_byte(c: u8) -> (r: bool)
    ensures
        r == is_oct(c),
{
    48 <= c && c <= 55
}

fn hex_byte(c: u8) -> (r: bool)
    ensures
        r == is_hex(c),
{
    (48 <= c && c <= 57) || (65 <= c && c <= 70) || (97 <= c && c <= 102)
}

fn hex_pair(hi: u8, lo: u8) -> (r: u8)
    requires
        is_hex(hi),
        is_hex(lo),
    ensures
        r == (hex_digit(hi) * 16 + hex_digit(lo)) as u8,
{
    let h = if hi <= 57 {
        hi - 48
    } else if hi <= 70 {
        hi - 55
    } else {
        hi - 87
    };
    let l = if lo <= 57 {
        lo - 48
    } else if lo <= 70 {
        lo - 55
    } else {
        lo - 87
    };
    h * 16 + l
}

fn operator_byte(c: u8) -> (r: bool)
    ensures
        r == is_operator_byte(c),
{
    (65 <= c && c <= 90) || (97 <= c && c <= 122) || c == 42 || c == 39 || c == 34
}

/// Whether a name stops at `i`: a delimiter, or a `#` without two hex digits after it.
fn name_stops(b: &[u8], i: usize) -> (r: bool)
    requires
        i < b@.len(),
    ensures
        r == (if b@[i as int] == 35 {
            !(i + 2 < b@.len() && is_hex(b@[i + 1]) && is_hex(b@[i + 2]))
        } else {
            is_name_end(b@[i as int])
        }),
{
    let c = b[i];
    if c == 35 {
        !(b.len() - i > 2 && hex_byte(b[i + 1]) && hex_byte(b[i + 2]))
    } else {
        c == 32 || c == 9 || c == 10 || c == 13 || c == 12 || c == 40 || c == 41 || c == 60
            || c == 62 || c == 91 || c == 93 || c == 123 || c == 125 || c == 47 || c == 37
    }
}

/// Whether whitespace or a comment goes on at `i`.
fn skip_goes_on(b: &[u8], i: usize, in_comment: bool) -> (r: bool)
    requires
        i <= b@.len(),
    ensures
        r == (i < b@.len() && (in_comment || is_space(b@[i as int]) || b@[i as int] == 37)),
{
    i < b.len() && (in_comment || space_byte(b[i]) || b[i] == 37)
}

/// Skips whitespace and comments.
fn skip_space(b: &[u8], p: usize) -> (r: usize)
    requires
        p <= b@.len(),
    ensures
        r as int == skip(b@, p as int, false),
        p <= r <= b@.len(),
{
    let mut i = p;
    let mut in_comment = false;
    while skip_goes_on(b, i, in_comment)
        invariant
            p <= i <= b@.len(),
            skip(b@, p as int, false) == skip(b@, i as int, in_comment),
        decreases b@.len() - i,
    {
        if in_comment {
            in_comment = !(b[i] == 10 || b[i] == 13);
        } else if b[i] == 37 {
            in_comment = true;
        }
        i = i + 1;
    }
    i
}

/// Reads the body of a name.
fn lex_name(b: &[u8], p: usize) -> (r: (Vec<u8>, usize))
    requires
        p <= b@.len(),
    ensures
        (r.0@, r.1 as int) == name_body(b@, p as int),
        p <= r.1 <= b@.len(),
{
    let mut acc: Vec<u8> = Vec::new();
    let mut i = p;
    while i < b.len() && !name_stops(b, i)
        invariant
            p <= i <= b@.len(),
            name_body(b@, p as int) == (acc@ + name_body(b@, i as int).0, name_body(b@, i as int).1),
        decreases b@.len() - i,
    {
        let ghost before = acc@;
        if b[i] == 35 {
            acc.push(hex_pair(b[i + 1], b[i + 2]));
            assert(before + name_body(b@, i as int).0 == acc@ + name_body(b@, i + 3).0);
            i = i + 3;
        } else {
            acc.push(b[i]);
            assert(before + name_body(b@, i as int).0 == acc@ + name_body(b@, i + 1).0);
            i = i + 1;
        }
    }
    assert(acc@ + Seq::<u8>::empty() == acc@);
    (acc, i)
}

/// Reads the body of a hexadecimal string.
fn lex_hex(b: &[u8], p: usize) -> (r: Option<(Vec<u8>, usize)>)
    requires
        p <= b@.len(),
    ensures
        r matches Some(x) ==> hex_body(b@, p as int) == Some((x.0@, x.1 as int)) && p < x.1 <= b@.len(),
        r is None ==> hex_body(b@, p as int) is None,
{
    let mut acc: Vec<u8> = Vec::new();
    let mut i = p;
    while i < b.len() && b[i] != 62
        invariant
            p <= i <= b@.len(),
            hex_body(b@, p as int) == match hex_body(b@, i as int) {
                Some(x) => Some((acc@ + x.0, x.1)),
                None => None,
            },
        decreases b@.len() - i,
    {
        if !(i + 1 < b.len() && hex_byte(b[i]) && hex_byte(b[i + 1])) {
            return None;
        }
        let ghost before = acc@;
        acc.push(hex_pair(b[i], b[i + 1]));
        proof {
            match hex_body(b@, i + 2) {
                Some(x) => {
                    assert(before + (seq![acc@.last()] + x.0) == acc@ + x.0);
                },
                None => {},
            }
        }
        i = i + 2;
    }
    if i >= b.len() {
        return None;
    }
    assert(acc@ + Seq::<u8>::empty() == acc@);
    Some((acc, i + 1))
}

/// The end of the run of operator bytes from `p`.
fn operator_run_end(b: &[u8], p: usize) -> (r: usize)
    requires
        p <= b@.len(),
    ensures
        r as int == operator_end(b@, p as int),
        p <= r <= b@.len(),
        p < b@.len() && is_operator_byte(b@[p as int]) ==> p < r,
{
    let mut i = p;
    while i < b.len() && operator_byte(b[i])
        invariant
            p <= i <= b@.len(),
            operator_end(b@, p as int) == operator_end(b@, i as int),
        decreases b@.len() - i,
    {
        i = i + 1;
    }
    i
}

fn digit_run_end(b: &[u8], p: usize) -> (r: usize)
    requires
        p <= b@.len(),
    ensures
        r as int == digits_end(b@, p as int),
        p <= r <= b@.len(),
        p < b@.len() && is_digit(b@[p as int]) ==> p < r,
        forall|k: int| p <= k < r ==> is_digit(b@[k]),
{
    let mut i = p;
    while i < b.len() && digit_byte(b[i])
        invariant
            p <= i <= b@.len(),
            digits_end(b@, p as int) == digits_end(b@, i as int),
            forall|k: int| p <= k < i ==> is_digit(b@[k]),
        decreases b@.len() - i,
    {
        i = i + 1;
    }
    i
}

/// The text of ASCII bytes `s..e`.
fn ascii_string(b: &[u8], s: usize, e: usize) -> (r: String)
    requires
        s <= e <= b@.len(),
    ensures
        r@ == ascii_chars(b@.subrange(s as int, e as int)),
{
    let mut out = String::new();
    let mut i = s;
    while i < e
        invariant
            s <= i <= e <= b@.len(),
            out@ == ascii_chars(b@.subrange(s as int, i as int)),
        decreases e - i,
    {
        let c = scalar_char(b[i] as u32);
        let ch = c.unwrap();
        push_char(&mut out, ch);
        proof {
            vstd::utf8::char_u32_cast(ch, ch as u32);
            assert(b@.subrange(s as int, i + 1) == b@.subrange(s as int, i as int).push(b@[i as int]));
            assert(ascii_chars(b@.subrange(s as int, i + 1)) == ascii_chars(b@.subrange(s as int, i as int)).push(ch));
        }
        i = i + 1;
    }
    out
}

/// The value of the digits `s..e`, or `None` where it exceeds 2^63.
fn decimal_value(b: &[u8], s: usize, e: usize) -> (r: Option<u128>)
    requires
        s <= e <= b@.len(),
        forall|k: int| s <= k < e ==> is_digit(b@[k]),
    ensures
        r matches Some(v) ==> v == dec_value(b@.subrange(s as int, e as int)) && v <= I64_LIMIT,
        r is None ==> dec_value(b@.subrange(s as int, e as int)) > I64_LIMIT,
{
    let mut v: u128 = 0;
    let mut big = false;
    let mut i = s;
    while i < e
        invariant
            s <= i <= e <= b@.len(),
            forall|k: int| s <= k < e ==> is_digit(b@[k]),
            big ==> dec_value(b@.subrange(s as int, i as int)) > I64_LIMIT,
            !big ==> v == dec_value(b@.subrange(s as int, i as int)) && v <= I64_LIMIT,
        decreases e - i,
    {
        let ghost pre = b@.subrange(s as int, i as int);
        assert(b@.subrange(s as int, i + 1).drop_last() == pre);
        let d = (b[i] - 48) as u128;
        if !big {
            v = v * 10 + d;
            if v > 0x8000_0000_0000_0000 {
                big = true;
            }
        } else {
            assert(dec_value(pre) * 10 + d >= dec_value(pre)) by (nonlinear_arith);
        }
        i = i + 1;
    }
    if big {
        None
    } else {
        Some(v)
    }
}

/// Reads a number.
fn lex_number(b: &[u8], p: usize) -> (r: Option<(Value, usize)>)
    requires
        p < b@.len(),
    ensures
        r matches Some(x) ==> number(b@, p as int) == Some((token_of(x.0), x.1 as int)) && p < x.1 <= b@.len(),
        r is None ==> number(b@, p as int) is None,
{
    let s = if b[p] == 43 || b[p] == 45 {
        p + 1
    } else {
        p
    };
    if s < b.len() && digit_byte(b[s]) {
        let e = digit_run_end(b, s);
        if e < b.len() && b[e] == 46 {
            let f = digit_run_end(b, e + 1);
            return Some((Value::Number(ascii_string(b, p, f)), f));
        }
        let neg = s > p && b[p] == 45;
        match decimal_value(b, s, e) {
            Some(v) => {
                if neg {
                    let iv: i128 = 0 - (v as i128);
                    return Some((Value::Integer(iv as i64), e));
                } else if v < 0x8000_0000_0000_0000 {
                    return Some((Value::Integer(v as i64), e));
                }
            },
            None => {},
        }
        Some((Value::Number(ascii_string(b, p, e)), e))
    } else if s < b.len() && b.len() - s > 1 && b[s] == 46 && digit_byte(b[s + 1]) {
        let f = digit_run_end(b, s + 1);
        Some((Value::Number(ascii_string(b, p, f)), f))
    } else {
        None
    }
}

/// Reads an escape, `p` standing just after the backslash.
fn lex_escape(b: &[u8], p: usize) -> (r: (Option<u8>, usize))
    requires
        p <= b@.len(),
    ensures
        r.1 as int == escape(b@, p as int).1,
        escape(b@, p as int).0 == (match r.0 {
            Some(c) => seq![c],
            None => Seq::<u8>::empty(),
        }),
        p <= r.1 <= b@.len(),
{
    if p >= b.len() {
        return (None, p);
    }
    let c = b[p];
    if c == 92 || c == 40 || c == 41 {
        (Some(c), p + 1)
    } else if c == 110 {
        (Some(10), p + 1)
    } else if c == 114 {
        (Some(13), p + 1)
    } else if c == 116 {
        (Some(9), p + 1)
    } else if c == 98 {
        (Some(8), p + 1)
    } else if c == 102 {
        (Some(12), p + 1)
    } else if oct_byte(c) {
        let n: usize = if b.len() - p > 1 && oct_byte(b[p + 1]) {
            if b.len() - p > 2 && oct_byte(b[p + 2]) {
                3
            } else {
                2
            }
        } else {
            1
        };
        let mut v: u32 = 0;
        let mut k: usize = 0;
        while k < n
            invariant
                k <= n <= 3,
                p + n <= b.len(),
                n == oct_len(b@, p as int),
                forall|j: int| p <= j < p + n ==> is_oct(b@[j]),
                v as int == oct_value(b@, p as int, k as int),
                v as int <= (if k == 0 {
                    0int
                } else if k == 1 {
                    7
                } else if k == 2 {
                    63
                } else {
                    511
                }),
            decreases n - k,
        {
            let d = b[p + k];
            assert(is_oct(b@[p + k]));
            assert(48 <= d);
            v = v * 8 + (d - 48) as u32;
            k = k + 1;
        }
        if v <= 255 {
            (Some(v as u8), p + n)
        } else {
            (None, p)
        }
    } else if c == 13 {
        if b.len() - p > 1 && b[p + 1] == 10 {
            (None, p + 2)
        } else {
            (None, p + 1)
        }
    } else if c == 10 {
        (None, p + 1)
    } else {
        (None, p)
    }
}

/// Reads the body of a literal string, `p` standing just after its `(`.
fn lex_string(b: &[u8], p: usize) -> (r: Option<(Vec<u8>, usize)>)
    requires
        p <= b@.len(),
    ensures
        r matches Some(x) ==> string_body(b@, p as int, 0) == Some((x.0@, x.1 as int)) && p < x.1 <= b@.len(),
        r is None ==> string_body(b@, p as int, 0) is None,
{
    let mut acc: Vec<u8> = Vec::new();
    let mut i = p;
    let mut depth: usize = 0;
    while i < b.len() && !(b[i] == 41 && depth == 0)
        invariant
            p <= i <= b@.len(),
            depth <= i - p,
            string_body(b@, p as int, 0) == match string_body(b@, i as int, depth as nat) {
                Some(x) => Some((acc@ + x.0, x.1)),
                None => None,
            },
        decreases b@.len() - i,
    {
        let ghost before = acc@;
        let ghost d = depth;
        let c = b[i];
        if c == 41 {
            acc.push(41);
            depth = depth - 1;
            i = i + 1;
        } else if c == 40 {
            acc.push(40);
            depth = depth + 1;
            i = i + 1;
        } else if c == 92 {
            let (e, q) = lex_escape(b, i + 1);
            if let Some(x) = e {
                acc.push(x);
            }
            i = q;
        } else {
            acc.push(c);
            i = i + 1;
        }
        proof {
            let step = acc@.subrange(before.len() as int, acc@.len() as int);
            assert(acc@ == before + step);
            match string_body(b@, i as int, depth as nat) {
                Some(x) => {
                    assert(before + (step + x.0) == acc@ + x.0);
                },
                None => {},
            }
        }
    }
    if i >= b.len() {
        return None;
    }
    assert(acc@ + Seq::<u8>::empty() == acc@);
    Some((acc, i + 1))
}

proof fn lemma_array_token(vs: Vec<Value>)
    ensures
        token_of(Value::Array(vs)) == Token::Array(tokens_of(vs@)),
{
    let t = token_of(Value::Array(vs));
    assert(t->Array_0 =~= tokens_of(vs@));
}

proof fn lemma_dict_token(d: Vec<(Vec<u8>, Value)>)
    ensures
        token_of(Value::Dictionary(d)) == Token::Dictionary(entries_of(d@)),
{
    let t = token_of(Value::Dictionary(d));
    assert(t->Dictionary_0 =~= entries_of(d@));
}

/// Reads one token and the whitespace after it.
fn lex_value(b: &[u8], p: usize) -> (r: Option<(Value, usize)>)
    requires
        p <= b@.len(),
    ensures
        r matches Some(x) ==> value(b@, p as int) == Some((token_of(x.0), x.1 as int)) && p < x.1 <= b@.len(),
        r is None ==> value(b@, p as int) is None,
    decreases b@.len() - p, 0int,
{
    if p >= b.len() {
        return None;
    }
    let c = b[p];
    let n = b.len() - p;
    if n >= 4 && c == 116 && b[p + 1] == 114 && b[p + 2] == 117 && b[p + 3] == 101 {
        assert(b@.subrange(p as int, p + 4) =~= seq![116u8, 114, 117, 101]);
        return Some((Value::Boolean(true), skip_space(b, p + 4)));
    }
    if n >= 5 && c == 102 && b[p + 1] == 97 && b[p + 2] == 108 && b[p + 3] == 115 && b[p + 4] == 101 {
        assert(b@.subrange(p as int, p + 5) =~= seq![102u8, 97, 108, 115, 101]);
        return Some((Value::Boolean(false), skip_space(b, p + 5)));
    }
    proof {
        if n >= 4 && b@.subrange(p as int, p + 4) == seq![116u8, 114, 117, 101] {
            assert(b@.subrange(p as int, p + 4)[1] == b@[p + 1]);
            assert(b@.subrange(p as int, p + 4)[2] == b@[p + 2]);
            assert(b@.subrange(p as int, p + 4)[3] == b@[p + 3]);
        }
        if n >= 5 && b@.subrange(p as int, p + 5) == seq![102u8, 97, 108, 115, 101] {
            assert(b@.subrange(p as int, p + 5)[1] == b@[p + 1]);
            assert(b@.subrange(p as int, p + 5)[2] == b@[p + 2]);
            assert(b@.subrange(p as int, p + 5)[3] == b@[p + 3]);
            assert(b@.subrange(p as int, p + 5)[4] == b@[p + 4]);
        }
    }
    if c == 43 || c == 45 || c == 46 || digit_byte(c) {
        match lex_number(b, p) {
            Some((v, q)) => Some((v, skip_space(b, q))),
            None => None,
        }
    } else if c == 47 {
        let (name, q) = lex_name(b, p + 1);
        Some((Value::Name(name), skip_space(b, q)))
    } else if operator_byte(c) {
        let e = operator_run_end(b, p);
        Some((Value::Operator(ascii_string(b, p, e)), skip_space(b, e)))
    } else if c == 40 {
        match lex_string(b, p + 1) {
            Some((s, q)) => Some((Value::LiteralString(s), skip_space(b, q))),
            None => None,
        }
    } else if c == 60 && n > 1 && b[p + 1] == 60 {
        let q = skip_space(b, p + 2);
        match lex_dict(b, q) {
            Some((d, r)) => {
                proof {
                    lemma_dict_token(d);
                }
                Some((Value::Dictionary(d), r))
            },
            None => None,
        }
    } else if c == 60 {
        match lex_hex(b, p + 1) {
            Some((s, q)) => Some((Value::LiteralString(s), skip_space(b, q))),
            None => None,
        }
    } else if c == 91 {
        let q = skip_space(b, p + 1);
        match lex_array(b, q) {
            Some((a, r)) => {
                proof {
                    lemma_array_token(a);
                }
                Some((Value::Array(a), r))
            },
            None => None,
        }
    } else {
        None
    }
}

/// Reads the items of an array up to its `]` and the whitespace after it.
fn lex_array(b: &[u8], p: usize) -> (r: Option<(Vec<Value>, usize)>)
    requires
        p <= b@.len(),
    ensures
        r matches Some(x) ==> array_items(b@, p as int) == Some((tokens_of(x.0@), x.1 as int)) && p < x.1 <= b@.len(),
        r is None ==> array_items(b@, p as int) is None,
    decreases b@.len() - p, 1int,
{
    let mut acc: Vec<Value> = Vec::new();
    let mut i = p;
    assert(tokens_of(acc@) + Seq::<Token>::empty() == Seq::<Token>::empty());
    while i < b.len() && b[i] != 93
        invariant
            p <= i <= b@.len(),
            array_items(b@, p as int) == match array_items(b@, i as int) {
                Some(x) => Some((tokens_of(acc@) + x.0, x.1)),
                None => None,
            },
        decreases b@.len() - i,
    {
        match lex_value(b, i) {
            None => {
                return None;
            },
            Some((v, q)) => {
                let ghost before = tokens_of(acc@);
                acc.push(v);
                proof {
                    assert(tokens_of(acc@) == before.push(token_of(v)));
                    match array_items(b@, q as int) {
                        Some(x) => {
                            assert(before + (seq![token_of(v)] + x.0) == tokens_of(acc@) + x.0);
                        },
                        None => {},
                    }
                }
                i = q;
            },
        }
    }
    if i >= b.len() {
        return None;
    }
    assert(tokens_of(acc@) + Seq::<Token>::empty() == tokens_of(acc@));
    let q = skip_space(b, i + 1);
    Some((acc, q))
}

/// Reads the entries of a dictionary up to its `>>` and the whitespace after it.
fn lex_dict(b: &[u8], p: usize) -> (r: Option<(Vec<(Vec<u8>, Value)>, usize)>)
    requires
        p <= b@.len(),
    ensures
        r matches Some(x) ==> dict_items(b@, p as int) == Some((entries_of(x.0@), x.1 as int)) && p < x.1 <= b@.len(),
        r is None ==> dict_items(b@, p as int) is None,
    decreases b@.len() - p, 1int,
{
    let mut acc: Vec<(Vec<u8>, Value)> = Vec::new();
    let mut i = p;
    assert(entries_of(acc@) + Seq::<(Seq<u8>, Token)>::empty() == Seq::<(Seq<u8>, Token)>::empty());
    while i < b.len() && b[i] != 62
        invariant
            p <= i <= b@.len(),
            dict_items(b@, p as int) == match dict_items(b@, i as int) {
                Some(x) => Some((entries_of(acc@) + x.0, x.1)),
                None => None,
            },
        decreases b@.len() - i,
    {
        if b[i] != 47 {
            return None;
        }
        let (k, e) = lex_name(b, i + 1);
        let q = skip_space(b, e);
        match lex_value(b, q) {
            None => {
                return None;
            },
            Some((v, r)) => {
                let ghost before = entries_of(acc@);
                let ghost entry = (k@, token_of(v));
                acc.push((k, v));
                proof {
                    assert(entries_of(acc@) == before.push(entry));
                    match dict_items(b@, r as int) {
                        Some(x) => {
                            assert(before + (seq![entry] + x.0) == entries_of(acc@) + x.0);
                        },
                        None => {},
                    }
                }
                i = r;
            },
        }
    }
    if i >= b.len() || !(b.len() - i > 1 && b[i + 1] == 62) {
        return None;
    }
    assert(entries_of(acc@) + Seq::<(Seq<u8>, Token)>::empty() == entries_of(acc@));
    let q = skip_space(b, i + 2);
    Some((acc, q))
}

/// Splits an input into tokens; the whole input must follow the grammar.
pub fn lexer(input: &[u8]) -> (r: Result<Vec<Value>, CMapError>)
    ensures
        match lex(input@) {
            Some(ts) => r matches Ok(v) && tokens_of(v@) == ts,
            None => r == Err::<Vec<Value>, CMapError>(CMapError::Lexer),
        },
{
    let mut acc: Vec<Value> = Vec::new();
    let mut i = skip_space(input, 0);
    assert(tokens_of(acc@) + Seq::<Token>::empty() == Seq::<Token>::empty());
    while i < input.len()
        invariant
            i <= input@.len(),
            lex(input@) == match items(input@, i as int) {
                Some(ts) => Some(tokens_of(acc@) + ts),
                None => None,
            },
        decreases input@.len() - i,
    {
        match lex_value(input, i) {
            None => {
                return Err(CMapError::Lexer);
            },
            Some((v, q)) => {
                let ghost before = tokens_of(acc@);
                acc.push(v);
                proof {
                    assert(tokens_of(acc@) == before.push(token_of(v)));
                    match items(input@, q as int) {
                        Some(ts) => {
                            assert(before + (seq![token_of(v)] + ts) == tokens_of(acc@) + ts);
                        },
                        None => {},
                    }
                }
                i = q;
            },
        }
    }
    assert(tokens_of(acc@) + Seq::<Token>::empty() == tokens_of(acc@));
    Ok(acc)
}

} // verus!
