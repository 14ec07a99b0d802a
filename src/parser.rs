use vstd::prelude::*;

use crate::error::CMapError;
use crate::lexer::{ascii_chars, kind_name, lex, lexer, token_of, tokens_of, Token, Value};
use crate::text::{push_char, scalar_char, utf8_text};
use crate::{
    as_code,
    code_of,
    decoded_text,
    increment_code,
    incremented,
    swap_pairs,
    target_text,
    CMap,
    CMapRange,
    CodespaceRange,
    WritingMode,
};

verus! {

/// What a CMap holds, as the interpreter builds it.
pub struct CMapModel {
    pub name: Seq<char>,
    pub version: Seq<char>,
    pub cmap_type: i64,
    pub writing_mode: WritingMode,
    pub registry: Seq<char>,
    pub ordering: Seq<char>,
    pub supplement: u32,
    pub codespaces: Seq<CodespaceRange>,
    pub unicode: Map<u32, Seq<char>>,
    pub unicode_ranges: Seq<CMapRange>,
    pub cids: Map<u32, u32>,
    pub cid_ranges: Seq<CMapRange>,
}

/// The model of a CMap value.
pub open spec fn model_of(c: &CMap) -> CMapModel {
    CMapModel {
        name: c.name@,
        version: c.version@,
        cmap_type: c.cmap_type,
        writing_mode: c.writing_mode,
        registry: c.registry@,
        ordering: c.ordering@,
        supplement: c.supplement,
        codespaces: c.codespaces(),
        unicode: c.unicode_table(),
        unicode_ranges: c.unicode_ranges(),
        cids: c.cid_table(),
        cid_ranges: c.cid_ranges(),
    }
}

/// The model of a CMap before any token is read.
pub open spec fn empty_model() -> CMapModel {
    CMapModel {
        name: Seq::empty(),
        version: Seq::empty(),
        cmap_type: 0,
        writing_mode: WritingMode::Horizontally,
        registry: Seq::empty(),
        ordering: Seq::empty(),
        supplement: 0,
        codespaces: Seq::empty(),
        unicode: Map::empty(),
        unicode_ranges: Seq::empty(),
        cids: Map::empty(),
        cid_ranges: Seq::empty(),
    }
}

/// Why interpretation stops.
pub enum Failure {
    /// A token of another kind than the expected one: expected and found kind names.
    Type(Seq<char>, Seq<char>),
    /// An array of another length than the range needs: expected and found lengths.
    ArrayLength(usize, usize),
    /// Bytes that are not UTF-8 where text is read.
    Utf8,
    /// A mapping target holding a 16-bit unit that is half of a surrogate pair.
    Utf16(u16),
    /// A token needed before the start or past the end of the sequence.
    End,
}

/// Whether an error value reports a failure.
pub open spec fn reports(e: CMapError, f: Failure) -> bool {
    match f {
        Failure::Type(x, y) => e matches CMapError::CMapType { expected, found } && expected@ == x
            && found@ == y,
        Failure::ArrayLength(x, y) => e == CMapError::InvalidArrayLength { expected: x, found: y },
        Failure::Utf8 => e == CMapError::Utf8,
        Failure::Utf16(u) => e == CMapError::Utf16(u),
        Failure::End => e == CMapError::UnexpectedEnd,
    }
}

/// The token at `j`.
pub open spec fn tok(ts: Seq<Token>, j: int) -> Result<Token, Failure> {
    if 0 <= j < ts.len() {
        Ok(ts[j])
    } else {
        Err(Failure::End)
    }
}

/// The bytes of a literal or hexadecimal string token.
pub open spec fn lit(r: Result<Token, Failure>) -> Result<Seq<u8>, Failure> {
    match r {
        Ok(Token::LiteralString(s)) => Ok(s),
        Ok(t) => Err(Failure::Type("LiteralString"@, kind_name(t))),
        Err(f) => Err(f),
    }
}

/// The value of an integer token.
pub open spec fn int_of(r: Result<Token, Failure>) -> Result<i64, Failure> {
    match r {
        Ok(Token::Integer(i)) => Ok(i),
        Ok(t) => Err(Failure::Type("Integer"@, kind_name(t))),
        Err(f) => Err(f),
    }
}

/// The text that UTF-8 bytes encode.
pub open spec fn text(b: Seq<u8>) -> Result<Seq<char>, Failure> {
    if vstd::utf8::valid_utf8(b) {
        Ok(vstd::utf8::decode_utf8(b))
    } else {
        Err(Failure::Utf8)
    }
}

/// The text of a string that a mapping targets.
pub open spec fn target(b: Seq<u8>) -> Result<Seq<char>, Failure> {
    match decoded_text(swap_pairs(b)) {
        Ok(t) => Ok(t),
        Err(u) => Err(Failure::Utf16(u)),
    }
}

/// The decimal digits of a number.
pub open spec fn digits_of(n: nat) -> Seq<char>
    decreases n,
{
    if n < 10 {
        seq![((48 + n) as u32) as char]
    } else {
        digits_of(n / 10).push(((48 + n % 10) as u32) as char)
    }
}

/// An integer written in decimal, with a `-` before a negative one.
pub open spec fn decimal(v: int) -> Seq<char> {
    if v < 0 {
        seq!['-'] + digits_of((0 - v) as nat)
    } else {
        digits_of(v as nat)
    }
}

/// The block operators, each followed by a count of fixed-size groups.
#[derive(Clone, Copy)]
pub enum Block {
    BfChar,
    BfRange,
    CodespaceRange,
    CidChar,
    CidRange,
}

/// How many tokens one group of a block takes.
pub open spec fn arity(b: Block) -> nat {
    match b {
        Block::BfRange | Block::CidRange => 3,
        _ => 2,
    }
}

/// The metadata keys.
#[derive(Clone, Copy)]
pub enum Key {
    WMode,
    CMapName,
    CMapVersion,
    CMapType,
    Registry,
    Ordering,
    Supplement,
}

/// The bytes of `beginbfchar`.
pub open spec fn word_beginbfchar() -> Seq<u8> {
    seq![98u8, 101, 103, 105, 110, 98, 102, 99, 104, 97, 114]
}

/// The bytes of `beginbfrange`.
pub open spec fn word_beginbfrange() -> Seq<u8> {
    seq![98u8, 101, 103, 105, 110, 98, 102, 114, 97, 110, 103, 101]
}

/// The bytes of `begincodespacerange`.
pub open spec fn word_begincodespacerange() -> Seq<u8> {
    seq![98u8, 101, 103, 105, 110, 99, 111, 100, 101, 115, 112, 97, 99, 101, 114, 97, 110, 103, 101]
}

/// The bytes of `begincidchar`.
pub open spec fn word_begincidchar() -> Seq<u8> {
    seq![98u8, 101, 103, 105, 110, 99, 105, 100, 99, 104, 97, 114]
}

/// The bytes of `begincidrange`.
pub open spec fn word_begincidrange() -> Seq<u8> {
    seq![98u8, 101, 103, 105, 110, 99, 105, 100, 114, 97, 110, 103, 101]
}

/// The bytes of `usecmap`.
pub open spec fn word_usecmap() -> Seq<u8> {
    seq![117u8, 115, 101, 99, 109, 97, 112]
}

/// The bytes of `endcmap`.
pub open spec fn word_endcmap() -> Seq<u8> {
    seq![101u8, 110, 100, 99, 109, 97, 112]
}

/// The bytes of `WMode`.
pub open spec fn word_wmode() -> Seq<u8> {
    seq![87u8, 77, 111, 100, 101]
}

/// The bytes of `CMapName`.
pub open spec fn word_cmap_name() -> Seq<u8> {
    seq![67u8, 77, 97, 112, 78, 97, 109, 101]
}

/// The bytes of `CMapVersion`.
pub open spec fn word_cmap_version() -> Seq<u8> {
    seq![67u8, 77, 97, 112, 86, 101, 114, 115, 105, 111, 110]
}

/// The bytes of `CMapType`.
pub open spec fn word_cmap_type() -> Seq<u8> {
    seq![67u8, 77, 97, 112, 84, 121, 112, 101]
}

/// The bytes of `Registry`.
pub open spec fn word_registry() -> Seq<u8> {
    seq![82u8, 101, 103, 105, 115, 116, 114, 121]
}

/// The bytes of `Ordering`.
pub open spec fn word_ordering() -> Seq<u8> {
    seq![79u8, 114, 100, 101, 114, 105, 110, 103]
}

/// The bytes of `Supplement`.
pub open spec fn word_supplement() -> Seq<u8> {
    seq![83u8, 117, 112, 112, 108, 101, 109, 101, 110, 116]
}

/// The block that an operator opens, if any.
pub open spec fn block_of(op: Seq<char>) -> Option<Block> {
    if op == ascii_chars(word_beginbfchar()) {
        Some(Block::BfChar)
    } else if op == ascii_chars(word_beginbfrange()) {
        Some(Block::BfRange)
    } else if op == ascii_chars(word_begincodespacerange()) {
        Some(Block::CodespaceRange)
    } else if op == ascii_chars(word_begincidchar()) {
        Some(Block::CidChar)
    } else if op == ascii_chars(word_begincidrange()) {
        Some(Block::CidRange)
    } else {
        None
    }
}

/// The metadata key that a name stands for, if any.
pub open spec fn key_of(n: Seq<u8>) -> Option<Key> {
    if n == word_wmode() {
        Some(Key::WMode)
    } else if n == word_cmap_name() {
        Some(Key::CMapName)
    } else if n == word_cmap_version() {
        Some(Key::CMapVersion)
    } else if n == word_cmap_type() {
        Some(Key::CMapType)
    } else if n == word_registry() {
        Some(Key::Registry)
    } else if n == word_ordering() {
        Some(Key::Ordering)
    } else if n == word_supplement() {
        Some(Key::Supplement)
    } else {
        None
    }
}

/// The number of codes from `lo` to `hi`, counted in 32 bits.
pub open spec fn span(lo: Seq<u8>, hi: Seq<u8>) -> usize {
    ((code_of(hi) - code_of(lo) + 1) % 0x1_0000_0000) as usize
}

/// The direct text entries that a `beginbfrange` array gives, from item `c` on, the code of
/// item `c` being `key`.
pub open spec fn array_entries(codes: Seq<Token>, c: int, key: Seq<u8>, m: CMapModel) -> Result<
    CMapModel,
    Failure,
>
    decreases codes.len() - c,
{
    if c < 0 || c >= codes.len() {
        Ok(m)
    } else {
        match lit(Ok(codes[c])) {
            Ok(s) => match target(s) {
                Ok(u) => array_entries(
                    codes,
                    c + 1,
                    incremented(key),
                    CMapModel { unicode: m.unicode.insert(code_of(key), u), ..m },
                ),
                Err(f) => Err(f),
            },
            Err(f) => Err(f),
        }
    }
}

/// One group of a block, its first token at `idx`.
pub open spec fn group(b: Block, ts: Seq<Token>, idx: int, m: CMapModel) -> Result<CMapModel, Failure> {
    match b {
        Block::BfChar => match lit(tok(ts, idx)) {
            Ok(code) => match tok(ts, idx + 1) {
                Ok(Token::LiteralString(o)) => match target(o) {
                    Ok(u) => Ok(CMapModel { unicode: m.unicode.insert(code_of(code), u), ..m }),
                    Err(f) => Err(f),
                },
                Ok(Token::Name(o)) => match text(o) {
                    Ok(u) => Ok(CMapModel { unicode: m.unicode.insert(code_of(code), u), ..m }),
                    Err(f) => Err(f),
                },
                Ok(t) => Err(Failure::Type("Literal String or Name"@, kind_name(t))),
                Err(f) => Err(f),
            },
            Err(f) => Err(f),
        },
        Block::BfRange => match lit(tok(ts, idx)) {
            Ok(lo) => match lit(tok(ts, idx + 1)) {
                Ok(hi) => match tok(ts, idx + 2) {
                    Ok(Token::LiteralString(st)) => Ok(
                        CMapModel {
                            unicode_ranges: m.unicode_ranges.push(
                                CMapRange { from: code_of(lo), to: code_of(hi), start: code_of(st) },
                            ),
                            ..m
                        },
                    ),
                    Ok(Token::Array(codes)) => if span(lo, hi) != codes.len() {
                        Err(Failure::ArrayLength(span(lo, hi), codes.len() as usize))
                    } else {
                        array_entries(codes, 0, lo, m)
                    },
                    Ok(t) => Err(Failure::Type("Literal String or Array"@, kind_name(t))),
                    Err(f) => Err(f),
                },
                Err(f) => Err(f),
            },
            Err(f) => Err(f),
        },
        Block::CodespaceRange => match lit(tok(ts, idx)) {
            Ok(lo) => match lit(tok(ts, idx + 1)) {
                Ok(hi) => Ok(
                    CMapModel {
                        codespaces: m.codespaces.push(
                            CodespaceRange { from: code_of(lo), to: code_of(hi), len: hi.len() as usize },
                        ),
                        ..m
                    },
                ),
                Err(f) => Err(f),
            },
            Err(f) => Err(f),
        },
        Block::CidChar => match lit(tok(ts, idx)) {
            Ok(code) => match int_of(tok(ts, idx + 1)) {
                Ok(cid) => Ok(CMapModel { cids: m.cids.insert(code_of(code), cid as u32), ..m }),
                Err(f) => Err(f),
            },
            Err(f) => Err(f),
        },
        Block::CidRange => match lit(tok(ts, idx)) {
            Ok(a) => match lit(tok(ts, idx + 1)) {
                Ok(z) => match int_of(tok(ts, idx + 2)) {
                    Ok(st) => Ok(
                        CMapModel {
                            cid_ranges: m.cid_ranges.push(
                                CMapRange { from: code_of(a), to: code_of(z), start: st as u32 },
                            ),
                            ..m
                        },
                    ),
                    Err(f) => Err(f),
                },
                Err(f) => Err(f),
            },
            Err(f) => Err(f),
        },
    }
}

/// Groups `k..count` of the block whose operator stands at `i`.
pub open spec fn groups(b: Block, ts: Seq<Token>, i: int, k: int, count: int, m: CMapModel) -> Result<
    CMapModel,
    Failure,
>
    decreases count - k,
{
    if k >= count {
        Ok(m)
    } else {
        match group(b, ts, i + 1 + arity(b) * k, m) {
            Ok(m2) => groups(b, ts, i, k + 1, count, m2),
            Err(f) => Err(f),
        }
    }
}

/// How many groups a block with the given count reads, `n` being the number of tokens. A
/// negative count, or one above `n`, reads groups until one runs past the end, which `n`
/// groups always do.
pub open spec fn group_count(size: i64, n: nat) -> int {
    if 0 <= size && size <= n {
        size as int
    } else {
        n as int
    }
}

/// The metadata that the token after the key `k` sets.
pub open spec fn set_key(k: Key, t: Token, m: CMapModel) -> Result<CMapModel, Failure> {
    match (k, t) {
        (Key::WMode, Token::Integer(mode)) => Ok(
            CMapModel {
                writing_mode: if mode != 0 {
                    WritingMode::Vertically
                } else {
                    WritingMode::Horizontally
                },
                ..m
            },
        ),
        (Key::CMapName, Token::Name(n)) => match text(n) {
            Ok(u) => Ok(CMapModel { name: u, ..m }),
            Err(f) => Err(f),
        },
        (Key::CMapVersion, Token::Integer(v)) => Ok(CMapModel { version: decimal(v as int), ..m }),
        (Key::CMapVersion, Token::LiteralString(s)) => match text(s) {
            Ok(u) => Ok(CMapModel { version: u, ..m }),
            Err(f) => Err(f),
        },
        (Key::CMapType, Token::Integer(v)) => Ok(CMapModel { cmap_type: v, ..m }),
        (Key::Registry, Token::LiteralString(s)) => match text(s) {
            Ok(u) => Ok(CMapModel { registry: u, ..m }),
            Err(f) => Err(f),
        },
        (Key::Ordering, Token::LiteralString(s)) => match text(s) {
            Ok(u) => Ok(CMapModel { ordering: u, ..m }),
            Err(f) => Err(f),
        },
        (Key::Supplement, Token::Integer(v)) => Ok(CMapModel { supplement: v as u32, ..m }),
        _ => Ok(m),
    }
}

/// The interpretation of the tokens from `i` on, `m` holding what came before.
pub open spec fn run(ts: Seq<Token>, i: int, m: CMapModel) -> Result<CMapModel, Failure>
    decreases (if i < ts.len() {
        ts.len() - i
    } else {
        0
    }),
{
    if i < 0 || i >= ts.len() {
        Ok(m)
    } else {
        match ts[i] {
            Token::Operator(op) => if op == ascii_chars(word_endcmap()) {
                Ok(m)
            } else if op == ascii_chars(word_usecmap()) {
                match tok(ts, i - 1) {
                    Ok(Token::Name(n)) => match text(n) {
                        Ok(_) => run(ts, i + 2, m),
                        Err(f) => Err(f),
                    },
                    Ok(t) => Err(Failure::Type("Name"@, kind_name(t))),
                    Err(f) => Err(f),
                }
            } else {
                match block_of(op) {
                    Some(b) => match int_of(tok(ts, i - 1)) {
                        Ok(size) => {
                            let count = group_count(size, ts.len());
                            match groups(b, ts, i, 0, count, m) {
                                Ok(m2) => run(ts, i + 1 + arity(b) * (count + 1), m2),
                                Err(f) => Err(f),
                            }
                        },
                        Err(f) => Err(f),
                    },
                    None => run(ts, i + 1, m),
                }
            },
            Token::Name(n) => match key_of(n) {
                Some(k) => match tok(ts, i + 1) {
                    Ok(t) => match set_key(k, t, m) {
                        Ok(m2) => run(ts, i + 2, m2),
                        Err(f) => Err(f),
                    },
                    Err(f) => Err(f),
                },
                None => if i > 0 {
                    run(ts, i + 1, m)
                } else {
                    run(ts, i + 2, m)
                },
            },
            _ => run(ts, i + 1, m),
        }
    }
}

/// The CMap that a token sequence describes.
pub open spec fn interpret(ts: Seq<Token>) -> Result<CMapModel, Failure> {
    run(ts, 0, empty_model())
}

/// Whether two byte strings are equal.
fn bytes_are(n: &[u8], w: &[u8]) -> (r: bool)
    ensures
        r == (n@ == w@),
{
    if n.len() != w.len() {
        return false;
    }
    let mut i: usize = 0;
    while i < n.len()
        invariant
            i <= n@.len(),
            n@.len() == w@.len(),
            n@.subrange(0, i as int) == w@.subrange(0, i as int),
        decreases n.len() - i,
    {
        if n[i] != w[i] {
            assert(n@[i as int] != w@[i as int]);
            return false;
        }
        assert(n@.subrange(0, i + 1) == n@.subrange(0, i as int).push(n@[i as int]));
        assert(w@.subrange(0, i + 1) == w@.subrange(0, i as int).push(w@[i as int]));
        i = i + 1;
    }
    assert(n@.subrange(0, i as int) == n@);
    assert(w@.subrange(0, i as int) == w@);
    true
}

/// Whether an operator's text is the given ASCII word.
fn operator_is(op: &String, w: &[u8]) -> (r: bool)
    ensures
        r == (op@ == ascii_chars(w@)),
{
    let s = op.as_str();
    let n = s.unicode_len();
    if n != w.len() {
        return false;
    }
    let mut i: usize = 0;
    while i < n
        invariant
            i <= n,
            n == s@.len(),
            s@ == op@,
            n == w@.len(),
            s@.subrange(0, i as int) == ascii_chars(w@).subrange(0, i as int),
        decreases n - i,
    {
        let c = s.get_char(i);
        if c as u32 != w[i] as u32 {
            assert(ascii_chars(w@)[i as int] == (w@[i as int] as u32) as char);
            proof {
                vstd::utf8::char_u32_cast(c, c as u32);
            }
            return false;
        }
        proof {
            vstd::utf8::char_u32_cast(c, c as u32);
            assert(s@.subrange(0, i + 1) == s@.subrange(0, i as int).push(c));
            assert(ascii_chars(w@).subrange(0, i + 1) == ascii_chars(w@).subrange(0, i as int).push(
                ascii_chars(w@)[i as int],
            ));
        }
        i = i + 1;
    }
    assert(s@.subrange(0, i as int) == s@);
    assert(ascii_chars(w@).subrange(0, i as int) == ascii_chars(w@));
    true
}

/// The block that an operator opens, if any.
fn block_kind(op: &String) -> (r: Option<Block>)
    ensures
        r == block_of(op@),
{
    let w_beginbfchar: [u8; 11] = [98u8, 101, 103, 105, 110, 98, 102, 99, 104, 97, 114];
    let w_beginbfrange: [u8; 12] = [98u8, 101, 103, 105, 110, 98, 102, 114, 97, 110, 103, 101];
    let w_begincodespacerange: [u8; 19] = [
        98u8, 101, 103, 105, 110, 99, 111, 100, 101, 115, 112, 97, 99, 101, 114, 97, 110, 103, 101,
    ];
    let w_begincidchar: [u8; 12] = [98u8, 101, 103, 105, 110, 99, 105, 100, 99, 104, 97, 114];
    let w_begincidrange: [u8; 13] = [98u8, 101, 103, 105, 110, 99, 105, 100, 114, 97, 110, 103, 101];
    if operator_is(op, &w_beginbfchar) {
        Some(Block::BfChar)
    } else if operator_is(op, &w_beginbfrange) {
        Some(Block::BfRange)
    } else if operator_is(op, &w_begincodespacerange) {
        Some(Block::CodespaceRange)
    } else if operator_is(op, &w_begincidchar) {
        Some(Block::CidChar)
    } else if operator_is(op, &w_begincidrange) {
        Some(Block::CidRange)
    } else {
        None
    }
}

/// The metadata key that a name stands for, if any.
fn key_kind(n: &[u8]) -> (r: Option<Key>)
    ensures
        r == key_of(n@),
{
    let w_wmode: [u8; 5] = [87u8, 77, 111, 100, 101];
    let w_cmap_name: [u8; 8] = [67u8, 77, 97, 112, 78, 97, 109, 101];
    let w_cmap_version: [u8; 11] = [67u8, 77, 97, 112, 86, 101, 114, 115, 105, 111, 110];
    let w_cmap_type: [u8; 8] = [67u8, 77, 97, 112, 84, 121, 112, 101];
    let w_registry: [u8; 8] = [82u8, 101, 103, 105, 115, 116, 114, 121];
    let w_ordering: [u8; 8] = [79u8, 114, 100, 101, 114, 105, 110, 103];
    let w_supplement: [u8; 10] = [83u8, 117, 112, 112, 108, 101, 109, 101, 110, 116];
    if bytes_are(n, &w_wmode) {
        Some(Key::WMode)
    } else if bytes_are(n, &w_cmap_name) {
        Some(Key::CMapName)
    } else if bytes_are(n, &w_cmap_version) {
        Some(Key::CMapVersion)
    } else if bytes_are(n, &w_cmap_type) {
        Some(Key::CMapType)
    } else if bytes_are(n, &w_registry) {
        Some(Key::Registry)
    } else if bytes_are(n, &w_ordering) {
        Some(Key::Ordering)
    } else if bytes_are(n, &w_supplement) {
        Some(Key::Supplement)
    } else {
        None
    }
}

/// Appends the decimal digits of a number.
fn push_digits(s: &mut String, n: u64)
    ensures
        final(s)@ == old(s)@ + digits_of(n as nat),
    decreases n,
{
    if n >= 10 {
        push_digits(s, n / 10);
    }
    let c = scalar_char((48 + n % 10) as u32).unwrap();
    proof {
        vstd::utf8::char_u32_cast(c, c as u32);
    }
    let ghost mid = s@;
    push_char(s, c);
    proof {
        if n >= 10 {
            assert(s@ == old(s)@ + digits_of(n as nat / 10).push(c));
        } else {
            assert(s@ == old(s)@ + seq![c]);
        }
    }
}

/// An integer written in decimal.
fn decimal_text(v: i64) -> (r: String)
    ensures
        r@ == decimal(v as int),
{
    let mut s = String::new();
    if v < 0 {
        push_char(&mut s, '-');
        let u: u64 = (0 - (v as i128)) as u64;
        push_digits(&mut s, u);
    } else {
        push_digits(&mut s, v as u64);
        assert(s@ == Seq::<char>::empty() + digits_of(v as nat));
    }
    s
}

/// The text that UTF-8 bytes encode.
fn utf8_of(b: &[u8]) -> (r: Result<String, CMapError>)
    ensures
        match text(b@) {
            Ok(u) => r matches Ok(s) && s@ == u,
            Err(f) => r matches Err(e) && reports(e, f),
        },
{
    match utf8_text(b) {
        Some(s) => Ok(s),
        None => Err(CMapError::Utf8),
    }
}

/// The token at `j`.
fn token_at(ts: &Vec<Value>, j: usize) -> (r: Result<&Value, CMapError>)
    ensures
        match tok(tokens_of(ts@), j as int) {
            Ok(t) => r matches Ok(v) && token_of(*v) == t,
            Err(f) => r matches Err(e) && reports(e, f),
        },
        r is Ok ==> j < ts.len(),
{
    if j < ts.len() {
        Ok(&ts[j])
    } else {
        Err(CMapError::UnexpectedEnd)
    }
}

/// Adds the direct text entries of a `beginbfrange` array, from the code `lo` on.
fn run_array(codes: &Vec<Value>, lo: &[u8], cmap: &mut CMap) -> (r: Result<(), CMapError>)
    ensures
        match array_entries(tokens_of(codes@), 0, lo@, model_of(old(cmap))) {
            Ok(m) => r is Ok && model_of(final(cmap)) == m,
            Err(f) => r matches Err(e) && reports(e, f),
        },
{
    let ghost ts = tokens_of(codes@);
    let mut key: Vec<u8> = Vec::new();
    let mut j: usize = 0;
    while j < lo.len()
        invariant
            j <= lo@.len(),
            key@ == lo@.subrange(0, j as int),
        decreases lo.len() - j,
    {
        key.push(lo[j]);
        j = j + 1;
    }
    assert(key@ == lo@);
    let mut c: usize = 0;
    while c < codes.len()
        invariant
            c <= codes@.len(),
            ts == tokens_of(codes@),
            array_entries(ts, 0, lo@, model_of(old(cmap))) == array_entries(ts, c as int, key@, model_of(cmap)),
        decreases codes.len() - c,
    {
        let s = match codes[c].as_literal_string() {
            Ok(s) => s,
            Err(e) => {
                return Err(e);
            },
        };
        let u = match target_text(s) {
            Ok(u) => u,
            Err(e) => {
                return Err(e);
            },
        };
        cmap.add_unicode_mapping(key.as_slice(), u);
        increment_code(&mut key);
        c = c + 1;
    }
    Ok(())
}

/// One group of a block, its first token at `idx`.
fn run_group(b: Block, ts: &Vec<Value>, idx: usize, cmap: &mut CMap) -> (r: Result<(), CMapError>)
    ensures
        match group(b, tokens_of(ts@), idx as int, model_of(old(cmap))) {
            Ok(m) => r is Ok && model_of(final(cmap)) == m,
            Err(f) => r matches Err(e) && reports(e, f),
        },
        r is Ok ==> idx + arity(b) <= ts.len(),
{
    let t0 = match token_at(ts, idx) {
        Ok(t) => t,
        Err(e) => {
            return Err(e);
        },
    };
    let first = match t0.as_literal_string() {
        Ok(s) => s,
        Err(e) => {
            return Err(e);
        },
    };
    let t1 = match token_at(ts, idx + 1) {
        Ok(t) => t,
        Err(e) => {
            return Err(e);
        },
    };
    match b {
        Block::BfChar => {
            let decoded = match t1 {
                Value::LiteralString(o) => target_text(o.as_slice()),
                Value::Name(o) => utf8_of(o.as_slice()),
                _ => {
                    return t1.expect_type("Literal String or Name");
                },
            };
            let u = match decoded {
                Ok(u) => u,
                Err(e) => {
                    return Err(e);
                },
            };
            cmap.add_unicode_mapping(first, u);
            Ok(())
        },
        Block::CodespaceRange => {
            let second = match t1.as_literal_string() {
                Ok(s) => s,
                Err(e) => {
                    return Err(e);
                },
            };
            cmap.add_codespace_range(
                CodespaceRange { from: as_code(first), to: as_code(second), len: second.len() },
            );
            Ok(())
        },
        Block::CidChar => {
            let cid = match t1.as_integer() {
                Ok(i) => i,
                Err(e) => {
                    return Err(e);
                },
            };
            cmap.add_cid_mapping(first, cid as u32);
            Ok(())
        },
        Block::BfRange => {
            let second = match t1.as_literal_string() {
                Ok(s) => s,
                Err(e) => {
                    return Err(e);
                },
            };
            let t2 = match token_at(ts, idx + 2) {
                Ok(t) => t,
                Err(e) => {
                    return Err(e);
                },
            };
            match t2 {
                Value::LiteralString(st) => {
                    let range = CMapRange {
                        from: as_code(first),
                        to: as_code(second),
                        start: as_code(st.as_slice()),
                    };
                    cmap.add_unicode_range(range);
                    Ok(())
                },
                Value::Array(codes) => {
                    let expected = as_code(second).wrapping_sub(as_code(first)).wrapping_add(1) as usize;
                    proof {
                        lemma_span(first@, second@);
                        lemma_array_len(*t2, codes);
                    }
                    if expected != codes.len() {
                        return Err(CMapError::InvalidArrayLength { expected, found: codes.len() });
                    }
                    run_array(codes, first, cmap)
                },
                _ => t2.expect_type("Literal String or Array"),
            }
        },
        Block::CidRange => {
            let second = match t1.as_literal_string() {
                Ok(s) => s,
                Err(e) => {
                    return Err(e);
                },
            };
            let t2 = match token_at(ts, idx + 2) {
                Ok(t) => t,
                Err(e) => {
                    return Err(e);
                },
            };
            let start = match t2.as_integer() {
                Ok(i) => i,
                Err(e) => {
                    return Err(e);
                },
            };
            cmap.add_cid_range(CMapRange { from: as_code(first), to: as_code(second), start: start as u32 });
            Ok(())
        },
    }
}

proof fn lemma_span(lo: Seq<u8>, hi: Seq<u8>)
    ensures
        (code_of(hi).wrapping_sub(code_of(lo)).wrapping_add(1)) as usize == span(lo, hi),
{
}

proof fn lemma_array_len(v: Value, codes: &Vec<Value>)
    requires
        v == Value::Array(*codes),
    ensures
        token_of(v) == Token::Array(tokens_of(codes@)),
        tokens_of(codes@).len() == codes@.len(),
{
    let t = token_of(v);
    assert(t->Array_0 =~= tokens_of(codes@));
}

/// Groups `0..count` of the block whose operator stands at `i`.
fn run_block(b: Block, ts: &Vec<Value>, i: usize, count: usize, cmap: &mut CMap) -> (r: Result<(), CMapError>)
    requires
        i < ts.len(),
    ensures
        match groups(b, tokens_of(ts@), i as int, 0, count as int, model_of(old(cmap))) {
            Ok(m) => r is Ok && model_of(final(cmap)) == m,
            Err(f) => r matches Err(e) && reports(e, f),
        },
{
    let step: usize = match b {
        Block::BfRange | Block::CidRange => 3,
        _ => 2,
    };
    let mut k: usize = 0;
    let mut idx: usize = i + 1;
    while k < count
        invariant
            k <= count,
            step == arity(b),
            idx == i + 1 + arity(b) * k,
            idx <= ts.len(),
            groups(b, tokens_of(ts@), i as int, 0, count as int, model_of(old(cmap))) == groups(
                b,
                tokens_of(ts@),
                i as int,
                k as int,
                count as int,
                model_of(cmap),
            ),
        decreases count - k,
    {
        match run_group(b, ts, idx, cmap) {
            Ok(()) => {},
            Err(e) => {
                return Err(e);
            },
        }
        assert(i + 1 + arity(b) * (k + 1) == i + 1 + arity(b) * k + arity(b)) by (nonlinear_arith);
        idx = idx + step;
        k = k + 1;
    }
    Ok(())
}

/// Sets the metadata that the token after a key gives.
fn apply_key(k: Key, v: &Value, cmap: &mut CMap) -> (r: Result<(), CMapError>)
    ensures
        match set_key(k, token_of(*v), model_of(old(cmap))) {
            Ok(m) => r is Ok && model_of(final(cmap)) == m,
            Err(f) => r matches Err(e) && reports(e, f),
        },
{
    match (k, v) {
        (Key::WMode, Value::Integer(mode)) => {
            cmap.writing_mode = WritingMode::from(*mode != 0);
        },
        (Key::CMapName, Value::Name(n)) => {
            cmap.name = match utf8_of(n.as_slice()) {
                Ok(u) => u,
                Err(e) => {
                    return Err(e);
                },
            };
        },
        (Key::CMapVersion, Value::Integer(ver)) => {
            cmap.version = decimal_text(*ver);
        },
        (Key::CMapVersion, Value::LiteralString(s)) => {
            cmap.version = match utf8_of(s.as_slice()) {
                Ok(u) => u,
                Err(e) => {
                    return Err(e);
                },
            };
        },
        (Key::CMapType, Value::Integer(t)) => {
            cmap.cmap_type = *t;
        },
        (Key::Registry, Value::LiteralString(s)) => {
            cmap.registry = match utf8_of(s.as_slice()) {
                Ok(u) => u,
                Err(e) => {
                    return Err(e);
                },
            };
        },
        (Key::Ordering, Value::LiteralString(s)) => {
            cmap.ordering = match utf8_of(s.as_slice()) {
                Ok(u) => u,
                Err(e) => {
                    return Err(e);
                },
            };
        },
        (Key::Supplement, Value::Integer(sup)) => {
            cmap.supplement = *sup as u32;
        },
        _ => {},
    }
    Ok(())
}

/// The cursor `step` tokens on, kept at most at the end of the sequence, past which
/// nothing is read.
fn advance(i: usize, step: u128, n: usize) -> (r: usize)
    ensures
        r as int == (if i + step < n {
            i + step
        } else {
            n as int
        }),
{
    if (i as u128) < (n as u128) && step < (n - i) as u128 {
        (i as u128 + step) as usize
    } else {
        n
    }
}

/// What reading the token at `i` does to the rest of the interpretation: it goes on at the
/// cursor returned, stops with the CMap as it is, or fails.
pub open spec fn step_done(
    ts: Seq<Token>,
    i: int,
    before: CMapModel,
    after: CMapModel,
    r: Result<Option<usize>, CMapError>,
) -> bool {
    match r {
        Ok(Some(j)) => i < j <= ts.len() && run(ts, i, before) == run(ts, j as int, after),
        Ok(None) => run(ts, i, before) == Ok::<CMapModel, Failure>(after),
        Err(e) => run(ts, i, before) matches Err(f) && reports(e, f),
    }
}

/// Past the end of the tokens, interpretation ends with what it has.
proof fn lemma_run_past_end(ts: Seq<Token>, j: int, m: CMapModel)
    requires
        j >= ts.len(),
    ensures
        run(ts, j, m) == Ok::<CMapModel, Failure>(m),
{
}

/// Reads the operator at `i`.
fn step_operator(lexems: &Vec<Value>, i: usize, op: &String, cmap: &mut CMap) -> (r: Result<
    Option<usize>,
    CMapError,
>)
    requires
        i < lexems.len(),
        lexems@[i as int] == Value::Operator(*op),
    ensures
        step_done(tokens_of(lexems@), i as int, model_of(old(cmap)), model_of(final(cmap)), r),
{
    let ghost ts = tokens_of(lexems@);
    assert(ts[i as int] == Token::Operator(op@));
    let n = lexems.len();
    let w_usecmap: [u8; 7] = [117u8, 115, 101, 99, 109, 97, 112];
    let w_endcmap: [u8; 7] = [101u8, 110, 100, 99, 109, 97, 112];
    if operator_is(op, &w_endcmap) {
        return Ok(None);
    }
    if operator_is(op, &w_usecmap) {
        if i == 0 {
            return Err(CMapError::UnexpectedEnd);
        }
        assert(ts[i - 1] == token_of(lexems@[i - 1]));
        let parent = match lexems[i - 1].as_name() {
            Ok(p) => p,
            Err(e) => {
                return Err(e);
            },
        };
        match utf8_of(parent) {
            Ok(_) => {},
            Err(e) => {
                return Err(e);
            },
        }
        proof {
            if i + 2 >= n {
                lemma_run_past_end(ts, i + 2, model_of(cmap));
                lemma_run_past_end(ts, n as int, model_of(cmap));
            }
        }
        return Ok(Some(advance(i, 2, n)));
    }
    match block_kind(op) {
        Some(b) => {
            if i == 0 {
                return Err(CMapError::UnexpectedEnd);
            }
            assert(ts[i - 1] == token_of(lexems@[i - 1]));
            let size = match lexems[i - 1].as_integer() {
                Ok(s) => s,
                Err(e) => {
                    return Err(e);
                },
            };
            let count: usize = if size >= 0 && (size as u128) <= (n as u128) {
                size as usize
            } else {
                n
            };
            match run_block(b, lexems, i, count, cmap) {
                Ok(()) => {},
                Err(e) => {
                    return Err(e);
                },
            }
            let step: u128 = match b {
                Block::BfRange | Block::CidRange => 3,
                _ => 2,
            };
            assert(step == arity(b));
            let jump: u128 = 1 + step * (count as u128 + 1);
            let j = advance(i, jump, n);
            proof {
                if i + jump >= n {
                    lemma_run_past_end(ts, i + jump, model_of(cmap));
                    lemma_run_past_end(ts, n as int, model_of(cmap));
                }
            }
            Ok(Some(j))
        },
        None => Ok(Some(i + 1)),
    }
}

/// Reads the name at `i`, which may be a metadata key.
fn step_name(lexems: &Vec<Value>, i: usize, name: &Vec<u8>, cmap: &mut CMap) -> (r: Result<
    Option<usize>,
    CMapError,
>)
    requires
        i < lexems.len(),
        lexems@[i as int] == Value::Name(*name),
    ensures
        step_done(tokens_of(lexems@), i as int, model_of(old(cmap)), model_of(final(cmap)), r),
{
    let ghost ts = tokens_of(lexems@);
    assert(ts[i as int] == Token::Name(name@));
    let n = lexems.len();
    match key_kind(name.as_slice()) {
        Some(k) => {
            let v = match token_at(lexems, i + 1) {
                Ok(v) => v,
                Err(e) => {
                    return Err(e);
                },
            };
            match apply_key(k, v, cmap) {
                Ok(()) => {},
                Err(e) => {
                    return Err(e);
                },
            }
            proof {
                if i + 2 >= n {
                    lemma_run_past_end(ts, i + 2, model_of(cmap));
                    lemma_run_past_end(ts, n as int, model_of(cmap));
                }
            }
            Ok(Some(advance(i, 2, n)))
        },
        None => {
            if i > 0 {
                Ok(Some(i + 1))
            } else {
                proof {
                    if 2 >= n {
                        lemma_run_past_end(ts, 2, model_of(cmap));
                        lemma_run_past_end(ts, n as int, model_of(cmap));
                    }
                }
                Ok(Some(advance(i, 2, n)))
            }
        },
    }
}

/// Reads a CMap from its text. The whole input must follow the grammar; the first lexical
/// or interpretation error is returned.
pub fn parse_cmap(input: &[u8]) -> (r: Result<CMap, CMapError>)
    ensures
        match lex(input@) {
            None => r == Err::<CMap, CMapError>(CMapError::Lexer),
            Some(ts) => match interpret(ts) {
                Ok(m) => r matches Ok(c) && model_of(&c) == m,
                Err(f) => r matches Err(e) && reports(e, f),
            },
        },
{
    let lexems = match lexer(input) {
        Ok(l) => l,
        Err(e) => {
            return Err(e);
        },
    };
    let ghost ts = tokens_of(lexems@);
    let mut cmap: CMap = CMap::default();
    assert(cmap.codespaces() =~= Seq::<CodespaceRange>::empty());
    assert(cmap.unicode_ranges() =~= Seq::<CMapRange>::empty());
    assert(cmap.cid_ranges() =~= Seq::<CMapRange>::empty());
    assert(model_of(&cmap) == empty_model());
    let n = lexems.len();
    let mut i: usize = 0;
    while i < n
        invariant
            n == lexems@.len(),
            i <= n,
            ts == tokens_of(lexems@),
            lex(input@) == Some(ts),
            interpret(ts) == run(ts, i as int, model_of(&cmap)),
        decreases n - i,
    {
        let outcome = match &lexems[i] {
            Value::Operator(op) => step_operator(&lexems, i, op, &mut cmap),
            Value::Name(name) => step_name(&lexems, i, name, &mut cmap),
            _ => {
                assert(ts[i as int] == token_of(lexems@[i as int]));
                Ok(Some(i + 1))
            },
        };
        match outcome {
            Ok(Some(j)) => {
                i = j;
            },
            Ok(None) => {
                return Ok(cmap);
            },
            Err(e) => {
                return Err(e);
            },
        }
    }
    Ok(cmap)
}

/// In a `beginbfrange` group whose target is an array, an array whose length differs from
/// the number of codes from the lower to the upper bound fails with both lengths.
pub proof fn lemma_bfrange_array_length(ts: Seq<Token>, idx: int, m: CMapModel)
    requires
        0 <= idx,
        idx + 2 < ts.len(),
        ts[idx] is LiteralString,
        ts[idx + 1] is LiteralString,
        ts[idx + 2] is Array,
        span(ts[idx]->LiteralString_0, ts[idx + 1]->LiteralString_0) != ts[idx + 2]->Array_0.len(),
    ensures
        group(Block::BfRange, ts, idx, m) == Err::<CMapModel, Failure>(
            Failure::ArrayLength(
                span(ts[idx]->LiteralString_0, ts[idx + 1]->LiteralString_0),
                ts[idx + 2]->Array_0.len() as usize,
            ),
        ),
{
}

} // verus!
