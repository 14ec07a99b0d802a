use vstd::prelude::*;

verus! {

/// What can go wrong while reading a CMap or resolving a code.
#[derive(Debug, PartialEq, Eq)]
pub enum CMapError {
    UnknownOperator(String),
    CMapType { expected: &'static str, found: &'static str },
    InvalidArrayLength { expected: usize, found: usize },
    NoUnicodeMappingFound(u32),
    /// A 16-bit unit that is half of a surrogate pair and so no character alone.
    Utf16(u16),
    /// Bytes that are not UTF-8 where text was expected.
    Utf8,
    /// The input does not follow the CMap grammar.
    Lexer,
    /// An operator needs a token past the end of the token sequence.
    UnexpectedEnd,
}

} // verus!
