use vstd::prelude::*;

mod error;
mod lexer;
mod parser;
mod table;
mod text;

pub use error::CMapError;
pub use lexer::{lexer, Token, Value};
pub use parser::{parse_cmap, CMapModel, Failure};

use crate::table::{lemma_table_absent, lemma_table_append, lemma_table_latest, lemma_table_push, table_map};
use crate::text::{push_char, scalar_char};

verus! {

/// The direction in which glyphs of a font are laid out.
#[derive(Debug, Clone, Copy, PartialEq, Eq, Structural)]
pub enum WritingMode {
    Horizontally,
    Vertically,
}

impl From<bool> for WritingMode {
    fn from(u: bool) -> (r: WritingMode)
        ensures
            r == (if u { WritingMode::Vertically } else { WritingMode::Horizontally }),
    {
        if u {
            WritingMode::Vertically
        } else {
            WritingMode::Horizontally
        }
    }
}

impl vstd::std_specs::convert::FromSpecImpl<bool> for WritingMode {
    open spec fn obeys_from_spec() -> bool {
        true
    }

    open spec fn from_spec(u: bool) -> WritingMode {
        if u {
            WritingMode::Vertically
        } else {
            WritingMode::Horizontally
        }
    }
}

impl Default for WritingMode {
    fn default() -> (r: WritingMode)
        ensures
            r == WritingMode::Horizontally,
    {
        WritingMode::Horizontally
    }
}

/// A class of valid input codes: those of `len` bytes whose value lies in `from..=to`.
#[derive(Debug, Clone, Copy, PartialEq, Eq, Structural)]
pub struct CodespaceRange {
    pub from: u32,
    pub to: u32,
    pub len: usize,
}

/// Whether a byte string is a code of the given codespace range.
pub open spec fn codespace_contains(r: CodespaceRange, s: Seq<u8>) -> bool {
    s.len() == r.len && r.from <= code_of(s) && code_of(s) <= r.to
}

impl CodespaceRange {
    /// Whether the bytes are a code of this range: of its length, with a value inside it.
    pub fn in_range(&self, bytes: &[u8]) -> (r: bool)
        ensures
            r == codespace_contains(*self, bytes@),
    {
        if bytes.len() != self.len {
            return false;
        }
        let b = as_code(bytes);
        self.from <= b && b <= self.to
    }
}

/// An affine mapping of the codes `from..=to` onto `start`, `start + 1`, ...
#[derive(Debug, Clone, Copy, PartialEq, Eq, Structural)]
pub struct CMapRange {
    pub from: u32,
    pub to: u32,
    pub start: u32,
}

/// The value a range gives a code: `start + (code - from)`, kept to 32 bits.
pub open spec fn range_value(r: CMapRange, code: u32) -> Option<u32> {
    if r.from <= code && code <= r.to {
        Some(((r.start + (code - r.from)) % 0x1_0000_0000) as u32)
    } else {
        None
    }
}

impl CMapRange {
    /// The value this range gives a code, or `None` outside the range.
    pub fn mapped_value(&self, codepoint: u32) -> (r: Option<u32>)
        ensures
            r == range_value(*self, codepoint),
    {
        if self.from <= codepoint && codepoint <= self.to {
            Some(self.start.wrapping_add(codepoint - self.from))
        } else {
            None
        }
    }
}

/// Inside a range, the mapped value is the offset of the code added to the start.
pub proof fn lemma_mapped_value_offset(r: CMapRange, code: u32)
    requires
        r.start + (r.to - r.from) <= u32::MAX,
    ensures
        r.from <= code <= r.to ==> range_value(r, code) == Some((r.start + (code - r.from)) as u32),
        !(r.from <= code <= r.to) ==> range_value(r, code) is None,
{
}

/// The first range, in declaration order, that holds the code gives its value.
pub open spec fn first_range_value(rs: Seq<CMapRange>, code: u32) -> Option<u32>
    decreases rs.len(),
{
    if rs.len() == 0 {
        None
    } else {
        match range_value(rs[0], code) {
            Some(v) => Some(v),
            None => first_range_value(rs.drop_first(), code),
        }
    }
}

/// A code that no range holds has no range value.
pub proof fn lemma_no_range_holds(rs: Seq<CMapRange>, code: u32)
    requires
        forall|j: int| 0 <= j < rs.len() ==> !(rs[j].from <= code && code <= rs[j].to),
    ensures
        first_range_value(rs, code) is None,
    decreases rs.len(),
{
    if rs.len() > 0 {
        lemma_no_range_holds(rs.drop_first(), code);
    }
}

/// The text entries of a table, seen as character sequences.
pub open spec fn texts(s: Seq<(u32, String)>) -> Seq<(u32, Seq<char>)> {
    s.map_values(|e: (u32, String)| (e.0, e.1@))
}

/// The largest byte length among codespace ranges, or 1 when there are none.
pub open spec fn max_codespace_len(rs: Seq<CodespaceRange>) -> nat
    decreases rs.len(),
{
    if rs.len() == 0 {
        1
    } else if rs.len() == 1 {
        rs[0].len as nat
    } else {
        let m = max_codespace_len(rs.drop_last());
        if rs.last().len as nat > m {
            rs.last().len as nat
        } else {
            m
        }
    }
}

/// Whether the first `i + 1` bytes form a code of some codespace range.
pub open spec fn prefix_is_code(rs: Seq<CodespaceRange>, b: Seq<u8>, i: int) -> bool {
    exists|j: int| 0 <= j < rs.len() && codespace_contains(rs[j], b.subrange(0, i + 1))
}

/// How many prefix lengths code extraction tries: one more than the longest codespace
/// length, and no more than there are bytes.
pub open spec fn prefix_limit(rs: Seq<CodespaceRange>, b: Seq<u8>) -> int {
    if max_codespace_len(rs) < b.len() {
        max_codespace_len(rs) + 1int
    } else {
        b.len() as int
    }
}

/// A CMap: metadata and the tables that map input codes to CIDs and to text.
#[derive(Debug)]
pub struct CMap {
    pub name: String,
    pub version: String,
    pub cmap_type: i64,
    pub writing_mode: WritingMode,
    pub registry: String,
    pub ordering: String,
    pub supplement: u32,
    pub tables: CodeTables,
}

/// The lookup tables of a CMap; they change only through the methods of `CMap`.
#[derive(Debug)]
pub struct CodeTables {
    codespace_ranges: Vec<CodespaceRange>,
    unicode_mapping: Vec<(u32, String)>,
    unicode_range_mapping: Vec<CMapRange>,
    cid_mapping: Vec<(u32, u32)>,
    cid_range_mapping: Vec<CMapRange>,
}

impl Default for CMap {
    fn default() -> (r: CMap)
        ensures
            r.is_empty(),
            r.name@ == Seq::<char>::empty(),
            r.version@ == Seq::<char>::empty(),
            r.cmap_type == 0,
            r.writing_mode == WritingMode::Horizontally,
            r.registry@ == Seq::<char>::empty(),
            r.ordering@ == Seq::<char>::empty(),
            r.supplement == 0,
    {
        CMap {
            name: String::new(),
            version: String::new(),
            cmap_type: 0,
            writing_mode: WritingMode::Horizontally,
            registry: String::new(),
            ordering: String::new(),
            supplement: 0,
            tables: CodeTables {
                codespace_ranges: Vec::new(),
                unicode_mapping: Vec::new(),
                unicode_range_mapping: Vec::new(),
                cid_mapping: Vec::new(),
                cid_range_mapping: Vec::new(),
            },
        }
    }
}

/// The index of the last entry for a code, if any.
fn latest_entry<V>(t: &Vec<(u32, V)>, k: u32) -> (r: Option<usize>)
    ensures
        r matches Some(j) ==> j < t@.len() && t@[j as int].0 == k && forall|m: int|
            j < m < t@.len() ==> t@[m].0 != k,
        r is None ==> forall|m: int| 0 <= m < t@.len() ==> t@[m].0 != k,
{
    let mut i: usize = t.len();
    while i > 0
        invariant
            i <= t@.len(),
            forall|m: int| i <= m < t@.len() ==> t@[m].0 != k,
        decreases i,
    {
        i = i - 1;
        if t[i].0 == k {
            return Some(i);
        }
    }
    None
}

/// The value of the first range, in order, that holds the code.
fn scan_ranges(rs: &Vec<CMapRange>, code: u32) -> (r: Option<u32>)
    ensures
        r == first_range_value(rs@, code),
{
    let mut i: usize = 0;
    assert(rs@.subrange(0, rs@.len() as int) == rs@);
    while i < rs.len()
        invariant
            i <= rs@.len(),
            first_range_value(rs@, code) == first_range_value(rs@.subrange(i as int, rs@.len() as int), code),
        decreases rs.len() - i,
    {
        assert(rs@.subrange(i as int, rs@.len() as int).drop_first() == rs@.subrange(i + 1, rs@.len() as int));
        if let Some(v) = rs[i].mapped_value(code) {
            return Some(v);
        }
        i = i + 1;
    }
    assert(rs@.subrange(0, rs@.len() as int) == rs@);
    None
}

/// Appends copies of the items of `src` to `dst`.
fn append_copies<T: Copy>(dst: &mut Vec<T>, src: &Vec<T>)
    ensures
        final(dst)@ == old(dst)@ + src@,
{
    let mut i: usize = 0;
    while i < src.len()
        invariant
            i <= src@.len(),
            dst@ == old(dst)@ + src@.subrange(0, i as int),
        decreases src.len() - i,
    {
        dst.push(src[i]);
        i = i + 1;
        assert(dst@ == old(dst)@ + src@.subrange(0, i as int));
    }
    assert(src@.subrange(0, i as int) == src@);
}

/// Appends copies of the text entries of `src` to `dst`.
fn append_texts(dst: &mut Vec<(u32, String)>, src: &Vec<(u32, String)>)
    ensures
        texts(final(dst)@) == texts(old(dst)@) + texts(src@),
{
    let mut i: usize = 0;
    while i < src.len()
        invariant
            i <= src@.len(),
            texts(dst@) == texts(old(dst)@) + texts(src@.subrange(0, i as int)),
        decreases src.len() - i,
    {
        let ghost d = dst@;
        dst.push((src[i].0, src[i].1.clone()));
        i = i + 1;
        assert(texts(dst@) == texts(d).push((src@[i - 1].0, src@[i - 1].1@)));
        assert(texts(src@.subrange(0, i as int)) == texts(src@.subrange(0, i - 1)).push(
            (src@[i - 1].0, src@[i - 1].1@),
        ));
        assert(texts(dst@) == texts(old(dst)@) + texts(src@.subrange(0, i as int)));
    }
    assert(src@.subrange(0, i as int) == src@);
}

impl CMap {
    /// The codespace ranges, in declaration order.
    pub closed spec fn codespaces(&self) -> Seq<CodespaceRange> {
        self.tables.codespace_ranges@
    }

    /// The direct mapping from codes to text.
    pub closed spec fn unicode_table(&self) -> Map<u32, Seq<char>> {
        table_map(texts(self.tables.unicode_mapping@))
    }

    /// The ranges that map codes to text, in declaration order.
    pub closed spec fn unicode_ranges(&self) -> Seq<CMapRange> {
        self.tables.unicode_range_mapping@
    }

    /// The direct mapping from codes to CIDs.
    pub closed spec fn cid_table(&self) -> Map<u32, u32> {
        table_map(self.tables.cid_mapping@)
    }

    /// The ranges that map codes to CIDs, in declaration order.
    pub closed spec fn cid_ranges(&self) -> Seq<CMapRange> {
        self.tables.cid_range_mapping@
    }

    /// Whether all tables are empty.
    pub open spec fn is_empty(&self) -> bool {
        &&& self.codespaces().len() == 0
        &&& self.unicode_table() == Map::<u32, Seq<char>>::empty()
        &&& self.unicode_ranges().len() == 0
        &&& self.cid_table() == Map::<u32, u32>::empty()
        &&& self.cid_ranges().len() == 0
    }

    /// Whether two CMaps hold the same metadata.
    pub open spec fn same_metadata(&self, other: &CMap) -> bool {
        &&& self.name == other.name
        &&& self.version == other.version
        &&& self.cmap_type == other.cmap_type
        &&& self.writing_mode == other.writing_mode
        &&& self.registry == other.registry
        &&& self.ordering == other.ordering
        &&& self.supplement == other.supplement
    }

    /// The CID of a code: its direct entry, else the first range that holds it, else 0.
    pub open spec fn cid_of(&self, code: u32) -> u32 {
        if self.cid_table().contains_key(code) {
            self.cid_table()[code]
        } else {
            match first_range_value(self.cid_ranges(), code) {
                Some(v) => v,
                None => 0,
            }
        }
    }

    /// The text of a code: its direct entry, else the decoded value of the first range
    /// that holds it.
    pub open spec fn unicode_of(&self, code: u32) -> Result<Seq<char>, CMapError> {
        if self.unicode_table().contains_key(code) {
            Ok(self.unicode_table()[code])
        } else {
            match first_range_value(self.unicode_ranges(), code) {
                Some(v) => match decoded_text(le_bytes(v)) {
                    Ok(t) => Ok(t),
                    Err(u) => Err(CMapError::Utf16(u)),
                },
                None => Err(CMapError::NoUnicodeMappingFound(code)),
            }
        }
    }

    /// The index of the last byte of the shortest prefix that is a code of some codespace
    /// range, trying prefix lengths from 1 to one more than the longest codespace length.
    pub fn extract_codepoint(&self, codepoints: &[u8]) -> (r: Option<usize>)
        ensures
            r matches Some(i) ==> {
                &&& i < prefix_limit(self.codespaces(), codepoints@)
                &&& prefix_is_code(self.codespaces(), codepoints@, i as int)
                &&& forall|k: int| 0 <= k < i ==> !prefix_is_code(self.codespaces(), codepoints@, k)
            },
            r is None ==> forall|k: int|
                0 <= k < prefix_limit(self.codespaces(), codepoints@) ==> !prefix_is_code(
                    self.codespaces(),
                    codepoints@,
                    k,
                ),
    {
        let max_len = self.max_len_codespace();
        let limit = if max_len < codepoints.len() {
            max_len + 1
        } else {
            codepoints.len()
        };
        let ghost rs = self.tables.codespace_ranges@;
        let mut i: usize = 0;
        while i < limit
            invariant
                limit == prefix_limit(rs, codepoints@),
                limit <= codepoints@.len(),
                rs == self.codespaces(),
                forall|k: int| 0 <= k < i ==> !prefix_is_code(rs, codepoints@, k),
            decreases limit - i,
        {
            let substr = vstd::slice::slice_subrange(codepoints, 0, i + 1);
            let mut j: usize = 0;
            while j < self.tables.codespace_ranges.len()
                invariant
                    i < limit,
                    limit == prefix_limit(rs, codepoints@),
                    limit <= codepoints@.len(),
                    rs == self.codespaces(),
                    forall|k: int| 0 <= k < i ==> !prefix_is_code(rs, codepoints@, k),
                    substr@ == codepoints@.subrange(0, i + 1),
                    rs == self.tables.codespace_ranges@,
                    forall|m: int| 0 <= m < j ==> !codespace_contains(rs[m], substr@),
                decreases self.tables.codespace_ranges.len() - j,
            {
                if self.tables.codespace_ranges[j].in_range(substr) {
                    assert(codespace_contains(rs[j as int], codepoints@.subrange(0, i + 1)));
                    return Some(i);
                }
                j = j + 1;
            }
            i = i + 1;
        }
        None
    }

    /// The CID of a code; 0 where neither a direct entry nor a range gives one.
    pub fn codepoint_to_cid(&self, codepoint: u32) -> (r: u32)
        ensures
            r == self.cid_of(codepoint),
    {
        if let Some(j) = latest_entry(&self.tables.cid_mapping, codepoint) {
            proof {
                lemma_table_latest(self.tables.cid_mapping@, j as int, codepoint);
            }
            return self.tables.cid_mapping[j].1;
        }
        proof {
            lemma_table_absent(self.tables.cid_mapping@, codepoint);
        }
        if let Some(cid) = scan_ranges(&self.tables.cid_range_mapping, codepoint) {
            return cid;
        }
        0
    }

    /// The text of a code, or `NoUnicodeMappingFound` where no entry or range gives one.
    pub fn codepoint_to_unicode(&self, codepoint: u32) -> (r: Result<String, CMapError>)
        ensures
            match self.unicode_of(codepoint) {
                Ok(t) => r matches Ok(s) && s@ == t,
                Err(e) => r == Err::<String, CMapError>(e),
            },
    {
        if let Some(j) = latest_entry(&self.tables.unicode_mapping, codepoint) {
            proof {
                lemma_table_latest(texts(self.tables.unicode_mapping@), j as int, codepoint);
            }
            return Ok(self.tables.unicode_mapping[j].1.clone());
        }
        proof {
            lemma_table_absent(texts(self.tables.unicode_mapping@), codepoint);
        }
        if let Some(unicode) = scan_ranges(&self.tables.unicode_range_mapping, codepoint) {
            let bytes = from_code(unicode);
            return as_string(bytes.as_slice());
        }
        Err(CMapError::NoUnicodeMappingFound(codepoint))
    }

    /// Declares one more codespace range.
    pub fn add_codespace_range(&mut self, range: CodespaceRange)
        ensures
            final(self).codespaces() == old(self).codespaces().push(range),
            final(self).unicode_table() == old(self).unicode_table(),
            final(self).unicode_ranges() == old(self).unicode_ranges(),
            final(self).cid_table() == old(self).cid_table(),
            final(self).cid_ranges() == old(self).cid_ranges(),
            final(self).same_metadata(old(self)),
    {
        self.tables.codespace_ranges.push(range);
    }

    /// Maps the code of the bytes to the text, replacing an earlier entry.
    pub fn add_unicode_mapping(&mut self, codepoints: &[u8], unicode: String)
        ensures
            final(self).unicode_table() == old(self).unicode_table().insert(code_of(codepoints@), unicode@),
            final(self).codespaces() == old(self).codespaces(),
            final(self).unicode_ranges() == old(self).unicode_ranges(),
            final(self).cid_table() == old(self).cid_table(),
            final(self).cid_ranges() == old(self).cid_ranges(),
            final(self).same_metadata(old(self)),
    {
        let code = as_code(codepoints);
        let ghost e = (code, unicode@);
        let ghost before = self.tables.unicode_mapping@;
        self.tables.unicode_mapping.push((code, unicode));
        proof {
            assert(texts(self.tables.unicode_mapping@) == texts(before).push(e));
            lemma_table_push(texts(before), e);
        }
    }

    /// Declares one more range of codes mapped to text.
    pub(crate) fn add_unicode_range(&mut self, range: CMapRange)
        ensures
            final(self).unicode_ranges() == old(self).unicode_ranges().push(range),
            final(self).codespaces() == old(self).codespaces(),
            final(self).unicode_table() == old(self).unicode_table(),
            final(self).cid_table() == old(self).cid_table(),
            final(self).cid_ranges() == old(self).cid_ranges(),
            final(self).same_metadata(old(self)),
    {
        self.tables.unicode_range_mapping.push(range);
    }

    /// Maps the code of the bytes to the CID, replacing an earlier entry.
    pub fn add_cid_mapping(&mut self, codepoints: &[u8], cid: u32)
        ensures
            final(self).cid_table() == old(self).cid_table().insert(code_of(codepoints@), cid),
            final(self).codespaces() == old(self).codespaces(),
            final(self).unicode_table() == old(self).unicode_table(),
            final(self).unicode_ranges() == old(self).unicode_ranges(),
            final(self).cid_ranges() == old(self).cid_ranges(),
            final(self).same_metadata(old(self)),
    {
        let code = as_code(codepoints);
        proof {
            lemma_table_push(self.tables.cid_mapping@, (code, cid));
        }
        self.tables.cid_mapping.push((code, cid));
    }

    /// Declares one more range of codes mapped to CIDs.
    pub(crate) fn add_cid_range(&mut self, range: CMapRange)
        ensures
            final(self).cid_ranges() == old(self).cid_ranges().push(range),
            final(self).codespaces() == old(self).codespaces(),
            final(self).unicode_table() == old(self).unicode_table(),
            final(self).unicode_ranges() == old(self).unicode_ranges(),
            final(self).cid_table() == old(self).cid_table(),
            final(self).same_metadata(old(self)),
    {
        self.tables.cid_range_mapping.push(range);
    }

    /// Appends the tables of another CMap; its direct entries replace ours for the same
    /// code. The metadata stays.
    pub fn merge(&mut self, other: &CMap)
        ensures
            final(self).codespaces() == old(self).codespaces() + other.codespaces(),
            final(self).unicode_table() == old(self).unicode_table().union_prefer_right(other.unicode_table()),
            final(self).unicode_ranges() == old(self).unicode_ranges() + other.unicode_ranges(),
            final(self).cid_table() == old(self).cid_table().union_prefer_right(other.cid_table()),
            final(self).cid_ranges() == old(self).cid_ranges() + other.cid_ranges(),
            final(self).same_metadata(old(self)),
    {
        let ghost before = self.tables.unicode_mapping@;
        let ghost cids_before = self.tables.cid_mapping@;
        append_copies(&mut self.tables.codespace_ranges, &other.tables.codespace_ranges);
        append_texts(&mut self.tables.unicode_mapping, &other.tables.unicode_mapping);
        append_copies(&mut self.tables.unicode_range_mapping, &other.tables.unicode_range_mapping);
        append_copies(&mut self.tables.cid_mapping, &other.tables.cid_mapping);
        append_copies(&mut self.tables.cid_range_mapping, &other.tables.cid_range_mapping);
        proof {
            lemma_table_append(texts(before), texts(other.tables.unicode_mapping@));
            lemma_table_append(cids_before, other.tables.cid_mapping@);
        }
    }

    /// The largest byte length among the codespace ranges, or 1 when there are none.
    pub(crate) fn max_len_codespace(&self) -> (r: usize)
        ensures
            r == max_codespace_len(self.codespaces()),
    {
        if self.tables.codespace_ranges.len() == 0 {
            return 1;
        }
        let mut m: usize = self.tables.codespace_ranges[0].len;
        let mut i: usize = 1;
        while i < self.tables.codespace_ranges.len()
            invariant
                1 <= i <= self.tables.codespace_ranges@.len(),
                m == max_codespace_len(self.tables.codespace_ranges@.subrange(0, i as int)),
            decreases self.tables.codespace_ranges.len() - i,
        {
            proof {
                let next = self.tables.codespace_ranges@.subrange(0, i + 1);
                assert(next.drop_last() == self.tables.codespace_ranges@.subrange(0, i as int));
            }
            if self.tables.codespace_ranges[i].len > m {
                m = self.tables.codespace_ranges[i].len;
            }
            i = i + 1;
        }
        assert(self.tables.codespace_ranges@.subrange(0, i as int) == self.tables.codespace_ranges@);
        m
    }
}

/// The big-endian numeric value of a byte string, unbounded.
pub open spec fn be_value(s: Seq<u8>) -> nat
    decreases s.len(),
{
    if s.len() == 0 {
        0
    } else {
        be_value(s.drop_last()) * 256 + s.last() as nat
    }
}

/// The code of a byte string: its big-endian value, keeping the low 32 bits.
pub open spec fn code_of(s: Seq<u8>) -> u32 {
    (be_value(s) % 0x1_0000_0000) as u32
}

proof fn lemma_code_step(a: nat, c: nat)
    requires
        c < 256,
    ensures
        ((a % 0x1_0000_0000) % 0x100_0000) * 256 + c == (a * 256 + c) % 0x1_0000_0000,
{
    assert((a % 0x1_0000_0000) % 0x100_0000 == a % 0x100_0000) by {
        vstd::arithmetic::div_mod::lemma_mod_mod(a as int, 0x100_0000, 256);
    }
    let q = a / 0x100_0000;
    let r = a % 0x100_0000;
    assert(a == 0x100_0000 * q + r) by {
        vstd::arithmetic::div_mod::lemma_fundamental_div_mod(a as int, 0x100_0000);
    }
    assert(a * 256 + c == 0x1_0000_0000 * q + (r * 256 + c)) by (nonlinear_arith)
        requires
            a == 0x100_0000 * q + r,
    ;
    assert(0 <= r * 256 + c < 0x1_0000_0000) by (nonlinear_arith)
        requires
            0 <= r < 0x100_0000,
            c < 256,
    ;
    vstd::arithmetic::div_mod::lemma_mod_multiples_vanish(q as int, (r * 256 + c) as int, 0x1_0000_0000);
    vstd::arithmetic::div_mod::lemma_small_mod((r * 256 + c) as nat, 0x1_0000_0000);
}

/// Reads a byte string as a big-endian number.
pub fn as_code(str: &[u8]) -> (r: u32)
    ensures
        r == code_of(str@),
{
    let mut code: u32 = 0;
    let mut i: usize = 0;
    while i < str.len()
        invariant
            i <= str.len(),
            code == code_of(str@.subrange(0, i as int)),
        decreases str.len() - i,
    {
        proof {
            let pre = str@.subrange(0, i as int);
            let next = str@.subrange(0, i + 1);
            assert(next.drop_last() == pre);
            assert(next.last() == str@[i as int]);
            lemma_code_step(be_value(pre), str@[i as int] as nat);
        }
        code = (code % 0x100_0000) * 256 + (str[i] as u32);
        i = i + 1;
    }
    assert(str@.subrange(0, i as int) == str@);
    code
}

/// The four little-endian bytes of a 32-bit value, lowest first.
pub open spec fn le_bytes(v: u32) -> Seq<u8> {
    seq![
        (v % 256) as u8,
        ((v / 0x100) % 256) as u8,
        ((v / 0x1_0000) % 256) as u8,
        (v / 0x100_0000) as u8,
    ]
}

/// The text that bytes stand for: a lone byte is one Latin-1 character; longer strings are
/// read as 16-bit units of two bytes each, the first the low one, with a lone byte at the
/// end read as Latin-1. A unit in the surrogate block is the error.
pub open spec fn decoded_text(b: Seq<u8>) -> Result<Seq<char>, u16>
    decreases b.len(),
{
    if b.len() == 0 {
        Ok(Seq::empty())
    } else if b.len() == 1 {
        Ok(seq![(b[0] as u32) as char])
    } else {
        let u = b[0] as u32 + b[1] as u32 * 256;
        if 0xD800 <= u && u <= 0xDFFF {
            Err(u as u16)
        } else {
            match decoded_text(b.subrange(2, b.len() as int)) {
                Ok(t) => Ok(seq![u as char] + t),
                Err(e) => Err(e),
            }
        }
    }
}

/// A byte string with the two bytes of each full pair swapped; a lone last byte stays.
pub open spec fn swap_pairs(b: Seq<u8>) -> Seq<u8> {
    Seq::new(
        b.len(),
        |i: int|
            if i % 2 == 0 && i + 1 < b.len() {
                b[i + 1]
            } else if i % 2 == 1 {
                b[i - 1]
            } else {
                b[i]
            },
    )
}

/// The text of a mapping target: one byte is a Latin-1 character, more bytes are big-endian
/// 16-bit units, a lone last byte again Latin-1.
pub(crate) fn target_text(b: &[u8]) -> (r: Result<String, CMapError>)
    ensures
        match decoded_text(swap_pairs(b@)) {
            Ok(t) => r matches Ok(s) && s@ == t,
            Err(u) => r == Err::<String, CMapError>(CMapError::Utf16(u)),
        },
{
    let mut swapped: Vec<u8> = Vec::new();
    let mut i: usize = 0;
    while i < b.len()
        invariant
            i <= b@.len(),
            swapped@ == swap_pairs(b@).subrange(0, i as int),
        decreases b.len() - i,
    {
        let v = if i % 2 == 0 && i + 1 < b.len() {
            b[i + 1]
        } else if i % 2 == 1 {
            b[i - 1]
        } else {
            b[i]
        };
        swapped.push(v);
        assert(swap_pairs(b@).subrange(0, i + 1) == swap_pairs(b@).subrange(0, i as int).push(v));
        i = i + 1;
    }
    assert(swap_pairs(b@).subrange(0, i as int) == swap_pairs(b@));
    as_string(swapped.as_slice())
}

/// Splits a code into its four bytes, lowest first.
pub(crate) fn from_code(code: u32) -> (r: Vec<u8>)
    ensures
        r@ == le_bytes(code),
{
    let r = vec![
        (code % 256) as u8,
        ((code / 0x100) % 256) as u8,
        ((code / 0x1_0000) % 256) as u8,
        (code / 0x100_0000) as u8,
    ];
    assert(r@ == le_bytes(code));
    r
}

/// Decodes bytes into text as `decoded_text` describes.
pub(crate) fn as_string(str: &[u8]) -> (r: Result<String, CMapError>)
    ensures
        match decoded_text(str@) {
            Ok(t) => r matches Ok(s) && s@ == t,
            Err(u) => r == Err::<String, CMapError>(CMapError::Utf16(u)),
        },
{
    let mut s = String::new();
    let mut i: usize = 0;
    proof {
        assert(str@.subrange(0, str@.len() as int) == str@);
        match decoded_text(str@) {
            Ok(t) => {
                assert(s@ + t == t);
            },
            Err(e) => {},
        }
    }
    while i < str.len()
        invariant
            i <= str.len(),
            decoded_text(str@) == match decoded_text(str@.subrange(i as int, str@.len() as int)) {
                Ok(t) => Ok(s@ + t),
                Err(e) => Err(e),
            },
        decreases str.len() - i,
    {
        let rest = Ghost(str@.subrange(i as int, str@.len() as int));
        if i + 1 == str.len() {
            let c = scalar_char(str[i] as u32);
            proof {
                let ch = c->Some_0;
                vstd::utf8::char_u32_cast(ch, ch as u32);
                assert(s@.push(ch) == s@ + seq![ch]);
            }
            push_char(&mut s, c.unwrap());
            i = i + 1;
        } else {
            let u: u32 = str[i] as u32 + str[i + 1] as u32 * 256;
            if 0xD800 <= u && u <= 0xDFFF {
                return Err(CMapError::Utf16(u as u16));
            }
            let c = scalar_char(u);
            proof {
                let ch = c->Some_0;
                vstd::utf8::char_u32_cast(ch, ch as u32);
                assert(rest@.subrange(2, rest@.len() as int) == str@.subrange(i + 2, str@.len() as int));
                match decoded_text(str@.subrange(i + 2, str@.len() as int)) {
                    Ok(t) => {
                        assert(s@.push(ch) + t == s@ + (seq![ch] + t));
                    },
                    Err(e) => {},
                }
            }
            push_char(&mut s, c.unwrap());
            i = i + 2;
        }
    }
    proof {
        assert(str@.subrange(i as int, str@.len() as int) == Seq::<u8>::empty());
        assert(s@ + Seq::<char>::empty() == s@);
    }
    Ok(s)
}

/// A byte string read as a big-endian counter, plus one: trailing 255 bytes wrap to 0 and
/// carry into the byte before them; a carry out of the first byte is dropped.
pub open spec fn incremented(s: Seq<u8>) -> Seq<u8>
    decreases s.len(),
{
    if s.len() == 0 {
        s
    } else if s.last() == 255 {
        incremented(s.drop_last()).push(0)
    } else {
        s.drop_last().push((s.last() + 1) as u8)
    }
}

/// Adds one to a byte string read as a big-endian counter.
pub(crate) fn increment_code(str: &mut Vec<u8>)
    ensures
        final(str)@ == incremented(old(str)@),
{
    let ghost orig = str@;
    let mut i: usize = str.len();
    let mut carry = true;
    assert(orig.subrange(0, i as int) == orig);
    assert(incremented(orig) + str@.subrange(i as int, str@.len() as int) == incremented(orig));
    while carry && i > 0
        invariant
            i <= str@.len(),
            str@.len() == orig.len(),
            str@.subrange(0, i as int) == orig.subrange(0, i as int),
            carry ==> incremented(orig) == incremented(orig.subrange(0, i as int)) + str@.subrange(
                i as int,
                str@.len() as int,
            ),
            !carry ==> str@ == incremented(orig),
        decreases i,
    {
        let ghost pre = orig.subrange(0, i as int);
        let ghost tail = str@.subrange(i as int, str@.len() as int);
        assert(pre.drop_last() == orig.subrange(0, i - 1));
        i = i - 1;
        if str[i] == 255 {
            str.set(i, 0);
            proof {
                assert(incremented(pre) == incremented(orig.subrange(0, i as int)).push(0));
                assert(str@.subrange(i as int, str@.len() as int) == seq![0u8] + tail);
                assert(incremented(orig.subrange(0, i as int)).push(0) + tail == incremented(orig.subrange(0, i as int)) + (seq![0u8] + tail));
                assert(str@.subrange(0, i as int) == orig.subrange(0, i as int));
            }
        } else {
            let v = str[i] + 1;
            str.set(i, v);
            carry = false;
            proof {
                assert(incremented(pre) == orig.subrange(0, i as int).push(v));
                assert(str@ == orig.subrange(0, i as int).push(v) + tail);
            }
        }
    }
    proof {
        if carry {
            assert(orig.subrange(0, 0) == Seq::<u8>::empty());
            assert(str@.subrange(0, str@.len() as int) == str@);
        }
    }
}

/// A code with no direct CID entry, that no CID range holds, maps to CID 0.
pub proof fn lemma_unmapped_cid_is_zero(m: &CMap, code: u32)
    requires
        !m.cid_table().contains_key(code),
        forall|j: int|
            0 <= j < m.cid_ranges().len() ==> !(m.cid_ranges()[j].from <= code && code
                <= m.cid_ranges()[j].to),
    ensures
        m.cid_of(code) == 0,
{
    lemma_no_range_holds(m.cid_ranges(), code);
}

/// A code with no direct text entry, that no text range holds, has no text: resolving it
/// fails with `NoUnicodeMappingFound` for that code.
pub proof fn lemma_unmapped_unicode_fails(m: &CMap, code: u32)
    requires
        !m.unicode_table().contains_key(code),
        forall|j: int|
            0 <= j < m.unicode_ranges().len() ==> !(m.unicode_ranges()[j].from <= code && code
                <= m.unicode_ranges()[j].to),
    ensures
        m.unicode_of(code) == Err::<Seq<char>, CMapError>(CMapError::NoUnicodeMappingFound(code)),
{
    lemma_no_range_holds(m.unicode_ranges(), code);
}

/// A direct entry for a code decides its CID and its text, whatever ranges hold the code.
pub proof fn lemma_direct_entry_wins(m: &CMap, code: u32)
    ensures
        m.cid_table().contains_key(code) ==> m.cid_of(code) == m.cid_table()[code],
        m.unicode_table().contains_key(code) ==> m.unicode_of(code) == Ok::<Seq<char>, CMapError>(
            m.unicode_table()[code],
        ),
{
}

} // verus!
