//! The integer side of font metrics: writing mode, how reliable the metrics
//! are, how many bytes make a character code, and how the bytes of a shown
//! string turn into character codes.

use vstd::prelude::*;
use crate::codemap::{CodeMap, bytes_equal};

verus! {

/// Direction in which a font advances.
#[derive(Clone, Copy, Debug, PartialEq, Eq, Structural)]
pub enum WritingMode {
    Horizontal,
    Vertical,
}

/// Whether a font's metrics come from its own width table or are estimated.
#[derive(Clone, Copy, Debug, PartialEq, Eq, Structural)]
pub enum Reliability {
    Exact,
    Estimated,
}

/// The writing mode that a Type0 font's `Encoding` name gives: vertical for
/// `Identity-V`, horizontal for any other name and for a missing one.
pub open spec fn writing_mode_spec(name: Option<Seq<u8>>) -> WritingMode {
    match name {
        Some(n) => if n == seq![73u8, 100, 101, 110, 116, 105, 116, 121, 45, 86] {
            WritingMode::Vertical
        } else {
            WritingMode::Horizontal
        },
        None => WritingMode::Horizontal,
    }
}

/// Whether `n` is the name `Identity-V`.
pub fn is_identity_v(n: &[u8]) -> (r: bool)
    ensures
        r == (n@ == seq![73u8, 100, 101, 110, 116, 105, 116, 121, 45, 86]),
{
    let v: [u8; 10] = [73u8, 100, 101, 110, 116, 105, 116, 121, 45, 86];
    assert(v@ =~= seq![73u8, 100, 101, 110, 116, 105, 116, 121, 45, 86]);
    if n.len() != 10 {
        return false;
    }
    let mut i: usize = 0;
    while i < 10
        invariant
            n.len() == 10,
            i <= 10,
            v@ == seq![73u8, 100, 101, 110, 116, 105, 116, 121, 45, 86],
            forall|j: int| 0 <= j < i ==> n@[j] == v@[j],
        decreases 10 - i,
    {
        if n[i] != v[i] {
            assert(n@[i as int] != v@[i as int]);
            return false;
        }
        i = i + 1;
    }
    assert(n@ =~= v@);
    true
}

/// The writing mode of a Type0 font with the given `Encoding` name.
pub fn writing_mode_for_encoding(name: Option<&[u8]>) -> (m: WritingMode)
    ensures
        name matches Some(n) ==> m == writing_mode_spec(Some(n@)),
        name is None ==> m == writing_mode_spec(None),
{
    match name {
        Some(n) => {
            if is_identity_v(n) {
                WritingMode::Vertical
            } else {
                WritingMode::Horizontal
            }
        },
        None => WritingMode::Horizontal,
    }
}

/// How a font turns string bytes into character codes, and how reliable its
/// metrics are.
pub struct FontEncoding {
    pub is_cid: bool,
    pub bytes_per_char: usize,
    pub writing_mode: WritingMode,
    pub reliability: Reliability,
    pub cmap: Option<CodeMap>,
}

/// The code map of an encoding, as a map.
pub open spec fn cmap_view(c: Option<CodeMap>) -> Option<Map<Seq<u8>, u32>> {
    match c {
        Some(m) => Some(m@),
        None => None,
    }
}

impl FontEncoding {
    /// The encoding assumed where a font cannot be read: one byte per code,
    /// horizontal, estimated.
    pub fn fallback() -> (e: FontEncoding)
        ensures
            !e.is_cid,
            e.bytes_per_char == 1,
            e.writing_mode == WritingMode::Horizontal,
            e.reliability == Reliability::Estimated,
            e.cmap is None,
    {
        FontEncoding {
            is_cid: false,
            bytes_per_char: 1,
            writing_mode: WritingMode::Horizontal,
            reliability: Reliability::Estimated,
            cmap: None,
        }
    }

    /// The encoding of a simple font (Type1, TrueType) read from its width
    /// table: one byte per code, horizontal, exact.
    pub fn simple() -> (e: FontEncoding)
        ensures
            !e.is_cid,
            e.bytes_per_char == 1,
            e.writing_mode == WritingMode::Horizontal,
            e.reliability == Reliability::Exact,
            e.cmap is None,
    {
        FontEncoding {
            is_cid: false,
            bytes_per_char: 1,
            writing_mode: WritingMode::Horizontal,
            reliability: Reliability::Exact,
            cmap: None,
        }
    }

    /// The encoding of a Type0 (composite) font before any CMap is read:
    /// two bytes per code, estimated.
    pub fn type0(writing_mode: WritingMode) -> (e: FontEncoding)
        ensures
            e.is_cid,
            e.bytes_per_char == 2,
            e.writing_mode == writing_mode,
            e.reliability == Reliability::Estimated,
            e.cmap is None,
    {
        FontEncoding {
            is_cid: true,
            bytes_per_char: 2,
            writing_mode,
            reliability: Reliability::Estimated,
            cmap: None,
        }
    }

    /// Takes what a CMap gave, if anything: its width (at least 1) becomes
    /// the bytes per code and its map the code map.
    pub fn refine_with_cmap(&mut self, parsed: Option<(usize, CodeMap)>)
        ensures
            match parsed {
                Some((n, m)) => {
                    &&& final(self).bytes_per_char == (if n >= 1 { n } else { 1 })
                    &&& cmap_view(final(self).cmap) == Some(m@)
                    &&& final(self).reliability == Reliability::Estimated
                    &&& final(self).is_cid == old(self).is_cid
                    &&& final(self).writing_mode == old(self).writing_mode
                },
                None => {
                    &&& final(self).bytes_per_char == old(self).bytes_per_char
                    &&& cmap_view(final(self).cmap) == cmap_view(old(self).cmap)
                    &&& final(self).reliability == old(self).reliability
                    &&& final(self).is_cid == old(self).is_cid
                    &&& final(self).writing_mode == old(self).writing_mode
                },
            },
    {
        match parsed {
            Some((n, m)) => {
                self.bytes_per_char = if n >= 1 {
                    n
                } else {
                    1
                };
                self.cmap = Some(m);
                self.reliability = Reliability::Estimated;
            },
            None => {},
        }
    }
}

/// The big-endian value of a byte string, keeping its low 32 bits.
pub open spec fn low_u32(chunk: Seq<u8>) -> u32
    decreases chunk.len(),
{
    if chunk.len() == 0 {
        0
    } else {
        ((low_u32(chunk.drop_last()) as nat) * 256 + chunk.last() as nat) as u32
    }
}

/// The code of one chunk: its entry in the code map where there is one,
/// else its big-endian value.
pub open spec fn chunk_code(chunk: Seq<u8>, cmap: Option<Map<Seq<u8>, u32>>) -> u32 {
    match cmap {
        Some(m) => if m.contains_key(chunk) {
            m[chunk]
        } else {
            low_u32(chunk)
        },
        None => low_u32(chunk),
    }
}

/// The codes of the complete `n`-byte chunks of `bytes`, in order; a final
/// incomplete chunk gives none.
pub open spec fn cid_codes(bytes: Seq<u8>, n: nat, cmap: Option<Map<Seq<u8>, u32>>) -> Seq<u32>
    decreases bytes.len(),
{
    if n == 0 || bytes.len() < n {
        seq![]
    } else {
        seq![chunk_code(bytes.take(n as int), cmap)] + cid_codes(bytes.skip(n as int), n, cmap)
    }
}

/// Each byte as its own code.
pub open spec fn byte_codes(bytes: Seq<u8>) -> Seq<u32> {
    bytes.map_values(|b: u8| b as u32)
}

/// The character codes of a shown string: for a composite font the chunks
/// of `max(bytes_per_char, 1)` bytes, or the single bytes where no complete
/// chunk exists; for a simple font the single bytes.
pub open spec fn text_codes(
    bytes: Seq<u8>,
    is_cid: bool,
    bytes_per_char: nat,
    cmap: Option<Map<Seq<u8>, u32>>,
) -> Seq<u32> {
    if is_cid {
        let n = if bytes_per_char >= 1 {
            bytes_per_char
        } else {
            1
        };
        let c = cid_codes(bytes, n, cmap);
        if c.len() > 0 {
            c
        } else {
            byte_codes(bytes)
        }
    } else {
        byte_codes(bytes)
    }
}

fn low_u32_of(chunk: &[u8]) -> (r: u32)
    ensures
        r == low_u32(chunk@),
{
    let mut value: u32 = 0;
    let mut i: usize = 0;
    assert(chunk@.take(0) =~= Seq::<u8>::empty());
    while i < chunk.len()
        invariant
            i <= chunk.len(),
            value == low_u32(chunk@.take(i as int)),
        decreases chunk.len() - i,
    {
        let b = chunk[i] as u32;
        let ghost pre = chunk@.take(i + 1);
        assert(pre.drop_last() =~= chunk@.take(i as int));
        let next = (value << 8u32) | b;
        assert(next == ((value as nat) * 256 + b as nat) as u32) by (bit_vector)
            requires
                b < 256u32,
                next == (value << 8u32) | b,
        ;
        value = next;
        i = i + 1;
    }
    assert(chunk@.take(i as int) =~= chunk@);
    value
}

fn byte_codes_of(bytes: &[u8]) -> (r: Vec<u32>)
    ensures
        r@ == byte_codes(bytes@),
{
    let mut r: Vec<u32> = Vec::new();
    let mut i: usize = 0;
    while i < bytes.len()
        invariant
            i <= bytes.len(),
            r@ == byte_codes(bytes@.take(i as int)),
        decreases bytes.len() - i,
    {
        r.push(bytes[i] as u32);
        i = i + 1;
        assert(r@ =~= byte_codes(bytes@.take(i as int)));
    }
    assert(bytes@.take(i as int) =~= bytes@);
    r
}

/// The character codes that the bytes of a shown string stand for.
pub fn decode_text_codes(bytes: &[u8], enc: &FontEncoding) -> (r: Vec<u32>)
    ensures
        r@ == text_codes(bytes@, enc.is_cid, enc.bytes_per_char as nat, cmap_view(enc.cmap)),
{
    if !enc.is_cid {
        return byte_codes_of(bytes);
    }
    let n: usize = if enc.bytes_per_char >= 1 {
        enc.bytes_per_char
    } else {
        1
    };
    let ghost cm = cmap_view(enc.cmap);
    let mut codes: Vec<u32> = Vec::new();
    let mut i: usize = 0;
    assert(bytes@.skip(0) =~= bytes@);
    while n <= bytes.len() - i
        invariant
            i <= bytes.len(),
            n >= 1,
            cm == cmap_view(enc.cmap),
            cid_codes(bytes@, n as nat, cm) == codes@ + cid_codes(bytes@.skip(i as int), n as nat, cm),
        decreases bytes.len() - i,
    {
        let ghost rest = bytes@.skip(i as int);
        let mut chunk: Vec<u8> = Vec::new();
        let mut k: usize = 0;
        while k < n
            invariant
                k <= n,
                i + n <= bytes.len(),
                chunk@ == bytes@.subrange(i as int, i + k),
            decreases n - k,
        {
            chunk.push(bytes[i + k]);
            k = k + 1;
        }
        assert(chunk@ =~= rest.take(n as int));
        assert(rest.skip(n as int) =~= bytes@.skip(i + n));
        let code = match &enc.cmap {
            Some(m) => match m.get(&chunk) {
                Some(v) => v,
                None => low_u32_of(&chunk),
            },
            None => low_u32_of(&chunk),
        };
        let ghost before = codes@;
        codes.push(code);
        assert(codes@ + cid_codes(bytes@.skip(i + n), n as nat, cm) =~= before + (seq![code]
            + cid_codes(bytes@.skip(i + n), n as nat, cm)));
        i = i + n;
    }
    assert(cid_codes(bytes@.skip(i as int), n as nat, cm) =~= Seq::<u32>::empty());
    assert(codes@ + Seq::<u32>::empty() =~= codes@);
    if codes.len() > 0 {
        codes
    } else {
        byte_codes_of(bytes)
    }
}


/// How a font is read, by its `Subtype`.
#[derive(Clone, Copy, Debug, PartialEq, Eq, Structural)]
pub enum FontKind {
    /// `Type0`: a composite font.
    Composite,
    /// `Type1` or `TrueType`: a simple font with a width table.
    Simple,
    /// `Type3`: glyphs drawn by content streams.
    Type3,
    /// Anything else, or no subtype: the fallback metrics.
    Unknown,
}

/// `Type0`, `Type1`, `TrueType` and `Type3` as bytes.
pub open spec fn type0_name() -> Seq<u8> {
    seq![84u8, 121, 112, 101, 48]
}

pub open spec fn type1_name() -> Seq<u8> {
    seq![84u8, 121, 112, 101, 49]
}

pub open spec fn truetype_name() -> Seq<u8> {
    seq![84u8, 114, 117, 101, 84, 121, 112, 101]
}

pub open spec fn type3_name() -> Seq<u8> {
    seq![84u8, 121, 112, 101, 51]
}

/// The kind of a font with the given `Subtype` name.
pub open spec fn font_kind_spec(subtype: Option<Seq<u8>>) -> FontKind {
    match subtype {
        Some(n) => if n == type0_name() {
            FontKind::Composite
        } else if n == type1_name() || n == truetype_name() {
            FontKind::Simple
        } else if n == type3_name() {
            FontKind::Type3
        } else {
            FontKind::Unknown
        },
        None => FontKind::Unknown,
    }
}

/// The kind of a font, from its `Subtype` name.
pub fn font_kind(subtype: Option<&[u8]>) -> (k: FontKind)
    ensures
        subtype matches Some(n) ==> k == font_kind_spec(Some(n@)),
        subtype is None ==> k == font_kind_spec(None),
{
    match subtype {
        Some(n) => {
            let t0: [u8; 5] = [84u8, 121, 112, 101, 48];
            let t1: [u8; 5] = [84u8, 121, 112, 101, 49];
            let tt: [u8; 8] = [84u8, 114, 117, 101, 84, 121, 112, 101];
            let t3: [u8; 5] = [84u8, 121, 112, 101, 51];
            assert(t0@ =~= type0_name());
            assert(t1@ =~= type1_name());
            assert(tt@ =~= truetype_name());
            assert(t3@ =~= type3_name());
            if bytes_equal(n, &t0) {
                FontKind::Composite
            } else if bytes_equal(n, &t1) || bytes_equal(n, &tt) {
                FontKind::Simple
            } else if bytes_equal(n, &t3) {
                FontKind::Type3
            } else {
                FontKind::Unknown
            }
        },
        None => FontKind::Unknown,
    }
}


/// One entry of a composite font's `W` array, as far as reading it goes.
#[derive(Debug)]
pub enum WEntry {
    /// An array of widths; `numbers[k]` says whether its `k`-th element is a
    /// number.
    Array { numbers: Vec<bool> },
    /// A number; `code` is its value as a character code where it is
    /// non-negative.
    Number { code: Option<u32> },
    /// Anything else.
    Other,
}

/// A run of codes that a `W` array gives one width: the codes `first` to
/// `last`, and where the width stands: entry `entry` itself (`item` is
/// `None`), or element `k` of the array at entry `entry` (`item` is
/// `Some(k)`).
#[derive(Clone, Copy, Debug, PartialEq, Eq, Structural)]
pub struct WidthRange {
    pub first: u32,
    pub last: u32,
    pub entry: usize,
    pub item: Option<usize>,
}

/// The code value of an entry, if it is a non-negative number.
pub open spec fn entry_code(e: WEntry) -> Option<u32> {
    match e {
        WEntry::Number { code } => code,
        _ => None,
    }
}

/// Whether an entry is an array of widths.
pub open spec fn is_array(e: WEntry) -> bool {
    e is Array
}

/// The element kinds of an array entry (none for other entries).
pub open spec fn array_numbers(e: WEntry) -> Seq<bool> {
    match e {
        WEntry::Array { numbers } => numbers@,
        _ => seq![],
    }
}

/// The ranges of a `cFirst [w0 w1 ...]` entry from element `k` on: code
/// `first + j` takes element `j` where that element is a number; the codes
/// stop at `u32::MAX`.
pub open spec fn array_ranges(first: u32, numbers: Seq<bool>, entry: usize, k: nat) -> Seq<WidthRange>
    decreases numbers.len() - k,
{
    if k >= numbers.len() || first + k > u32::MAX {
        seq![]
    } else {
        let c = (first + k) as u32;
        let head = if numbers[k as int] {
            seq![WidthRange { first: c, last: c, entry, item: Some(k as usize) }]
        } else {
            seq![]
        };
        head + array_ranges(first, numbers, entry, k + 1)
    }
}

/// The ranges that the `W` array from entry `idx` on assigns widths to, in
/// the two forms of the array: a number followed by an array,
/// `cFirst [w0 w1 ...]`, gives code `cFirst + k` the width `wk` (nothing
/// where `cFirst` is no code); a triple `cFirst cLast w` whose `cLast` is a
/// code and whose `w` is a number gives codes `cFirst` to `cLast` the width
/// `w` (a `cFirst` that is no code counts as 0). A number whose next entry
/// is no code and no array is skipped, as is any entry that is neither
/// number nor part of such a form; the walk stops where a triple would run
/// past the end.
pub open spec fn width_ranges(entries: Seq<WEntry>, idx: int) -> Seq<WidthRange>
    decreases entries.len() - idx,
{
    if idx < 0 || idx >= entries.len() {
        seq![]
    } else {
        match entries[idx] {
            WEntry::Number { code } => if idx + 1 < entries.len() && is_array(entries[idx + 1]) {
                let head = match code {
                    Some(c) => array_ranges(c, array_numbers(entries[idx + 1]), (idx + 1) as usize, 0),
                    None => seq![],
                };
                head + width_ranges(entries, idx + 2)
            } else if idx + 2 >= entries.len() {
                seq![]
            } else {
                match entry_code(entries[idx + 1]) {
                    None => width_ranges(entries, idx + 1),
                    Some(last) => {
                        let first = match code {
                            Some(c) => c,
                            None => 0u32,
                        };
                        let head = if entries[idx + 2] is Number {
                            seq![WidthRange { first, last, entry: (idx + 2) as usize, item: None }]
                        } else {
                            seq![]
                        };
                        head + width_ranges(entries, idx + 3)
                    },
                }
            },
            _ => width_ranges(entries, idx + 1),
        }
    }
}

/// Appends the ranges of a `cFirst [w0 w1 ...]` entry.
fn push_array_ranges(r: &mut Vec<WidthRange>, first: u32, numbers: &Vec<bool>, entry: usize)
    ensures
        final(r)@ == old(r)@ + array_ranges(first, numbers@, entry, 0),
{
    let mut k: usize = 0;
    while k < numbers.len()
        invariant
            k <= numbers.len(),
            old(r)@ + array_ranges(first, numbers@, entry, 0) == r@ + array_ranges(
                first,
                numbers@,
                entry,
                k as nat,
            ),
        decreases numbers.len() - k,
    {
        if k as u64 > (u32::MAX - first) as u64 {
            assert(array_ranges(first, numbers@, entry, k as nat) =~= Seq::<WidthRange>::empty());
            assert(r@ + Seq::<WidthRange>::empty() =~= r@);
            return;
        }
        let c = first + k as u32;
        let ghost before = r@;
        let ghost rest = array_ranges(first, numbers@, entry, (k + 1) as nat);
        if numbers[k] {
            r.push(WidthRange { first: c, last: c, entry, item: Some(k) });
            assert(before + array_ranges(first, numbers@, entry, k as nat) =~= r@ + rest);
        } else {
            assert(before + array_ranges(first, numbers@, entry, k as nat) =~= r@ + rest);
        }
        k = k + 1;
    }
    assert(array_ranges(first, numbers@, entry, k as nat) =~= Seq::<WidthRange>::empty());
    assert(r@ + Seq::<WidthRange>::empty() =~= r@);
}

/// The code ranges a `W` array assigns widths to, in order.
pub fn cid_width_ranges(entries: &[WEntry]) -> (r: Vec<WidthRange>)
    ensures
        r@ == width_ranges(entries@, 0),
{
    let mut r: Vec<WidthRange> = Vec::new();
    let mut idx: usize = 0;
    while idx < entries.len()
        invariant
            idx <= entries.len() + 1,
            width_ranges(entries@, 0) == r@ + width_ranges(entries@, idx as int),
        decreases entries.len() - idx,
    {
        let ghost before = r@;
        match &entries[idx] {
            WEntry::Number { code } => {
                let next_array: Option<&Vec<bool>> = if idx + 1 < entries.len() {
                    match &entries[idx + 1] {
                        WEntry::Array { numbers } => Some(numbers),
                        _ => None,
                    }
                } else {
                    None
                };
                match next_array {
                    Some(numbers) => {
                        match code {
                            Some(c) => {
                                push_array_ranges(&mut r, *c, numbers, idx + 1);
                            },
                            None => {},
                        }
                        assert(r@ + width_ranges(entries@, idx + 2) =~= before + width_ranges(
                            entries@,
                            idx as int,
                        ));
                        idx = idx + 2;
                    },
                    None => {
                        if entries.len() - idx <= 2 {
                            assert(width_ranges(entries@, idx as int) =~= Seq::<WidthRange>::empty());
                            assert(r@ + Seq::<WidthRange>::empty() =~= r@);
                            return r;
                        }
                        let last = match &entries[idx + 1] {
                            WEntry::Number { code } => *code,
                            _ => None,
                        };
                        match last {
                            None => {
                                idx = idx + 1;
                            },
                            Some(last) => {
                                let first = match code {
                                    Some(c) => *c,
                                    None => 0u32,
                                };
                                let is_num = match &entries[idx + 2] {
                                    WEntry::Number { .. } => true,
                                    _ => false,
                                };
                                if is_num {
                                    r.push(WidthRange { first, last, entry: idx + 2, item: None });
                                    assert(r@ + width_ranges(entries@, idx + 3) =~= before + (seq![
                                        WidthRange { first, last, entry: (idx + 2) as usize, item: None },
                                    ] + width_ranges(entries@, idx + 3)));
                                } else {
                                    assert(r@ + width_ranges(entries@, idx + 3) =~= before + (Seq::<
                                        WidthRange,
                                    >::empty() + width_ranges(entries@, idx + 3)));
                                }
                                idx = idx + 3;
                            },
                        }
                    },
                }
            },
            _ => {
                idx = idx + 1;
            },
        }
    }
    assert(width_ranges(entries@, idx as int) =~= Seq::<WidthRange>::empty());
    assert(r@ + Seq::<WidthRange>::empty() =~= r@);
    r
}


/// A composite font's string of `len` bytes with `n`-byte codes gives
/// `len / n` codes (where that is at least one).
pub proof fn lemma_cid_code_count(bytes: Seq<u8>, n: nat, cmap: Option<Map<Seq<u8>, u32>>)
    requires
        n >= 1,
    ensures
        cid_codes(bytes, n, cmap).len() == bytes.len() / n,
    decreases bytes.len(),
{
    if bytes.len() < n {
        assert(bytes.len() / n == 0) by (nonlinear_arith)
            requires
                bytes.len() < n,
                n >= 1,
        ;
    } else {
        lemma_cid_code_count(bytes.skip(n as int), n, cmap);
        let l = bytes.len() as int;
        let k = n as int;
        assert((l - k) / k + 1 == l / k) by (nonlinear_arith)
            requires
                l >= k,
                k >= 1,
        ;
    }
}

} // verus!
