//! Reading a CMap: the code-space width and the code map from its
//! `codespacerange`, `bfchar` and `bfrange` sections.

use vstd::prelude::*;
use vstd::utf8::*;
use crate::pdf::{decompressed_bytes, lossy_chars, stream_bytes, utf8_lossy};
use crate::codemap::{CodeMap, bytes_equal, copy_bytes};
use crate::codes::{
    lemma_all_ff_max, lemma_be_value_injective, lemma_lex_le_by_value, lemma_lex_le_trans,
    bytes_hex_to_bytes, encode_chars, all_ff, be_value, hex_bytes, increment_bytes, lemma_be_value_bound,
    lemma_successor_len, lemma_successor_no_wrap, lex_le, pow256, successor,
};
use crate::text::{
    chars_of, split_lines, contains_char, ends_with, ends_with_seq, in_set_pred, lemma_char_vec_deep_view,
    lemma_char_vec_deep_view_all, lemma_tokens_nonempty, lines, parse_hex, parse_hex_below,
    split_whitespace, tokens, trim, trim_by, trim_set, trim_ws,
};

verus! {

/// Fills a `bfrange` with consecutive destinations: `cur`, its successor
/// and so on, as long as the code is `<= end`, get `dst`, `dst + 1`, ...
/// (saturating). The walk ends at the last code of its length (`FF..FF`):
/// codes never wrap around to `00..00`.
pub open spec fn range_fill(m: Map<Seq<u8>, u32>, cur: Seq<u8>, end: Seq<u8>, dst: u32) -> Map<
    Seq<u8>,
    u32,
>
    decreases pow256(cur.len()) - be_value(cur),
{
    if !lex_le(cur, end) {
        m
    } else if all_ff(cur) {
        m.insert(cur, dst)
    } else {
        proof {
            lemma_successor_no_wrap(cur);
            lemma_successor_len(cur);
            lemma_be_value_bound(cur);
            lemma_be_value_bound(successor(cur));
        }
        range_fill(m.insert(cur, dst), successor(cur), end, dst.saturating_add(1))
    }
}

/// Fills a `bfrange` from a destination list: the `i`-th destination goes to
/// the `i`-th code from `cur`, stopping after the code equal to `end`.
pub open spec fn array_fill(m: Map<Seq<u8>, u32>, cur: Seq<u8>, end: Seq<u8>, dsts: Seq<u32>) -> Map<
    Seq<u8>,
    u32,
>
    decreases dsts.len(),
{
    if dsts.len() == 0 {
        m
    } else if cur == end {
        m.insert(cur, dsts[0])
    } else {
        array_fill(m.insert(cur, dsts[0]), successor(cur), end, dsts.drop_first())
    }
}

pub open spec fn angle_set() -> Seq<char> {
    seq!['<', '>']
}

pub open spec fn bracket_set() -> Seq<char> {
    seq!['<', '>', '[', ']']
}

/// A token without its angle brackets.
pub open spec fn angle_trim(tok: Seq<char>) -> Seq<char> {
    trim_by(tok, in_set_pred(angle_set()))
}

/// The code that a `<hex>` token denotes.
pub open spec fn hex_code(tok: Seq<char>) -> Seq<u8> {
    hex_bytes(encode_utf8(angle_trim(tok)))
}

/// A `u32` in hexadecimal, or 0 where it does not parse.
pub open spec fn hex_u32_or_zero(s: Seq<char>) -> u32 {
    match parse_hex(s, 0x1_0000_0000) {
        Some(v) => v as u32,
        None => 0,
    }
}

/// The destinations of a `bfrange` written as an array: the tokens from
/// `[` on, each stripped of `<>[]`; empty ones skipped, the first token that
/// holds `]` ends the list.
pub open spec fn array_dsts(toks: Seq<Seq<char>>) -> Seq<u32>
    decreases toks.len(),
{
    if toks.len() == 0 {
        seq![]
    } else {
        let tok = toks[0];
        let c = trim_by(tok, in_set_pred(bracket_set()));
        if c.len() == 0 {
            array_dsts(toks.drop_first())
        } else {
            let head = match parse_hex(c, 0x1_0000_0000) {
                Some(v) => seq![v as u32],
                None => Seq::<u32>::empty(),
            };
            if tok.contains(']') {
                head
            } else {
                head + array_dsts(toks.drop_first())
            }
        }
    }
}

/// Whether `a <= b` in the order of byte vectors.
pub fn bytes_le(a: &[u8], b: &[u8]) -> (r: bool)
    ensures
        r == lex_le(a@, b@),
{
    let mut i: usize = 0;
    assert(a@.skip(0) =~= a@);
    assert(b@.skip(0) =~= b@);
    while i < a.len()
        invariant
            i <= a.len(),
            i <= b.len(),
            lex_le(a@, b@) == lex_le(a@.skip(i as int), b@.skip(i as int)),
        decreases a.len() - i,
    {
        let ghost sa = a@.skip(i as int);
        let ghost sb = b@.skip(i as int);
        if i >= b.len() {
            return false;
        }
        assert(sa[0] == a@[i as int] && sb[0] == b@[i as int]);
        if a[i] != b[i] {
            return a[i] < b[i];
        }
        assert(sa.drop_first() =~= a@.skip(i + 1));
        assert(sb.drop_first() =~= b@.skip(i + 1));
        i = i + 1;
    }
    true
}

/// Whether every byte of `s` is `0xFF` (so that `s` is the last code of its
/// length).
pub fn is_all_ff(s: &[u8]) -> (r: bool)
    ensures
        r == all_ff(s@),
{
    let mut i: usize = 0;
    while i < s.len()
        invariant
            i <= s.len(),
            forall|j: int| 0 <= j < i ==> s@[j] == 0xFF,
        decreases s.len() - i,
    {
        if s[i] != 0xFF {
            return false;
        }
        i = i + 1;
    }
    true
}

/// Adds the codes from `start` up to `end` with consecutive destinations;
/// the walk ends at the last code of the start's length (`FF..FF`) where
/// `end` lies beyond it.
pub fn fill_range(map: &mut CodeMap, start: &[u8], end: &[u8], dst: u32)
    ensures
        final(map)@ == range_fill(old(map)@, start@, end@, dst),
{
    let mut cur = copy_bytes(start);
    let mut d = dst;
    let ghost n: nat = start@.len();
    proof {
        lemma_be_value_bound(cur@);
    }
    while bytes_le(&cur, end)
        invariant
            cur@.len() == n,
            be_value(cur@) < pow256(n),
            range_fill(old(map)@, start@, end@, dst) == range_fill(map@, cur@, end@, d),
        decreases pow256(n) - be_value(cur@),
    {
        map.insert(&cur, d);
        if is_all_ff(&cur) {
            return;
        }
        proof {
            lemma_successor_no_wrap(cur@);
            lemma_successor_len(cur@);
            lemma_be_value_bound(successor(cur@));
        }
        d = d.saturating_add(1);
        cur = increment_bytes(&cur);
    }
}

/// Adds the codes from `start` on with the given destinations, stopping
/// after the code equal to `end`.
pub fn fill_array(map: &mut CodeMap, start: &[u8], end: &[u8], dsts: &[u32])
    ensures
        final(map)@ == array_fill(old(map)@, start@, end@, dsts@),
{
    let mut cur = copy_bytes(start);
    let mut i: usize = 0;
    assert(dsts@.skip(0) =~= dsts@);
    while i < dsts.len()
        invariant
            i <= dsts.len(),
            array_fill(old(map)@, start@, end@, dsts@) == array_fill(
                map@,
                cur@,
                end@,
                dsts@.skip(i as int),
            ),
        decreases dsts.len() - i,
    {
        let ghost rest = dsts@.skip(i as int);
        assert(rest[0] == dsts@[i as int]);
        map.insert(&cur, dsts[i]);
        if bytes_equal(&cur, end) {
            return;
        }
        assert(rest.drop_first() =~= dsts@.skip(i + 1));
        cur = increment_bytes(&cur);
        i = i + 1;
    }
}

/// The destinations of an array-form `bfrange`, read from its tokens
/// starting at the one that opens the array.
pub fn array_destinations(toks: &[Vec<char>]) -> (r: Vec<u32>)
    ensures
        r@ == array_dsts(toks.deep_view()),
{
    let set = vec!['<', '>', '[', ']'];
    assert(set@ =~= bracket_set());
    let mut r: Vec<u32> = Vec::new();
    let mut i: usize = 0;
    assert(toks.deep_view().skip(0) =~= toks.deep_view());
    while i < toks.len()
        invariant
            i <= toks.len(),
            set@ == bracket_set(),
            array_dsts(toks.deep_view()) == r@ + array_dsts(toks.deep_view().skip(i as int)),
        decreases toks.len() - i,
    {
        let ghost rest = toks.deep_view().skip(i as int);
        assert(rest[0] == toks[i as int]@);
        assert(rest.drop_first() =~= toks.deep_view().skip(i + 1));
        let c = trim_set(&toks[i], &set);
        if c.len() == 0 {
            i = i + 1;
            continue;
        }
        let ghost prev = r@;
        match parse_hex_below(&c, 0x1_0000_0000) {
            Some(v) => {
                r.push(v as u32);
            },
            None => {},
        }
        let ghost head = r@.skip(prev.len() as int);
        assert(r@ =~= prev + head);
        if contains_char(&toks[i], ']') {
            assert(array_dsts(rest) == head);
            return r;
        }
        assert(prev + (head + array_dsts(rest.drop_first())) =~= r@ + array_dsts(
            rest.drop_first(),
        ));
        i = i + 1;
    }
    assert(toks.deep_view().skip(i as int) =~= Seq::<Seq<char>>::empty());
    assert(r@ + Seq::<u32>::empty() =~= r@);
    r
}

} // verus!

verus! {

/// The section of a CMap that a line belongs to.
#[derive(Clone, Copy, PartialEq, Eq, Structural)]
pub enum CMapSection {
    Outside,
    CodeSpace,
    BfChar,
    BfRange,
}

/// The section that a (trimmed) line opens or closes, if it is a section
/// keyword line.
pub open spec fn section_marker(t: Seq<char>) -> Option<CMapSection> {
    if ends_with(t, "begincodespacerange"@) {
        Some(CMapSection::CodeSpace)
    } else if ends_with(t, "endcodespacerange"@) {
        Some(CMapSection::Outside)
    } else if ends_with(t, "beginbfchar"@) {
        Some(CMapSection::BfChar)
    } else if ends_with(t, "endbfchar"@) {
        Some(CMapSection::Outside)
    } else if ends_with(t, "beginbfrange"@) {
        Some(CMapSection::BfRange)
    } else if ends_with(t, "endbfrange"@) {
        Some(CMapSection::Outside)
    } else {
        None
    }
}

pub open spec fn nmax(a: nat, b: nat) -> nat {
    if a >= b {
        a
    } else {
        b
    }
}

/// What one line does to the reading state `(section, widest code, map)`.
pub open spec fn cmap_step(st: (CMapSection, nat, Map<Seq<u8>, u32>), line: Seq<char>) -> (
    CMapSection,
    nat,
    Map<Seq<u8>, u32>,
) {
    let t = trim(line);
    match section_marker(t) {
        Some(m) => (m, st.1, st.2),
        None => {
            let parts = tokens(t);
            match st.0 {
                CMapSection::CodeSpace => if parts.len() >= 2 {
                    (st.0, nmax(st.1, encode_utf8(angle_trim(parts[0])).len() / 2), st.2)
                } else {
                    st
                },
                CMapSection::BfChar => if parts.len() >= 2 {
                    let src = hex_code(parts[0]);
                    let dst = hex_u32_or_zero(angle_trim(parts[1]));
                    (st.0, nmax(st.1, src.len()), st.2.insert(src, dst))
                } else {
                    st
                },
                CMapSection::BfRange => if parts.len() >= 3 {
                    let s = hex_code(parts[0]);
                    let e = hex_code(parts[1]);
                    let mb = nmax(st.1, nmax(s.len(), e.len()));
                    let p2 = parts[2];
                    if p2[0] == '<' {
                        (st.0, mb, range_fill(st.2, s, e, hex_u32_or_zero(angle_trim(p2))))
                    } else if p2[0] == '[' {
                        (st.0, mb, array_fill(st.2, s, e, array_dsts(parts.skip(2))))
                    } else {
                        (st.0, mb, st.2)
                    }
                } else {
                    st
                },
                CMapSection::Outside => st,
            }
        },
    }
}

/// The reading state after a sequence of lines.
pub open spec fn cmap_fold(st: (CMapSection, nat, Map<Seq<u8>, u32>), ls: Seq<Seq<char>>) -> (
    CMapSection,
    nat,
    Map<Seq<u8>, u32>,
)
    decreases ls.len(),
{
    if ls.len() == 0 {
        st
    } else {
        cmap_fold(cmap_step(st, ls[0]), ls.drop_first())
    }
}

/// What a CMap text yields: the widest code in bytes and the code map, or
/// `None` when no code-space range or mapping gives a positive width.
pub open spec fn cmap_result(text: Seq<char>) -> Option<(nat, Map<Seq<u8>, u32>)> {
    let st = cmap_fold((CMapSection::Outside, 0, Map::empty()), lines(text));
    if st.1 > 0 {
        Some((st.1, st.2))
    } else {
        None
    }
}

/// The keywords that open and close CMap sections.
pub struct SectionKeywords {
    pub begin_codespace: Vec<char>,
    pub end_codespace: Vec<char>,
    pub begin_bfchar: Vec<char>,
    pub end_bfchar: Vec<char>,
    pub begin_bfrange: Vec<char>,
    pub end_bfrange: Vec<char>,
}

impl SectionKeywords {
    pub open spec fn wf(&self) -> bool {
        &&& self.begin_codespace@ == "begincodespacerange"@
        &&& self.end_codespace@ == "endcodespacerange"@
        &&& self.begin_bfchar@ == "beginbfchar"@
        &&& self.end_bfchar@ == "endbfchar"@
        &&& self.begin_bfrange@ == "beginbfrange"@
        &&& self.end_bfrange@ == "endbfrange"@
    }

    pub fn new() -> (k: SectionKeywords)
        ensures
            k.wf(),
    {
        SectionKeywords {
            begin_codespace: chars_of("begincodespacerange"),
            end_codespace: chars_of("endcodespacerange"),
            begin_bfchar: chars_of("beginbfchar"),
            end_bfchar: chars_of("endbfchar"),
            begin_bfrange: chars_of("beginbfrange"),
            end_bfrange: chars_of("endbfrange"),
        }
    }

    /// The section that a trimmed line opens or closes.
    pub fn marker(&self, t: &[char]) -> (r: Option<CMapSection>)
        requires
            self.wf(),
        ensures
            r == section_marker(t@),
    {
        if ends_with_seq(t, &self.begin_codespace) {
            Some(CMapSection::CodeSpace)
        } else if ends_with_seq(t, &self.end_codespace) {
            Some(CMapSection::Outside)
        } else if ends_with_seq(t, &self.begin_bfchar) {
            Some(CMapSection::BfChar)
        } else if ends_with_seq(t, &self.end_bfchar) {
            Some(CMapSection::Outside)
        } else if ends_with_seq(t, &self.begin_bfrange) {
            Some(CMapSection::BfRange)
        } else if ends_with_seq(t, &self.end_bfrange) {
            Some(CMapSection::Outside)
        } else {
            None
        }
    }
}

/// The code that a `<hex>` token denotes.
pub fn token_code(tok: &[char]) -> (r: Vec<u8>)
    ensures
        r@ == hex_code(tok@),
{
    let set = vec!['<', '>'];
    assert(set@ =~= angle_set());
    let inner = trim_set(tok, &set);
    let bytes = encode_chars(&inner);
    bytes_hex_to_bytes(&bytes)
}

/// A `u32` in hexadecimal after stripping angle brackets, or 0.
pub fn token_u32(tok: &[char]) -> (r: u32)
    ensures
        r == hex_u32_or_zero(angle_trim(tok@)),
{
    let set = vec!['<', '>'];
    assert(set@ =~= angle_set());
    let inner = trim_set(tok, &set);
    match parse_hex_below(&inner, 0x1_0000_0000) {
        Some(v) => v as u32,
        None => 0,
    }
}

fn umax(a: usize, b: usize) -> (r: usize)
    ensures
        r as nat == nmax(a as nat, b as nat),
{
    if a >= b {
        a
    } else {
        b
    }
}

/// Reads one line of a CMap.
pub fn cmap_line(
    kw: &SectionKeywords,
    mode: CMapSection,
    widest: usize,
    map: &mut CodeMap,
    line: &[char],
) -> (r: (CMapSection, usize))
    requires
        kw.wf(),
    ensures
        ({
            let st = cmap_step((mode, widest as nat, old(map)@), line@);
            r.0 == st.0 && r.1 as nat == st.1 && final(map)@ == st.2
        }),
{
    let t = trim_ws(line);
    match kw.marker(&t) {
        Some(m) => {
            return (m, widest);
        },
        None => {},
    }
    let parts = split_whitespace(&t);
    proof {
        lemma_char_vec_deep_view_all(&parts);
    }
    match mode {
        CMapSection::CodeSpace => {
            if parts.len() >= 2 {
                let set = vec!['<', '>'];
                assert(set@ =~= angle_set());
                let left = trim_set(&parts[0], &set);
                let n = encode_chars(&left).len() / 2;
                (mode, umax(widest, n))
            } else {
                (mode, widest)
            }
        },
        CMapSection::BfChar => {
            if parts.len() >= 2 {
                let src = token_code(&parts[0]);
                let dst = token_u32(&parts[1]);
                map.insert(&src, dst);
                (mode, umax(widest, src.len()))
            } else {
                (mode, widest)
            }
        },
        CMapSection::BfRange => {
            if parts.len() >= 3 {
                let s = token_code(&parts[0]);
                let e = token_code(&parts[1]);
                let mb = umax(widest, umax(s.len(), e.len()));
                let p2 = &parts[2];
                proof {
                    lemma_tokens_nonempty(t@);
                    assert(parts.deep_view()[2] == p2@);
                }
                if p2[0] == '<' {
                    let d = token_u32(p2);
                    fill_range(map, &s, &e, d);
                } else if p2[0] == '[' {
                    let rest = slice_from(&parts, 2);
                    let dsts = array_destinations(&rest);
                    assert(rest.deep_view() =~= parts.deep_view().skip(2));
                    fill_array(map, &s, &e, &dsts);
                }
                (mode, mb)
            } else {
                (mode, widest)
            }
        },
        CMapSection::Outside => (mode, widest),
    }
}

/// The tokens from position `from` on.
fn slice_from(v: &Vec<Vec<char>>, from: usize) -> (r: Vec<Vec<char>>)
    requires
        from <= v.len(),
    ensures
        r.deep_view() == v.deep_view().skip(from as int),
{
    let mut r: Vec<Vec<char>> = Vec::new();
    let mut i = from;
    while i < v.len()
        invariant
            from <= i <= v.len(),
            r.deep_view() == v.deep_view().subrange(from as int, i as int),
        decreases v.len() - i,
    {
        let c = copy_chars(&v[i]);
        let ghost prev = r.deep_view();
        proof {
            lemma_char_vec_deep_view(&c);
        }
        r.push(c);
        assert(r.deep_view() =~= prev.push(c@));
        assert(v.deep_view().subrange(from as int, i + 1) =~= v.deep_view().subrange(
            from as int,
            i as int,
        ).push(v[i as int]@));
        i = i + 1;
    }
    assert(v.deep_view().subrange(from as int, v.len() as int) =~= v.deep_view().skip(
        from as int,
    ));
    r
}

/// A copy of a character vector.
pub fn copy_chars(v: &Vec<char>) -> (r: Vec<char>)
    ensures
        r@ == v@,
{
    let mut r: Vec<char> = Vec::new();
    let mut i: usize = 0;
    while i < v.len()
        invariant
            i <= v.len(),
            r@ == v@.take(i as int),
        decreases v.len() - i,
    {
        r.push(v[i]);
        i = i + 1;
    }
    assert(r@ =~= v@);
    r
}


/// Reads a CMap text: the widest code in bytes (from `codespacerange`,
/// `bfchar` and `bfrange` lines) and the map from codes to values, or
/// `None` when that width is 0.
pub fn parse_cmap_text(text: &[char]) -> (r: Option<(usize, CodeMap)>)
    ensures
        match r {
            Some((n, m)) => cmap_result(text@) == Some((n as nat, m@)),
            None => cmap_result(text@) is None,
        },
{
    let kw = SectionKeywords::new();
    let ls = split_lines(text);
    proof {
        lemma_char_vec_deep_view_all(&ls);
    }
    let ghost all = ls.deep_view();
    let ghost init = (CMapSection::Outside, 0nat, Map::<Seq<u8>, u32>::empty());
    let mut mode = CMapSection::Outside;
    let mut widest: usize = 0;
    let mut map = CodeMap::new();
    let mut i: usize = 0;
    assert(all.skip(0) =~= all);
    while i < ls.len()
        invariant
            kw.wf(),
            i <= ls.len(),
            all == ls.deep_view(),
            all.len() == ls.len(),
            forall|j: int| 0 <= j < ls.len() ==> #[trigger] all[j] == ls@[j]@,
            all == lines(text@),
            cmap_fold(init, all) == cmap_fold((mode, widest as nat, map@), all.skip(i as int)),
        decreases ls.len() - i,
    {
        let ghost rest = all.skip(i as int);
        assert(rest[0] == ls[i as int]@);
        assert(rest.drop_first() =~= all.skip(i + 1));
        let r = cmap_line(&kw, mode, widest, &mut map, &ls[i]);
        mode = r.0;
        widest = r.1;
        i = i + 1;
    }
    assert(all.skip(i as int) =~= Seq::<Seq<char>>::empty());
    if widest > 0 {
        Some((widest, map))
    } else {
        None
    }
}


/// Reads CMap data: the bytes are taken as UTF-8 text, invalid sequences
/// replaced, and read as `parse_cmap_text` does.
pub fn parse_cmap_bytes(data: &[u8]) -> (r: Option<(usize, CodeMap)>)
    ensures
        match r {
            Some((n, m)) => cmap_result(utf8_lossy(data@)) == Some((n as nat, m@)),
            None => cmap_result(utf8_lossy(data@)) is None,
        },
        valid_utf8(data@) ==> match r {
            Some((n, m)) => cmap_result(decode_utf8(data@)) == Some((n as nat, m@)),
            None => cmap_result(decode_utf8(data@)) is None,
        },
{
    let text = lossy_chars(data);
    parse_cmap_text(&text)
}

/// Reads the code-space width and code map of a CMap stream: its bytes
/// after decompression go to `parse_cmap_bytes`; `None` where the stream
/// does not decompress.
pub fn parse_cmap_bytes_per_char_and_map(stream: &lopdf::Stream) -> (r: Option<(usize, CodeMap)>)
    ensures
        match stream_bytes(*stream) {
            Some(b) => {
                &&& match r {
                    Some((n, m)) => cmap_result(utf8_lossy(b)) == Some((n as nat, m@)),
                    None => cmap_result(utf8_lossy(b)) is None,
                }
                &&& valid_utf8(b) ==> match r {
                    Some((n, m)) => cmap_result(decode_utf8(b)) == Some((n as nat, m@)),
                    None => cmap_result(decode_utf8(b)) is None,
                }
            },
            None => r is None,
        },
{
    match decompressed_bytes(stream) {
        Some(data) => parse_cmap_bytes(&data),
        None => None,
    }
}


/// Every code in `m` is at most `w` bytes long.
pub open spec fn keys_within(m: Map<Seq<u8>, u32>, w: nat) -> bool {
    forall|k: Seq<u8>| #[trigger] m.contains_key(k) ==> k.len() <= w
}

proof fn lemma_range_fill_keys(m: Map<Seq<u8>, u32>, cur: Seq<u8>, end: Seq<u8>, dst: u32, w: nat)
    requires
        keys_within(m, w),
        cur.len() <= w,
    ensures
        keys_within(range_fill(m, cur, end, dst), w),
    decreases pow256(cur.len()) - be_value(cur),
{
    if lex_le(cur, end) && !all_ff(cur) {
        lemma_successor_no_wrap(cur);
        lemma_successor_len(cur);
        lemma_be_value_bound(cur);
        lemma_be_value_bound(successor(cur));
        lemma_range_fill_keys(m.insert(cur, dst), successor(cur), end, dst.saturating_add(1), w);
    }
}

proof fn lemma_array_fill_keys(m: Map<Seq<u8>, u32>, cur: Seq<u8>, end: Seq<u8>, dsts: Seq<u32>, w: nat)
    requires
        keys_within(m, w),
        cur.len() <= w,
    ensures
        keys_within(array_fill(m, cur, end, dsts), w),
    decreases dsts.len(),
{
    if dsts.len() > 0 && cur != end {
        lemma_successor_len(cur);
        lemma_array_fill_keys(m.insert(cur, dsts[0]), successor(cur), end, dsts.drop_first(), w);
    }
}

proof fn lemma_step_keys(st: (CMapSection, nat, Map<Seq<u8>, u32>), line: Seq<char>)
    requires
        keys_within(st.2, st.1),
    ensures
        keys_within(cmap_step(st, line).2, cmap_step(st, line).1),
        cmap_step(st, line).1 >= st.1,
{
    let t = trim(line);
    let parts = tokens(t);
    if section_marker(t) is None {
        match st.0 {
            CMapSection::BfRange => {
                if parts.len() >= 3 {
                    let s = hex_code(parts[0]);
                    let e = hex_code(parts[1]);
                    let mb = nmax(st.1, nmax(s.len(), e.len()));
                    lemma_range_fill_keys(st.2, s, e, hex_u32_or_zero(angle_trim(parts[2])), mb);
                    lemma_array_fill_keys(st.2, s, e, array_dsts(parts.skip(2)), mb);
                }
            },
            _ => {},
        }
    }
}

proof fn lemma_fold_keys(st: (CMapSection, nat, Map<Seq<u8>, u32>), ls: Seq<Seq<char>>)
    requires
        keys_within(st.2, st.1),
    ensures
        keys_within(cmap_fold(st, ls).2, cmap_fold(st, ls).1),
    decreases ls.len(),
{
    if ls.len() > 0 {
        lemma_step_keys(st, ls[0]);
        lemma_fold_keys(cmap_step(st, ls[0]), ls.drop_first());
    }
}

/// The width a CMap reports covers every code it maps: no code in the map
/// is longer than the widest code.
pub proof fn lemma_cmap_codes_fit_width(text: Seq<char>)
    ensures
        cmap_result(text) matches Some((n, m)) ==> forall|k: Seq<u8>|
            #[trigger] m.contains_key(k) ==> k.len() <= n,
{
    lemma_fold_keys((CMapSection::Outside, 0, Map::empty()), lines(text));
}


/// `d + n`, saturating at `u32::MAX`.
pub open spec fn sat_add(d: u32, n: nat) -> u32 {
    if d + n > u32::MAX {
        u32::MAX
    } else {
        (d + n) as u32
    }
}

/// Filling a range leaves alone every code of another length and every
/// code below where the walk starts.
proof fn lemma_range_fill_frame(m: Map<Seq<u8>, u32>, cur: Seq<u8>, end: Seq<u8>, d: u32, k: Seq<u8>)
    requires
        k.len() != cur.len() || be_value(k) < be_value(cur),
    ensures
        range_fill(m, cur, end, d).contains_key(k) == m.contains_key(k),
        m.contains_key(k) ==> range_fill(m, cur, end, d)[k] == m[k],
    decreases pow256(cur.len()) - be_value(cur),
{
    if lex_le(cur, end) {
        assert(k != cur);
        if !all_ff(cur) {
            lemma_successor_no_wrap(cur);
            lemma_successor_len(cur);
            lemma_be_value_bound(cur);
            lemma_be_value_bound(successor(cur));
            lemma_range_fill_frame(m.insert(cur, d), successor(cur), end, d.saturating_add(1), k);
        }
    }
}

/// A single-destination `bfrange` maps consecutive codes to consecutive
/// values: every code of the start's length from the start up to the end
/// maps to the destination plus its distance from the start (saturating at
/// `u32::MAX`).
pub proof fn lemma_range_fill_consecutive(m: Map<Seq<u8>, u32>, cur: Seq<u8>, end: Seq<u8>, d: u32, k: Seq<u8>)
    requires
        k.len() == cur.len(),
        be_value(cur) <= be_value(k),
        lex_le(k, end),
    ensures
        range_fill(m, cur, end, d).contains_key(k),
        range_fill(m, cur, end, d)[k] == sat_add(d, (be_value(k) - be_value(cur)) as nat),
    decreases pow256(cur.len()) - be_value(cur),
{
    lemma_lex_le_by_value(cur, k);
    lemma_lex_le_trans(cur, k, end);
    if be_value(cur) == be_value(k) {
        lemma_be_value_injective(cur, k);
        if !all_ff(cur) {
            lemma_successor_no_wrap(cur);
            lemma_successor_len(cur);
            lemma_be_value_bound(cur);
            lemma_be_value_bound(successor(cur));
            lemma_range_fill_frame(m.insert(cur, d), successor(cur), end, d.saturating_add(1), k);
        }
    } else {
        if all_ff(cur) {
            lemma_all_ff_max(cur);
            lemma_be_value_bound(k);
        }
        lemma_successor_no_wrap(cur);
        lemma_successor_len(cur);
        lemma_be_value_bound(cur);
        lemma_be_value_bound(successor(cur));
        lemma_range_fill_consecutive(m.insert(cur, d), successor(cur), end, d.saturating_add(1), k);
    }
}

/// The code `k` places after `s`, stepping by `successor`.
pub open spec fn succ_n(s: Seq<u8>, k: nat) -> Seq<u8>
    decreases k,
{
    if k == 0 {
        s
    } else {
        succ_n(successor(s), (k - 1) as nat)
    }
}

/// Filling from a destination list that does not run past the last code of
/// its length leaves alone every code of another length and every code
/// below where the walk starts.
proof fn lemma_array_fill_frame(m: Map<Seq<u8>, u32>, cur: Seq<u8>, end: Seq<u8>, dsts: Seq<u32>, k: Seq<u8>)
    requires
        k.len() != cur.len() || be_value(k) < be_value(cur),
        be_value(cur) + dsts.len() <= pow256(cur.len()),
    ensures
        array_fill(m, cur, end, dsts).contains_key(k) == m.contains_key(k),
        m.contains_key(k) ==> array_fill(m, cur, end, dsts)[k] == m[k],
    decreases dsts.len(),
{
    if dsts.len() > 0 {
        assert(k != cur);
        if cur != end {
            let rest = dsts.drop_first();
            if rest.len() == 0 {
                assert(array_fill(m.insert(cur, dsts[0]), successor(cur), end, rest) == m.insert(cur, dsts[0]));
            } else {
                if all_ff(cur) {
                    lemma_all_ff_max(cur);
                }
                lemma_successor_no_wrap(cur);
                lemma_successor_len(cur);
                lemma_array_fill_frame(m.insert(cur, dsts[0]), successor(cur), end, rest, k);
            }
        }
    }
}

/// A `bfrange` written with a destination list maps the `k`-th code from
/// the start to the `k`-th destination, for every `k` that the list reaches
/// without passing the end code, where the codes filled stay within their
/// length (no wrap past `FF..FF`).
pub proof fn lemma_array_fill_positions(m: Map<Seq<u8>, u32>, cur: Seq<u8>, end: Seq<u8>, dsts: Seq<u32>, k: nat)
    requires
        k < dsts.len(),
        forall|j: nat| j < k ==> #[trigger] succ_n(cur, j) != end,
        be_value(cur) + dsts.len() <= pow256(cur.len()),
    ensures
        array_fill(m, cur, end, dsts).contains_key(succ_n(cur, k)),
        array_fill(m, cur, end, dsts)[succ_n(cur, k)] == dsts[k as int],
    decreases k,
{
    let rest = dsts.drop_first();
    let m2 = m.insert(cur, dsts[0]);
    if k == 0 {
        if cur != end {
            if rest.len() == 0 {
                assert(array_fill(m2, successor(cur), end, rest) == m2);
            } else {
                if all_ff(cur) {
                    lemma_all_ff_max(cur);
                }
                lemma_successor_no_wrap(cur);
                lemma_successor_len(cur);
                lemma_array_fill_frame(m2, successor(cur), end, rest, cur);
            }
        }
    } else {
        assert(succ_n(cur, 0) != end);
        if all_ff(cur) {
            lemma_all_ff_max(cur);
        }
        lemma_successor_no_wrap(cur);
        lemma_successor_len(cur);
        let km = (k - 1) as nat;
        assert forall|j: nat| j < km implies #[trigger] succ_n(successor(cur), j) != end by {
            assert(succ_n(cur, j + 1) == succ_n(successor(cur), j));
        }
        lemma_array_fill_positions(m2, successor(cur), end, rest, km);
        assert(succ_n(cur, k) == succ_n(successor(cur), km));
        assert(rest[km as int] == dsts[k as int]);
    }
}

} // verus!
