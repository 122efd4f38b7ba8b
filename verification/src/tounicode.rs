//! Reading a ToUnicode CMap into a map from two-byte codes to text, and
//! decoding hexadecimal text strings with such a map.

use std::collections::HashMap;
use vstd::prelude::*;
use vstd::utf8::*;
use crate::pdf::{char_from_u32, lossy_chars, push_char, push_str, utf8_lossy};
use crate::text::{
    chars_of, contains_seq, contains_seq_exec, lemma_char_vec_deep_view_all, lines, parse_hex,
    parse_hex_below, split_lines, split_whitespace, tokens, trim_by, trim_set, in_set_pred,
};

verus! {

broadcast use vstd::std_specs::hash::group_hash_axioms;

/// A token without its surrounding `<` characters, then without its
/// surrounding `>` characters.
pub open spec fn strip_angles(tok: Seq<char>) -> Seq<char> {
    trim_by(trim_by(tok, in_set_pred(seq!['<'])), in_set_pred(seq!['>']))
}

/// Whether a UTF-16 code unit is a Unicode scalar value (no surrogate).
pub open spec fn is_scalar_unit(u: nat) -> bool {
    u < 0xD800 || (0xE000 <= u && u <= 0x10FFFF)
}

/// The text that a run of hexadecimal digits denotes, read four digits at a
/// time as one code unit each; a group that does not parse, a surrogate and
/// a final incomplete group give nothing.
pub open spec fn units_text(s: Seq<char>) -> Seq<char>
    decreases s.len(),
{
    if s.len() < 4 {
        seq![]
    } else {
        let rest = units_text(s.skip(4));
        match parse_hex(s.take(4), 0x10000) {
            Some(u) => if is_scalar_unit(u) {
                seq![(u as u32) as char] + rest
            } else {
                rest
            },
            None => rest,
        }
    }
}

/// The entry that one line of a ToUnicode CMap gives: lines naming
/// `beginbfchar` or `endbfchar` give none; otherwise the first two tokens
/// are the code (a 16-bit hexadecimal number) and its text.
pub open spec fn unicode_line(line: Seq<char>) -> Option<(u16, Seq<char>)> {
    if contains_seq(line, "beginbfchar"@) || contains_seq(line, "endbfchar"@) {
        None
    } else {
        let parts = tokens(line);
        if parts.len() >= 2 {
            match parse_hex(strip_angles(parts[0]), 0x10000) {
                Some(code) => Some((code as u16, units_text(strip_angles(parts[1])))),
                None => None,
            }
        } else {
            None
        }
    }
}

/// The map after reading lines; a later entry for a code replaces an
/// earlier one.
pub open spec fn unicode_fold(m: Map<u16, Seq<char>>, ls: Seq<Seq<char>>) -> Map<u16, Seq<char>>
    decreases ls.len(),
{
    if ls.len() == 0 {
        m
    } else {
        let next = match unicode_line(ls[0]) {
            Some((k, v)) => m.insert(k, v),
            None => m,
        };
        unicode_fold(next, ls.drop_first())
    }
}

/// The map that a ToUnicode CMap text gives.
pub open spec fn unicode_map(text: Seq<char>) -> Map<u16, Seq<char>> {
    unicode_fold(Map::empty(), lines(text))
}

/// A map of strings seen through the characters of each string.
pub open spec fn text_view(m: Map<u16, String>) -> Map<u16, Seq<char>> {
    m.map_values(|s: String| s@)
}

/// The text of a run of hexadecimal digits, four digits per code unit.
pub fn units_to_string(s: &[char]) -> (r: String)
    ensures
        r@ == units_text(s@),
{
    let mut r = String::new();
    let mut i: usize = 0;
    assert(s@.skip(0) =~= s@);
    while 4 <= s.len() - i
        invariant
            i <= s.len(),
            units_text(s@) == r@ + units_text(s@.skip(i as int)),
        decreases s.len() - i,
    {
        let ghost rest = s@.skip(i as int);
        let group = vec![s[i], s[i + 1], s[i + 2], s[i + 3]];
        assert(group@ =~= rest.take(4));
        assert(rest.skip(4) =~= s@.skip(i + 4));
        let ghost tail = units_text(s@.skip(i + 4));
        let ghost before = r@;
        match parse_hex_below(&group, 0x10000) {
            Some(u) => {
                match char_from_u32(u as u32) {
                    Some(c) => {
                        assert(is_scalar_unit(u as nat));
                        assert(units_text(rest) == seq![c] + tail);
                        push_char(&mut r, c);
                        assert(r@ + tail =~= before + (seq![c] + tail));
                    },
                    None => {
                        assert(!is_scalar_unit(u as nat));
                        assert(units_text(rest) == tail);
                    },
                }
            },
            None => {
                assert(units_text(rest) == tail);
            },
        }
        i = i + 4;
    }
    assert(units_text(s@.skip(i as int)) =~= Seq::<char>::empty());
    assert(r@ + Seq::<char>::empty() =~= r@);
    r
}

/// The entry that one line of a ToUnicode CMap gives.
pub fn read_unicode_line(line: &[char], begin: &[char], end: &[char]) -> (r: Option<(u16, String)>)
    requires
        begin@ == "beginbfchar"@,
        end@ == "endbfchar"@,
    ensures
        match r {
            Some((k, v)) => unicode_line(line@) == Some((k, v@)),
            None => unicode_line(line@) is None,
        },
{
    if contains_seq_exec(line, begin) || contains_seq_exec(line, end) {
        return None;
    }
    let parts = split_whitespace(line);
    proof {
        lemma_char_vec_deep_view_all(&parts);
    }
    if parts.len() < 2 {
        return None;
    }
    let lt = vec!['<'];
    let gt = vec!['>'];
    assert(lt@ =~= seq!['<']);
    assert(gt@ =~= seq!['>']);
    let code_str = trim_set(&trim_set(&parts[0], &lt), &gt);
    let uni_str = trim_set(&trim_set(&parts[1], &lt), &gt);
    match parse_hex_below(&code_str, 0x10000) {
        Some(code) => Some((code as u16, units_to_string(&uni_str))),
        None => None,
    }
}

/// Reads a ToUnicode CMap: each line with at least two tokens whose first
/// is a 16-bit hexadecimal code maps that code to the text of its second
/// token; the data is taken as UTF-8 text with invalid sequences replaced.
pub fn parse_to_unicode(content: &[u8]) -> (map: HashMap<u16, String>)
    ensures
        text_view(map@) == unicode_map(utf8_lossy(content@)),
        valid_utf8(content@) ==> text_view(map@) == unicode_map(decode_utf8(content@)),
{
    let text = lossy_chars(content);
    let begin = chars_of("beginbfchar");
    let end = chars_of("endbfchar");
    let ls = split_lines(&text);
    proof {
        lemma_char_vec_deep_view_all(&ls);
    }
    let ghost all = ls.deep_view();
    let mut map: HashMap<u16, String> = HashMap::new();
    let mut i: usize = 0;
    assert(all.skip(0) =~= all);
    assert(text_view(map@) =~= Map::<u16, Seq<char>>::empty());
    while i < ls.len()
        invariant
            i <= ls.len(),
            begin@ == "beginbfchar"@,
            end@ == "endbfchar"@,
            all == ls.deep_view(),
            all.len() == ls.len(),
            forall|j: int| 0 <= j < ls.len() ==> #[trigger] all[j] == ls@[j]@,
            unicode_map(text@) == unicode_fold(text_view(map@), all.skip(i as int)),
            all == lines(text@),
        decreases ls.len() - i,
    {
        let ghost rest = all.skip(i as int);
        assert(rest[0] == ls[i as int]@);
        assert(rest.drop_first() =~= all.skip(i + 1));
        let ghost before = map@;
        match read_unicode_line(&ls[i], &begin, &end) {
            Some((k, v)) => {
                let ghost vs = v@;
                map.insert(k, v);
                assert(text_view(map@) =~= text_view(before).insert(k, vs));
            },
            None => {},
        }
        i = i + 1;
    }
    assert(all.skip(i as int) =~= Seq::<Seq<char>>::empty());
    map
}

} // verus!
