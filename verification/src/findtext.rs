//! Finding shown text in a content stream: a token walk that tracks the
//! current font and text matrix, and the decoding of hexadecimal strings
//! through a ToUnicode map.

use std::collections::HashMap;
use vstd::prelude::*;
use crate::pdf::push_str;
use crate::text::{
    append_chars, chars_equal, chars_of, contains_char, lemma_lead_exact, contains_seq, contains_seq_exec, lead_n, in_set_pred,
    lemma_char_vec_deep_view_all, parse_hex, parse_hex_below, split_whitespace, tokens,
};
use crate::tounicode::text_view;

verus! {

broadcast use vstd::std_specs::hash::group_hash_axioms;

/// The text that the hexadecimal digits of `buf` give, four digits per code:
/// the mapped text of each code, `?` for a code the map lacks, nothing for a
/// group that does not parse or a final incomplete group.
pub open spec fn decode_groups(buf: Seq<char>, m: Map<u16, Seq<char>>) -> Seq<char>
    decreases buf.len(),
{
    if buf.len() < 4 {
        seq![]
    } else {
        let head = match parse_hex(buf.take(4), 0x10000) {
            Some(code) => if m.contains_key(code as u16) {
                m[code as u16]
            } else {
                seq!['?']
            },
            None => seq![],
        };
        head + decode_groups(buf.skip(4), m)
    }
}

/// The decoding state after the characters of `s`: whether a `<...>` string
/// is open, the digits collected since the last `<`, and the text so far.
/// Each `>` decodes the digits collected since the last `<`.
pub open spec fn decode_state(s: Seq<char>, m: Map<u16, Seq<char>>) -> (bool, Seq<char>, Seq<char>)
    decreases s.len(),
{
    if s.len() == 0 {
        (false, seq![], seq![])
    } else {
        let st = decode_state(s.drop_last(), m);
        let c = s.last();
        if c == '<' {
            (true, seq![], st.2)
        } else if c == '>' {
            (false, st.1, st.2 + decode_groups(st.1, m))
        } else if st.0 {
            (st.0, st.1.push(c), st.2)
        } else {
            st
        }
    }
}

/// The text that the hexadecimal strings in `s` decode to.
pub open spec fn decoded_text(s: Seq<char>, m: Map<u16, Seq<char>>) -> Seq<char> {
    decode_state(s, m).2
}

/// Decodes the digits of `buf` four at a time through `map`, appending the
/// text to `out`.
fn decode_buffer(buf: &[char], map: &HashMap<u16, String>, out: &mut String)
    ensures
        final(out)@ == old(out)@ + decode_groups(buf@, text_view(map@)),
{
    let ghost m = text_view(map@);
    let mut i: usize = 0;
    assert(buf@.skip(0) =~= buf@);
    while 4 <= buf.len() - i
        invariant
            i <= buf.len(),
            m == text_view(map@),
            old(out)@ + decode_groups(buf@, m) == out@ + decode_groups(buf@.skip(i as int), m),
        decreases buf.len() - i,
    {
        let ghost rest = buf@.skip(i as int);
        let group = vec![buf[i], buf[i + 1], buf[i + 2], buf[i + 3]];
        assert(group@ =~= rest.take(4));
        assert(rest.skip(4) =~= buf@.skip(i + 4));
        let ghost tail = decode_groups(buf@.skip(i + 4), m);
        let ghost before = out@;
        match parse_hex_below(&group, 0x10000) {
            Some(code) => {
                let k = code as u16;
                match map.get(&k) {
                    Some(v) => {
                        assert(m.contains_key(k) && m[k] == v@);
                        push_str(out, v.as_str());
                    },
                    None => {
                        assert(!m.contains_key(k));
                        let q = "?";
                        proof {
                            reveal_strlit("?");
                        }
                        push_str(out, q);
                    },
                }
                assert(out@ + tail =~= before + (decode_groups(rest, m)));
            },
            None => {
                assert(decode_groups(rest, m) =~= tail);
            },
        }
        i = i + 4;
    }
    assert(decode_groups(buf@.skip(i as int), m) =~= Seq::<char>::empty());
    assert(out@ + Seq::<char>::empty() =~= out@);
}

/// Decodes the `<...>` hexadecimal strings of `text` through a ToUnicode map.
pub fn decode_hex_text(text: &[char], map: &HashMap<u16, String>) -> (r: String)
    ensures
        r@ == decoded_text(text@, text_view(map@)),
{
    let ghost m = text_view(map@);
    let mut out = String::new();
    let mut buf: Vec<char> = Vec::new();
    let mut in_hex = false;
    let mut i: usize = 0;
    assert(text@.take(0) =~= Seq::<char>::empty());
    while i < text.len()
        invariant
            i <= text.len(),
            m == text_view(map@),
            decode_state(text@.take(i as int), m) == (in_hex, buf@, out@),
        decreases text.len() - i,
    {
        let c = text[i];
        let ghost pre = text@.take(i + 1);
        assert(pre.drop_last() =~= text@.take(i as int));
        assert(pre.last() == c);
        if c == '<' {
            in_hex = true;
            buf = Vec::new();
        } else if c == '>' {
            in_hex = false;
            decode_buffer(&buf, map, &mut out);
        } else if in_hex {
            buf.push(c);
        }
        i = i + 1;
    }
    assert(text@.take(i as int) =~= text@);
    out
}


/// Whether decoded text is of interest: it names `Frequency` or `Domain`.
pub open spec fn is_text_of_interest(t: Seq<char>) -> bool {
    contains_seq(t, "Frequency"@) || contains_seq(t, "Domain"@)
}

/// Whether decoded text names `Frequency` or `Domain`.
pub fn text_of_interest(t: &str) -> (r: bool)
    ensures
        r == is_text_of_interest(t@),
{
    let cs = chars_of(t);
    let a = chars_of("Frequency");
    let b = chars_of("Domain");
    contains_seq_exec(&cs, &a) || contains_seq_exec(&cs, &b)
}


/// A font name token without its leading `/` characters.
pub open spec fn strip_slashes(t: Seq<char>) -> Seq<char> {
    t.skip(lead_n(t, in_set_pred(seq!['/'])) as int)
}

/// The font that is current before token `i`: set by each `Tf` that has
/// two tokens before it, to the first of them without its `/`.
pub open spec fn font_before(toks: Seq<Seq<char>>, i: int) -> Seq<char>
    decreases i,
{
    if i <= 0 {
        seq![]
    } else if toks[i - 1] == "Tf"@ && i - 1 > 1 {
        strip_slashes(toks[i - 3])
    } else {
        font_before(toks, i - 1)
    }
}

/// The six tokens before token `j`, joined by single spaces.
pub open spec fn join_six(toks: Seq<Seq<char>>, j: int) -> Seq<char> {
    toks[j - 6] + seq![' '] + toks[j - 5] + seq![' '] + toks[j - 4] + seq![' '] + toks[j - 3]
        + seq![' '] + toks[j - 2] + seq![' '] + toks[j - 1]
}

/// The text matrix that is current before token `i`: set by each `Tm` that
/// has six tokens before it, to those tokens.
pub open spec fn tm_before(toks: Seq<Seq<char>>, i: int) -> Seq<char>
    decreases i,
{
    if i <= 0 {
        seq![]
    } else if toks[i - 1] != "Tf"@ && toks[i - 1] == "Tm"@ && i - 1 > 5 {
        join_six(toks, i - 1)
    } else {
        tm_before(toks, i - 1)
    }
}

/// The operand of a `TJ` whose last operand token is at `j`: the tokens
/// from the nearest one at or before `j` that holds `[` (never token 0)
/// up to `j`, concatenated.
pub open spec fn tj_collect(toks: Seq<Seq<char>>, j: int) -> Seq<char>
    decreases j,
{
    if j <= 0 {
        seq![]
    } else if toks[j].contains('[') {
        toks[j]
    } else {
        tj_collect(toks, j - 1) + toks[j]
    }
}

/// The text shown by token `i`, with the font and text matrix current
/// there: the token before a `Tj`, or the collected operand of a `TJ`.
pub open spec fn show_at(toks: Seq<Seq<char>>, i: int) -> Option<(Seq<char>, Seq<char>, Seq<char>)> {
    if toks[i] == "Tf"@ || toks[i] == "Tm"@ {
        None
    } else if toks[i] == "Tj"@ {
        if i > 0 {
            Some((font_before(toks, i), tm_before(toks, i), toks[i - 1]))
        } else {
            None
        }
    } else if toks[i] == "TJ"@ {
        Some((font_before(toks, i), tm_before(toks, i), tj_collect(toks, i - 1)))
    } else {
        None
    }
}

/// The texts shown by the first `n` tokens, in order.
pub open spec fn shows(toks: Seq<Seq<char>>, n: int) -> Seq<(Seq<char>, Seq<char>, Seq<char>)>
    decreases n,
{
    if n <= 0 {
        seq![]
    } else {
        let head = shows(toks, n - 1);
        match show_at(toks, n - 1) {
            Some(x) => head.push(x),
            None => head,
        }
    }
}

/// A `TJ` as the very first token has no operand token before it.
pub open spec fn starts_with_tj(text: Seq<char>) -> bool {
    tokens(text).len() > 0 && tokens(text)[0] == "TJ"@
}

/// A text-showing operation found in a content stream.
pub struct TextShow {
    pub font: Vec<char>,
    pub tm: Vec<char>,
    pub text: Vec<char>,
}

impl View for TextShow {
    type V = (Seq<char>, Seq<char>, Seq<char>);

    open spec fn view(&self) -> (Seq<char>, Seq<char>, Seq<char>) {
        (self.font@, self.tm@, self.text@)
    }
}

/// The view of each found text show.
pub open spec fn shows_view(v: Seq<TextShow>) -> Seq<(Seq<char>, Seq<char>, Seq<char>)> {
    v.map_values(|s: TextShow| s@)
}

/// The concatenated operand tokens of a `TJ` whose last operand token is
/// at `last`.
fn collect_tj(toks: &Vec<Vec<char>>, last: usize) -> (r: Vec<char>)
    requires
        last < toks.len(),
    ensures
        r@ == tj_collect(toks.deep_view(), last as int),
{
    proof {
        lemma_char_vec_deep_view_all(toks);
    }
    let ghost all = toks.deep_view();
    let mut collected: Vec<char> = Vec::new();
    let mut j = last;
    while j > 0
        invariant
            j <= last < toks.len(),
            all == toks.deep_view(),
            forall|k: int| 0 <= k < toks.len() ==> #[trigger] all[k] == toks@[k]@,
            tj_collect(all, last as int) == tj_collect(all, j as int) + collected@,
        decreases j,
    {
        let mut next = copy_of(&toks[j]);
        append_chars(&mut next, &collected);
        if contains_char(&toks[j], '[') {
            assert(tj_collect(all, j as int) == all[j as int]);
            return next;
        }
        assert(tj_collect(all, j as int) == tj_collect(all, j - 1) + all[j as int]);
        assert(tj_collect(all, j - 1) + all[j as int] + collected@ =~= tj_collect(all, j - 1)
            + next@);
        collected = next;
        j = j - 1;
    }
    assert(collected@ =~= Seq::<char>::empty() + collected@);
    collected
}

fn copy_of(v: &Vec<char>) -> (r: Vec<char>)
    ensures
        r@ == v@,
{
    let mut r: Vec<char> = Vec::new();
    append_chars(&mut r, v);
    assert(r@ =~= v@);
    r
}

/// Walks the tokens of a content stream and returns each text-showing
/// operation (`Tj` or `TJ`) with the font and text matrix current there.
pub fn find_text_shows(text: &[char]) -> (r: Vec<TextShow>)
    requires
        !starts_with_tj(text@),
    ensures
        shows_view(r@) == shows(tokens(text@), tokens(text@).len() as int),
{
    let toks = split_whitespace(text);
    proof {
        lemma_char_vec_deep_view_all(&toks);
    }
    let ghost all = toks.deep_view();
    let tf = chars_of("Tf");
    let tm_op = chars_of("Tm");
    let tj = chars_of("Tj");
    let tj_arr = chars_of("TJ");
    let slash = vec!['/'];
    assert(slash@ =~= seq!['/']);
    let mut font: Vec<char> = Vec::new();
    let mut tm: Vec<char> = Vec::new();
    let mut out: Vec<TextShow> = Vec::new();
    let mut i: usize = 0;
    assert(shows_view(out@) =~= Seq::<(Seq<char>, Seq<char>, Seq<char>)>::empty());
    while i < toks.len()
        invariant
            i <= toks.len(),
            all == toks.deep_view(),
            all == tokens(text@),
            forall|k: int| 0 <= k < toks.len() ==> #[trigger] all[k] == toks@[k]@,
            all.len() == toks.len(),
            !starts_with_tj(text@),
            tf@ == "Tf"@,
            tm_op@ == "Tm"@,
            tj@ == "Tj"@,
            tj_arr@ == "TJ"@,
            slash@ == seq!['/'],
            font@ == font_before(all, i as int),
            tm@ == tm_before(all, i as int),
            shows_view(out@) == shows(all, i as int),
        decreases toks.len() - i,
    {
        let tok = &toks[i];
        let ghost before = shows_view(out@);
        if chars_equal(tok, &tf) {
            if i > 1 {
                font = strip_leading(&toks[i - 2], &slash);
            }
        } else if chars_equal(tok, &tm_op) {
            if i > 5 {
                tm = join_tokens(&toks, i);
            }
        } else if chars_equal(tok, &tj) {
            if i > 0 {
                out.push(TextShow { font: copy_of(&font), tm: copy_of(&tm), text: copy_of(&toks[i - 1]) });
            }
        } else if chars_equal(tok, &tj_arr) {
            let text_op = collect_tj(&toks, i - 1);
            out.push(TextShow { font: copy_of(&font), tm: copy_of(&tm), text: text_op });
        }
        assert(shows_view(out@) =~= shows(all, i + 1));
        i = i + 1;
    }
    out
}

/// A token without its leading characters from `set`.
fn strip_leading(t: &Vec<char>, set: &Vec<char>) -> (r: Vec<char>)
    ensures
        r@ == t@.skip(lead_n(t@, in_set_pred(set@)) as int),
{
    let mut a: usize = 0;
    while a < t.len() && contains_char(set, t[a])
        invariant
            a <= t.len(),
            forall|k: int| 0 <= k < a ==> set@.contains(#[trigger] t@[k]),
        decreases t.len() - a,
    {
        a = a + 1;
    }
    proof {
        let p = in_set_pred(set@);
        assert forall|k: int| 0 <= k < a implies p(#[trigger] t@[k]) by {}
        lemma_lead_exact(t@, p, a as nat);
    }
    let mut r: Vec<char> = Vec::new();
    let mut i = a;
    while i < t.len()
        invariant
            a <= i <= t.len(),
            r@ == t@.subrange(a as int, i as int),
        decreases t.len() - i,
    {
        r.push(t[i]);
        i = i + 1;
    }
    r
}

/// The six tokens before token `j`, joined by single spaces.
fn join_tokens(toks: &Vec<Vec<char>>, j: usize) -> (r: Vec<char>)
    requires
        6 <= j <= toks.len(),
    ensures
        r@ == join_six(toks.deep_view(), j as int),
{
    proof {
        lemma_char_vec_deep_view_all(toks);
    }
    let sp = vec![' '];
    let mut r = copy_of(&toks[j - 6]);
    append_chars(&mut r, &sp);
    append_chars(&mut r, &toks[j - 5]);
    append_chars(&mut r, &sp);
    append_chars(&mut r, &toks[j - 4]);
    append_chars(&mut r, &sp);
    append_chars(&mut r, &toks[j - 3]);
    append_chars(&mut r, &sp);
    append_chars(&mut r, &toks[j - 2]);
    append_chars(&mut r, &sp);
    append_chars(&mut r, &toks[j - 1]);
    assert(sp@ =~= seq![' ']);
    r
}

} // verus!
