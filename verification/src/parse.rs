//! The token structure of the textual specifications the tool reads:
//! margins, bounding boxes and Ghostscript's bbox report. The numbers
//! themselves are read by the caller.

use vstd::prelude::*;
use crate::text::{
    chars_of, contains_seq, contains_seq_exec, lemma_char_vec_deep_view_all, lines, matches_at,
    occurs_at, split_lines, split_whitespace, tokens, trim, trim_ws,
};

verus! {

/// Which token gives each margin, as `(left, top, right, bottom)`.
pub open spec fn margin_layout(count: nat) -> Option<(nat, nat, nat, nat)> {
    if count == 1 {
        Some((0, 0, 0, 0))
    } else if count == 2 {
        Some((0, 1, 0, 1))
    } else if count == 4 {
        Some((0, 1, 2, 3))
    } else {
        None
    }
}

/// The tokens of a margin specification and which token gives each margin
/// (`(left, top, right, bottom)`): one value for all sides, two for
/// horizontal and vertical, four for each side; any other count is an
/// error that reports the count.
pub fn margin_tokens(s: &str) -> (r: Result<(Vec<Vec<char>>, (usize, usize, usize, usize)), usize>)
    ensures
        match r {
            Ok((toks, lay)) => {
                &&& toks.deep_view() == tokens(s@)
                &&& margin_layout(tokens(s@).len()) == Some(
                    (lay.0 as nat, lay.1 as nat, lay.2 as nat, lay.3 as nat),
                )
            },
            Err(n) => n == tokens(s@).len() && margin_layout(n as nat) is None,
        },
{
    let cs = chars_of(s);
    let toks = split_whitespace(&cs);
    proof {
        lemma_char_vec_deep_view_all(&toks);
    }
    let n = toks.len();
    if n == 1 {
        Ok((toks, (0, 0, 0, 0)))
    } else if n == 2 {
        Ok((toks, (0, 1, 0, 1)))
    } else if n == 4 {
        Ok((toks, (0, 1, 2, 3)))
    } else {
        Err(n)
    }
}

/// The four tokens of a bounding box specification (`left bottom right
/// top`), or the token count where it is not four.
pub fn bbox_tokens(s: &str) -> (r: Result<Vec<Vec<char>>, usize>)
    ensures
        match r {
            Ok(toks) => toks.deep_view() == tokens(s@) && tokens(s@).len() == 4,
            Err(n) => n == tokens(s@).len() && n != 4,
        },
{
    let cs = chars_of(s);
    let toks = split_whitespace(&cs);
    proof {
        lemma_char_vec_deep_view_all(&toks);
    }
    if toks.len() == 4 {
        Ok(toks)
    } else {
        Err(toks.len())
    }
}

/// What Ghostscript's bbox report yields.
pub enum GsReport {
    /// No line names a bounding box.
    NotFound,
    /// The chosen line names the box but does not start with its prefix.
    MissingPrefix,
    /// The chosen line holds this many values instead of four.
    WrongCount(usize),
    /// The four values of the chosen line.
    Values(Vec<Vec<char>>),
}

/// Index of the first line that contains `pat`, if any.
pub open spec fn first_with(ls: Seq<Seq<char>>, pat: Seq<char>) -> Option<int> {
    if exists|k: int| 0 <= k < ls.len() && contains_seq(#[trigger] ls[k], pat) {
        Some(choose|k: int| 0 <= k < ls.len() && contains_seq(#[trigger] ls[k], pat) && forall|j: int| 0 <= j < k ==> !contains_seq(#[trigger] ls[j], pat))
    } else {
        None
    }
}

/// The line a report is read from, and the prefix it is read after: the
/// first line naming `%%HiResBoundingBox:`, else the first naming
/// `%%BoundingBox:`.
pub open spec fn report_line(ls: Seq<Seq<char>>) -> Option<(Seq<char>, Seq<char>)> {
    match first_with(ls, "%%HiResBoundingBox:"@) {
        Some(k) => Some((ls[k], "%%HiResBoundingBox:"@)),
        None => match first_with(ls, "%%BoundingBox:"@) {
            Some(k) => Some((ls[k], "%%BoundingBox:"@)),
            None => None,
        },
    }
}

/// The values of a report line: the tokens after the prefix, which the
/// line must start with.
pub open spec fn report_values(line: Seq<char>, prefix: Seq<char>) -> Option<Seq<Seq<char>>> {
    if occurs_at(line, prefix, 0) {
        Some(tokens(trim(line.skip(prefix.len() as int))))
    } else {
        None
    }
}

/// Index of the first line that contains `pat`.
fn find_line(ls: &Vec<Vec<char>>, pat: &[char]) -> (r: Option<usize>)
    ensures
        match r {
            Some(k) => k < ls.len() && first_with(ls.deep_view(), pat@) == Some(k as int),
            None => first_with(ls.deep_view(), pat@) is None,
        },
{
    proof {
        lemma_char_vec_deep_view_all(ls);
    }
    let ghost lv = ls.deep_view();
    let mut k: usize = 0;
    while k < ls.len()
        invariant
            k <= ls.len(),
            lv == ls.deep_view(),
            lv.len() == ls.len(),
            forall|j: int| 0 <= j < ls.len() ==> #[trigger] lv[j] == ls@[j]@,
            forall|j: int| 0 <= j < k ==> !contains_seq(#[trigger] lv[j], pat@),
        decreases ls.len() - k,
    {
        if contains_seq_exec(&ls[k], pat) {
            assert(contains_seq(lv[k as int], pat@));
            let ghost c = choose|i: int| 0 <= i < lv.len() && contains_seq(#[trigger] lv[i], pat@) && forall|j: int| 0 <= j < i ==> !contains_seq(#[trigger] lv[j], pat@);
            assert(c == k) by {
                if c < k {
                    assert(!contains_seq(lv[c], pat@));
                } else if c > k {
                    assert(!contains_seq(lv[k as int], pat@));
                }
            }
            return Some(k);
        }
        k = k + 1;
    }
    None
}

/// The values of a report line after `prefix`, or `None` where the line
/// does not start with it.
fn line_values(line: &Vec<char>, prefix: &Vec<char>) -> (r: Option<Vec<Vec<char>>>)
    ensures
        match r {
            Some(v) => report_values(line@, prefix@) == Some(v.deep_view()),
            None => report_values(line@, prefix@) is None,
        },
{
    if !matches_at(line, prefix, 0) {
        return None;
    }
    let mut rest: Vec<char> = Vec::new();
    let mut i = prefix.len();
    while i < line.len()
        invariant
            prefix.len() <= i <= line.len(),
            rest@ == line@.subrange(prefix.len() as int, i as int),
        decreases line.len() - i,
    {
        rest.push(line[i]);
        i = i + 1;
    }
    assert(rest@ =~= line@.skip(prefix.len() as int));
    let t = trim_ws(&rest);
    Some(split_whitespace(&t))
}

/// Reads Ghostscript's bbox report: the four values of the first line
/// naming `%%HiResBoundingBox:`, else of the first naming `%%BoundingBox:`.
pub fn gs_report(output: &str) -> (r: GsReport)
    ensures
        match r {
            GsReport::NotFound => report_line(lines(output@)) is None,
            GsReport::MissingPrefix => report_line(lines(output@)) matches Some((l, p))
                && report_values(l, p) is None,
            GsReport::WrongCount(n) => report_line(lines(output@)) matches Some((l, p))
                && report_values(l, p) matches Some(v) && v.len() == n && n != 4,
            GsReport::Values(v) => report_line(lines(output@)) matches Some((l, p))
                && report_values(l, p) == Some(v.deep_view()) && v.len() == 4,
        },
{
    let text = chars_of(output);
    let ls = split_lines(&text);
    proof {
        lemma_char_vec_deep_view_all(&ls);
    }
    let hires = chars_of("%%HiResBoundingBox:");
    let plain = chars_of("%%BoundingBox:");
    let (k, prefix) = match find_line(&ls, &hires) {
        Some(k) => (k, hires),
        None => match find_line(&ls, &plain) {
            Some(k) => (k, plain),
            None => {
                return GsReport::NotFound;
            },
        },
    };
    let ghost chosen = report_line(lines(output@));
    assert(ls.deep_view()[k as int] == ls@[k as int]@);
    assert(chosen == Some((ls@[k as int]@, prefix@)));
    match line_values(&ls[k], &prefix) {
        None => GsReport::MissingPrefix,
        Some(vals) => {
            proof {
                lemma_char_vec_deep_view_all(&vals);
            }
            if vals.len() != 4 {
                GsReport::WrongCount(vals.len())
            } else {
                GsReport::Values(vals)
            }
        },
    }
}

} // verus!
