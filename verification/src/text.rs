//! Character-level text primitives shared by the CMap and ToUnicode readers.

use vstd::prelude::*;

verus! {

/// The Unicode `White_Space` property.
pub open spec fn is_ws(c: char) -> bool {
    let u = c as u32;
    ||| 0x09 <= u <= 0x0D
    ||| u == 0x20
    ||| u == 0x85
    ||| u == 0xA0
    ||| u == 0x1680
    ||| 0x2000 <= u <= 0x200A
    ||| u == 0x2028
    ||| u == 0x2029
    ||| u == 0x202F
    ||| u == 0x205F
    ||| u == 0x3000
}

/// Whether `c` has the Unicode `White_Space` property.
pub fn is_whitespace(c: char) -> (b: bool)
    ensures
        b == is_ws(c),
{
    let u = c as u32;
    (0x09 <= u && u <= 0x0D) || u == 0x20 || u == 0x85 || u == 0xA0 || u == 0x1680 || (0x2000
        <= u && u <= 0x200A) || u == 0x2028 || u == 0x2029 || u == 0x202F || u == 0x205F || u
        == 0x3000
}

/// The characters of a string slice, in order.
pub fn chars_of(s: &str) -> (v: Vec<char>)
    ensures
        v@ == s@,
{
    let mut v: Vec<char> = Vec::new();
    for c in it: s.chars()
        invariant
            v@ == it.seq().take(it.index() as int),
            it.seq() == s@,
    {
        v.push(c);
    }
    v
}

} // verus!

verus! {

/// Number of leading characters of `s` before the first whitespace.
pub open spec fn token_len(s: Seq<char>) -> nat
    decreases s.len(),
{
    if s.len() == 0 || is_ws(s[0]) {
        0
    } else {
        1 + token_len(s.drop_first())
    }
}

/// `token_len` stays within the string and is positive at a non-space.
pub proof fn lemma_token_len_bound(s: Seq<char>)
    ensures
        token_len(s) <= s.len(),
        s.len() > 0 && !is_ws(s[0]) ==> token_len(s) >= 1,
    decreases s.len(),
{
    if s.len() > 0 && !is_ws(s[0]) {
        lemma_token_len_bound(s.drop_first());
    }
}

/// `token_len` is the length of the maximal whitespace-free prefix.
pub proof fn lemma_token_len_exact(s: Seq<char>, m: nat)
    requires
        m <= s.len(),
        forall|k: int| 0 <= k < m ==> !is_ws(#[trigger] s[k]),
        m == s.len() || is_ws(s[m as int]),
    ensures
        token_len(s) == m,
    decreases m,
{
    if m > 0 {
        assert(!is_ws(s[0]));
        let t = s.drop_first();
        assert forall|k: int| 0 <= k < m - 1 implies !is_ws(#[trigger] t[k]) by {
            assert(t[k] == s[k + 1]);
        }
        if m < s.len() {
            assert(t[m - 1] == s[m as int]);
        }
        lemma_token_len_exact(t, (m - 1) as nat);
    }
}

/// The whitespace-separated tokens of `s`, as `str::split_whitespace` yields them.
pub open spec fn tokens(s: Seq<char>) -> Seq<Seq<char>>
    decreases s.len(),
{
    if s.len() == 0 {
        seq![]
    } else if is_ws(s[0]) {
        tokens(s.drop_first())
    } else {
        let n = token_len(s);
        proof {
            lemma_token_len_bound(s);
        }
        seq![s.take(n as int)] + tokens(s.skip(n as int))
    }
}

/// A vector of characters is its own deep view.
pub proof fn lemma_char_vec_deep_view(v: &Vec<char>)
    ensures
        v.deep_view() == v@,
{
    assert(v.deep_view() =~= v@);
}

/// Splits a character sequence at runs of whitespace.
pub fn split_whitespace(s: &[char]) -> (out: Vec<Vec<char>>)
    ensures
        out.deep_view() == tokens(s@),
{
    let mut out: Vec<Vec<char>> = Vec::new();
    let mut i: usize = 0;
    assert(s@.skip(0) =~= s@);
    while i < s.len()
        invariant
            0 <= i <= s.len(),
            tokens(s@) == out.deep_view() + tokens(s@.skip(i as int)),
        decreases s.len() - i,
    {
        if is_whitespace(s[i]) {
            let ghost t = s@.skip(i as int);
            assert(t.drop_first() =~= s@.skip(i + 1));
            i = i + 1;
        } else {
            let start = i;
            let mut tok: Vec<char> = Vec::new();
            while i < s.len() && !is_whitespace(s[i])
                invariant
                    start <= i <= s.len(),
                    tok@ == s@.subrange(start as int, i as int),
                    forall|k: int| start <= k < i ==> !is_ws(#[trigger] s@[k]),
                decreases s.len() - i,
            {
                tok.push(s[i]);
                i = i + 1;
            }
            let ghost t = s@.skip(start as int);
            proof {
                assert forall|k: int| 0 <= k < i - start implies !is_ws(#[trigger] t[k]) by {
                    assert(t[k] == s@[start + k]);
                }
                if i < s.len() {
                    assert(t[i - start] == s@[i as int]);
                }
                lemma_token_len_exact(t, (i - start) as nat);
                assert(t.take((i - start) as int) =~= tok@);
                assert(t.skip((i - start) as int) =~= s@.skip(i as int));
            }
            let ghost prev = out.deep_view();
            proof {
                lemma_char_vec_deep_view(&tok);
            }
            out.push(tok);
            assert(out.deep_view() =~= prev.push(tok@));
            assert(prev.push(tok@) + tokens(s@.skip(i as int)) =~= prev + (seq![tok@] + tokens(
                s@.skip(i as int),
            )));
        }
    }
    assert(tokens(s@.skip(i as int)) =~= seq![]) by {
        assert(s@.skip(i as int).len() == 0);
    }
    assert(out.deep_view() + seq![] =~= out.deep_view());
    out
}

} // verus!

verus! {

/// Index of the first line feed in `s`, or `s.len()` when there is none.
pub open spec fn nl_index(s: Seq<char>) -> nat
    decreases s.len(),
{
    if s.len() == 0 || s[0] == '\n' {
        0
    } else {
        1 + nl_index(s.drop_first())
    }
}

/// `nl_index` is within the string, at a line feed where below its length,
/// with no line feed before it.
pub proof fn lemma_nl_index_bound(s: Seq<char>)
    ensures
        nl_index(s) <= s.len(),
        nl_index(s) < s.len() ==> s[nl_index(s) as int] == '\n',
        forall|k: int| 0 <= k < nl_index(s) ==> s[k] != '\n',
    decreases s.len(),
{
    if s.len() > 0 && s[0] != '\n' {
        let t = s.drop_first();
        lemma_nl_index_bound(t);
        assert forall|k: int| 0 <= k < nl_index(s) implies s[k] != '\n' by {
            if k > 0 {
                assert(s[k] == t[k - 1]);
            }
        }
    }
}

/// `nl_index` is the position of the first line feed (or the length).
pub proof fn lemma_nl_index_exact(s: Seq<char>, m: nat)
    requires
        m <= s.len(),
        forall|k: int| 0 <= k < m ==> #[trigger] s[k] != '\n',
        m == s.len() || s[m as int] == '\n',
    ensures
        nl_index(s) == m,
    decreases m,
{
    if m > 0 {
        let t = s.drop_first();
        assert(s[0] != '\n');
        assert forall|k: int| 0 <= k < m - 1 implies #[trigger] t[k] != '\n' by {
            assert(t[k] == s[k + 1]);
        }
        if m < s.len() {
            assert(t[m - 1] == s[m as int]);
        }
        lemma_nl_index_exact(t, (m - 1) as nat);
    }
}

/// A line without the carriage return that precedes its line feed.
pub open spec fn strip_cr(l: Seq<char>) -> Seq<char> {
    if l.len() > 0 && l.last() == '\r' {
        l.drop_last()
    } else {
        l
    }
}

/// The lines of `s`, as `str::lines` yields them: split at `\n`, a `\r`
/// directly before a `\n` removed, and no empty line after a final `\n`.
pub open spec fn lines(s: Seq<char>) -> Seq<Seq<char>>
    decreases s.len(),
{
    if s.len() == 0 {
        seq![]
    } else {
        let i = nl_index(s);
        proof {
            lemma_nl_index_bound(s);
        }
        if i >= s.len() {
            seq![s]
        } else {
            seq![strip_cr(s.take(i as int))] + lines(s.skip(i as int + 1))
        }
    }
}

/// Splits a character sequence into lines.
pub fn split_lines(s: &[char]) -> (out: Vec<Vec<char>>)
    ensures
        out.deep_view() == lines(s@),
{
    let mut out: Vec<Vec<char>> = Vec::new();
    let mut i: usize = 0;
    assert(s@.skip(0) =~= s@);
    while i < s.len()
        invariant
            0 <= i <= s.len(),
            lines(s@) == out.deep_view() + lines(s@.skip(i as int)),
        decreases s.len() - i,
    {
        let start = i;
        let mut line: Vec<char> = Vec::new();
        while i < s.len() && s[i] != '\n'
            invariant
                start <= i <= s.len(),
                line@ == s@.subrange(start as int, i as int),
                forall|k: int| start <= k < i ==> #[trigger] s@[k] != '\n',
            decreases s.len() - i,
        {
            line.push(s[i]);
            i = i + 1;
        }
        let ghost t = s@.skip(start as int);
        proof {
            assert forall|k: int| 0 <= k < i - start implies #[trigger] t[k] != '\n' by {
                assert(t[k] == s@[start + k]);
            }
            if i < s.len() {
                assert(t[i - start] == s@[i as int]);
            }
            lemma_nl_index_exact(t, (i - start) as nat);
        }
        let ghost prev = out.deep_view();
        if i < s.len() {
            if line.len() > 0 && line[line.len() - 1] == '\r' {
                line.pop();
            }
            assert(line@ =~= strip_cr(t.take((i - start) as int)));
            proof {
                lemma_char_vec_deep_view(&line);
            }
            out.push(line);
            i = i + 1;
            assert(t.skip((i - start) as int) =~= s@.skip(i as int));
        } else {
            assert(line@ =~= t);
            proof {
                lemma_char_vec_deep_view(&line);
            }
            out.push(line);
            assert(s@.skip(i as int) =~= seq![]);
        }
        assert(out.deep_view() =~= prev.push(line@));
        assert(prev.push(line@) + lines(s@.skip(i as int)) =~= prev + lines(t));
    }
    assert(lines(s@.skip(i as int)) =~= seq![]) by {
        assert(s@.skip(i as int).len() == 0);
    }
    assert(out.deep_view() + seq![] =~= out.deep_view());
    out
}

} // verus!

verus! {

/// Number of leading characters of `s` that satisfy `p`.
pub open spec fn lead_n(s: Seq<char>, p: spec_fn(char) -> bool) -> nat
    decreases s.len(),
{
    if s.len() == 0 || !p(s[0]) {
        0
    } else {
        1 + lead_n(s.drop_first(), p)
    }
}

/// Number of trailing characters of `s` that satisfy `p`.
pub open spec fn trail_n(s: Seq<char>, p: spec_fn(char) -> bool) -> nat
    decreases s.len(),
{
    if s.len() == 0 || !p(s.last()) {
        0
    } else {
        1 + trail_n(s.drop_last(), p)
    }
}

/// `lead_n` is the length of the longest prefix whose characters satisfy `p`.
pub proof fn lemma_lead_exact(s: Seq<char>, p: spec_fn(char) -> bool, m: nat)
    requires
        m <= s.len(),
        forall|k: int| 0 <= k < m ==> p(#[trigger] s[k]),
        m == s.len() || !p(s[m as int]),
    ensures
        lead_n(s, p) == m,
    decreases m,
{
    if m > 0 {
        let t = s.drop_first();
        assert(p(s[0]));
        assert forall|k: int| 0 <= k < m - 1 implies p(#[trigger] t[k]) by {
            assert(t[k] == s[k + 1]);
        }
        if m < s.len() {
            assert(t[m - 1] == s[m as int]);
        }
        lemma_lead_exact(t, p, (m - 1) as nat);
    }
}

/// `trail_n` is the length of the longest suffix whose characters satisfy `p`.
pub proof fn lemma_trail_exact(s: Seq<char>, p: spec_fn(char) -> bool, m: nat)
    requires
        m <= s.len(),
        forall|k: int| s.len() - m <= k < s.len() ==> p(#[trigger] s[k]),
        m == s.len() || !p(s[s.len() - m - 1]),
    ensures
        trail_n(s, p) == m,
    decreases m,
{
    if m > 0 {
        let t = s.drop_last();
        assert(p(s[s.len() - 1]));
        assert forall|k: int| t.len() - (m - 1) <= k < t.len() implies p(#[trigger] t[k]) by {
            assert(t[k] == s[k]);
        }
        if m < s.len() {
            assert(t[t.len() - (m - 1) - 1] == s[s.len() - m - 1]);
        }
        lemma_trail_exact(t, p, (m - 1) as nat);
    }
}

/// `s` without the leading and trailing characters that satisfy `p`
/// (`str::trim_matches` with a predicate).
pub open spec fn trim_by(s: Seq<char>, p: spec_fn(char) -> bool) -> Seq<char> {
    let t = s.skip(lead_n(s, p) as int);
    t.take(t.len() - trail_n(t, p))
}

pub open spec fn ws_pred() -> spec_fn(char) -> bool {
    |c: char| is_ws(c)
}

/// `s` without leading and trailing whitespace (`str::trim`).
pub open spec fn trim(s: Seq<char>) -> Seq<char> {
    trim_by(s, ws_pred())
}

pub open spec fn in_set_pred(set: Seq<char>) -> spec_fn(char) -> bool {
    |c: char| set.contains(c)
}

proof fn lemma_lead_bound(s: Seq<char>, p: spec_fn(char) -> bool)
    ensures
        lead_n(s, p) <= s.len(),
    decreases s.len(),
{
    if s.len() > 0 && p(s[0]) {
        lemma_lead_bound(s.drop_first(), p);
    }
}

proof fn lemma_trail_bound(s: Seq<char>, p: spec_fn(char) -> bool)
    ensures
        trail_n(s, p) <= s.len(),
    decreases s.len(),
{
    if s.len() > 0 && p(s.last()) {
        lemma_trail_bound(s.drop_last(), p);
    }
}

/// Removes leading and trailing whitespace.
pub fn trim_ws(s: &[char]) -> (r: Vec<char>)
    ensures
        r@ == trim(s@),
{
    let mut a: usize = 0;
    while a < s.len() && is_whitespace(s[a])
        invariant
            a <= s.len(),
            forall|k: int| 0 <= k < a ==> is_ws(#[trigger] s@[k]),
        decreases s.len() - a,
    {
        a = a + 1;
    }
    let mut b: usize = s.len();
    while b > a && is_whitespace(s[b - 1])
        invariant
            a <= b <= s.len(),
            forall|k: int| b <= k < s.len() ==> is_ws(#[trigger] s@[k]),
        decreases b,
    {
        b = b - 1;
    }
    let mut r: Vec<char> = Vec::new();
    let mut i = a;
    while i < b
        invariant
            a <= i <= b,
            b <= s.len(),
            r@ == s@.subrange(a as int, i as int),
        decreases b - i,
    {
        r.push(s[i]);
        i = i + 1;
    }
    proof {
        let p = ws_pred();
        lemma_lead_exact(s@, p, a as nat);
        let t = s@.skip(a as int);
        assert forall|k: int| t.len() - (s.len() - b) <= k < t.len() implies p(#[trigger] t[k]) by {
            assert(t[k] == s@[a + k]);
        }
        if b > a {
            assert(t[t.len() - (s.len() - b) - 1] == s@[b - 1]);
        }
        lemma_trail_exact(t, p, (s.len() - b) as nat);
        assert(r@ =~= t.take(t.len() - trail_n(t, p)));
    }
    r
}

/// Removes leading and trailing characters that occur in `set`.
pub fn trim_set(s: &[char], set: &[char]) -> (r: Vec<char>)
    ensures
        r@ == trim_by(s@, in_set_pred(set@)),
{
    let mut a: usize = 0;
    while a < s.len() && contains_char(set, s[a])
        invariant
            a <= s.len(),
            forall|k: int| 0 <= k < a ==> set@.contains(#[trigger] s@[k]),
        decreases s.len() - a,
    {
        a = a + 1;
    }
    let mut b: usize = s.len();
    while b > a && contains_char(set, s[b - 1])
        invariant
            a <= b <= s.len(),
            forall|k: int| b <= k < s.len() ==> set@.contains(#[trigger] s@[k]),
        decreases b,
    {
        b = b - 1;
    }
    let mut r: Vec<char> = Vec::new();
    let mut i = a;
    while i < b
        invariant
            a <= i <= b,
            b <= s.len(),
            r@ == s@.subrange(a as int, i as int),
        decreases b - i,
    {
        r.push(s[i]);
        i = i + 1;
    }
    proof {
        let p = in_set_pred(set@);
        assert forall|k: int| 0 <= k < a implies p(#[trigger] s@[k]) by {}
        lemma_lead_exact(s@, p, a as nat);
        let t = s@.skip(a as int);
        assert forall|k: int| t.len() - (s.len() - b) <= k < t.len() implies p(#[trigger] t[k]) by {
            assert(t[k] == s@[a + k]);
        }
        if b > a {
            assert(t[t.len() - (s.len() - b) - 1] == s@[b - 1]);
        }
        lemma_trail_exact(t, p, (s.len() - b) as nat);
        assert(r@ =~= t.take(t.len() - trail_n(t, p)));
    }
    r
}

/// Whether `c` occurs in `set`.
pub fn contains_char(set: &[char], c: char) -> (b: bool)
    ensures
        b == set@.contains(c),
{
    let mut i: usize = 0;
    while i < set.len()
        invariant
            i <= set.len(),
            forall|k: int| 0 <= k < i ==> set@[k] != c,
        decreases set.len() - i,
    {
        if set[i] == c {
            assert(set@[i as int] == c);
            return true;
        }
        i = i + 1;
    }
    false
}

/// `suffix` is a suffix of `s`.
pub open spec fn ends_with(s: Seq<char>, suffix: Seq<char>) -> bool {
    s.len() >= suffix.len() && s.skip(s.len() - suffix.len()) == suffix
}

/// `pat` occurs in `s` starting at position `i`.
pub open spec fn occurs_at(s: Seq<char>, pat: Seq<char>, i: int) -> bool {
    0 <= i && i + pat.len() <= s.len() && s.subrange(i, i + pat.len()) == pat
}

/// `pat` occurs somewhere in `s`.
pub open spec fn contains_seq(s: Seq<char>, pat: Seq<char>) -> bool {
    exists|i: int| occurs_at(s, pat, i)
}

/// Whether `pat` occurs in `s` at position `i`.
pub fn matches_at(s: &[char], pat: &[char], i: usize) -> (b: bool)
    ensures
        b == occurs_at(s@, pat@, i as int),
{
    if i > s.len() || pat.len() > s.len() - i {
        return false;
    }
    let mut k: usize = 0;
    while k < pat.len()
        invariant
            i + pat.len() <= s.len(),
            k <= pat.len(),
            forall|j: int| 0 <= j < k ==> s@[i + j] == pat@[j],
        decreases pat.len() - k,
    {
        if s[i + k] != pat[k] {
            assert(s@.subrange(i as int, i + pat.len())[k as int] != pat@[k as int]);
            return false;
        }
        k = k + 1;
    }
    assert(s@.subrange(i as int, i + pat.len()) =~= pat@);
    true
}

/// Whether `s` ends with `suffix`.
pub fn ends_with_seq(s: &[char], suffix: &[char]) -> (b: bool)
    ensures
        b == ends_with(s@, suffix@),
{
    if suffix.len() > s.len() {
        return false;
    }
    let b = matches_at(s, suffix, s.len() - suffix.len());
    assert(s@.subrange(s.len() - suffix.len(), s.len() as int) =~= s@.skip(
        s.len() - suffix.len(),
    ));
    b
}

/// Whether `pat` occurs anywhere in `s`.
pub fn contains_seq_exec(s: &[char], pat: &[char]) -> (b: bool)
    ensures
        b == contains_seq(s@, pat@),
{
    if pat.len() > s.len() {
        assert forall|i: int| !occurs_at(s@, pat@, i) by {}
        return false;
    }
    if pat.len() == 0 {
        assert(s@.subrange(0, 0) =~= pat@);
        assert(occurs_at(s@, pat@, 0));
        return true;
    }
    let mut i: usize = 0;
    while i <= s.len() - pat.len()
        invariant
            1 <= pat.len() <= s.len(),
            i <= s.len() - pat.len() + 1,
            forall|j: int| 0 <= j < i ==> !occurs_at(s@, pat@, j),
        decreases s.len() - pat.len() + 1 - i,
    {
        if matches_at(s, pat, i) {
            return true;
        }
        i = i + 1;
    }
    assert forall|j: int| !occurs_at(s@, pat@, j) by {
        if 0 <= j < i {
        }
    }
    false
}

} // verus!

verus! {

/// Value of a hexadecimal digit, or -1 for any other character.
pub open spec fn hex_digit_value(c: char) -> int {
    let u = c as u32;
    if 0x30 <= u <= 0x39 {
        u - 0x30
    } else if 0x61 <= u <= 0x66 {
        u - 0x61 + 10
    } else if 0x41 <= u <= 0x46 {
        u - 0x41 + 10
    } else {
        -1
    }
}

pub open spec fn all_hex(s: Seq<char>) -> bool {
    forall|i: int| 0 <= i < s.len() ==> hex_digit_value(#[trigger] s[i]) >= 0
}

/// Big-endian value of a sequence of hexadecimal digits.
pub open spec fn hex_value(s: Seq<char>) -> nat
    decreases s.len(),
{
    if s.len() == 0 {
        0
    } else {
        hex_value(s.drop_last()) * 16 + hex_digit_value(s.last()) as nat
    }
}

/// The digits that `from_str_radix` reads: the text after an optional `+`.
pub open spec fn radix_digits(s: Seq<char>) -> Option<Seq<char>> {
    if s.len() == 0 {
        None
    } else if s[0] == '+' {
        if s.len() == 1 {
            None
        } else {
            Some(s.drop_first())
        }
    } else {
        Some(s)
    }
}

/// The unsigned value that `from_str_radix(s, 16)` yields for an integer type
/// whose values are below `bound`, or `None` where it reports an error.
pub open spec fn parse_hex(s: Seq<char>, bound: nat) -> Option<nat> {
    match radix_digits(s) {
        None => None,
        Some(d) => if all_hex(d) && hex_value(d) < bound {
            Some(hex_value(d))
        } else {
            None
        },
    }
}

/// A prefix of a hexadecimal numeral has no larger value.
pub proof fn lemma_hex_value_prefix(s: Seq<char>, k: int)
    requires
        0 <= k <= s.len(),
        all_hex(s),
    ensures
        hex_value(s.take(k)) <= hex_value(s),
    decreases s.len() - k,
{
    if k < s.len() {
        let t = s.drop_last();
        assert(t.take(k) =~= s.take(k));
        assert(all_hex(t)) by {
            assert forall|i: int| 0 <= i < t.len() implies hex_digit_value(#[trigger] t[i]) >= 0 by {
                assert(t[i] == s[i]);
            }
        }
        lemma_hex_value_prefix(t, k);
    } else {
        assert(s.take(k) =~= s);
    }
}

/// Value of a hexadecimal digit character.
pub fn hex_digit(c: char) -> (r: Option<u64>)
    ensures
        r matches Some(v) ==> hex_digit_value(c) >= 0 && v == hex_digit_value(c),
        r is None ==> hex_digit_value(c) < 0,
{
    let u = c as u32;
    if 0x30 <= u && u <= 0x39 {
        Some((u - 0x30) as u64)
    } else if 0x61 <= u && u <= 0x66 {
        Some((u - 0x61 + 10) as u64)
    } else if 0x41 <= u && u <= 0x46 {
        Some((u - 0x41 + 10) as u64)
    } else {
        None
    }
}

/// `from_str_radix(s, 16)` for an unsigned type whose values are below `bound`.
pub fn parse_hex_below(s: &[char], bound: u64) -> (r: Option<u64>)
    requires
        1 <= bound <= 0x1_0000_0000,
    ensures
        r matches Some(v) ==> parse_hex(s@, bound as nat) == Some(v as nat),
        r is None ==> parse_hex(s@, bound as nat) is None,
{
    if s.len() == 0 {
        return None;
    }
    let mut k: usize = 0;
    if s[0] == '+' {
        if s.len() == 1 {
            return None;
        }
        k = 1;
    }
    let ghost d = if s@[0] == '+' {
        s@.drop_first()
    } else {
        s@
    };
    let ghost off = k as int;
    assert(radix_digits(s@) == Some(d));
    assert(d =~= s@.skip(off));
    let mut acc: u64 = 0;
    assert(d.take(0) =~= seq![]);
    while k < s.len()
        invariant
            1 <= bound <= 0x1_0000_0000,
            off <= k <= s.len(),
            off == 0 || off == 1,
            d == s@.skip(off),
            radix_digits(s@) == Some(d),
            acc < bound,
            acc == hex_value(d.take(k - off)),
            forall|i: int| 0 <= i < k - off ==> hex_digit_value(#[trigger] d[i]) >= 0,
        decreases s.len() - k,
    {
        let dv = hex_digit(s[k]);
        assert(d[k - off] == s@[k as int]);
        match dv {
            None => {
                assert(!all_hex(d));
                return None;
            },
            Some(v) => {
                let next = acc * 16 + v;
                let ghost pre = d.take(k - off + 1);
                assert(pre.drop_last() =~= d.take(k - off));
                assert(hex_value(pre) == acc * 16 + v);
                if next >= bound {
                    proof {
                        if all_hex(d) {
                            assert(d.take(k - off + 1) == pre);
                            lemma_hex_value_prefix(d, k - off + 1);
                        }
                    }
                    return None;
                }
                acc = next;
                k = k + 1;
            },
        }
    }
    assert(d.take(k - off) =~= d);
    Some(acc)
}

} // verus!

verus! {

/// The deep view of a vector of character vectors is their views.
pub proof fn lemma_char_vec_deep_view_all(v: &Vec<Vec<char>>)
    ensures
        forall|i: int| 0 <= i < v.len() ==> #[trigger] v.deep_view()[i] == v@[i]@,
        v.deep_view().len() == v.len(),
{
    assert forall|i: int| 0 <= i < v.len() implies #[trigger] v.deep_view()[i] == v@[i]@ by {
        lemma_char_vec_deep_view(&v@[i]);
    }
}

/// Every token is non-empty.
pub proof fn lemma_tokens_nonempty(s: Seq<char>)
    ensures
        forall|k: int| 0 <= k < tokens(s).len() ==> (#[trigger] tokens(s)[k]).len() > 0,
    decreases s.len(),
{
    if s.len() == 0 {
        assert(tokens(s).len() == 0);
    } else if is_ws(s[0]) {
        lemma_tokens_nonempty(s.drop_first());
        assert(tokens(s) == tokens(s.drop_first()));
    } else {
        let n = token_len(s);
        lemma_token_len_bound(s);
        assert(n >= 1);
        lemma_tokens_nonempty(s.skip(n as int));
        let rest = tokens(s.skip(n as int));
        let head = s.take(n as int);
        assert(head.len() == n);
        assert(tokens(s) == seq![head] + rest);
        assert forall|k: int| 0 <= k < tokens(s).len() implies (#[trigger] tokens(s)[k]).len()
            > 0 by {
            if k == 0 {
                assert(tokens(s)[0] == head);
            } else {
                assert(tokens(s)[k] == rest[k - 1]);
            }
        }
    }
}


/// Whether two character sequences are equal.
pub fn chars_equal(a: &[char], b: &[char]) -> (r: bool)
    ensures
        r == (a@ == b@),
{
    if a.len() != b.len() {
        return false;
    }
    let mut i: usize = 0;
    while i < a.len()
        invariant
            a.len() == b.len(),
            i <= a.len(),
            forall|j: int| 0 <= j < i ==> a@[j] == b@[j],
        decreases a.len() - i,
    {
        if a[i] != b[i] {
            return false;
        }
        i = i + 1;
    }
    assert(a@ =~= b@);
    true
}

/// Appends the characters of `b` to `a`.
pub fn append_chars(a: &mut Vec<char>, b: &[char])
    ensures
        final(a)@ == old(a)@ + b@,
{
    let mut i: usize = 0;
    while i < b.len()
        invariant
            i <= b.len(),
            a@ == old(a)@ + b@.take(i as int),
        decreases b.len() - i,
    {
        a.push(b[i]);
        i = i + 1;
        assert(a@ =~= old(a)@ + b@.take(i as int));
    }
    assert(b@.take(b.len() as int) =~= b@);
}

} // verus!
