//! Byte-string character codes: hexadecimal decoding, big-endian successor
//! and the byte-wise order in which CMap code ranges are walked.

use vstd::prelude::*;
use vstd::utf8::*;

verus! {

/// `256` to the power `n`.
pub open spec fn pow256(n: nat) -> nat
    decreases n,
{
    if n == 0 {
        1
    } else {
        256 * pow256((n - 1) as nat)
    }
}

/// Big-endian value of a byte string.
pub open spec fn be_value(s: Seq<u8>) -> nat
    decreases s.len(),
{
    if s.len() == 0 {
        0
    } else {
        be_value(s.drop_last()) * 256 + s.last() as nat
    }
}

/// The next byte string of the same length in big-endian order, with
/// `FF..FF` followed by `00..00` (what `increment_bytes` computes).
pub open spec fn successor(s: Seq<u8>) -> Seq<u8>
    decreases s.len(),
{
    if s.len() == 0 {
        s
    } else if s.last() == 0xFF {
        successor(s.drop_last()).push(0)
    } else {
        s.drop_last().push((s.last() + 1) as u8)
    }
}

/// Every byte of `s` is `0xFF`.
pub open spec fn all_ff(s: Seq<u8>) -> bool {
    forall|i: int| 0 <= i < s.len() ==> s[i] == 0xFF
}

/// A byte string's big-endian value is below `256` to the power of its length.
pub proof fn lemma_be_value_bound(s: Seq<u8>)
    ensures
        be_value(s) < pow256(s.len()),
    decreases s.len(),
{
    if s.len() > 0 {
        lemma_be_value_bound(s.drop_last());
        let p = pow256((s.len() - 1) as nat);
        let v = be_value(s.drop_last());
        assert(v * 256 + (s.last() as nat) < 256 * p) by (nonlinear_arith)
            requires
                v < p,
                s.last() < 256,
        ;
    }
}

/// A successor has the length of the string it follows.
pub proof fn lemma_successor_len(s: Seq<u8>)
    ensures
        successor(s).len() == s.len(),
    decreases s.len(),
{
    if s.len() > 0 && s.last() == 0xFF {
        lemma_successor_len(s.drop_last());
    }
}

/// The successor of a byte string is the next big-endian value, wrapping
/// around after the largest value of that length.
pub proof fn lemma_successor_value(s: Seq<u8>)
    ensures
        successor(s).len() == s.len(),
        be_value(successor(s)) == (be_value(s) + 1) % pow256(s.len()),
    decreases s.len(),
{
    lemma_successor_len(s);
    if s.len() == 0 {
    } else {
        let t = s.drop_last();
        let p = pow256(t.len());
        lemma_be_value_bound(t);
        if s.last() == 0xFF {
            lemma_successor_value(t);
            let u = successor(t);
            assert(successor(s).drop_last() =~= u);
            let vt = be_value(t);
            // be_value(successor(s)) == be_value(u) * 256
            if vt + 1 < p {
                assert((vt + 1) % p == vt + 1) by (nonlinear_arith)
                    requires
                        vt + 1 < p,
                ;
                assert((vt * 256 + 255 + 1) % (256 * p) == (vt + 1) * 256) by (nonlinear_arith)
                    requires
                        vt + 1 < p,
                ;
            } else {
                assert((vt + 1) % p == 0) by (nonlinear_arith)
                    requires
                        vt + 1 == p,
                        p > 0,
                ;
                assert((vt * 256 + 255 + 1) % (256 * p) == 0) by (nonlinear_arith)
                    requires
                        vt + 1 == p,
                        p > 0,
                ;
            }
        } else {
            assert(successor(s).drop_last() =~= t);
            let vt = be_value(t);
            let l = s.last() as nat;
            assert((vt * 256 + l + 1) % (256 * p) == vt * 256 + l + 1) by (nonlinear_arith)
                requires
                    vt < p,
                    l < 255,
            ;
        }
    }
}

/// A successor changes nothing but the trailing `FF` bytes and the byte
/// before them; a string that is not all `FF` never wraps.
pub proof fn lemma_successor_no_wrap(s: Seq<u8>)
    requires
        !all_ff(s),
    ensures
        be_value(successor(s)) == be_value(s) + 1,
{
    lemma_successor_value(s);
    lemma_be_value_bound(s);
    if be_value(s) + 1 == pow256(s.len()) {
        lemma_max_value_all_ff(s);
    }
    let v = be_value(s) + 1;
    let p = pow256(s.len());
    assert(v % p == v) by (nonlinear_arith)
        requires
            v < p,
    ;
}

/// The only byte string of its length with the largest value is `FF..FF`.
pub proof fn lemma_max_value_all_ff(s: Seq<u8>)
    requires
        be_value(s) + 1 == pow256(s.len()),
    ensures
        all_ff(s),
    decreases s.len(),
{
    if s.len() > 0 {
        let t = s.drop_last();
        lemma_be_value_bound(t);
        let vt = be_value(t);
        let p = pow256(t.len());
        let l = s.last() as nat;
        assert(vt + 1 == p && l == 255) by (nonlinear_arith)
            requires
                vt * 256 + l + 1 == 256 * p,
                vt < p,
                l < 256,
        ;
        lemma_max_value_all_ff(t);
        assert forall|i: int| 0 <= i < s.len() implies s[i] == 0xFF by {
            if i < t.len() {
                assert(s[i] == t[i]);
            }
        }
    }
}

/// `a <= b` in the order of `Vec<u8>`: byte-wise, a proper prefix first.
pub open spec fn lex_le(a: Seq<u8>, b: Seq<u8>) -> bool
    decreases a.len(),
{
    if a.len() == 0 {
        true
    } else if b.len() == 0 {
        false
    } else if a[0] != b[0] {
        a[0] < b[0]
    } else {
        lex_le(a.drop_first(), b.drop_first())
    }
}

/// `FF..FF` has the largest value of its length.
pub proof fn lemma_all_ff_max(s: Seq<u8>)
    requires
        all_ff(s),
    ensures
        be_value(s) + 1 == pow256(s.len()),
    decreases s.len(),
{
    if s.len() > 0 {
        let t = s.drop_last();
        assert(all_ff(t)) by {
            assert forall|i: int| 0 <= i < t.len() implies t[i] == 0xFF by {
                assert(t[i] == s[i]);
            }
        }
        lemma_all_ff_max(t);
        assert(s.last() == 0xFF);
    }
}

/// The big-endian value split at the first byte.
pub proof fn lemma_be_value_front(s: Seq<u8>)
    requires
        s.len() >= 1,
    ensures
        be_value(s) == s[0] * pow256((s.len() - 1) as nat) + be_value(s.drop_first()),
    decreases s.len(),
{
    if s.len() == 1 {
        assert(be_value(s.drop_last()) == 0);
        assert(be_value(s.drop_first()) == 0);
        assert(pow256(0) == 1);
        assert(s.last() == s[0]);
        assert(be_value(s) == be_value(s.drop_last()) * 256 + s.last() as nat);
    } else {
        let t = s.drop_last();
        lemma_be_value_front(t);
        assert(t[0] == s[0]);
        assert(t.drop_first() =~= s.drop_first().drop_last());
        assert(s.drop_first().last() == s.last());
        assert(be_value(s) == be_value(t) * 256 + s.last() as nat);
        assert(be_value(s.drop_first()) == be_value(s.drop_first().drop_last()) * 256
            + s.drop_first().last() as nat);
        let x = be_value(t.drop_first());
        let p = pow256((s.len() - 2) as nat);
        assert(pow256((s.len() - 1) as nat) == 256 * p);
        let h = s[0] as int;
        let l = s.last() as int;
        assert((h * p + x) * 256 + l == h * (256 * p) + (x * 256 + l)) by (nonlinear_arith);
    }
}

/// For byte strings of one length, the byte-wise order is the order of
/// their big-endian values.
pub proof fn lemma_lex_le_by_value(a: Seq<u8>, b: Seq<u8>)
    requires
        a.len() == b.len(),
        be_value(a) <= be_value(b),
    ensures
        lex_le(a, b),
    decreases a.len(),
{
    if a.len() > 0 {
        lemma_be_value_front(a);
        lemma_be_value_front(b);
        let p = pow256((a.len() - 1) as nat);
        lemma_be_value_bound(a.drop_first());
        lemma_be_value_bound(b.drop_first());
        let (ra, rb) = (be_value(a.drop_first()) as int, be_value(b.drop_first()) as int);
        let (ha, hb) = (a[0] as int, b[0] as int);
        if ha > hb {
            assert(ha * p + ra > hb * p + rb) by (nonlinear_arith)
                requires
                    ha >= hb + 1,
                    0 <= ra,
                    rb < p,
                    hb >= 0,
            ;
        } else if ha == hb {
            lemma_lex_le_by_value(a.drop_first(), b.drop_first());
        }
    }
}

/// Byte strings of one length with the same value are equal.
pub proof fn lemma_be_value_injective(a: Seq<u8>, b: Seq<u8>)
    requires
        a.len() == b.len(),
        be_value(a) == be_value(b),
    ensures
        a == b,
    decreases a.len(),
{
    if a.len() > 0 {
        let (ta, tb) = (a.drop_last(), b.drop_last());
        let (va, vb) = (be_value(ta) as int, be_value(tb) as int);
        let (la, lb) = (a.last() as int, b.last() as int);
        assert(va == vb && la == lb) by (nonlinear_arith)
            requires
                va * 256 + la == vb * 256 + lb,
                0 <= la < 256,
                0 <= lb < 256,
        ;
        lemma_be_value_injective(ta, tb);
        assert(a =~= ta.push(a.last()));
        assert(b =~= tb.push(b.last()));
    }
}

/// The byte-wise order is transitive.
pub proof fn lemma_lex_le_trans(a: Seq<u8>, b: Seq<u8>, c: Seq<u8>)
    requires
        lex_le(a, b),
        lex_le(b, c),
    ensures
        lex_le(a, c),
    decreases a.len(),
{
    if a.len() > 0 && b.len() > 0 && c.len() > 0 {
        if a[0] == b[0] && b[0] == c[0] {
            lemma_lex_le_trans(a.drop_first(), b.drop_first(), c.drop_first());
        }
    }
}


/// Value of a hexadecimal digit byte, or -1.
pub open spec fn hex_byte_value(b: u8) -> int {
    if 0x30 <= b <= 0x39 {
        b - 0x30
    } else if 0x61 <= b <= 0x66 {
        b - 0x61 + 10
    } else if 0x41 <= b <= 0x46 {
        b - 0x41 + 10
    } else {
        -1
    }
}

/// What `u8::from_str_radix` reads from two bytes taken as UTF-8 text: two
/// hexadecimal digits, or `+` and one digit.
pub open spec fn hex_pair(b0: u8, b1: u8) -> Option<u8> {
    if hex_byte_value(b0) >= 0 && hex_byte_value(b1) >= 0 {
        Some((hex_byte_value(b0) * 16 + hex_byte_value(b1)) as u8)
    } else if b0 == 0x2B && hex_byte_value(b1) >= 0 {
        Some(hex_byte_value(b1) as u8)
    } else {
        None
    }
}

/// The bytes that `hex_to_bytes` reads from a byte string: each complete
/// pair that decodes, in order; pairs that do not decode and a final odd
/// byte are skipped.
pub open spec fn hex_bytes(b: Seq<u8>) -> Seq<u8>
    decreases b.len(),
{
    if b.len() < 2 {
        seq![]
    } else {
        match hex_pair(b[0], b[1]) {
            Some(v) => seq![v] + hex_bytes(b.skip(2)),
            None => hex_bytes(b.skip(2)),
        }
    }
}

fn hex_byte(b: u8) -> (r: Option<u8>)
    ensures
        r matches Some(v) ==> hex_byte_value(b) >= 0 && v == hex_byte_value(b),
        r is None ==> hex_byte_value(b) < 0,
{
    if 0x30 <= b && b <= 0x39 {
        Some(b - 0x30)
    } else if 0x61 <= b && b <= 0x66 {
        Some(b - 0x61 + 10)
    } else if 0x41 <= b && b <= 0x46 {
        Some(b - 0x41 + 10)
    } else {
        None
    }
}

/// Decodes one pair of bytes as a hexadecimal byte.
pub fn decode_hex_pair(b0: u8, b1: u8) -> (r: Option<u8>)
    ensures
        r == hex_pair(b0, b1),
{
    match (hex_byte(b0), hex_byte(b1)) {
        (Some(h), Some(l)) => Some(h * 16 + l),
        (None, Some(l)) => {
            if b0 == 0x2B {
                Some(l)
            } else {
                None
            }
        },
        _ => None,
    }
}

/// Decodes the hexadecimal digit pairs of `hex` into bytes, skipping every
/// pair that is not a valid hexadecimal byte and a trailing odd byte.
pub fn hex_to_bytes(hex: &str) -> (out: Vec<u8>)
    ensures
        out@ == hex_bytes(encode_utf8(hex@)),
{
    let b = hex.as_bytes();
    bytes_hex_to_bytes(b)
}

/// `hex_to_bytes` on the UTF-8 bytes of a text.
pub fn bytes_hex_to_bytes(b: &[u8]) -> (out: Vec<u8>)
    ensures
        out@ == hex_bytes(b@),
{
    let mut out: Vec<u8> = Vec::new();
    let mut i: usize = 0;
    assert(b@.skip(0) =~= b@);
    while i < b.len() && b.len() - i >= 2
        invariant
            i <= b.len(),
            hex_bytes(b@) == out@ + hex_bytes(b@.skip(i as int)),
        decreases b.len() - i,
    {
        let ghost t = b@.skip(i as int);
        assert(t[0] == b@[i as int] && t[1] == b@[i + 1]);
        assert(t.skip(2) =~= b@.skip(i + 2));
        let ghost prev = out@;
        match decode_hex_pair(b[i], b[i + 1]) {
            Some(v) => {
                out.push(v);
                assert(prev + (seq![v] + hex_bytes(t.skip(2))) =~= out@ + hex_bytes(t.skip(2)));
            },
            None => {},
        }
        i = i + 2;
    }
    assert(hex_bytes(b@.skip(i as int)) =~= seq![]);
    assert(out@ + seq![] =~= out@);
    out
}

/// The next code of the same length: the last byte incremented, with `FF`
/// bytes rolling over to `00` and carrying into the byte before them.
pub fn increment_bytes(bytes: &[u8]) -> (out: Vec<u8>)
    ensures
        out@ == successor(bytes@),
{
    let mut out: Vec<u8> = Vec::new();
    let mut k: usize = 0;
    while k < bytes.len()
        invariant
            k <= bytes.len(),
            out@ == bytes@.take(k as int),
        decreases bytes.len() - k,
    {
        out.push(bytes[k]);
        k = k + 1;
    }
    assert(out@ =~= bytes@);
    let mut i: usize = bytes.len();
    while i > 0
        invariant
            i <= bytes.len(),
            out@.len() == bytes@.len(),
            // positions from i on are all 0x00 and were 0xFF
            forall|j: int| i <= j < bytes.len() ==> out@[j] == 0 && bytes@[j] == 0xFF,
            forall|j: int| 0 <= j < i ==> out@[j] == bytes@[j],
            successor(bytes@) == successor(bytes@.take(i as int)) + Seq::new(
                (bytes.len() - i) as nat,
                |j: int| 0u8,
            ),
        decreases i,
    {
        let ghost t = bytes@.take(i as int);
        assert(t.drop_last() =~= bytes@.take(i - 1));
        if out[i - 1] == 0xFF {
            out.set(i - 1, 0x00);
            assert(successor(t) == successor(t.drop_last()).push(0));
            assert(successor(bytes@.take(i - 1)).push(0) + Seq::new(
                (bytes.len() - i) as nat,
                |j: int| 0u8,
            ) =~= successor(bytes@.take(i - 1)) + Seq::new(
                (bytes.len() - (i - 1)) as nat,
                |j: int| 0u8,
            ));
            i = i - 1;
        } else {
            let v = out[i - 1] + 1;
            out.set(i - 1, v);
            proof {
                assert(successor(t) == t.drop_last().push(v));
                assert(out@ =~= t.drop_last().push(v) + Seq::new(
                    (bytes.len() - i) as nat,
                    |j: int| 0u8,
                ));
            }
            return out;
        }
    }
    proof {
        assert(bytes@.take(0) =~= seq![]);
        assert(out@ =~= Seq::new(bytes.len() as nat, |j: int| 0u8));
        assert(successor(bytes@.take(0)) + Seq::new(bytes.len() as nat, |j: int| 0u8)
            =~= Seq::new(bytes.len() as nat, |j: int| 0u8));
    }
    out
}

} // verus!

verus! {

/// UTF-8 encoding distributes over concatenation.
pub proof fn lemma_encode_utf8_append(a: Seq<char>, b: Seq<char>)
    ensures
        encode_utf8(a + b) == encode_utf8(a) + encode_utf8(b),
    decreases a.len(),
{
    if a.len() == 0 {
        assert(a + b =~= b);
        assert(encode_utf8(a) + encode_utf8(b) =~= encode_utf8(b));
    } else {
        assert((a + b).drop_first() =~= a.drop_first() + b);
        lemma_encode_utf8_append(a.drop_first(), b);
        assert(encode_scalar(a[0] as u32) + (encode_utf8(a.drop_first()) + encode_utf8(b))
            =~= (encode_scalar(a[0] as u32) + encode_utf8(a.drop_first())) + encode_utf8(b));
    }
}

/// The UTF-8 encoding of one character.
pub fn encode_char(c: char) -> (r: Vec<u8>)
    ensures
        r@ == encode_scalar(c as u32),
{
    let v = c as u32;
    proof {
        vstd::utf8::char_is_scalar(c);
    }
    if v <= 0x7F {
        vec![(v & 0x7F) as u8]
    } else if v <= 0x7FF {
        vec![0xC0 | ((v >> 6) & 0x1F) as u8, 0x80 | (v & 0x3F) as u8]
    } else if v <= 0xFFFF {
        vec![
            0xE0 | ((v >> 12) & 0x0F) as u8,
            0x80 | ((v >> 6) & 0x3F) as u8,
            0x80 | (v & 0x3F) as u8,
        ]
    } else {
        vec![
            0xF0 | ((v >> 18) & 0x7) as u8,
            0x80 | ((v >> 12) & 0x3F) as u8,
            0x80 | ((v >> 6) & 0x3F) as u8,
            0x80 | (v & 0x3F) as u8,
        ]
    }
}

/// The UTF-8 encoding of a character sequence.
pub fn encode_chars(s: &[char]) -> (r: Vec<u8>)
    ensures
        r@ == encode_utf8(s@),
{
    let mut r: Vec<u8> = Vec::new();
    let mut i: usize = 0;
    assert(s@.take(0) =~= Seq::<char>::empty());
    while i < s.len()
        invariant
            i <= s.len(),
            r@ == encode_utf8(s@.take(i as int)),
        decreases s.len() - i,
    {
        let e = encode_char(s[i]);
        let mut k: usize = 0;
        let ghost before = r@;
        while k < e.len()
            invariant
                k <= e.len(),
                r@ == before + e@.take(k as int),
            decreases e.len() - k,
        {
            r.push(e[k]);
            k = k + 1;
        }
        proof {
            assert(e@.take(k as int) =~= e@);
            let one = seq![s@[i as int]];
            assert(s@.take(i + 1) =~= s@.take(i as int) + one);
            lemma_encode_utf8_append(s@.take(i as int), one);
            assert(one.drop_first() =~= Seq::<char>::empty());
            assert(encode_utf8(Seq::<char>::empty()) =~= Seq::<u8>::empty());
            assert(encode_utf8(one) == encode_scalar(one[0] as u32) + encode_utf8(one.drop_first()));
            assert(encode_utf8(one) =~= encode_scalar(s@[i as int] as u32));
        }
        i = i + 1;
    }
    assert(s@.take(i as int) =~= s@);
    r
}

} // verus!
