//! A map from byte-string character codes to code values.

use vstd::prelude::*;

verus! {

/// The map that a list of insertions leaves: a later entry for a key
/// replaces an earlier one.
pub open spec fn entries_map(s: Seq<(Vec<u8>, u32)>) -> Map<Seq<u8>, u32>
    decreases s.len(),
{
    if s.len() == 0 {
        Map::empty()
    } else {
        entries_map(s.drop_last()).insert(s.last().0@, s.last().1)
    }
}

/// Maps character codes (byte strings) to values; a later insertion for a
/// code replaces the earlier one.
pub struct CodeMap {
    entries: Vec<(Vec<u8>, u32)>,
}

impl View for CodeMap {
    type V = Map<Seq<u8>, u32>;

    closed spec fn view(&self) -> Map<Seq<u8>, u32> {
        entries_map(self.entries@)
    }
}

/// Whether two byte strings are equal.
pub fn bytes_equal(a: &[u8], b: &[u8]) -> (r: bool)
    ensures
        r == (a@ == b@),
{
    if a.len() != b.len() {
        return false;
    }
    let mut i: usize = 0;
    while i < a.len()
        invariant
            a.len() == b.len(),
            i <= a.len(),
            forall|j: int| 0 <= j < i ==> a@[j] == b@[j],
        decreases a.len() - i,
    {
        if a[i] != b[i] {
            return false;
        }
        i = i + 1;
    }
    assert(a@ =~= b@);
    true
}

/// A copy of a byte string.
pub fn copy_bytes(a: &[u8]) -> (r: Vec<u8>)
    ensures
        r@ == a@,
{
    let mut r: Vec<u8> = Vec::new();
    let mut i: usize = 0;
    while i < a.len()
        invariant
            i <= a.len(),
            r@ == a@.take(i as int),
        decreases a.len() - i,
    {
        r.push(a[i]);
        i = i + 1;
    }
    assert(r@ =~= a@);
    r
}

proof fn lemma_entries_suffix_free(s: Seq<(Vec<u8>, u32)>, i: int, k: Seq<u8>)
    requires
        0 <= i <= s.len(),
        forall|j: int| i <= j < s.len() ==> (#[trigger] s[j]).0@ != k,
    ensures
        entries_map(s).contains_key(k) == entries_map(s.take(i)).contains_key(k),
        entries_map(s).contains_key(k) ==> entries_map(s)[k] == entries_map(s.take(i))[k],
    decreases s.len() - i,
{
    if i < s.len() {
        let t = s.drop_last();
        assert(t.take(i) =~= s.take(i));
        assert forall|j: int| i <= j < t.len() implies (#[trigger] t[j]).0@ != k by {
            assert(t[j] == s[j]);
        }
        lemma_entries_suffix_free(t, i, k);
        assert(s.last() == s[s.len() - 1]);
    } else {
        assert(s.take(i) =~= s);
    }
}

impl CodeMap {
    /// The empty map.
    pub fn new() -> (m: CodeMap)
        ensures
            m@ == Map::<Seq<u8>, u32>::empty(),
    {
        CodeMap { entries: Vec::new() }
    }

    /// Maps `key` to `value`, replacing any earlier value for `key`.
    pub fn insert(&mut self, key: &[u8], value: u32)
        ensures
            final(self)@ == old(self)@.insert(key@, value),
    {
        let k = copy_bytes(key);
        let ghost before = self.entries@;
        self.entries.push((k, value));
        assert(self.entries@.drop_last() =~= before);
    }

    /// The value mapped to `key`, if any.
    pub fn get(&self, key: &[u8]) -> (r: Option<u32>)
        ensures
            r == (if self@.contains_key(key@) {
                Some(self@[key@])
            } else {
                None::<u32>
            }),
    {
        let mut i: usize = self.entries.len();
        while i > 0
            invariant
                i <= self.entries.len(),
                forall|j: int| i <= j < self.entries@.len() ==> (#[trigger] self.entries@[j]).0@
                    != key@,
            decreases i,
        {
            if bytes_equal(&self.entries[i - 1].0, key) {
                proof {
                    let s = self.entries@;
                    lemma_entries_suffix_free(s, i as int, key@);
                    let t = s.take(i as int);
                    assert(t.drop_last() =~= s.take(i - 1));
                    assert(t.last() == s[i - 1]);
                }
                return Some(self.entries[i - 1].1);
            }
            i = i - 1;
        }
        proof {
            let s = self.entries@;
            lemma_entries_suffix_free(s, 0, key@);
            assert(s.take(0) =~= Seq::<(Vec<u8>, u32)>::empty());
        }
        None
    }
}


/// What a lookup gives back after an insertion: the inserted value for the
/// inserted code, and the earlier answer for every other code.
pub proof fn lemma_get_after_insert(m: Map<Seq<u8>, u32>, key: Seq<u8>, value: u32, other: Seq<u8>)
    ensures
        m.insert(key, value).contains_key(key) && m.insert(key, value)[key] == value,
        other != key ==> (m.insert(key, value).contains_key(other) == m.contains_key(other)),
        other != key && m.contains_key(other) ==> m.insert(key, value)[other] == m[other],
{
}

} // verus!
