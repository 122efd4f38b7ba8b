//! Decisions about content streams as a whole: joining a page's streams,
//! leaving a stream untouched, and the operator-by-operator filter.

use vstd::prelude::*;
use crate::ops::OpClass;
use crate::text::{chars_of, chars_equal};

verus! {

/// The bytes of a page's content streams joined into one, with a line feed
/// before each stream that follows non-empty content.
pub open spec fn joined(parts: Seq<Seq<u8>>) -> Seq<u8>
    decreases parts.len(),
{
    if parts.len() == 0 {
        seq![]
    } else {
        let acc = joined(parts.drop_last());
        let sep = if acc.len() > 0 {
            acc.push(10u8)
        } else {
            acc
        };
        sep + parts.last()
    }
}

/// Joins a page's content streams into one.
pub fn join_streams(parts: &[Vec<u8>]) -> (r: Vec<u8>)
    ensures
        r@ == joined(parts.deep_view()),
{
    let ghost pv = parts.deep_view();
    let mut out: Vec<u8> = Vec::new();
    let mut i: usize = 0;
    assert(pv.take(0) =~= Seq::<Seq<u8>>::empty());
    while i < parts.len()
        invariant
            i <= parts.len(),
            pv == parts.deep_view(),
            pv.len() == parts.len(),
            out@ == joined(pv.take(i as int)),
        decreases parts.len() - i,
    {
        let ghost pre = pv.take(i + 1);
        assert(pre.drop_last() =~= pv.take(i as int));
        assert(pre.last() == parts@[i as int]@);
        if out.len() > 0 {
            out.push(10u8);
        }
        let p = &parts[i];
        let mut j: usize = 0;
        let ghost start = out@;
        while j < p.len()
            invariant
                j <= p.len(),
                out@ == start + p@.take(j as int),
            decreases p.len() - j,
        {
            out.push(p[j]);
            j = j + 1;
            assert(out@ =~= start + p@.take(j as int));
        }
        assert(p@.take(j as int) =~= p@);
        i = i + 1;
    }
    assert(pv.take(i as int) =~= pv);
    out
}

/// A decoded stream that is a single operator named `x` or `H` is left as
/// it was: such a stream is not real content.
pub open spec fn suspicious(names: Seq<Seq<char>>) -> bool {
    names.len() == 1 && (names[0] == "x"@ || names[0] == "H"@)
}

/// Whether a decoded stream with these operator names is left untouched.
pub fn is_suspicious(names: &[String]) -> (r: bool)
    ensures
        r == suspicious(names@.map_values(|s: String| s@)),
{
    if names.len() != 1 {
        return false;
    }
    let n = chars_of(names[0].as_str());
    let x = chars_of("x");
    let h = chars_of("H");
    chars_equal(&n, &x) || chars_equal(&n, &h)
}

/// Whether filtering removed nothing, so that the original bytes are kept.
pub fn nothing_removed(original: usize, filtered: usize) -> (r: bool)
    ensures
        r == (original <= filtered),
{
    original.saturating_sub(filtered) == 0
}

/// The operator-by-operator filter's state after `n` operators: what it has output and
/// the path operators it holds back until the path is painted.
pub open spec fn select_run(classes: Seq<OpClass>, paint_keep: Seq<bool>, n: int) -> (Seq<usize>, Seq<usize>)
    decreases n,
{
    if n <= 0 {
        (seq![], seq![])
    } else {
        let prev = select_run(classes, paint_keep, n - 1);
        let i = (n - 1) as usize;
        match classes[n - 1] {
            OpClass::PathBuild => (prev.0, prev.1.push(i)),
            OpClass::Clip => (prev.0, prev.1.push(i)),
            OpClass::Paint => if paint_keep[n - 1] {
                (prev.0 + prev.1.push(i), seq![])
            } else {
                (prev.0, seq![])
            },
            OpClass::EndPath => (prev.0, seq![]),
            _ => (prev.0.push(i), prev.1),
        }
    }
}

/// The positions the operator-by-operator filter outputs: every operator but path
/// construction, clipping and path ends, and each painted path (its held
/// construction and clipping operators, then the painting operator) whose
/// painting is kept.
pub open spec fn selected(classes: Seq<OpClass>, paint_keep: Seq<bool>) -> Seq<usize> {
    select_run(classes, paint_keep, classes.len() as int).0
}

/// The operator-by-operator filter: `paint_keep[i]` says whether the path
/// painted at position `i` meets the crop box.
pub fn select_operations(classes: &[OpClass], paint_keep: &[bool]) -> (r: Vec<usize>)
    requires
        paint_keep.len() == classes.len(),
    ensures
        r@ == selected(classes@, paint_keep@),
        forall|a: int, b: int| 0 <= a < b < r@.len() ==> r@[a] != r@[b],
        forall|i: int|
            0 <= i < classes.len() && classes@[i] == OpClass::Paint ==> (#[trigger] r@.contains(i as usize)
                <==> paint_keep@[i]),
{

    let mut out: Vec<usize> = Vec::new();
    let mut held: Vec<usize> = Vec::new();
    let mut i: usize = 0;
    while i < classes.len()
        invariant
            i <= classes.len(),
            paint_keep.len() == classes.len(),
            (out@, held@) == select_run(classes@, paint_keep@, i as int),
        decreases classes.len() - i,
    {
        let ghost prev_out = out@;
        let ghost prev_held = held@;
        match classes[i] {
            OpClass::PathBuild => {
                held.push(i);
            },
            OpClass::Clip => {
                held.push(i);
            },
            OpClass::Paint => {
                if paint_keep[i] {
                    let mut j: usize = 0;
                    while j < held.len()
                        invariant
                            j <= held.len(),
                            out@ == prev_out + held@.take(j as int),
                        decreases held.len() - j,
                    {
                        out.push(held[j]);
                        j = j + 1;
                        assert(out@ =~= prev_out + held@.take(j as int));
                    }
                    assert(held@.take(j as int) =~= held@);
                    out.push(i);
                    assert(out@ =~= prev_out + prev_held.push(i));
                }
                held = Vec::new();
            },
            OpClass::EndPath => {
                held = Vec::new();
            },
            _ => {
                out.push(i);
            },
        }
        assert((out@, held@) =~= select_run(classes@, paint_keep@, i + 1));
        i = i + 1;
    }
    proof {
        lemma_selected_once(classes@, paint_keep@);
    }
    out
}

/// An operator that the operator-by-operator filter always passes on.
pub open spec fn passes_through(c: OpClass) -> bool {
    c != OpClass::PathBuild && c != OpClass::Clip && c != OpClass::Paint && c != OpClass::EndPath
}

proof fn lemma_select_run(classes: Seq<OpClass>, paint_keep: Seq<bool>, n: int)
    requires
        0 <= n <= classes.len(),
        paint_keep.len() == classes.len(),
        classes.len() <= usize::MAX,
    ensures
        forall|i: int|
            0 <= i < n && passes_through(classes[i]) ==> #[trigger] select_run(classes, paint_keep, n).0.contains(i as usize),
        forall|k: int|
            0 <= k < select_run(classes, paint_keep, n).0.len() ==> classes[#[trigger] select_run(classes, paint_keep, n).0[k] as int]
                != OpClass::EndPath,
        forall|k: int|
            0 <= k < select_run(classes, paint_keep, n).0.len() ==> #[trigger] select_run(classes, paint_keep, n).0[k] < n,
        forall|k: int|
            0 <= k < select_run(classes, paint_keep, n).1.len() ==> {
                let p = #[trigger] select_run(classes, paint_keep, n).1[k];
                p < n && (classes[p as int] == OpClass::PathBuild || classes[p as int] == OpClass::Clip)
            },
    decreases n,
{
    if n > 0 {
        lemma_select_run(classes, paint_keep, n - 1);
        let prev = select_run(classes, paint_keep, n - 1);
        let cur = select_run(classes, paint_keep, n);
        let i = (n - 1) as usize;
        assert forall|j: int| 0 <= j < n && passes_through(classes[j]) implies #[trigger] cur.0.contains(j as usize) by {
            if j < n - 1 {
                assert(prev.0.contains(j as usize));
                let w = choose|w: int| 0 <= w < prev.0.len() && prev.0[w] == j as usize;
                assert(cur.0[w] == prev.0[w]);
            } else {
                assert(cur.0 == prev.0.push(i));
                assert(cur.0[prev.0.len() as int] == i);
            }
        }
        assert forall|k: int| 0 <= k < cur.0.len() implies classes[#[trigger] cur.0[k] as int] != OpClass::EndPath && cur.0[k] < n by {
            if k < prev.0.len() {
                assert(cur.0[k] == prev.0[k]);
            } else if classes[n - 1] == OpClass::Paint && paint_keep[n - 1] {
                let t = prev.1.push(i);
                assert(cur.0[k] == t[k - prev.0.len()]);
                if k - prev.0.len() < prev.1.len() {
                    assert(t[k - prev.0.len()] == prev.1[k - prev.0.len()]);
                }
            }
        }
    }
}

/// The operator-by-operator filter passes on every operator that is not part of a path,
/// never outputs a path end (`n`), and outputs only positions it was given.
pub proof fn lemma_selected_keeps_non_path(classes: Seq<OpClass>, paint_keep: Seq<bool>)
    requires
        paint_keep.len() == classes.len(),
        classes.len() <= usize::MAX,
    ensures
        forall|i: int|
            0 <= i < classes.len() && passes_through(classes[i]) ==> #[trigger] selected(classes, paint_keep).contains(i as usize),
        forall|k: int|
            0 <= k < selected(classes, paint_keep).len() ==> classes[#[trigger] selected(classes, paint_keep)[k] as int]
                != OpClass::EndPath,
        forall|k: int|
            0 <= k < selected(classes, paint_keep).len() ==> #[trigger] selected(classes, paint_keep)[k] < classes.len(),
{
    lemma_select_run(classes, paint_keep, classes.len() as int);
}

/// No position occurs twice in `s`.
pub open spec fn no_repeats(s: Seq<usize>) -> bool {
    forall|a: int, b: int| 0 <= a < b < s.len() ==> s[a] != s[b]
}

proof fn lemma_no_repeats_concat(a: Seq<usize>, b: Seq<usize>)
    requires
        no_repeats(a),
        no_repeats(b),
        forall|x: int, y: int| 0 <= x < a.len() && 0 <= y < b.len() ==> a[x] != b[y],
    ensures
        no_repeats(a + b),
{
    assert forall|x: int, y: int| 0 <= x < y < (a + b).len() implies (a + b)[x] != (a + b)[y] by {
        if y < a.len() {
        } else if x >= a.len() {
            assert((a + b)[x] == b[x - a.len()]);
            assert((a + b)[y] == b[y - a.len()]);
        } else {
            assert((a + b)[x] == a[x]);
            assert((a + b)[y] == b[y - a.len()]);
        }
    }
}

proof fn lemma_select_run_once(classes: Seq<OpClass>, paint_keep: Seq<bool>, n: int)
    requires
        0 <= n <= classes.len(),
        paint_keep.len() == classes.len(),
        classes.len() <= usize::MAX,
    ensures
        no_repeats(select_run(classes, paint_keep, n).0),
        no_repeats(select_run(classes, paint_keep, n).1),
        forall|x: int, y: int|
            0 <= x < select_run(classes, paint_keep, n).0.len() && 0 <= y < select_run(
                classes,
                paint_keep,
                n,
            ).1.len() ==> select_run(classes, paint_keep, n).0[x] != select_run(classes, paint_keep, n).1[y],
        forall|y: int|
            0 <= y < select_run(classes, paint_keep, n).1.len() ==> #[trigger] select_run(
                classes,
                paint_keep,
                n,
            ).1[y] < n,
        forall|j: int|
            0 <= j < n && classes[j] == OpClass::Paint ==> (#[trigger] select_run(classes, paint_keep, n).0.contains(
                j as usize,
            ) <==> paint_keep[j]),
    decreases n,
{
    if n > 0 {
        lemma_select_run_once(classes, paint_keep, n - 1);
        lemma_select_run(classes, paint_keep, n - 1);
        lemma_select_run(classes, paint_keep, n);
        let prev = select_run(classes, paint_keep, n - 1);
        let cur = select_run(classes, paint_keep, n);
        let i = (n - 1) as usize;
        assert(!prev.0.contains(i));
        assert(!prev.1.contains(i));
        match classes[n - 1] {
            OpClass::PathBuild | OpClass::Clip => {
                assert(cur.0 == prev.0);
                assert(cur.1 == prev.1.push(i));
                assert forall|a: int, b: int| 0 <= a < b < cur.1.len() implies cur.1[a] != cur.1[b] by {
                    if b == prev.1.len() {
                        assert(prev.1[a] < i);
                    } else {
                        assert(cur.1[a] == prev.1[a]);
                        assert(cur.1[b] == prev.1[b]);
                    }
                }
                assert forall|x: int, y: int| 0 <= x < cur.0.len() && 0 <= y < cur.1.len() implies cur.0[x]
                    != cur.1[y] by {
                    if y < prev.1.len() {
                        assert(cur.1[y] == prev.1[y]);
                    }
                }
            },
            OpClass::Paint => {
                if paint_keep[n - 1] {
                    let t = prev.1.push(i);
                    assert(no_repeats(t)) by {
                        assert forall|a: int, b: int| 0 <= a < b < t.len() implies t[a] != t[b] by {
                            if b == prev.1.len() {
                                assert(prev.1[a] < i);
                            } else {
                                assert(t[a] == prev.1[a]);
                                assert(t[b] == prev.1[b]);
                            }
                        }
                    }
                    assert forall|x: int, y: int| 0 <= x < prev.0.len() && 0 <= y < t.len() implies prev.0[x]
                        != t[y] by {
                        if y < prev.1.len() {
                            assert(t[y] == prev.1[y]);
                        } else {
                            assert(prev.0[x] < n - 1);
                        }
                    }
                    lemma_no_repeats_concat(prev.0, t);
                    assert(cur.0 == prev.0 + t);
                    assert forall|j: int| 0 <= j < n && classes[j] == OpClass::Paint implies (
                    #[trigger] cur.0.contains(j as usize) <==> paint_keep[j]) by {
                        if j < n - 1 {
                            assert(prev.0.contains(j as usize) <==> paint_keep[j]);
                            if cur.0.contains(j as usize) {
                                let w = choose|w: int| 0 <= w < cur.0.len() && cur.0[w] == j as usize;
                                if w >= prev.0.len() {
                                    let y = w - prev.0.len();
                                    if y < prev.1.len() {
                                        assert(t[y] == prev.1[y]);
                                    }
                                } else {
                                    assert(prev.0.contains(j as usize));
                                }
                            }
                            if paint_keep[j] {
                                let w = choose|w: int| 0 <= w < prev.0.len() && prev.0[w] == j as usize;
                                assert(cur.0[w] == j as usize);
                            }
                        } else {
                            assert(cur.0[cur.0.len() - 1] == i);
                        }
                    }
                } else {
                    assert forall|j: int| 0 <= j < n && classes[j] == OpClass::Paint implies (
                    #[trigger] cur.0.contains(j as usize) <==> paint_keep[j]) by {
                        if j == n - 1 {
                            assert(!prev.0.contains(i));
                        }
                    }
                }
            },
            OpClass::EndPath => {},
            _ => {
                assert(cur.0 == prev.0.push(i));
                assert forall|a: int, b: int| 0 <= a < b < cur.0.len() implies cur.0[a] != cur.0[b] by {
                    if b == prev.0.len() {
                        assert(prev.0[a] < i);
                    } else {
                        assert(cur.0[a] == prev.0[a]);
                        assert(cur.0[b] == prev.0[b]);
                    }
                }
                assert forall|x: int, y: int| 0 <= x < cur.0.len() && 0 <= y < cur.1.len() implies cur.0[x]
                    != cur.1[y] by {
                    if x < prev.0.len() {
                        assert(cur.0[x] == prev.0[x]);
                    }
                }
                assert forall|j: int| 0 <= j < n && classes[j] == OpClass::Paint implies (
                #[trigger] cur.0.contains(j as usize) <==> paint_keep[j]) by {
                    assert(prev.0.contains(j as usize) <==> paint_keep[j]);
                    if cur.0.contains(j as usize) {
                        let w = choose|w: int| 0 <= w < cur.0.len() && cur.0[w] == j as usize;
                        if w < prev.0.len() {
                            assert(prev.0[w] == cur.0[w]);
                        }
                    }
                    if prev.0.contains(j as usize) {
                        let w = choose|w: int| 0 <= w < prev.0.len() && prev.0[w] == j as usize;
                        assert(cur.0[w] == j as usize);
                    }
                }
            },
        }
    }
}

/// The operator-by-operator filter outputs each operator at most once (a
/// painted path's held construction operators are released with its paint
/// and never again), and a painting operator is output exactly when its
/// painting is kept.
pub proof fn lemma_selected_once(classes: Seq<OpClass>, paint_keep: Seq<bool>)
    requires
        paint_keep.len() == classes.len(),
        classes.len() <= usize::MAX,
    ensures
        forall|a: int, b: int|
            0 <= a < b < selected(classes, paint_keep).len() ==> selected(classes, paint_keep)[a]
                != selected(classes, paint_keep)[b],
        forall|i: int|
            0 <= i < classes.len() && classes[i] == OpClass::Paint ==> (#[trigger] selected(
                classes,
                paint_keep,
            ).contains(i as usize) <==> paint_keep[i]),
{
    lemma_select_run_once(classes, paint_keep, classes.len() as int);
}

} // verus!
