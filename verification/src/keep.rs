//! Deciding which components of a segmented content stream a crop keeps.
//!
//! The geometric evidence for each component (whether its rendered or
//! parsed extent meets the crop box, whether its transform rotates, ...)
//! is measured outside and handed in as booleans; what is decided from it,
//! and which operators survive, is decided here.

use vstd::prelude::*;
use crate::ops::OpClass;
use crate::segment::{
    Component, ComponentKind, comps_view, flat, goes_to_state, in_state_comp,
    lemma_state_operators_in_state_components, seg_run, segments, OpFacts,
};

verus! {

/// What was measured of one component.
#[derive(Clone, Copy, Debug, PartialEq, Eq, Structural)]
pub struct Evidence {
    /// Rendering the component alone gave an extent.
    pub used_render: bool,
    /// The padded rendered extent meets the crop box.
    pub render_overlaps: bool,
    /// The transform in effect rotates or shears.
    pub rotated: bool,
    /// An extent was computed from the operators themselves.
    pub parsed_present: bool,
    /// The padded parsed extent meets the crop box.
    pub parsed_overlaps: bool,
    /// The path's extent is under 10 by 10 points.
    pub small: bool,
    /// For a clipping path: its extent meets the crop box, or it has none.
    pub clip_overlaps: bool,
}

/// The verdict of the rendered extent, where there is one.
pub open spec fn render_verdict(e: Evidence) -> Option<bool> {
    if e.used_render {
        Some(e.render_overlaps)
    } else {
        None
    }
}

/// The verdict of the parsed extent for content that may be rotated: a
/// rotated component is judged by its rendering alone, or kept when it
/// could not be rendered.
pub open spec fn parsed_verdict(e: Evidence) -> Option<bool> {
    if e.rotated {
        if e.used_render {
            None
        } else {
            Some(true)
        }
    } else if e.parsed_present {
        Some(e.parsed_overlaps)
    } else {
        None
    }
}

/// The verdict of the parsed extent, rotation aside.
pub open spec fn plain_verdict(e: Evidence) -> Option<bool> {
    if e.parsed_present {
        Some(e.parsed_overlaps)
    } else {
        None
    }
}

/// A missing verdict counts as overlapping.
pub open spec fn or_true(v: Option<bool>) -> bool {
    match v {
        Some(b) => b,
        None => true,
    }
}

/// Whether a component is kept. Graphics state and form invocations always
/// are; the others unless the evidence shows them outside the crop box.
/// `force` keeps every component; `paint_only` is a path that paints
/// without building geometry.
pub open spec fn keeps(kind: ComponentKind, e: Evidence, force: bool, paint_only: bool) -> bool {
    match kind {
        ComponentKind::State => true,
        ComponentKind::Form => true,
        ComponentKind::Text => force || or_true(render_verdict(e)) || or_true(parsed_verdict(e))
            || !e.used_render,
        ComponentKind::Image => force || or_true(render_verdict(e)) || or_true(parsed_verdict(e))
            || !e.used_render,
        ComponentKind::Path { clipping } => (clipping && e.clip_overlaps) || e.small || or_true(
            render_verdict(e),
        ) || or_true(parsed_verdict(e)) || paint_only || !e.used_render || force,
        ComponentKind::Orphan => force || or_true(render_verdict(e)) || or_true(plain_verdict(e))
            || !e.used_render,
    }
}

/// Whether a component is kept.
pub fn keep_component(kind: ComponentKind, e: Evidence, force: bool, paint_only: bool) -> (r: bool)
    ensures
        r == keeps(kind, e, force, paint_only),
        !r ==> e.used_render && !e.render_overlaps && e.parsed_present && !e.parsed_overlaps,
        !r ==> !force,
        !r ==> kind != ComponentKind::Orphan ==> !e.rotated,
        kind == ComponentKind::Text || kind == ComponentKind::Image || kind == ComponentKind::Orphan ==> (!r
            <==> (!force && e.used_render && !e.render_overlaps && (kind == ComponentKind::Orphan || !e.rotated)
            && e.parsed_present && !e.parsed_overlaps)),
        kind matches ComponentKind::Path { clipping } ==> (!r <==> (!force && !paint_only && !e.small
            && !(clipping && e.clip_overlaps) && e.used_render && !e.render_overlaps && !e.rotated
            && e.parsed_present && !e.parsed_overlaps)),
        kind == ComponentKind::State || kind == ComponentKind::Form ==> r,
{
    let render = if e.used_render {
        Some(e.render_overlaps)
    } else {
        None
    };
    let parsed = if e.rotated {
        if e.used_render {
            None
        } else {
            Some(true)
        }
    } else if e.parsed_present {
        Some(e.parsed_overlaps)
    } else {
        None
    };
    let plain = if e.parsed_present {
        Some(e.parsed_overlaps)
    } else {
        None
    };
    let render_ok = match render {
        Some(b) => b,
        None => true,
    };
    let parsed_ok = match parsed {
        Some(b) => b,
        None => true,
    };
    let plain_ok = match plain {
        Some(b) => b,
        None => true,
    };
    match kind {
        ComponentKind::State => true,
        ComponentKind::Form => true,
        ComponentKind::Text => force || render_ok || parsed_ok || !e.used_render,
        ComponentKind::Image => force || render_ok || parsed_ok || !e.used_render,
        ComponentKind::Path { clipping } => (clipping && e.clip_overlaps) || e.small || render_ok
            || parsed_ok || paint_only || !e.used_render || force,
        ComponentKind::Orphan => force || render_ok || plain_ok || !e.used_render,
    }
}

/// Whether an operator of class `c` in a dropped component of kind `kind`
/// is kept anyway: colour and line style, and for text the font too, since
/// later content depends on them.
pub open spec fn survives_drop(kind: ComponentKind, c: OpClass) -> bool {
    c == OpClass::Style || (kind == ComponentKind::Text && c == OpClass::SetFont)
}

/// Every position in `ops` is below `n`.
pub open spec fn positions_below(ops: Seq<usize>, n: nat) -> bool {
    forall|j: int| 0 <= j < ops.len() ==> (#[trigger] ops[j]) < n
}

/// Every position in every component is below `n`.
pub open spec fn all_below(comps: Seq<(ComponentKind, Seq<usize>)>, n: nat) -> bool {
    forall|k: int| 0 <= k < comps.len() ==> positions_below(#[trigger] comps[k].1, n)
}

/// Some operator of `ops` paints or ends a path.
pub open spec fn has_paint(ops: Seq<usize>, classes: Seq<OpClass>) -> bool {
    exists|j: int|
        0 <= j < ops.len() && (classes[ops[j] as int] == OpClass::Paint || classes[#[trigger] ops[j] as int]
            == OpClass::EndPath)
}

/// Some operator of `ops` builds path geometry.
pub open spec fn has_geometry(ops: Seq<usize>, classes: Seq<OpClass>) -> bool {
    exists|j: int| 0 <= j < ops.len() && classes[#[trigger] ops[j] as int] == OpClass::PathBuild
}

/// A path that paints but builds no geometry of its own.
pub open spec fn paint_only(ops: Seq<usize>, classes: Seq<OpClass>) -> bool {
    has_paint(ops, classes) && !has_geometry(ops, classes)
}

/// The operators of a dropped component that survive, in order.
pub open spec fn survivors(kind: ComponentKind, ops: Seq<usize>, classes: Seq<OpClass>) -> Seq<usize>
    decreases ops.len(),
{
    if ops.len() == 0 {
        seq![]
    } else {
        let head = survivors(kind, ops.drop_last(), classes);
        if survives_drop(kind, classes[ops.last() as int]) {
            head.push(ops.last())
        } else {
            head
        }
    }
}

/// The operators that one component contributes to the output.
pub open spec fn component_output(
    c: (ComponentKind, Seq<usize>),
    e: Evidence,
    force: bool,
    classes: Seq<OpClass>,
) -> Seq<usize> {
    if keeps(c.0, e, force, paint_only(c.1, classes)) {
        c.1
    } else {
        survivors(c.0, c.1, classes)
    }
}

/// The output of the first `n` components, in order.
pub open spec fn plan_output(
    comps: Seq<(ComponentKind, Seq<usize>)>,
    ev: Seq<Evidence>,
    force: bool,
    classes: Seq<OpClass>,
    n: int,
) -> Seq<usize>
    decreases n,
{
    if n <= 0 {
        seq![]
    } else {
        plan_output(comps, ev, force, classes, n - 1) + component_output(
            comps[n - 1],
            ev[n - 1],
            force,
            classes,
        )
    }
}

/// Whether a path without painting merges with the component after it:
/// that one is a painting path with the same clipping.
pub open spec fn merges(
    a: (ComponentKind, Seq<usize>),
    b: (ComponentKind, Seq<usize>),
    classes: Seq<OpClass>,
) -> bool {
    &&& a.0 is Path
    &&& !has_paint(a.1, classes)
    &&& b.0 is Path
    &&& has_paint(b.1, classes)
    &&& a.0 == b.0
}

/// The components after merging each path that does not paint with a
/// following painting path of the same clipping.
pub open spec fn grouped(comps: Seq<(ComponentKind, Seq<usize>)>, classes: Seq<OpClass>) -> Seq<
    (ComponentKind, Seq<usize>),
>
    decreases comps.len(),
{
    if comps.len() == 0 {
        seq![]
    } else if comps.len() >= 2 && merges(comps[0], comps[1], classes) {
        seq![(comps[0].0, comps[0].1 + comps[1].1)] + grouped(comps.skip(2), classes)
    } else {
        seq![comps[0]] + grouped(comps.skip(1), classes)
    }
}

/// Whether some operator of `ops` paints or ends a path.
pub fn ops_have_paint(ops: &[usize], classes: &[OpClass]) -> (r: bool)
    requires
        positions_below(ops@, classes.len() as nat),
    ensures
        r == has_paint(ops@, classes@),
{
    let mut j: usize = 0;
    while j < ops.len()
        invariant
            j <= ops.len(),
            positions_below(ops@, classes.len() as nat),
            forall|k: int|
                0 <= k < j ==> !(classes@[ops@[k] as int] == OpClass::Paint || classes@[#[trigger] ops@[k] as int]
                    == OpClass::EndPath),
        decreases ops.len() - j,
    {
        let c = classes[ops[j]];
        if c == OpClass::Paint || c == OpClass::EndPath {
            assert(classes@[ops@[j as int] as int] == c);
            return true;
        }
        j = j + 1;
    }
    false
}

/// Whether some operator of `ops` builds path geometry.
pub fn ops_have_geometry(ops: &[usize], classes: &[OpClass]) -> (r: bool)
    requires
        positions_below(ops@, classes.len() as nat),
    ensures
        r == has_geometry(ops@, classes@),
{
    let mut j: usize = 0;
    while j < ops.len()
        invariant
            j <= ops.len(),
            positions_below(ops@, classes.len() as nat),
            forall|k: int| 0 <= k < j ==> classes@[#[trigger] ops@[k] as int] != OpClass::PathBuild,
        decreases ops.len() - j,
    {
        if classes[ops[j]] == OpClass::PathBuild {
            return true;
        }
        j = j + 1;
    }
    false
}

fn survivors_of(kind: ComponentKind, ops: &[usize], classes: &[OpClass]) -> (r: Vec<usize>)
    requires
        positions_below(ops@, classes.len() as nat),
    ensures
        r@ == survivors(kind, ops@, classes@),
{
    let mut r: Vec<usize> = Vec::new();
    let mut j: usize = 0;
    assert(ops@.take(0) =~= Seq::<usize>::empty());
    while j < ops.len()
        invariant
            j <= ops.len(),
            positions_below(ops@, classes.len() as nat),
            r@ == survivors(kind, ops@.take(j as int), classes@),
        decreases ops.len() - j,
    {
        let ghost pre = ops@.take(j + 1);
        assert(pre.drop_last() =~= ops@.take(j as int));
        let c = classes[ops[j]];
        if c == OpClass::Style || (kind == ComponentKind::Text && c == OpClass::SetFont) {
            r.push(ops[j]);
        }
        j = j + 1;
    }
    assert(ops@.take(j as int) =~= ops@);
    r
}

fn append_positions(out: &mut Vec<usize>, ops: &[usize])
    ensures
        final(out)@ == old(out)@ + ops@,
{
    let mut j: usize = 0;
    while j < ops.len()
        invariant
            j <= ops.len(),
            out@ == old(out)@ + ops@.take(j as int),
        decreases ops.len() - j,
    {
        out.push(ops[j]);
        j = j + 1;
        assert(out@ =~= old(out)@ + ops@.take(j as int));
    }
    assert(ops@.take(j as int) =~= ops@);
}

/// Merges each path component that does not paint with a following
/// painting path of the same clipping, so that geometry and its painting
/// are judged together.
pub fn group_components(comps: &[Component], classes: &[OpClass]) -> (r: Vec<Component>)
    requires
        all_below(comps_view(comps@), classes.len() as nat),
    ensures
        comps_view(r@) == grouped(comps_view(comps@), classes@),
        all_below(comps_view(r@), classes.len() as nat),
{
    let ghost cv = comps_view(comps@);
    let mut out: Vec<Component> = Vec::new();
    let mut i: usize = 0;
    assert(cv.skip(0) =~= cv);
    while i < comps.len()
        invariant
            i <= comps.len(),
            cv == comps_view(comps@),
            cv.len() == comps.len(),
            all_below(cv, classes.len() as nat),
            all_below(comps_view(out@), classes.len() as nat),
            grouped(cv, classes@) == comps_view(out@) + grouped(cv.skip(i as int), classes@),
        decreases comps.len() - i,
    {
        let ghost rest = cv.skip(i as int);
        let ghost before = comps_view(out@);
        assert(rest[0] == cv[i as int]);
        assert(cv[i as int] == comps@[i as int]@);
        assert(positions_below(cv[i as int].1, classes.len() as nat));
        let c = &comps[i];
        let mut merged = false;
        if i + 1 < comps.len() {
            assert(rest[1] == cv[i + 1]);
            assert(cv[i + 1] == comps@[i + 1]@);
            assert(positions_below(cv[i + 1].1, classes.len() as nat));
            let d = &comps[i + 1];
            let both_paths = match (c.kind, d.kind) {
                (ComponentKind::Path { clipping: a }, ComponentKind::Path { clipping: b }) => a == b,
                _ => false,
            };
            if both_paths && !ops_have_paint(&c.ops, classes) && ops_have_paint(&d.ops, classes) {
                let mut ops: Vec<usize> = Vec::new();
                append_positions(&mut ops, &c.ops);
                append_positions(&mut ops, &d.ops);
                let ghost p = (c.kind, ops@);
                assert(merges(rest[0], rest[1], classes@));
                assert(rest.skip(2) =~= cv.skip(i + 2));
                out.push(Component { kind: c.kind, ops });
                assert(comps_view(out@) =~= before.push(p));
                assert(positions_below(p.1, classes.len() as nat));
                assert(all_below(comps_view(out@), classes.len() as nat));
                assert(comps_view(out@) + grouped(cv.skip(i + 2), classes@) =~= before + (seq![p]
                    + grouped(rest.skip(2), classes@)));
                i = i + 2;
                merged = true;
            } else {
                assert(!merges(rest[0], rest[1], classes@));
            }
        }
        if !merged {
            let mut ops: Vec<usize> = Vec::new();
            append_positions(&mut ops, &c.ops);
            let ghost p = (c.kind, ops@);
            assert(p == rest[0]);
            assert(rest.skip(1) =~= cv.skip(i + 1));
            out.push(Component { kind: c.kind, ops });
            assert(comps_view(out@) =~= before.push(p));
            assert(all_below(comps_view(out@), classes.len() as nat));
            assert(comps_view(out@) + grouped(cv.skip(i + 1), classes@) =~= before + (seq![p]
                + grouped(rest.skip(1), classes@)));
            i = i + 1;
        }
    }
    assert(cv.skip(i as int) =~= Seq::<(ComponentKind, Seq<usize>)>::empty());
    assert(comps_view(out@) + Seq::<(ComponentKind, Seq<usize>)>::empty() =~= comps_view(out@));
    out
}

/// The operator positions that a crop keeps, in output order: each
/// component whole where it is kept, else only its surviving state
/// operators.
pub fn plan_filter(comps: &[Component], evidence: &[Evidence], classes: &[OpClass], force: bool) -> (r: Vec<usize>)
    requires
        evidence.len() == comps.len(),
        all_below(comps_view(comps@), classes.len() as nat),
    ensures
        r@ == plan_output(comps_view(comps@), evidence@, force, classes@, comps.len() as int),
{
    let ghost cv = comps_view(comps@);
    let mut out: Vec<usize> = Vec::new();
    let mut i: usize = 0;
    while i < comps.len()
        invariant
            i <= comps.len(),
            evidence.len() == comps.len(),
            cv == comps_view(comps@),
            all_below(cv, classes.len() as nat),
            out@ == plan_output(cv, evidence@, force, classes@, i as int),
        decreases comps.len() - i,
    {
        let c = &comps[i];
        assert(cv[i as int] == c@);
        assert(positions_below(cv[i as int].1, classes.len() as nat));
        let po = ops_have_paint(&c.ops, classes) && !ops_have_geometry(&c.ops, classes);
        if keep_component(c.kind, evidence[i], force, po) {
            append_positions(&mut out, &c.ops);
        } else {
            let s = survivors_of(c.kind, &c.ops, classes);
            append_positions(&mut out, &s);
        }
        i = i + 1;
    }
    out
}



proof fn lemma_flat_concat(a: Seq<(ComponentKind, Seq<usize>)>, b: Seq<(ComponentKind, Seq<usize>)>)
    ensures
        flat(a + b) == flat(a) + flat(b),
    decreases b.len(),
{
    if b.len() == 0 {
        assert(a + b =~= a);
        assert(flat(a) + flat(b) =~= flat(a));
    } else {
        assert((a + b).drop_last() =~= a + b.drop_last());
        assert((a + b).last() == b.last());
        lemma_flat_concat(a, b.drop_last());
        assert(flat(a) + flat(b.drop_last()) + b.last().1 =~= flat(a) + (flat(b.drop_last())
            + b.last().1));
    }
}

proof fn lemma_flat_single(x: (ComponentKind, Seq<usize>))
    ensures
        flat(seq![x]) == x.1,
{
    let s1 = seq![x];
    assert(s1.drop_last() =~= Seq::<(ComponentKind, Seq<usize>)>::empty());
    assert(flat(s1.drop_last()) == Seq::<usize>::empty());
    assert(s1.last() == x);
    assert(flat(s1) == flat(s1.drop_last()) + s1.last().1);
    assert(Seq::<usize>::empty() + x.1 =~= x.1);
}

/// Grouping loses and adds no operator: the grouped components hold the
/// same positions in the same order.
pub proof fn lemma_grouped_keeps_operators(comps: Seq<(ComponentKind, Seq<usize>)>, classes: Seq<OpClass>)
    ensures
        flat(grouped(comps, classes)) == flat(comps),
    decreases comps.len(),
{
    if comps.len() == 0 {
    } else if comps.len() >= 2 && merges(comps[0], comps[1], classes) {
        let x = (comps[0].0, comps[0].1 + comps[1].1);
        lemma_grouped_keeps_operators(comps.skip(2), classes);
        lemma_flat_concat(seq![x], grouped(comps.skip(2), classes));
        lemma_flat_single(x);
        assert(comps =~= seq![comps[0], comps[1]] + comps.skip(2));
        lemma_flat_concat(seq![comps[0], comps[1]], comps.skip(2));
        assert(seq![comps[0], comps[1]] =~= seq![comps[0]] + seq![comps[1]]);
        lemma_flat_concat(seq![comps[0]], seq![comps[1]]);
        lemma_flat_single(comps[0]);
        lemma_flat_single(comps[1]);
        assert(comps[0].1 + comps[1].1 + flat(comps.skip(2)) =~= x.1 + flat(comps.skip(2)));
    } else {
        lemma_grouped_keeps_operators(comps.skip(1), classes);
        lemma_flat_concat(seq![comps[0]], grouped(comps.skip(1), classes));
        lemma_flat_single(comps[0]);
        assert(comps =~= seq![comps[0]] + comps.skip(1));
        lemma_flat_concat(seq![comps[0]], comps.skip(1));
    }
}

/// Where every component is kept, the crop keeps every operator of the
/// components, in order.
pub proof fn lemma_plan_keeps_all(
    comps: Seq<(ComponentKind, Seq<usize>)>,
    ev: Seq<Evidence>,
    force: bool,
    classes: Seq<OpClass>,
    n: int,
)
    requires
        0 <= n <= comps.len(),
        n <= ev.len(),
        forall|k: int|
            0 <= k < n ==> keeps(
                (#[trigger] comps[k]).0,
                ev[k],
                force,
                paint_only(comps[k].1, classes),
            ),
    ensures
        plan_output(comps, ev, force, classes, n) == flat(comps.take(n)),
    decreases n,
{
    if n > 0 {
        lemma_plan_keeps_all(comps, ev, force, classes, n - 1);
        assert(comps.take(n).drop_last() =~= comps.take(n - 1));
        assert(comps.take(n).last() == comps[n - 1]);
    } else {
        assert(comps.take(0) =~= Seq::<(ComponentKind, Seq<usize>)>::empty());
    }
}

/// When a crop drops a component, in terms of the evidence: graphics state
/// and form invocations are never dropped; text and images are dropped
/// exactly when not forced, rendered with an extent that misses the crop
/// box, and unrotated with a parsed extent that misses it too; orphan text
/// likewise, rotation aside; a path is dropped under the same conditions as
/// text, unless it paints without geometry, is small, or is a clipping path
/// whose extent meets the box.
pub proof fn lemma_drop_rule(kind: ComponentKind, e: Evidence, force: bool, po: bool)
    ensures
        kind == ComponentKind::State ==> keeps(kind, e, force, po),
        kind == ComponentKind::Form ==> keeps(kind, e, force, po),
        kind == ComponentKind::Text || kind == ComponentKind::Image ==> (!keeps(kind, e, force, po) <==> (!force
            && e.used_render && !e.render_overlaps && !e.rotated && e.parsed_present && !e.parsed_overlaps)),
        kind == ComponentKind::Orphan ==> (!keeps(kind, e, force, po) <==> (!force && e.used_render
            && !e.render_overlaps && e.parsed_present && !e.parsed_overlaps)),
        kind matches ComponentKind::Path { clipping } ==> (!keeps(kind, e, force, po) <==> (!force && !po
            && !e.small && !(clipping && e.clip_overlaps) && e.used_render && !e.render_overlaps && !e.rotated
            && e.parsed_present && !e.parsed_overlaps)),
{
}

/// With `force`, every component is kept.
pub proof fn lemma_force_keeps(kind: ComponentKind, e: Evidence, po: bool)
    ensures
        keeps(kind, e, true, po),
{
}

/// With `force` (as for the content of form XObjects), a crop drops
/// nothing: it keeps every operator of the components, in order.
pub proof fn lemma_force_keeps_everything(
    comps: Seq<(ComponentKind, Seq<usize>)>,
    ev: Seq<Evidence>,
    classes: Seq<OpClass>,
)
    requires
        ev.len() == comps.len(),
    ensures
        plan_output(comps, ev, true, classes, comps.len() as int) == flat(comps),
{
    lemma_plan_keeps_all(comps, ev, true, classes, comps.len() as int);
    assert(comps.take(comps.len() as int) =~= comps);
}


proof fn lemma_grouped_keeps_state(comps: Seq<(ComponentKind, Seq<usize>)>, classes: Seq<OpClass>, x: usize)
    requires
        in_state_comp(comps, x),
    ensures
        in_state_comp(grouped(comps, classes), x),
    decreases comps.len(),
{
    let k = choose|k: int| 0 <= k < comps.len() && (#[trigger] comps[k]).0 == ComponentKind::State && comps[k].1.contains(x);
    let g = grouped(comps, classes);
    if k == 0 {
        assert(g[0] == comps[0]) by {
            assert(!merges(comps[0], comps[1], classes));
        }
    } else if comps.len() >= 2 && merges(comps[0], comps[1], classes) {
        let rest = comps.skip(2);
        assert(k >= 2);
        assert(rest[k - 2] == comps[k]);
        lemma_grouped_keeps_state(rest, classes, x);
        let gr = grouped(rest, classes);
        let j = choose|j: int| 0 <= j < gr.len() && (#[trigger] gr[j]).0 == ComponentKind::State && gr[j].1.contains(x);
        assert(g[j + 1] == gr[j]);
    } else {
        let rest = comps.skip(1);
        assert(rest[k - 1] == comps[k]);
        lemma_grouped_keeps_state(rest, classes, x);
        let gr = grouped(rest, classes);
        let j = choose|j: int| 0 <= j < gr.len() && (#[trigger] gr[j]).0 == ComponentKind::State && gr[j].1.contains(x);
        assert(g[j + 1] == gr[j]);
    }
}

proof fn lemma_plan_keeps_state(
    comps: Seq<(ComponentKind, Seq<usize>)>,
    ev: Seq<Evidence>,
    force: bool,
    classes: Seq<OpClass>,
    n: int,
    k: int,
    x: usize,
)
    requires
        0 <= k < n,
        comps[k].0 == ComponentKind::State,
        comps[k].1.contains(x),
    ensures
        plan_output(comps, ev, force, classes, n).contains(x),
    decreases n,
{
    let prev = plan_output(comps, ev, force, classes, n - 1);
    let last = component_output(comps[n - 1], ev[n - 1], force, classes);
    if k == n - 1 {
        let w = choose|w: int| 0 <= w < comps[k].1.len() && comps[k].1[w] == x;
        assert((prev + last)[prev.len() + w] == x);
    } else {
        lemma_plan_keeps_state(comps, ev, force, classes, n - 1, k, x);
        let w = choose|w: int| 0 <= w < prev.len() && prev[w] == x;
        assert((prev + last)[w] == x);
    }
}

/// A crop never removes graphics state: an operator that saves, restores
/// or changes graphics or text state, marks content or is unknown, or
/// shows text whose extent could not be measured (no usable font), read
/// outside a text block, is in the output whatever the evidence and the
/// crop box.
pub proof fn lemma_crop_keeps_state_operators(
    facts: Seq<OpFacts>,
    classes: Seq<OpClass>,
    ev: Seq<Evidence>,
    force: bool,
    i: int,
)
    requires
        facts.len() < usize::MAX,
        0 <= i < facts.len(),
        !seg_run(facts.take(i)).in_text,
        goes_to_state(facts[i]),
    ensures
        plan_output(
            grouped(segments(facts), classes),
            ev,
            force,
            classes,
            grouped(segments(facts), classes).len() as int,
        ).contains(i as usize),
{
    lemma_state_operators_in_state_components(facts, i);
    let g = grouped(segments(facts), classes);
    lemma_grouped_keeps_state(segments(facts), classes, i as usize);
    let k = choose|k: int| 0 <= k < g.len() && (#[trigger] g[k]).0 == ComponentKind::State && g[k].1.contains(i as usize);
    lemma_plan_keeps_state(g, ev, force, classes, g.len() as int, k, i as usize);
}

} // verus!
