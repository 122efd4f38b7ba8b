//! Segmenting a content stream into components: text blocks, painted
//! paths, image and form invocations, text shown outside a text block, and
//! runs of graphics-state operators. Operators are identified by their
//! position in the stream.

use vstd::prelude::*;
use crate::codemap::bytes_equal;
use crate::ops::OpClass;

verus! {

/// What a `Do` operator invokes, as far as the page resources tell.
#[derive(Clone, Copy, Debug, PartialEq, Eq, Structural)]
pub enum DoTarget {
    /// The operand is not a name.
    NotNamed,
    /// There are no resources to look the name up in.
    NoResources,
    /// An image XObject.
    Image,
    /// A form XObject.
    Form,
    /// A name that resolves to neither.
    Unknown,
}

/// `Image` and `Form` as bytes.
pub open spec fn image_name() -> Seq<u8> {
    seq![73u8, 109, 97, 103, 101]
}

pub open spec fn form_name() -> Seq<u8> {
    seq![70u8, 111, 114, 109]
}

/// What an XObject with the given `Subtype` name is.
pub open spec fn xobject_kind_spec(subtype: Option<Seq<u8>>) -> DoTarget {
    match subtype {
        Some(n) => if n == image_name() {
            DoTarget::Image
        } else if n == form_name() {
            DoTarget::Form
        } else {
            DoTarget::Unknown
        },
        None => DoTarget::Unknown,
    }
}

/// What an XObject is, from its `Subtype` name.
pub fn xobject_kind(subtype: Option<&[u8]>) -> (t: DoTarget)
    ensures
        subtype matches Some(n) ==> t == xobject_kind_spec(Some(n@)),
        subtype is None ==> t == xobject_kind_spec(None),
{
    match subtype {
        Some(n) => {
            let img: [u8; 5] = [73u8, 109, 97, 103, 101];
            let frm: [u8; 4] = [70u8, 111, 114, 109];
            assert(img@ =~= image_name());
            assert(frm@ =~= form_name());
            if bytes_equal(n, &img) {
                DoTarget::Image
            } else if bytes_equal(n, &frm) {
                DoTarget::Form
            } else {
                DoTarget::Unknown
            }
        },
        None => DoTarget::Unknown,
    }
}

/// What segmenting needs to know of one operator.
#[derive(Clone, Copy, Debug, PartialEq, Eq, Structural)]
pub struct OpFacts {
    pub class: OpClass,
    /// For `Do`: what it invokes.
    pub target: DoTarget,
    /// Whether the operator has operands.
    pub has_operands: bool,
    /// For text shown outside a text block: whether its extent could be
    /// measured.
    pub measured: bool,
}

/// The kind of a component.
#[derive(Clone, Copy, Debug, PartialEq, Eq, Structural)]
pub enum ComponentKind {
    /// A path with its painting (or clipping) operator.
    Path { clipping: bool },
    /// An image XObject invocation.
    Image,
    /// A form XObject invocation (or one whose kind is unknown).
    Form,
    /// A `BT ... ET` text block.
    Text,
    /// A text-showing operator outside a text block.
    Orphan,
    /// Graphics-state and other operators that are always kept.
    State,
}

/// A component: its kind and the positions of its operators.
pub struct Component {
    pub kind: ComponentKind,
    pub ops: Vec<usize>,
}

impl View for Component {
    type V = (ComponentKind, Seq<usize>);

    open spec fn view(&self) -> (ComponentKind, Seq<usize>) {
        (self.kind, self.ops@)
    }
}

/// The state of segmentation after a prefix of the stream.
#[verifier::ext_equal]
pub ghost struct SegModel {
    pub in_text: bool,
    pub text: Seq<usize>,
    pub path: Seq<usize>,
    pub path_clip: bool,
    pub gfx: Seq<usize>,
    pub comps: Seq<(ComponentKind, Seq<usize>)>,
    pub next: usize,
}

pub open spec fn seg_init() -> SegModel {
    SegModel {
        in_text: false,
        text: seq![],
        path: seq![],
        path_clip: false,
        gfx: seq![],
        comps: seq![],
        next: 0,
    }
}

/// Pending graphics-state operators become a component of their own.
pub open spec fn flush(m: SegModel) -> SegModel {
    if m.gfx.len() > 0 {
        SegModel { comps: m.comps.push((ComponentKind::State, m.gfx)), gfx: seq![], ..m }
    } else {
        m
    }
}

/// The state after the operator at position `m.next`, with facts `f`.
pub open spec fn seg_step(m: SegModel, f: OpFacts) -> SegModel {
    let i = m.next;
    let b = SegModel { next: (m.next + 1) as usize, ..m };
    match f.class {
        OpClass::BeginText => {
            let c = flush(b);
            SegModel { in_text: true, text: seq![i], ..c }
        },
        OpClass::EndText => {
            let c = flush(b);
            SegModel {
                comps: c.comps.push((ComponentKind::Text, c.text.push(i))),
                text: seq![],
                in_text: false,
                ..c
            }
        },
        _ => if b.in_text {
            SegModel { text: b.text.push(i), ..b }
        } else {
            match f.class {
                OpClass::PathBuild => {
                    let c = flush(b);
                    SegModel { path: c.path.push(i), ..c }
                },
                OpClass::Paint => {
                    let c = flush(b);
                    SegModel {
                        comps: c.comps.push((ComponentKind::Path { clipping: c.path_clip }, c.path.push(i))),
                        path: seq![],
                        path_clip: false,
                        ..c
                    }
                },
                OpClass::Clip => SegModel { path: b.path.push(i), path_clip: true, ..b },
                OpClass::EndPath => if b.path_clip {
                    let c = flush(b);
                    SegModel {
                        comps: c.comps.push((ComponentKind::Path { clipping: true }, c.path.push(i))),
                        path: seq![],
                        path_clip: false,
                        ..c
                    }
                } else {
                    SegModel { path: seq![], path_clip: false, ..b }
                },
                OpClass::XObject => {
                    let c = flush(b);
                    match f.target {
                        DoTarget::NotNamed => SegModel { gfx: c.gfx.push(i), ..c },
                        DoTarget::Image => SegModel {
                            comps: c.comps.push((ComponentKind::Image, seq![i])),
                            ..c
                        },
                        _ => SegModel { comps: c.comps.push((ComponentKind::Form, seq![i])), ..c },
                    }
                },
                OpClass::Style => if b.path.len() > 0 {
                    SegModel { path: b.path.push(i), ..b }
                } else {
                    SegModel { gfx: b.gfx.push(i), ..b }
                },
                OpClass::ShowText => if !f.has_operands {
                    b
                } else {
                    let c = flush(b);
                    let k = if f.measured {
                        ComponentKind::Orphan
                    } else {
                        ComponentKind::State
                    };
                    SegModel { comps: c.comps.push((k, seq![i])), ..c }
                },
                _ => SegModel { gfx: b.gfx.push(i), ..b },
            }
        },
    }
}

/// The state after a whole sequence of operators.
pub open spec fn seg_run(facts: Seq<OpFacts>) -> SegModel
    decreases facts.len(),
{
    if facts.len() == 0 {
        seg_init()
    } else {
        seg_step(seg_run(facts.drop_last()), facts.last())
    }
}

/// The components at the end of the stream: pending graphics-state
/// operators, then an unterminated text block; an unpainted path is
/// dropped.
pub open spec fn seg_finish(m: SegModel) -> Seq<(ComponentKind, Seq<usize>)> {
    let c = flush(m);
    if c.in_text && c.text.len() > 0 {
        c.comps.push((ComponentKind::Text, c.text))
    } else {
        c.comps
    }
}

/// The components of a whole stream.
pub open spec fn segments(facts: Seq<OpFacts>) -> Seq<(ComponentKind, Seq<usize>)> {
    seg_finish(seg_run(facts))
}

pub open spec fn comps_view(v: Seq<Component>) -> Seq<(ComponentKind, Seq<usize>)> {
    v.map_values(|c: Component| c@)
}

/// Segments a content stream operator by operator.
pub struct Segmenter {
    in_text: bool,
    text: Vec<usize>,
    path: Vec<usize>,
    path_clip: bool,
    gfx: Vec<usize>,
    comps: Vec<Component>,
    next: usize,
}

impl View for Segmenter {
    type V = SegModel;

    closed spec fn view(&self) -> SegModel {
        SegModel {
            in_text: self.in_text,
            text: self.text@,
            path: self.path@,
            path_clip: self.path_clip,
            gfx: self.gfx@,
            comps: comps_view(self.comps@),
            next: self.next,
        }
    }
}

impl Segmenter {
    /// A segmenter at the start of a stream.
    pub fn new() -> (s: Segmenter)
        ensures
            s@ == seg_init(),
    {
        let s = Segmenter {
            in_text: false,
            text: Vec::new(),
            path: Vec::new(),
            path_clip: false,
            gfx: Vec::new(),
            comps: Vec::new(),
            next: 0,
        };
        assert(s@ == seg_init()) by {
            assert(comps_view(s.comps@) =~= Seq::<(ComponentKind, Seq<usize>)>::empty());
        }
        s
    }

    /// Whether a text block is open.
    pub fn in_text_block(&self) -> (r: bool)
        ensures
            r == self@.in_text,
    {
        self.in_text
    }

    /// The components found so far.
    pub fn components(&self) -> (r: &Vec<Component>)
        ensures
            comps_view(r@) == self@.comps,
    {
        &self.comps
    }

    /// Position of the next operator.
    pub fn position(&self) -> (r: usize)
        ensures
            r == self@.next,
    {
        self.next
    }

    fn push_comp(&mut self, kind: ComponentKind, ops: Vec<usize>)
        ensures
            final(self)@ == (SegModel { comps: old(self)@.comps.push((kind, ops@)), ..old(self)@ }),
    {
        let ghost before = comps_view(self.comps@);
        self.comps.push(Component { kind, ops });
        assert(comps_view(self.comps@) =~= before.push((kind, ops@)));
    }

    fn flush_gfx(&mut self)
        ensures
            final(self)@ == flush(old(self)@),
    {
        if self.gfx.len() > 0 {
            let mut ops: Vec<usize> = Vec::new();
            std::mem::swap(&mut ops, &mut self.gfx);
            self.push_comp(ComponentKind::State, ops);
        }
    }

    /// Takes the operator at the current position.
    pub fn step(&mut self, f: OpFacts)
        requires
            old(self)@.next < usize::MAX,
        ensures
            final(self)@ == seg_step(old(self)@, f),
    {
        let ghost m = self@;
        let i = self.next;
        self.next = self.next + 1;
        let ghost b = self@;
        assert(b == (SegModel { next: (m.next + 1) as usize, ..m }));
        match f.class {
            OpClass::BeginText => {
                self.flush_gfx();
                self.in_text = true;
                self.text = vec![i];
                assert(self@ =~= seg_step(m, f));
            },
            OpClass::EndText => {
                self.flush_gfx();
                self.text.push(i);
                let mut ops: Vec<usize> = Vec::new();
                std::mem::swap(&mut ops, &mut self.text);
                self.push_comp(ComponentKind::Text, ops);
                self.in_text = false;
                assert(self@ =~= seg_step(m, f));
            },
            _ => {
                if self.in_text {
                    self.text.push(i);
                    assert(self@ =~= seg_step(m, f));
                } else {
                    self.step_outside_text(i, f);
                    assert(self@ =~= seg_step(m, f));
                }
            },
        }
    }

    fn step_outside_text(&mut self, i: usize, f: OpFacts)
        requires
            !old(self)@.in_text,
            f.class != OpClass::BeginText,
            f.class != OpClass::EndText,
            old(self)@.next == i + 1,
        ensures
            ({
                let b = old(self)@;
                let m = SegModel { next: i, ..b };
                final(self)@ == seg_step(m, f)
            }),
    {
        let ghost b = self@;
        let ghost m = SegModel { next: i, ..b };
        assert(b == (SegModel { next: (m.next + 1) as usize, ..m }));
        match f.class {
            OpClass::PathBuild => {
                self.flush_gfx();
                self.path.push(i);
                assert(self@ =~= seg_step(m, f));
            },
            OpClass::Paint => {
                self.flush_gfx();
                self.path.push(i);
                let mut ops: Vec<usize> = Vec::new();
                std::mem::swap(&mut ops, &mut self.path);
                let clipping = self.path_clip;
                self.push_comp(ComponentKind::Path { clipping }, ops);
                self.path_clip = false;
                assert(self@ =~= seg_step(m, f));
            },
            OpClass::Clip => {
                self.path.push(i);
                self.path_clip = true;
                assert(self@ =~= seg_step(m, f));
            },
            OpClass::EndPath => {
                if self.path_clip {
                    self.flush_gfx();
                    self.path.push(i);
                    let mut ops: Vec<usize> = Vec::new();
                    std::mem::swap(&mut ops, &mut self.path);
                    self.push_comp(ComponentKind::Path { clipping: true }, ops);
                } else {
                    self.path = Vec::new();
                }
                self.path_clip = false;
                assert(self@ =~= seg_step(m, f));
            },
            OpClass::XObject => {
                self.flush_gfx();
                match f.target {
                    DoTarget::NotNamed => {
                        self.gfx.push(i);
                    },
                    DoTarget::Image => {
                        let v = vec![i];
                        assert(v@ =~= seq![i]);
                        self.push_comp(ComponentKind::Image, v);
                    },
                    _ => {
                        let v = vec![i];
                        assert(v@ =~= seq![i]);
                        self.push_comp(ComponentKind::Form, v);
                    },
                }
                assert(self@ =~= seg_step(m, f));
            },
            OpClass::Style => {
                if self.path.len() > 0 {
                    self.path.push(i);
                } else {
                    self.gfx.push(i);
                }
                assert(self@ =~= seg_step(m, f));
            },
            OpClass::ShowText => {
                if f.has_operands {
                    self.flush_gfx();
                    let k = if f.measured {
                        ComponentKind::Orphan
                    } else {
                        ComponentKind::State
                    };
                    let v = vec![i];
                    assert(v@ =~= seq![i]);
                    self.push_comp(k, v);
                }
                assert(self@ =~= seg_step(m, f));
            },
            _ => {
                self.gfx.push(i);
                assert(self@ =~= seg_step(m, f));
            },
        }
    }

    /// Ends the stream and returns the components.
    pub fn finish(self) -> (r: Vec<Component>)
        ensures
            comps_view(r@) == seg_finish(self@),
    {
        let mut s = self;
        s.flush_gfx();
        if s.in_text && s.text.len() > 0 {
            let ops = s.text;
            let ghost before = comps_view(s.comps@);
            let mut comps = s.comps;
            comps.push(Component { kind: ComponentKind::Text, ops });
            assert(comps_view(comps@) =~= before.push((ComponentKind::Text, ops@)));
            comps
        } else {
            s.comps
        }
    }
}

/// Segments a whole content stream, given the facts of each operator.
pub fn segment(facts: &[OpFacts]) -> (r: Vec<Component>)
    requires
        facts.len() < usize::MAX,
    ensures
        comps_view(r@) == segments(facts@),
        forall|x: usize| #[trigger] comps_occ(comps_view(r@), x) <= 1,
        comps_ok(comps_view(r@), facts.len()),
        forall|k: int|
            0 <= k < r@.len() && (#[trigger] r@[k]).kind is Path ==> (r@[k].kind->clipping <==> exists|j: int|
                0 <= j < r@[k].ops@.len() && facts@[r@[k].ops@[j] as int].class == OpClass::Clip),
        paths_uninterrupted(facts@) ==> increasing(flat(comps_view(r@))),
{
    proof {
        lemma_segments_sound(facts@);
    }
    let mut s = Segmenter::new();
    let mut i: usize = 0;
    assert(facts@.take(0) =~= Seq::<OpFacts>::empty());
    while i < facts.len()
        invariant
            i <= facts.len() < usize::MAX,
            s@ == seg_run(facts@.take(i as int)),
            s@.next == i,
        decreases facts.len() - i,
    {
        let ghost pre = facts@.take(i + 1);
        assert(pre.drop_last() =~= facts@.take(i as int));
        s.step(facts[i]);
        i = i + 1;
    }
    assert(facts@.take(i as int) =~= facts@);
    let r = s.finish();
    proof {
        lemma_clipping_exact(facts@);
        if paths_uninterrupted(facts@) {
            lemma_segments_in_order(facts@);
        }
        assert forall|k: int| 0 <= k < r@.len() && (#[trigger] r@[k]).kind is Path implies (
        r@[k].kind->clipping <==> exists|j: int|
            0 <= j < r@[k].ops@.len() && facts@[r@[k].ops@[j] as int].class == OpClass::Clip) by {
            assert(comps_view(r@)[k] == r@[k]@);
        }
    }
    r
}


/// Number of occurrences of `x` in `s`.
pub open spec fn occ(s: Seq<usize>, x: usize) -> nat
    decreases s.len(),
{
    if s.len() == 0 {
        0
    } else {
        occ(s.drop_last(), x) + if s.last() == x {
            1nat
        } else {
            0nat
        }
    }
}

/// Number of occurrences of `x` over all components.
pub open spec fn comps_occ(c: Seq<(ComponentKind, Seq<usize>)>, x: usize) -> nat
    decreases c.len(),
{
    if c.len() == 0 {
        0
    } else {
        comps_occ(c.drop_last(), x) + occ(c.last().1, x)
    }
}

/// Number of occurrences of `x` in the components and the pending buffers.
pub open spec fn model_occ(m: SegModel, x: usize) -> nat {
    comps_occ(m.comps, x) + occ(m.text, x) + occ(m.path, x) + occ(m.gfx, x)
}

/// `s` is strictly increasing.
pub open spec fn increasing(s: Seq<usize>) -> bool {
    forall|a: int, b: int| 0 <= a < b < s.len() ==> s[a] < s[b]
}

/// Every element of `s` is below `n`.
pub open spec fn below(s: Seq<usize>, n: usize) -> bool {
    forall|a: int| 0 <= a < s.len() ==> s[a] < n
}

/// Every component is non-empty, in stream order, and below `n`.
pub open spec fn comps_ok(c: Seq<(ComponentKind, Seq<usize>)>, n: usize) -> bool {
    forall|k: int|
        0 <= k < c.len() ==> {
            &&& (#[trigger] c[k]).1.len() > 0
            &&& increasing(c[k].1)
            &&& below(c[k].1, n)
        }
}

/// The segmentation state is sound: no position occurs twice, every
/// position is one already read, components are non-empty and each list of
/// positions is in stream order.
pub open spec fn seg_wf(m: SegModel) -> bool {
    &&& forall|x: usize| #[trigger] model_occ(m, x) <= 1
    &&& comps_ok(m.comps, m.next)
    &&& increasing(m.text) && below(m.text, m.next)
    &&& increasing(m.path) && below(m.path, m.next)
    &&& increasing(m.gfx) && below(m.gfx, m.next)
}

proof fn lemma_occ_push(s: Seq<usize>, a: usize, x: usize)
    ensures
        occ(s.push(a), x) == occ(s, x) + if a == x {
            1nat
        } else {
            0nat
        },
{
    assert(s.push(a).drop_last() =~= s);
}

proof fn lemma_occ_below(s: Seq<usize>, n: usize, x: usize)
    requires
        below(s, n),
        x >= n,
    ensures
        occ(s, x) == 0,
    decreases s.len(),
{
    if s.len() > 0 {
        lemma_occ_below(s.drop_last(), n, x);
    }
}

proof fn lemma_occ_single(i: usize, x: usize)
    ensures
        occ(seq![i], x) == if i == x {
            1nat
        } else {
            0nat
        },
{
    lemma_occ_push(Seq::<usize>::empty(), i, x);
    assert(Seq::<usize>::empty().push(i) =~= seq![i]);
}

proof fn lemma_comps_occ_push(c: Seq<(ComponentKind, Seq<usize>)>, p: (ComponentKind, Seq<usize>), x: usize)
    ensures
        comps_occ(c.push(p), x) == comps_occ(c, x) + occ(p.1, x),
{
    assert(c.push(p).drop_last() =~= c);
}

proof fn lemma_comps_occ_below(c: Seq<(ComponentKind, Seq<usize>)>, n: usize, x: usize)
    requires
        comps_ok(c, n),
        x >= n,
    ensures
        comps_occ(c, x) == 0,
    decreases c.len(),
{
    if c.len() > 0 {
        assert(comps_ok(c.drop_last(), n)) by {
            assert forall|k: int| 0 <= k < c.drop_last().len() implies {
                &&& (#[trigger] c.drop_last()[k]).1.len() > 0
                &&& increasing(c.drop_last()[k].1)
                &&& below(c.drop_last()[k].1, n)
            } by {
                assert(c.drop_last()[k] == c[k]);
            }
        }
        lemma_comps_occ_below(c.drop_last(), n, x);
        assert(c[c.len() - 1] == c.last());
        lemma_occ_below(c.last().1, n, x);
    }
}

proof fn lemma_push_increasing(s: Seq<usize>, n: usize)
    requires
        increasing(s),
        below(s, n),
        n < usize::MAX,
    ensures
        increasing(s.push(n)),
        below(s.push(n), (n + 1) as usize),
        below(s, (n + 1) as usize),
{
}

proof fn lemma_comps_ok_push(c: Seq<(ComponentKind, Seq<usize>)>, p: (ComponentKind, Seq<usize>), n: usize)
    requires
        comps_ok(c, n),
        p.1.len() > 0,
        increasing(p.1),
        below(p.1, n),
    ensures
        comps_ok(c.push(p), n),
{
    assert forall|k: int| 0 <= k < c.push(p).len() implies {
        &&& (#[trigger] c.push(p)[k]).1.len() > 0
        &&& increasing(c.push(p)[k].1)
        &&& below(c.push(p)[k].1, n)
    } by {
        if k < c.len() {
            assert(c.push(p)[k] == c[k]);
        }
    }
}

proof fn lemma_comps_ok_grow(c: Seq<(ComponentKind, Seq<usize>)>, n: usize, n2: usize)
    requires
        comps_ok(c, n),
        n <= n2,
    ensures
        comps_ok(c, n2),
{
    assert forall|k: int| 0 <= k < c.len() implies {
        &&& (#[trigger] c[k]).1.len() > 0
        &&& increasing(c[k].1)
        &&& below(c[k].1, n2)
    } by {
    }
}

proof fn lemma_flush(m: SegModel)
    requires
        comps_ok(m.comps, m.next),
        increasing(m.gfx),
        below(m.gfx, m.next),
    ensures
        forall|x: usize| #[trigger] model_occ(flush(m), x) == model_occ(m, x),
        comps_ok(flush(m).comps, m.next),
        flush(m).gfx.len() == 0,
        flush(m).text == m.text,
        flush(m).path == m.path,
        flush(m).path_clip == m.path_clip,
        flush(m).in_text == m.in_text,
        flush(m).next == m.next,
{
    if m.gfx.len() > 0 {
        assert forall|x: usize| #[trigger] model_occ(flush(m), x) == model_occ(m, x) by {
            lemma_comps_occ_push(m.comps, (ComponentKind::State, m.gfx), x);
        }
        lemma_comps_ok_push(m.comps, (ComponentKind::State, m.gfx), m.next);
    }
}

/// The new position, one past the last read.
pub open spec fn advanced(m: SegModel) -> SegModel {
    SegModel { next: (m.next + 1) as usize, ..m }
}

pub open spec fn one_if(c: bool) -> nat {
    if c {
        1
    } else {
        0
    }
}

proof fn lemma_wf_from(m: SegModel, r: SegModel)
    requires
        seg_wf(m),
        m.next < usize::MAX,
        r.next == m.next + 1,
        forall|x: usize| #[trigger] model_occ(r, x) <= model_occ(m, x) + one_if(x == m.next),
        comps_ok(r.comps, r.next),
        increasing(r.text) && below(r.text, r.next),
        increasing(r.path) && below(r.path, r.next),
        increasing(r.gfx) && below(r.gfx, r.next),
    ensures
        seg_wf(r),
{
    let i = m.next;
    assert(model_occ(m, i) == 0) by {
        lemma_comps_occ_below(m.comps, i, i);
        lemma_occ_below(m.text, i, i);
        lemma_occ_below(m.path, i, i);
        lemma_occ_below(m.gfx, i, i);
    }
    assert forall|x: usize| #[trigger] model_occ(r, x) <= 1 by {
        assert(model_occ(r, x) <= model_occ(m, x) + one_if(x == m.next));
    }
}

/// Facts about the state once the position has advanced.
proof fn lemma_advanced(m: SegModel)
    requires
        seg_wf(m),
        m.next < usize::MAX,
    ensures
        ({
            let b = advanced(m);
            let i = m.next;
            &&& comps_ok(b.comps, b.next)
            &&& increasing(b.text) && below(b.text, b.next)
            &&& increasing(b.path) && below(b.path, b.next)
            &&& increasing(b.gfx) && below(b.gfx, b.next)
            &&& increasing(b.text.push(i)) && below(b.text.push(i), b.next)
            &&& increasing(b.path.push(i)) && below(b.path.push(i), b.next)
            &&& increasing(b.gfx.push(i)) && below(b.gfx.push(i), b.next)
            &&& increasing(seq![i]) && below(seq![i], b.next) && seq![i].len() > 0
            &&& increasing(Seq::<usize>::empty()) && below(Seq::<usize>::empty(), b.next)
            &&& forall|x: usize| #[trigger] model_occ(b, x) == model_occ(m, x)
        }),
{
    let i = m.next;
    let n2 = (m.next + 1) as usize;
    lemma_push_increasing(m.text, i);
    lemma_push_increasing(m.path, i);
    lemma_push_increasing(m.gfx, i);
    lemma_comps_ok_grow(m.comps, i, n2);
}

proof fn lemma_case_begin(m: SegModel)
    requires
        seg_wf(m),
        m.next < usize::MAX,
    ensures
        seg_wf(SegModel { in_text: true, text: seq![m.next], ..flush(advanced(m)) }),
{
    let i = m.next;
    lemma_advanced(m);
    let b = advanced(m);
    lemma_flush(b);
    let c = flush(b);
    let r = SegModel { in_text: true, text: seq![i], ..c };
    assert forall|x: usize| #[trigger] model_occ(r, x) <= model_occ(m, x) + one_if(x == i) by {
        lemma_occ_single(i, x);
        assert(model_occ(c, x) == model_occ(b, x));
    }
    lemma_wf_from(m, r);
}

proof fn lemma_case_end(m: SegModel)
    requires
        seg_wf(m),
        m.next < usize::MAX,
    ensures
        seg_wf(
            SegModel {
                comps: flush(advanced(m)).comps.push(
                    (ComponentKind::Text, flush(advanced(m)).text.push(m.next)),
                ),
                text: seq![],
                in_text: false,
                ..flush(advanced(m))
            },
        ),
{
    let i = m.next;
    lemma_advanced(m);
    let b = advanced(m);
    lemma_flush(b);
    let c = flush(b);
    let p = (ComponentKind::Text, c.text.push(i));
    let r = SegModel { comps: c.comps.push(p), text: seq![], in_text: false, ..c };
    assert forall|x: usize| #[trigger] model_occ(r, x) <= model_occ(m, x) + one_if(x == i) by {
        lemma_occ_push(c.text, i, x);
        lemma_comps_occ_push(c.comps, p, x);
        assert(model_occ(c, x) == model_occ(b, x));
    }
    lemma_comps_ok_push(c.comps, p, b.next);
    lemma_wf_from(m, r);
}

proof fn lemma_case_push_text(m: SegModel)
    requires
        seg_wf(m),
        m.next < usize::MAX,
    ensures
        seg_wf(SegModel { text: advanced(m).text.push(m.next), ..advanced(m) }),
{
    let i = m.next;
    lemma_advanced(m);
    let b = advanced(m);
    let r = SegModel { text: b.text.push(i), ..b };
    assert forall|x: usize| #[trigger] model_occ(r, x) <= model_occ(m, x) + one_if(x == i) by {
        lemma_occ_push(b.text, i, x);
    }
    lemma_wf_from(m, r);
}

proof fn lemma_case_push_path(m: SegModel, clip: bool)
    requires
        seg_wf(m),
        m.next < usize::MAX,
    ensures
        seg_wf(SegModel { path: advanced(m).path.push(m.next), path_clip: clip, ..advanced(m) }),
        seg_wf(SegModel { path: flush(advanced(m)).path.push(m.next), ..flush(advanced(m)) }),
{
    let i = m.next;
    lemma_advanced(m);
    let b = advanced(m);
    let r = SegModel { path: b.path.push(i), path_clip: clip, ..b };
    assert forall|x: usize| #[trigger] model_occ(r, x) <= model_occ(m, x) + one_if(x == i) by {
        lemma_occ_push(b.path, i, x);
    }
    lemma_wf_from(m, r);
    lemma_flush(b);
    let c = flush(b);
    let r2 = SegModel { path: c.path.push(i), ..c };
    assert forall|x: usize| #[trigger] model_occ(r2, x) <= model_occ(m, x) + one_if(x == i) by {
        lemma_occ_push(c.path, i, x);
        assert(model_occ(c, x) == model_occ(b, x));
    }
    lemma_wf_from(m, r2);
}

proof fn lemma_case_push_gfx(m: SegModel)
    requires
        seg_wf(m),
        m.next < usize::MAX,
    ensures
        seg_wf(SegModel { gfx: advanced(m).gfx.push(m.next), ..advanced(m) }),
        seg_wf(SegModel { gfx: flush(advanced(m)).gfx.push(m.next), ..flush(advanced(m)) }),
        seg_wf(advanced(m)),
{
    let i = m.next;
    lemma_advanced(m);
    let b = advanced(m);
    let r = SegModel { gfx: b.gfx.push(i), ..b };
    assert forall|x: usize| #[trigger] model_occ(r, x) <= model_occ(m, x) + one_if(x == i) by {
        lemma_occ_push(b.gfx, i, x);
    }
    lemma_wf_from(m, r);
    lemma_flush(b);
    let c = flush(b);
    let r2 = SegModel { gfx: c.gfx.push(i), ..c };
    assert forall|x: usize| #[trigger] model_occ(r2, x) <= model_occ(m, x) + one_if(x == i) by {
        lemma_occ_push(c.gfx, i, x);
        assert(model_occ(c, x) == model_occ(b, x));
    }
    lemma_wf_from(m, r2);
    assert forall|x: usize| #[trigger] model_occ(b, x) <= model_occ(m, x) + one_if(x == i) by {
    }
    lemma_wf_from(m, b);
}

proof fn lemma_case_path_comp(m: SegModel, clip: bool)
    requires
        seg_wf(m),
        m.next < usize::MAX,
    ensures
        seg_wf(
            SegModel {
                comps: flush(advanced(m)).comps.push(
                    (ComponentKind::Path { clipping: clip }, flush(advanced(m)).path.push(m.next)),
                ),
                path: seq![],
                path_clip: false,
                ..flush(advanced(m))
            },
        ),
        seg_wf(SegModel { path: seq![], path_clip: false, ..advanced(m) }),
{
    let i = m.next;
    lemma_advanced(m);
    let b = advanced(m);
    lemma_flush(b);
    let c = flush(b);
    let p = (ComponentKind::Path { clipping: clip }, c.path.push(i));
    let r = SegModel { comps: c.comps.push(p), path: seq![], path_clip: false, ..c };
    assert forall|x: usize| #[trigger] model_occ(r, x) <= model_occ(m, x) + one_if(x == i) by {
        lemma_occ_push(c.path, i, x);
        lemma_comps_occ_push(c.comps, p, x);
        assert(model_occ(c, x) == model_occ(b, x));
    }
    lemma_comps_ok_push(c.comps, p, b.next);
    lemma_wf_from(m, r);
    let r2 = SegModel { path: seq![], path_clip: false, ..b };
    assert forall|x: usize| #[trigger] model_occ(r2, x) <= model_occ(m, x) + one_if(x == i) by {
    }
    lemma_wf_from(m, r2);
}

proof fn lemma_case_single(m: SegModel, k: ComponentKind)
    requires
        seg_wf(m),
        m.next < usize::MAX,
    ensures
        seg_wf(
            SegModel {
                comps: flush(advanced(m)).comps.push((k, seq![m.next])),
                ..flush(advanced(m))
            },
        ),
{
    let i = m.next;
    lemma_advanced(m);
    let b = advanced(m);
    lemma_flush(b);
    let c = flush(b);
    let p = (k, seq![i]);
    let r = SegModel { comps: c.comps.push(p), ..c };
    assert forall|x: usize| #[trigger] model_occ(r, x) <= model_occ(m, x) + one_if(x == i) by {
        lemma_occ_single(i, x);
        lemma_comps_occ_push(c.comps, p, x);
        assert(model_occ(c, x) == model_occ(b, x));
    }
    lemma_comps_ok_push(c.comps, p, b.next);
    lemma_wf_from(m, r);
}

/// One step keeps the segmentation state sound: the new position goes to
/// at most one place and nothing else is copied.
pub proof fn lemma_step_wf(m: SegModel, f: OpFacts)
    requires
        seg_wf(m),
        m.next < usize::MAX,
    ensures
        seg_wf(seg_step(m, f)),
        seg_step(m, f).next == m.next + 1,
{
    lemma_case_push_gfx(m);
    match f.class {
        OpClass::BeginText => lemma_case_begin(m),
        OpClass::EndText => lemma_case_end(m),
        _ => if m.in_text {
            lemma_case_push_text(m);
        } else {
            match f.class {
                OpClass::PathBuild => lemma_case_push_path(m, m.path_clip),
                OpClass::Paint => lemma_case_path_comp(m, m.path_clip),
                OpClass::Clip => lemma_case_push_path(m, true),
                OpClass::EndPath => lemma_case_path_comp(m, true),
                OpClass::XObject => {
                    lemma_case_single(m, ComponentKind::Image);
                    lemma_case_single(m, ComponentKind::Form);
                },
                OpClass::Style => lemma_case_push_path(m, m.path_clip),
                OpClass::ShowText => {
                    lemma_case_single(m, ComponentKind::Orphan);
                    lemma_case_single(m, ComponentKind::State);
                },
                _ => {},
            }
        },
    }
}

/// Segmenting any prefix of a stream leaves a sound state.
pub proof fn lemma_run_wf(facts: Seq<OpFacts>)
    requires
        facts.len() < usize::MAX,
    ensures
        seg_wf(seg_run(facts)),
        seg_run(facts).next == facts.len(),
    decreases facts.len(),
{
    if facts.len() == 0 {
        let m = seg_init();
        assert forall|x: usize| #[trigger] model_occ(m, x) <= 1 by {
        }
    } else {
        lemma_run_wf(facts.drop_last());
        lemma_step_wf(seg_run(facts.drop_last()), facts.last());
    }
}

/// Segmentation never repeats an operator and never invents one: in the
/// components of a stream of `n` operators, every position is below `n`
/// and occurs at most once, every component is non-empty, and the
/// positions within a component follow stream order.
pub proof fn lemma_segments_sound(facts: Seq<OpFacts>)
    requires
        facts.len() < usize::MAX,
    ensures
        forall|x: usize| #[trigger] comps_occ(segments(facts), x) <= 1,
        comps_ok(segments(facts), facts.len() as usize),
{
    lemma_run_wf(facts);
    let m = seg_run(facts);
    lemma_flush(m);
    let c = flush(m);
    if c.in_text && c.text.len() > 0 {
        assert forall|x: usize| #[trigger] comps_occ(segments(facts), x) <= 1 by {
            lemma_comps_occ_push(c.comps, (ComponentKind::Text, c.text), x);
            assert(model_occ(c, x) == model_occ(m, x));
        }
        lemma_comps_ok_push(c.comps, (ComponentKind::Text, c.text), m.next);
    } else {
        assert forall|x: usize| #[trigger] comps_occ(segments(facts), x) <= 1 by {
            assert(model_occ(c, x) == model_occ(m, x));
        }
    }
}


/// Occurrences of `x` among the components and pending graphics-state
/// operators: the places an operator is never taken back from.
pub open spec fn kept_occ(m: SegModel, x: usize) -> nat {
    comps_occ(m.comps, x) + occ(m.gfx, x)
}

/// Operators that, read outside a text block, always end up in a
/// component: graphics state, marked content, text state and positioning,
/// XObject invocations and unknown operators.
pub open spec fn always_placed(c: OpClass) -> bool {
    match c {
        OpClass::Save | OpClass::Restore | OpClass::Concat | OpClass::Marked | OpClass::SetFont
        | OpClass::TextParam | OpClass::TextMatrix | OpClass::TextMove | OpClass::NextLine
        | OpClass::Other | OpClass::XObject => true,
        _ => false,
    }
}

proof fn lemma_flush_kept(m: SegModel, x: usize)
    ensures
        kept_occ(flush(m), x) == kept_occ(m, x),
        flush(m).in_text == m.in_text,
{
    if m.gfx.len() > 0 {
        lemma_comps_occ_push(m.comps, (ComponentKind::State, m.gfx), x);
        assert(occ(Seq::<usize>::empty(), x) == 0);
    }
}

proof fn lemma_push_comp_kept(m: SegModel, p: (ComponentKind, Seq<usize>), x: usize)
    ensures
        kept_occ(SegModel { comps: m.comps.push(p), ..m }, x) >= kept_occ(m, x),
{
    lemma_comps_occ_push(m.comps, p, x);
}

/// No step takes an operator back out of the components or the pending
/// graphics-state operators.
pub proof fn lemma_step_keeps_placed(m: SegModel, f: OpFacts, x: usize)
    ensures
        kept_occ(seg_step(m, f), x) >= kept_occ(m, x),
{
    let i = m.next;
    let b = advanced(m);
    assert(kept_occ(b, x) == kept_occ(m, x));
    lemma_flush_kept(b, x);
    let c = flush(b);
    lemma_occ_push(b.gfx, i, x);
    lemma_occ_push(c.gfx, i, x);
    lemma_push_comp_kept(c, (ComponentKind::Text, c.text.push(i)), x);
    lemma_push_comp_kept(c, (ComponentKind::Path { clipping: c.path_clip }, c.path.push(i)), x);
    lemma_push_comp_kept(c, (ComponentKind::Path { clipping: true }, c.path.push(i)), x);
    lemma_push_comp_kept(c, (ComponentKind::Image, seq![i]), x);
    lemma_push_comp_kept(c, (ComponentKind::Form, seq![i]), x);
    lemma_push_comp_kept(c, (ComponentKind::Orphan, seq![i]), x);
    lemma_push_comp_kept(c, (ComponentKind::State, seq![i]), x);
}

/// Outside a text block, an always-placed operator is placed by its step.
proof fn lemma_step_places(m: SegModel, f: OpFacts)
    requires
        !m.in_text,
        always_placed(f.class),
    ensures
        kept_occ(seg_step(m, f), m.next) >= 1,
{
    let i = m.next;
    let b = advanced(m);
    lemma_flush_kept(b, i);
    let c = flush(b);
    lemma_occ_push(b.gfx, i, i);
    lemma_occ_push(c.gfx, i, i);
    lemma_occ_single(i, i);
    lemma_comps_occ_push(c.comps, (ComponentKind::Image, seq![i]), i);
    lemma_comps_occ_push(c.comps, (ComponentKind::Form, seq![i]), i);
}

proof fn lemma_run_prefix(facts: Seq<OpFacts>, i: int)
    requires
        0 <= i < facts.len(),
    ensures
        seg_run(facts.take(i + 1)) == seg_step(seg_run(facts.take(i)), facts[i]),
{
    assert(facts.take(i + 1).drop_last() =~= facts.take(i));
    assert(facts.take(i + 1).last() == facts[i]);
}

proof fn lemma_run_keeps_placed(facts: Seq<OpFacts>, i: int, j: int, x: usize)
    requires
        0 <= i <= j <= facts.len(),
    ensures
        kept_occ(seg_run(facts.take(j)), x) >= kept_occ(seg_run(facts.take(i)), x),
    decreases j - i,
{
    if i < j {
        lemma_run_keeps_placed(facts, i, j - 1, x);
        lemma_run_prefix(facts, j - 1);
        lemma_step_keeps_placed(seg_run(facts.take(j - 1)), facts[j - 1], x);
    }
}

/// Segmentation never loses graphics state: an operator that changes
/// graphics or text state, marks content, invokes an XObject or is unknown,
/// read outside a text block, is in exactly one component.
pub proof fn lemma_state_operators_kept(facts: Seq<OpFacts>, i: int)
    requires
        facts.len() < usize::MAX,
        0 <= i < facts.len(),
        !seg_run(facts.take(i)).in_text,
        always_placed(facts[i].class),
    ensures
        comps_occ(segments(facts), i as usize) == 1,
{
    let n = facts.len() as int;
    lemma_run_wf(facts.take(i));
    assert(seg_run(facts.take(i)).next == i);
    lemma_run_prefix(facts, i);
    lemma_step_places(seg_run(facts.take(i)), facts[i]);
    lemma_run_keeps_placed(facts, i + 1, n, i as usize);
    assert(facts.take(n) =~= facts);
    let m = seg_run(facts);
    lemma_flush_kept(m, i as usize);
    let c = flush(m);
    lemma_run_wf(facts);
    lemma_flush(m);
    assert(occ(c.gfx, i as usize) == 0);
    if c.in_text && c.text.len() > 0 {
        lemma_comps_occ_push(c.comps, (ComponentKind::Text, c.text), i as usize);
    }
    lemma_segments_sound(facts);
}


/// Operators that, read outside a text block, always end up in a
/// graphics-state component: saving, restoring and changing graphics
/// state, marked content, text state and positioning, unknown operators,
/// and text shown with an operand whose extent could not be measured.
pub open spec fn goes_to_state(f: OpFacts) -> bool {
    match f.class {
        OpClass::Save | OpClass::Restore | OpClass::Concat | OpClass::Marked | OpClass::SetFont
        | OpClass::TextParam | OpClass::TextMatrix | OpClass::TextMove | OpClass::NextLine
        | OpClass::Other => true,
        OpClass::ShowText => f.has_operands && !f.measured,
        _ => false,
    }
}

/// Position `x` is in some graphics-state component.
pub open spec fn in_state_comp(c: Seq<(ComponentKind, Seq<usize>)>, x: usize) -> bool {
    exists|k: int| 0 <= k < c.len() && (#[trigger] c[k]).0 == ComponentKind::State && c[k].1.contains(x)
}

/// Position `x` is a pending graphics-state operator or in a graphics-state
/// component.
pub open spec fn in_state(m: SegModel, x: usize) -> bool {
    m.gfx.contains(x) || in_state_comp(m.comps, x)
}

proof fn lemma_state_comp_push(c: Seq<(ComponentKind, Seq<usize>)>, p: (ComponentKind, Seq<usize>), x: usize)
    requires
        in_state_comp(c, x) || (p.0 == ComponentKind::State && p.1.contains(x)),
    ensures
        in_state_comp(c.push(p), x),
{
    if in_state_comp(c, x) {
        let k = choose|k: int| 0 <= k < c.len() && (#[trigger] c[k]).0 == ComponentKind::State && c[k].1.contains(x);
        assert(c.push(p)[k] == c[k]);
    } else {
        assert(c.push(p)[c.len() as int] == p);
    }
}

proof fn lemma_flush_state(m: SegModel, x: usize)
    requires
        in_state(m, x),
    ensures
        in_state(flush(m), x),
        in_state_comp(flush(m).comps, x) || flush(m).gfx.contains(x),
{
    if m.gfx.len() > 0 {
        lemma_state_comp_push(m.comps, (ComponentKind::State, m.gfx), x);
    }
}

proof fn lemma_step_keeps_state(m: SegModel, f: OpFacts, x: usize)
    requires
        in_state(m, x),
    ensures
        in_state(seg_step(m, f), x),
{
    let i = m.next;
    let b = advanced(m);
    lemma_flush_state(b, x);
    let c = flush(b);
    if in_state_comp(b.comps, x) {
    } else {
        assert(b.gfx.contains(x));
        let w = choose|w: int| 0 <= w < b.gfx.len() && b.gfx[w] == x;
        assert(b.gfx.push(i)[w] == x);
    }
    if in_state_comp(c.comps, x) {
        lemma_state_comp_push(c.comps, (ComponentKind::Image, seq![i]), x);
        lemma_state_comp_push(c.comps, (ComponentKind::Form, seq![i]), x);
        lemma_state_comp_push(c.comps, (ComponentKind::Orphan, seq![i]), x);
        lemma_state_comp_push(c.comps, (ComponentKind::State, seq![i]), x);
        lemma_state_comp_push(c.comps, (ComponentKind::Text, c.text.push(i)), x);
        lemma_state_comp_push(c.comps, (ComponentKind::Path { clipping: c.path_clip }, c.path.push(i)), x);
        lemma_state_comp_push(c.comps, (ComponentKind::Path { clipping: true }, c.path.push(i)), x);
    } else {
        let w = choose|w: int| 0 <= w < c.gfx.len() && c.gfx[w] == x;
        assert(c.gfx.push(i)[w] == x);
    }
}

proof fn lemma_step_puts_state(m: SegModel, f: OpFacts)
    requires
        !m.in_text,
        goes_to_state(f),
    ensures
        in_state(seg_step(m, f), m.next),
{
    let i = m.next;
    let b = advanced(m);
    let c = flush(b);
    assert(b.gfx.push(i)[b.gfx.len() as int] == i);
    assert(seq![i][0] == i);
    if f.class == OpClass::ShowText {
        lemma_state_comp_push(c.comps, (ComponentKind::State, seq![i]), i);
    }
}

proof fn lemma_run_keeps_state(facts: Seq<OpFacts>, i: int, j: int, x: usize)
    requires
        0 <= i <= j <= facts.len(),
        in_state(seg_run(facts.take(i)), x),
    ensures
        in_state(seg_run(facts.take(j)), x),
    decreases j - i,
{
    if i < j {
        lemma_run_keeps_state(facts, i, j - 1, x);
        lemma_run_prefix(facts, j - 1);
        lemma_step_keeps_state(seg_run(facts.take(j - 1)), facts[j - 1], x);
    }
}

/// Graphics state survives segmentation whole: an operator that saves,
/// restores or changes graphics or text state, marks content, is unknown,
/// or shows text that could not be measured, read outside a text block,
/// lands in a graphics-state component.
pub proof fn lemma_state_operators_in_state_components(facts: Seq<OpFacts>, i: int)
    requires
        0 <= i < facts.len(),
        !seg_run(facts.take(i)).in_text,
        goes_to_state(facts[i]),
        facts.len() < usize::MAX,
    ensures
        in_state_comp(segments(facts), i as usize),
{
    lemma_run_wf(facts.take(i));
    lemma_run_prefix(facts, i);
    lemma_step_puts_state(seg_run(facts.take(i)), facts[i]);
    let n = facts.len() as int;
    lemma_run_keeps_state(facts, i + 1, n, i as usize);
    assert(facts.take(n) =~= facts);
    let m = seg_run(facts);
    lemma_flush_state(m, i as usize);
    let c = flush(m);
    if c.gfx.contains(i as usize) {
        assert(c.gfx.len() > 0);
        assert(false);
    }
    if c.in_text && c.text.len() > 0 {
        lemma_state_comp_push(c.comps, (ComponentKind::Text, c.text), i as usize);
    }
}

/// The operator positions of a list of components, concatenated in order.
pub open spec fn flat(c: Seq<(ComponentKind, Seq<usize>)>) -> Seq<usize>
    decreases c.len(),
{
    if c.len() == 0 {
        seq![]
    } else {
        flat(c.drop_last()) + c.last().1
    }
}

/// Every position in `a` comes before every position in `b`.
pub open spec fn all_before(a: Seq<usize>, b: Seq<usize>) -> bool {
    forall|i: int, j: int| 0 <= i < a.len() && 0 <= j < b.len() ==> #[trigger] a[i] < #[trigger] b[j]
}

/// The order the segmentation state keeps: the components so far, read in
/// order, are in stream order and come before everything pending; pending
/// graphics state comes before a pending path; a text block has nothing
/// else pending, and outside one no text is pending.
pub open spec fn seg_ordered(m: SegModel) -> bool {
    &&& increasing(flat(m.comps))
    &&& all_before(flat(m.comps), m.text)
    &&& all_before(flat(m.comps), m.path)
    &&& all_before(flat(m.comps), m.gfx)
    &&& all_before(m.gfx, m.path)
    &&& m.in_text ==> m.path.len() == 0 && m.gfx.len() == 0
    &&& !m.in_text ==> m.text.len() == 0
}

/// Operators that may follow a path under construction: path construction,
/// painting, clipping, ending the path, colour and line style, and a
/// text-showing operator without operands (which is dropped).
pub open spec fn path_continues(f: OpFacts) -> bool {
    match f.class {
        OpClass::PathBuild | OpClass::Paint | OpClass::Clip | OpClass::EndPath | OpClass::Style => true,
        OpClass::ShowText => !f.has_operands,
        _ => false,
    }
}

/// No path under construction (outside a text block) is interrupted by an
/// operator that is not part of it, as the PDF syntax for path objects
/// requires.
pub open spec fn paths_uninterrupted(facts: Seq<OpFacts>) -> bool {
    forall|i: int|
        0 <= i < facts.len() && !seg_run(facts.take(i)).in_text && seg_run(facts.take(i)).path.len() > 0
            ==> path_continues(#[trigger] facts[i])
}

proof fn lemma_flat_push(c: Seq<(ComponentKind, Seq<usize>)>, p: (ComponentKind, Seq<usize>))
    ensures
        flat(c.push(p)) == flat(c) + p.1,
{
    assert(c.push(p).drop_last() =~= c);
}

proof fn lemma_flat_below(c: Seq<(ComponentKind, Seq<usize>)>, n: usize)
    requires
        comps_ok(c, n),
    ensures
        below(flat(c), n),
    decreases c.len(),
{
    if c.len() > 0 {
        assert(comps_ok(c.drop_last(), n)) by {
            assert forall|k: int| 0 <= k < c.drop_last().len() implies {
                &&& (#[trigger] c.drop_last()[k]).1.len() > 0
                &&& increasing(c.drop_last()[k].1)
                &&& below(c.drop_last()[k].1, n)
            } by {
                assert(c.drop_last()[k] == c[k]);
            }
        }
        lemma_flat_below(c.drop_last(), n);
        assert(c[c.len() - 1] == c.last());
    }
}

proof fn lemma_inc_concat(a: Seq<usize>, b: Seq<usize>)
    requires
        increasing(a),
        increasing(b),
        all_before(a, b),
    ensures
        increasing(a + b),
{
    assert forall|x: int, y: int| 0 <= x < y < (a + b).len() implies (a + b)[x] < (a + b)[y] by {
        if y < a.len() {
        } else if x >= a.len() {
            assert((a + b)[x] == b[x - a.len()]);
            assert((a + b)[y] == b[y - a.len()]);
        } else {
            assert((a + b)[x] == a[x]);
            assert((a + b)[y] == b[y - a.len()]);
        }
    }
}

proof fn lemma_before_concat(a: Seq<usize>, b: Seq<usize>, x: Seq<usize>)
    requires
        all_before(a, x),
        all_before(b, x),
    ensures
        all_before(a + b, x),
{
    assert forall|i: int, j: int| 0 <= i < (a + b).len() && 0 <= j < x.len() implies #[trigger] (a + b)[i]
        < #[trigger] x[j] by {
        if i < a.len() {
            assert((a + b)[i] == a[i]);
        } else {
            assert((a + b)[i] == b[i - a.len()]);
        }
    }
}

proof fn lemma_before_push(a: Seq<usize>, x: Seq<usize>, n: usize)
    requires
        all_before(a, x),
        below(a, n),
    ensures
        all_before(a, x.push(n)),
        all_before(a, seq![n]),
{
    assert forall|i: int, j: int| 0 <= i < a.len() && 0 <= j < x.push(n).len() implies #[trigger] a[i]
        < #[trigger] x.push(n)[j] by {
        if j < x.len() {
            assert(x.push(n)[j] == x[j]);
        }
    }
    assert forall|i: int, j: int| 0 <= i < a.len() && 0 <= j < seq![n].len() implies #[trigger] a[i]
        < #[trigger] seq![n][j] by {
    }
}

/// One step keeps the segmentation state in order, where it does not
/// interrupt a path under construction.
proof fn lemma_step_ordered(m: SegModel, f: OpFacts)
    requires
        seg_wf(m),
        seg_ordered(m),
        m.next < usize::MAX,
        !m.in_text && m.path.len() > 0 ==> path_continues(f),
    ensures
        seg_ordered(seg_step(m, f)),
{
    let i = m.next;
    let b = advanced(m);
    let c = flush(b);
    let fm = flat(m.comps);
    lemma_flat_below(m.comps, m.next);
    lemma_advanced(m);
    lemma_push_increasing(m.text, i);
    lemma_push_increasing(m.path, i);
    lemma_push_increasing(m.gfx, i);
    // the components after flushing pending graphics state
    let fc = flat(c.comps);
    if m.gfx.len() > 0 {
        lemma_flat_push(m.comps, (ComponentKind::State, m.gfx));
    } else {
        assert(fm + m.gfx =~= fm);
    }
    assert(fc == fm + m.gfx);
    lemma_inc_concat(fm, m.gfx);
    assert(below(fc, i)) by {
        assert forall|a: int| 0 <= a < fc.len() implies fc[a] < i by {
            if a < fm.len() {
                assert(fc[a] == fm[a]);
            } else {
                assert(fc[a] == m.gfx[a - fm.len()]);
            }
        }
    }
    lemma_before_concat(fm, m.gfx, m.path);
    lemma_before_concat(fm, m.gfx, m.text);
    lemma_before_push(fc, m.path, i);
    lemma_before_push(fc, m.text, i);
    lemma_before_push(fm, m.path, i);
    lemma_before_push(fm, m.text, i);
    lemma_before_push(fm, m.gfx, i);
    lemma_before_push(m.gfx, m.path, i);
    assert(increasing(seq![i]));
    let r = seg_step(m, f);
    match f.class {
        OpClass::BeginText => {},
        OpClass::EndText => {
            lemma_flat_push(c.comps, (ComponentKind::Text, c.text.push(i)));
            lemma_inc_concat(fc, m.text.push(i));
        },
        _ => if m.in_text {
        } else {
            match f.class {
                OpClass::PathBuild => {},
                OpClass::Paint => {
                    lemma_flat_push(c.comps, (ComponentKind::Path { clipping: c.path_clip }, c.path.push(i)));
                    lemma_inc_concat(fc, m.path.push(i));
                },
                OpClass::EndPath => {
                    lemma_flat_push(c.comps, (ComponentKind::Path { clipping: true }, c.path.push(i)));
                    lemma_inc_concat(fc, m.path.push(i));
                },
                OpClass::XObject => {
                    lemma_flat_push(c.comps, (ComponentKind::Image, seq![i]));
                    lemma_flat_push(c.comps, (ComponentKind::Form, seq![i]));
                    lemma_inc_concat(fc, seq![i]);
                },
                OpClass::ShowText => {
                    lemma_flat_push(c.comps, (ComponentKind::Orphan, seq![i]));
                    lemma_flat_push(c.comps, (ComponentKind::State, seq![i]));
                    lemma_inc_concat(fc, seq![i]);
                },
                _ => {},
            }
        },
    }
}

/// Segmenting any prefix of a stream whose paths are uninterrupted leaves
/// the state in order.
proof fn lemma_run_ordered(facts: Seq<OpFacts>, k: int)
    requires
        facts.len() < usize::MAX,
        0 <= k <= facts.len(),
        paths_uninterrupted(facts),
    ensures
        seg_ordered(seg_run(facts.take(k))),
    decreases k,
{
    if k == 0 {
        assert(facts.take(0) =~= Seq::<OpFacts>::empty());
    } else {
        lemma_run_ordered(facts, k - 1);
        lemma_run_wf(facts.take(k - 1));
        lemma_run_prefix(facts, k - 1);
        assert(facts[k - 1] == facts[k - 1]);
        lemma_step_ordered(seg_run(facts.take(k - 1)), facts[k - 1]);
    }
}

/// Segmentation keeps stream order: for a stream whose paths are not
/// interrupted by other operators, the operators of the components, read
/// component by component, are in stream order (a subsequence of the
/// stream's positions).
pub proof fn lemma_segments_in_order(facts: Seq<OpFacts>)
    requires
        facts.len() < usize::MAX,
        paths_uninterrupted(facts),
    ensures
        increasing(flat(segments(facts))),
        below(flat(segments(facts)), facts.len() as usize),
{
    let n = facts.len() as int;
    lemma_run_ordered(facts, n);
    assert(facts.take(n) =~= facts);
    let m = seg_run(facts);
    lemma_run_wf(facts);
    let c = flush(m);
    let fm = flat(m.comps);
    if m.gfx.len() > 0 {
        lemma_flat_push(m.comps, (ComponentKind::State, m.gfx));
    } else {
        assert(fm + m.gfx =~= fm);
    }
    lemma_inc_concat(fm, m.gfx);
    if c.in_text && c.text.len() > 0 {
        lemma_flat_push(c.comps, (ComponentKind::Text, c.text));
        assert(m.gfx.len() == 0);
        assert(flat(c.comps) =~= fm);
        lemma_inc_concat(flat(c.comps), c.text);
    }
    lemma_segments_sound(facts);
    lemma_flat_below(segments(facts), facts.len() as usize);
}

/// Some operator of `ops` clips (`W` or `W*`).
pub open spec fn has_clip(ops: Seq<usize>, facts: Seq<OpFacts>) -> bool {
    exists|j: int| 0 <= j < ops.len() && facts[#[trigger] ops[j] as int].class == OpClass::Clip
}

/// Every path component is marked clipping exactly when it holds a
/// clipping operator.
pub open spec fn comps_clip_exact(c: Seq<(ComponentKind, Seq<usize>)>, facts: Seq<OpFacts>) -> bool {
    forall|k: int|
        0 <= k < c.len() && (#[trigger] c[k]).0 is Path ==> c[k].0->clipping == has_clip(c[k].1, facts)
}

/// The clipping mark of the pending path and of every path component says
/// whether it holds a clipping operator.
pub open spec fn clip_exact(m: SegModel, facts: Seq<OpFacts>) -> bool {
    &&& m.path_clip == has_clip(m.path, facts)
    &&& comps_clip_exact(m.comps, facts)
}

proof fn lemma_has_clip_push(s: Seq<usize>, i: usize, facts: Seq<OpFacts>)
    ensures
        has_clip(s.push(i), facts) == (has_clip(s, facts) || facts[i as int].class == OpClass::Clip),
        !has_clip(Seq::<usize>::empty(), facts),
{
    let t = s.push(i);
    if has_clip(s, facts) {
        let j = choose|j: int| 0 <= j < s.len() && facts[#[trigger] s[j] as int].class == OpClass::Clip;
        assert(t[j] == s[j]);
    }
    if facts[i as int].class == OpClass::Clip {
        assert(t[s.len() as int] == i);
    }
    if has_clip(t, facts) {
        let j = choose|j: int| 0 <= j < t.len() && facts[#[trigger] t[j] as int].class == OpClass::Clip;
        if j < s.len() {
            assert(t[j] == s[j]);
        }
    }
}

proof fn lemma_clip_comps_push(c: Seq<(ComponentKind, Seq<usize>)>, p: (ComponentKind, Seq<usize>), facts: Seq<OpFacts>)
    requires
        comps_clip_exact(c, facts),
        p.0 is Path ==> p.0->clipping == has_clip(p.1, facts),
    ensures
        comps_clip_exact(c.push(p), facts),
{
    assert forall|k: int| 0 <= k < c.push(p).len() && (#[trigger] c.push(p)[k]).0 is Path implies c.push(
        p,
    )[k].0->clipping == has_clip(c.push(p)[k].1, facts) by {
        if k < c.len() {
            assert(c.push(p)[k] == c[k]);
        }
    }
}

proof fn lemma_flush_clip(m: SegModel, facts: Seq<OpFacts>)
    requires
        clip_exact(m, facts),
    ensures
        clip_exact(flush(m), facts),
{
    if m.gfx.len() > 0 {
        lemma_clip_comps_push(m.comps, (ComponentKind::State, m.gfx), facts);
    }
}

proof fn lemma_step_clip(m: SegModel, facts: Seq<OpFacts>)
    requires
        clip_exact(m, facts),
        m.next < facts.len(),
        m.next < usize::MAX,
    ensures
        clip_exact(seg_step(m, facts[m.next as int]), facts),
{
    let i = m.next;
    let f = facts[i as int];
    let b = advanced(m);
    let c = flush(b);
    lemma_flush_clip(b, facts);
    lemma_has_clip_push(m.path, i, facts);
    match f.class {
        OpClass::BeginText => {},
        OpClass::EndText => {
            lemma_clip_comps_push(c.comps, (ComponentKind::Text, c.text.push(i)), facts);
        },
        _ => if m.in_text {
        } else {
            match f.class {
                OpClass::Paint => {
                    lemma_clip_comps_push(
                        c.comps,
                        (ComponentKind::Path { clipping: c.path_clip }, c.path.push(i)),
                        facts,
                    );
                },
                OpClass::EndPath => {
                    if m.path_clip {
                        lemma_clip_comps_push(
                            c.comps,
                            (ComponentKind::Path { clipping: true }, c.path.push(i)),
                            facts,
                        );
                    }
                },
                OpClass::XObject => {
                    lemma_clip_comps_push(c.comps, (ComponentKind::Image, seq![i]), facts);
                    lemma_clip_comps_push(c.comps, (ComponentKind::Form, seq![i]), facts);
                },
                OpClass::ShowText => {
                    lemma_clip_comps_push(c.comps, (ComponentKind::Orphan, seq![i]), facts);
                    lemma_clip_comps_push(c.comps, (ComponentKind::State, seq![i]), facts);
                },
                _ => {},
            }
        },
    }
}

proof fn lemma_run_clip(facts: Seq<OpFacts>, k: int)
    requires
        facts.len() < usize::MAX,
        0 <= k <= facts.len(),
    ensures
        clip_exact(seg_run(facts.take(k)), facts),
    decreases k,
{
    if k == 0 {
        assert(facts.take(0) =~= Seq::<OpFacts>::empty());
        lemma_has_clip_push(Seq::<usize>::empty(), 0, facts);
    } else {
        lemma_run_clip(facts, k - 1);
        lemma_run_wf(facts.take(k - 1));
        lemma_run_prefix(facts, k - 1);
        lemma_step_clip(seg_run(facts.take(k - 1)), facts);
    }
}

/// A path component is a clipping path exactly when its own operators
/// include a clipping operator (`W` or `W*`): the mark never carries over
/// from one path to the next.
pub proof fn lemma_clipping_exact(facts: Seq<OpFacts>)
    requires
        facts.len() < usize::MAX,
    ensures
        forall|k: int|
            0 <= k < segments(facts).len() && (#[trigger] segments(facts)[k]).0 is Path ==> (segments(
                facts,
            )[k].0->clipping <==> exists|j: int|
                0 <= j < segments(facts)[k].1.len() && facts[segments(facts)[k].1[j] as int].class
                    == OpClass::Clip),
{
    let n = facts.len() as int;
    lemma_run_clip(facts, n);
    assert(facts.take(n) =~= facts);
    let m = seg_run(facts);
    lemma_flush_clip(m, facts);
    let c = flush(m);
    if c.in_text && c.text.len() > 0 {
        lemma_clip_comps_push(c.comps, (ComponentKind::Text, c.text), facts);
    }
    let sg = segments(facts);
    assert(comps_clip_exact(sg, facts));
    assert forall|k: int| 0 <= k < sg.len() && (#[trigger] sg[k]).0 is Path implies (sg[k].0->clipping
        <==> exists|j: int| 0 <= j < sg[k].1.len() && facts[sg[k].1[j] as int].class == OpClass::Clip) by {
        assert(sg[k].0->clipping == has_clip(sg[k].1, facts));
    }
}

} // verus!
