use pdfcrop::keep::{group_components, keep_component, plan_filter, Evidence};
use pdfcrop::ops::{classify, OpClass};
use pdfcrop::segment::{segment, Component, ComponentKind, DoTarget, OpFacts, Segmenter};

fn facts_of(names: &[&str]) -> Vec<OpFacts> {
    names
        .iter()
        .map(|n| OpFacts {
            class: classify(n),
            target: DoTarget::Form,
            has_operands: true,
            measured: true,
        })
        .collect()
}

fn view(c: &[Component]) -> Vec<(ComponentKind, Vec<usize>)> {
    c.iter().map(|c| (c.kind, c.ops.clone())).collect()
}

#[test]
fn classify_operators() {
    assert_eq!(classify("BT"), OpClass::BeginText);
    assert_eq!(classify("re"), OpClass::PathBuild);
    assert_eq!(classify("f*"), OpClass::Paint);
    assert_eq!(classify("W*"), OpClass::Clip);
    assert_eq!(classify("n"), OpClass::EndPath);
    assert_eq!(classify("scn"), OpClass::Style);
    assert_eq!(classify("\""), OpClass::ShowText);
    assert_eq!(classify("Tr"), OpClass::TextParam);
    assert_eq!(classify("T*"), OpClass::NextLine);
    assert_eq!(classify("BX"), OpClass::Other);
}

#[test]
fn segments_text_path_and_state() {
    // q 1 0 0 RG 0 0 m 10 10 l S BT Tf Tj ET Q
    let facts = facts_of(&["q", "RG", "m", "l", "S", "BT", "Tf", "Tj", "ET", "Q"]);
    let comps = segment(&facts);
    assert_eq!(
        view(&comps),
        vec![
            (ComponentKind::State, vec![0, 1]),
            (ComponentKind::Path { clipping: false }, vec![2, 3, 4]),
            (ComponentKind::Text, vec![5, 6, 7, 8]),
            (ComponentKind::State, vec![9]),
        ]
    );
}

#[test]
fn clip_path_with_n_is_kept_and_plain_n_path_dropped() {
    let facts = facts_of(&["re", "W", "n", "m", "l", "n", "g"]);
    let comps = segment(&facts);
    assert_eq!(
        view(&comps),
        vec![
            (ComponentKind::Path { clipping: true }, vec![0, 1, 2]),
            (ComponentKind::State, vec![6]),
        ]
    );
}

#[test]
fn style_inside_path_stays_with_path() {
    let facts = facts_of(&["m", "w", "l", "S"]);
    assert_eq!(view(&segment(&facts)), vec![(ComponentKind::Path { clipping: false }, vec![0, 1, 2, 3])]);
}

#[test]
fn xobjects_and_orphan_text() {
    let mut facts = facts_of(&["cm", "Do", "Do", "Do", "Tj", "Tj", "Tj"]);
    facts[1].target = DoTarget::Image;
    facts[2].target = DoTarget::Unknown;
    facts[3].target = DoTarget::NotNamed;
    facts[5].measured = false;
    facts[6].has_operands = false;
    assert_eq!(
        view(&segment(&facts)),
        vec![
            (ComponentKind::State, vec![0]),
            (ComponentKind::Image, vec![1]),
            (ComponentKind::Form, vec![2]),
            (ComponentKind::State, vec![3]),
            (ComponentKind::Orphan, vec![4]),
            (ComponentKind::State, vec![5]),
        ]
    );
}

#[test]
fn unterminated_text_block_is_flushed_after_state() {
    let facts = facts_of(&["BT", "Tj", "q", "m"]);
    // inside a text block every operator belongs to the block
    assert_eq!(view(&segment(&facts)), vec![(ComponentKind::Text, vec![0, 1, 2, 3])]);
    let facts = facts_of(&["m", "BT", "Tj"]);
    // an unpainted path is dropped
    assert_eq!(view(&segment(&facts)), vec![(ComponentKind::Text, vec![1, 2])]);
}

#[test]
fn stepwise_matches_whole() {
    let facts = facts_of(&["q", "BT", "ET", "re", "f", "Q"]);
    let mut s = Segmenter::new();
    for f in &facts {
        s.step(*f);
    }
    assert_eq!(s.position(), 6);
    assert!(!s.in_text_block());
    assert_eq!(view(&s.finish()), view(&segment(&facts)));
}

fn ev(used_render: bool, render_overlaps: bool, parsed: Option<bool>) -> Evidence {
    Evidence {
        used_render,
        render_overlaps,
        rotated: false,
        parsed_present: parsed.is_some(),
        parsed_overlaps: parsed.unwrap_or(false),
        small: false,
        clip_overlaps: false,
    }
}

#[test]
fn keep_decisions() {
    let outside = ev(true, false, Some(false));
    assert!(!keep_component(ComponentKind::Text, outside, false, false));
    assert!(keep_component(ComponentKind::Text, outside, true, false));
    assert!(keep_component(ComponentKind::Form, outside, false, false));
    assert!(keep_component(ComponentKind::State, outside, false, false));
    // force keeps orphan text too
    assert!(keep_component(ComponentKind::Orphan, outside, true, false));
    assert!(!keep_component(ComponentKind::Orphan, outside, false, false));
    // not rendered: kept
    assert!(keep_component(ComponentKind::Image, ev(false, false, Some(false)), false, false));
    // no parsed extent: kept
    assert!(keep_component(ComponentKind::Image, ev(true, false, None), false, false));
    // rotated and rendered: the parsed extent is ignored, so kept
    let mut rotated = outside;
    rotated.rotated = true;
    assert!(keep_component(ComponentKind::Path { clipping: false }, rotated, false, false));
    // paint-only paths and small paths are kept
    assert!(keep_component(ComponentKind::Path { clipping: false }, outside, false, true));
    let mut small = outside;
    small.small = true;
    assert!(keep_component(ComponentKind::Path { clipping: false }, small, false, false));
    let mut clip = outside;
    clip.clip_overlaps = true;
    assert!(keep_component(ComponentKind::Path { clipping: true }, clip, false, false));
    assert!(!keep_component(ComponentKind::Path { clipping: false }, clip, false, false));
}

#[test]
fn grouping_merges_geometry_with_paint() {
    let names = ["m", "l", "S", "g"];
    let classes: Vec<OpClass> = names.iter().map(|n| classify(n)).collect();
    let comps = vec![
        Component { kind: ComponentKind::Path { clipping: false }, ops: vec![0, 1] },
        Component { kind: ComponentKind::Path { clipping: false }, ops: vec![2] },
        Component { kind: ComponentKind::State, ops: vec![3] },
    ];
    let g = group_components(&comps, &classes);
    assert_eq!(
        view(&g),
        vec![
            (ComponentKind::Path { clipping: false }, vec![0, 1, 2]),
            (ComponentKind::State, vec![3]),
        ]
    );
}

#[test]
fn plan_keeps_state_of_dropped_components() {
    let names = ["BT", "rg", "Tf", "Tj", "ET", "re", "k", "f", "q"];
    let classes: Vec<OpClass> = names.iter().map(|n| classify(n)).collect();
    let comps = vec![
        Component { kind: ComponentKind::Text, ops: vec![0, 1, 2, 3, 4] },
        Component { kind: ComponentKind::Path { clipping: false }, ops: vec![5, 6, 7] },
        Component { kind: ComponentKind::State, ops: vec![8] },
    ];
    let outside = ev(true, false, Some(false));
    let out = plan_filter(&comps, &[outside, outside, outside], &classes, false);
    assert_eq!(out, vec![1, 2, 6, 8]);
    let inside = ev(true, true, Some(true));
    let out = plan_filter(&comps, &[inside, inside, inside], &classes, false);
    assert_eq!(out, vec![0, 1, 2, 3, 4, 5, 6, 7, 8]);
    // with force nothing is dropped
    let out = plan_filter(&comps, &[outside, outside, outside], &classes, true);
    assert_eq!(out, vec![0, 1, 2, 3, 4, 5, 6, 7, 8]);
}

#[test]
fn painting_keeps_pending_state_first() {
    // q g f : the state before a painting operator stays before it
    let facts = facts_of(&["q", "g", "f", "Q"]);
    assert_eq!(
        view(&segment(&facts)),
        vec![
            (ComponentKind::State, vec![0, 1]),
            (ComponentKind::Path { clipping: false }, vec![2]),
            (ComponentKind::State, vec![3]),
        ]
    );
    // q W n : a clipping path ended by n, after the state before it
    let facts = facts_of(&["q", "W", "n"]);
    assert_eq!(
        view(&segment(&facts)),
        vec![(ComponentKind::State, vec![0]), (ComponentKind::Path { clipping: true }, vec![1, 2])]
    );
    // q ET outside a text block
    let facts = facts_of(&["q", "ET"]);
    assert_eq!(view(&segment(&facts)), vec![(ComponentKind::State, vec![0]), (ComponentKind::Text, vec![1])]);
}
