use pdfcrop::font::{decode_text_codes, writing_mode_for_encoding, FontEncoding, Reliability, WritingMode};
use pdfcrop::codemap::CodeMap;
use pdfcrop::parse::{bbox_tokens, gs_report, margin_tokens, GsReport};
use pdfcrop::pixels::{ink_extent, scan_region};
use pdfcrop::selection::{plan_box, should_clip, shrink_outcome, BoxPlan};
use pdfcrop::BBoxMethod;
use pdfcrop::font::{cid_width_ranges, font_kind, FontKind, WEntry, WidthRange};
use pdfcrop::segment::{xobject_kind, DoTarget};

#[test]
fn test_render_bbox_basic() {
    // Basic test would go here
    // Requires actual PDF test data
}

fn s(v: &[char]) -> String {
    v.iter().collect()
}

#[test]
fn writing_mode_from_encoding_name() {
    assert_eq!(writing_mode_for_encoding(Some(b"Identity-V")), WritingMode::Vertical);
    assert_eq!(writing_mode_for_encoding(Some(b"Identity-H")), WritingMode::Horizontal);
    assert_eq!(writing_mode_for_encoding(None), WritingMode::Horizontal);
}

#[test]
fn simple_fonts_use_single_bytes() {
    let enc = FontEncoding::simple();
    assert_eq!(enc.reliability, Reliability::Exact);
    assert_eq!(decode_text_codes(&[0x41, 0x20], &enc), vec![0x41, 0x20]);
}

#[test]
fn composite_fonts_use_chunks_and_cmap() {
    let mut enc = FontEncoding::type0(WritingMode::Horizontal);
    assert_eq!(decode_text_codes(&[0x01, 0x02, 0x03], &enc), vec![0x0102]);
    // no complete chunk: single bytes
    assert_eq!(decode_text_codes(&[0x07], &enc), vec![0x07]);
    let mut m = CodeMap::new();
    m.insert(&[0x01, 0x02], 99);
    enc.refine_with_cmap(Some((0, m)));
    assert_eq!(enc.bytes_per_char, 1);
    assert_eq!(decode_text_codes(&[0x05, 0x06], &enc), vec![5, 6]);
    let mut m = CodeMap::new();
    m.insert(&[0x01, 0x02], 99);
    enc.refine_with_cmap(Some((2, m)));
    assert_eq!(decode_text_codes(&[0x01, 0x02, 0x00, 0x41], &enc), vec![99, 0x41]);
    enc.refine_with_cmap(None);
    assert_eq!(enc.bytes_per_char, 2);
    // wide chunks keep the low 32 bits
    enc.refine_with_cmap(Some((5, CodeMap::new())));
    assert_eq!(decode_text_codes(&[1, 2, 3, 4, 5], &enc), vec![0x02030405]);
}

#[test]
fn margin_token_layouts() {
    let (t, lay) = margin_tokens("15").unwrap();
    assert_eq!(t.len(), 1);
    assert_eq!(lay, (0, 0, 0, 0));
    let (_, lay) = margin_tokens(" 10   20 ").unwrap();
    assert_eq!(lay, (0, 1, 0, 1));
    let (t, lay) = margin_tokens("10 20 30 40").unwrap();
    assert_eq!(lay, (0, 1, 2, 3));
    assert_eq!(s(&t[3]), "40");
    assert_eq!(margin_tokens("10 20 30").unwrap_err(), 3);
    assert_eq!(margin_tokens("").unwrap_err(), 0);
}

fn margins(spec: &str) -> Result<(f64, f64, f64, f64), String> {
    let (toks, (l, t, r, b)) =
        margin_tokens(spec).map_err(|n| format!("expected 1, 2, or 4 values, got {}", n))?;
    let num = |i: usize| s(&toks[i]).parse::<f64>().map_err(|e| e.to_string());
    Ok((num(l)?, num(t)?, num(r)?, num(b)?))
}

#[test]
fn test_margins_from_str_single() {
    assert_eq!(margins("15").unwrap(), (15.0, 15.0, 15.0, 15.0));
}

#[test]
fn test_margins_from_str_two_values() {
    let m = margins("10 20").unwrap();
    assert_eq!(m.0, 10.0);
    assert_eq!(m.2, 10.0);
    assert_eq!(m.1, 20.0);
    assert_eq!(m.3, 20.0);
}

#[test]
fn test_margins_from_str_four_values() {
    let m = margins("10 20 30 40").unwrap();
    assert_eq!(m.0, 10.0);
    assert_eq!(m.1, 20.0);
    assert_eq!(m.2, 30.0);
    assert_eq!(m.3, 40.0);
}

#[test]
fn test_margins_from_str_invalid() {
    assert!(margins("10 20 30").is_err());
    assert!(margins("invalid").is_err());
}

fn bbox(spec: &str) -> Result<(f64, f64, f64, f64), String> {
    let toks = bbox_tokens(spec).map_err(|n| format!("expected 4 values, got {}", n))?;
    let num = |i: usize| s(&toks[i]).parse::<f64>().map_err(|e| e.to_string());
    Ok((num(0)?, num(1)?, num(2)?, num(3)?))
}

#[test]
fn bbox_test_bbox_from_str() {
    let b = bbox("10 20 100 200").unwrap();
    assert_eq!(b.0, 10.0);
    assert_eq!(b.1, 20.0);
    assert_eq!(b.2, 100.0);
    assert_eq!(b.3, 200.0);
}

#[test]
fn mod_test_bbox_from_str() {
    let b = bbox("10 20 100 200").unwrap();
    assert_eq!(b.0, 10.0);
    assert_eq!(b.1, 20.0);
    assert_eq!(b.2, 100.0);
    assert_eq!(b.3, 200.0);
}

#[test]
fn bbox_token_count() {
    let t = bbox_tokens("10 20 100 200").unwrap();
    assert_eq!(s(&t[2]), "100");
    assert_eq!(bbox_tokens("1 2 3").unwrap_err(), 3);
}

fn gs(output: &str) -> Option<(f64, f64, f64, f64)> {
    match gs_report(output) {
        GsReport::Values(v) => {
            let n: Vec<f64> = v.iter().map(|t| s(t).parse::<f64>().unwrap()).collect();
            Some((n[0], n[1], n[2], n[3]))
        },
        _ => None,
    }
}

#[test]
fn test_parse_hires_bbox() {
    let bbox = gs("%%HiResBoundingBox: 48.96 57.84 560.55 785.30").unwrap();
    assert_eq!(bbox.0, 48.96);
    assert_eq!(bbox.1, 57.84);
    assert_eq!(bbox.2, 560.55);
    assert_eq!(bbox.3, 785.30);
}

#[test]
fn test_parse_regular_bbox() {
    let bbox = gs("%%BoundingBox: 49 58 561 785").unwrap();
    assert_eq!(bbox.0, 49.0);
    assert_eq!(bbox.1, 58.0);
    assert_eq!(bbox.2, 561.0);
    assert_eq!(bbox.3, 785.0);
}

#[test]
fn test_hires_preferred_over_regular() {
    let bbox = gs("%%BoundingBox: 49 58 561 785\n%%HiResBoundingBox: 48.96 57.84 560.55 785.30").unwrap();
    assert_eq!(bbox.0, 48.96);
}

#[test]
fn gs_report_errors() {
    assert!(matches!(gs_report("nothing"), GsReport::NotFound));
    assert!(matches!(gs_report("x %%BoundingBox: 1 2 3 4"), GsReport::MissingPrefix));
    assert!(matches!(gs_report("%%BoundingBox: 1 2 3"), GsReport::WrongCount(3)));
}

#[test]
fn scan_finds_ink_extent() {
    // 3 x 2 pixels, white except (1, 0) and (2, 1)
    let mut px = vec![255u8; 3 * 2 * 4];
    px[(0 * 3 + 1) * 4] = 0;
    px[(1 * 3 + 2) * 4 + 2] = 10;
    assert_eq!(scan_region(&px, 3, 0, 3, 0, 2), (1, 2, 0, 1));
    assert_eq!(ink_extent(&px, 3, 0, 3, 0, 2), Some((1, 2, 0, 1)));
    // a region without ink reports its own bounds inverted
    assert_eq!(scan_region(&px, 3, 0, 1, 0, 2), (1, 0, 2, 0));
    assert_eq!(ink_extent(&px, 3, 0, 1, 0, 2), None);
    // a truncated buffer: pixels past the end are not ink
    assert_eq!(scan_region(&px[..4], 3, 0, 3, 0, 2), (3, 0, 2, 0));
    // an empty page of size 0 x 0 yields a zero box
    assert_eq!(ink_extent(&[], 0, 0, 0, 0, 0), Some((0, 0, 0, 0)));
}

#[test]
fn box_plans() {
    let odd = Some(1u32);
    let even = Some(2u32);
    let all = Some(3u32);
    assert_eq!(plan_box(Some(9u32), odd, even, all, 0, true), BoxPlan::Use(9));
    assert_eq!(plan_box(None, odd, even, all, 0, false), BoxPlan::Use(1));
    assert_eq!(plan_box(None, odd, even, all, 1, false), BoxPlan::Use(2));
    assert_eq!(plan_box(None, None, even, all, 2, false), BoxPlan::Use(3));
    assert_eq!(plan_box(None, odd, None, all, 3, true), BoxPlan::ShrinkWithin(3));
    assert_eq!(plan_box::<u32>(None, None, None, None, 3, true), BoxPlan::Detect);
    assert_eq!(shrink_outcome(5u32, Some(4)), (4, false));
    assert_eq!(shrink_outcome(5u32, None), (5, true));
    assert!(should_clip(true, true));
    assert!(!should_clip(true, false));
    assert!(!should_clip(false, true));
}

#[test]
fn bbox_methods_compare() {
    assert_eq!(BBoxMethod::Auto, BBoxMethod::Auto);
    assert_ne!(BBoxMethod::Ghostscript, BBoxMethod::ContentStream);
}

#[test]
fn font_kinds_by_subtype() {
    assert_eq!(font_kind(Some(b"Type0")), FontKind::Composite);
    assert_eq!(font_kind(Some(b"Type1")), FontKind::Simple);
    assert_eq!(font_kind(Some(b"TrueType")), FontKind::Simple);
    assert_eq!(font_kind(Some(b"Type3")), FontKind::Type3);
    assert_eq!(font_kind(Some(b"MMType1")), FontKind::Unknown);
    assert_eq!(font_kind(None), FontKind::Unknown);
}

#[test]
fn xobject_kinds_by_subtype() {
    assert_eq!(xobject_kind(Some(b"Image")), DoTarget::Image);
    assert_eq!(xobject_kind(Some(b"Form")), DoTarget::Form);
    assert_eq!(xobject_kind(Some(b"PS")), DoTarget::Unknown);
    assert_eq!(xobject_kind(None), DoTarget::Unknown);
}

fn range(first: u32, last: u32, entry: usize, item: Option<usize>) -> WidthRange {
    WidthRange { first, last, entry, item }
}

#[test]
fn cid_width_ranges_follow_triples() {
    let n = |c: u32| WEntry::Number { code: Some(c) };
    // 10 20 600 30 x 700 -5 40 800
    let entries = vec![
        n(10),
        n(20),
        n(600),
        n(30),
        WEntry::Other,
        n(700),
        WEntry::Number { code: None },
        n(40),
        n(800),
    ];
    // `10 20 600` is a range; `30 x` has no last code; `700 -5` neither;
    // `-5 40 800` counts the negative first code as 0
    assert_eq!(cid_width_ranges(&entries), vec![range(10, 20, 2, None), range(0, 40, 8, None)]);
    assert_eq!(cid_width_ranges(&[n(1), n(2)]), vec![]);
}

#[test]
fn cid_width_ranges_read_both_forms() {
    let n = |c: u32| WEntry::Number { code: Some(c) };
    // 1 [500 600] 5 10 700
    let entries = vec![n(1), WEntry::Array { numbers: vec![true, true] }, n(5), n(10), n(700)];
    assert_eq!(
        cid_width_ranges(&entries),
        vec![range(1, 1, 1, Some(0)), range(2, 2, 1, Some(1)), range(5, 10, 4, None)]
    );
    // a non-number element gives no width; a negative first code gives none
    let entries = vec![
        n(7),
        WEntry::Array { numbers: vec![true, false, true] },
        WEntry::Number { code: None },
        WEntry::Array { numbers: vec![true] },
    ];
    assert_eq!(cid_width_ranges(&entries), vec![range(7, 7, 1, Some(0)), range(9, 9, 1, Some(2))]);
    // codes stop at u32::MAX
    let entries = vec![n(u32::MAX), WEntry::Array { numbers: vec![true, true] }];
    assert_eq!(cid_width_ranges(&entries), vec![range(u32::MAX, u32::MAX, 1, Some(0))]);
}
