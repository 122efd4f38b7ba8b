use hayro::{render, InterpreterSettings, Pdf, RenderSettings};
use lopdf::{Dictionary, Document, Object, Stream};
use pdfcrop::pixels::{scan_pixmap_for_content, scan_pixmap_region};
use std::sync::Arc;

fn name(s: &str) -> Object {
    Object::Name(s.as_bytes().to_vec())
}

/// A one-page PDF of 100 by 100 points whose content is `content`.
fn one_page_pdf(content: &str) -> Vec<u8> {
    let mut doc = Document::with_version("1.5");
    let pages_id = doc.new_object_id();
    let content_id = doc.add_object(Stream::new(Dictionary::new(), content.as_bytes().to_vec()));
    let mut page = Dictionary::new();
    page.set("Type", name("Page"));
    page.set("Parent", Object::Reference(pages_id));
    page.set("Contents", Object::Reference(content_id));
    page.set("Resources", Object::Dictionary(Dictionary::new()));
    page.set(
        "MediaBox",
        Object::Array(vec![Object::Integer(0), Object::Integer(0), Object::Integer(100), Object::Integer(100)]),
    );
    let page_id = doc.add_object(page);
    let mut pages = Dictionary::new();
    pages.set("Type", name("Pages"));
    pages.set("Kids", Object::Array(vec![Object::Reference(page_id)]));
    pages.set("Count", Object::Integer(1));
    doc.objects.insert(pages_id, Object::Dictionary(pages));
    let mut catalog = Dictionary::new();
    catalog.set("Type", name("Catalog"));
    catalog.set("Pages", Object::Reference(pages_id));
    let catalog_id = doc.add_object(catalog);
    doc.trailer.set("Root", Object::Reference(catalog_id));
    let mut bytes = Vec::new();
    doc.save_to(&mut bytes).unwrap();
    bytes
}

fn render_first_page(pdf_bytes: Vec<u8>) -> hayro::Pixmap {
    let pdf = Pdf::new(Arc::new(pdf_bytes)).unwrap();
    let page = pdf.pages().get(0).unwrap();
    let settings = RenderSettings { x_scale: 1.0, y_scale: 1.0, ..Default::default() };
    render(page, &InterpreterSettings::default(), &settings)
}

fn near(a: u32, b: u32) -> bool {
    a.abs_diff(b) <= 1
}

#[test]
fn blank_page_has_no_ink() {
    let pixmap = render_first_page(one_page_pdf(""));
    assert_eq!(pixmap.width(), 100);
    assert_eq!(pixmap.height(), 100);
    assert_eq!(scan_pixmap_for_content(&pixmap), None);
}

#[test]
fn filled_rectangle_is_found_with_rows_from_the_top() {
    // a black square from (10, 20) to (40, 60) in page coordinates
    let pixmap = render_first_page(one_page_pdf("0 0 0 rg 10 20 30 40 re f"));
    let (min_x, max_x, min_y, max_y) = scan_pixmap_for_content(&pixmap).unwrap();
    assert!(near(min_x, 10), "min_x {}", min_x);
    assert!(near(max_x, 39), "max_x {}", max_x);
    assert!(near(min_y, 40), "min_y {}", min_y);
    assert!(near(max_y, 79), "max_y {}", max_y);
}

#[test]
fn region_scan_sees_only_its_region() {
    let pixmap = render_first_page(one_page_pdf("0 0 0 rg 10 20 30 40 re f"));
    // the right half of the page holds no ink
    assert_eq!(scan_pixmap_region(&pixmap, 50, 100, 0, 100), None);
    // the lower part of the square, rows 60 to 90 from the top
    let (min_x, max_x, min_y, max_y) = scan_pixmap_region(&pixmap, 0, 100, 60, 90).unwrap();
    assert!(near(min_x, 10) && near(max_x, 39));
    assert_eq!(min_y, 60);
    assert!(near(max_y, 79));
}
