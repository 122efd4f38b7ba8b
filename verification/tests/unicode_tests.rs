use pdfcrop::findtext::{decode_hex_text, find_text_shows, text_of_interest};
use pdfcrop::tounicode::parse_to_unicode;

const TO_UNICODE: &str = "begincmap\n\
3 beginbfchar\n\
<0001> <0046>\n\
<0002> <00720065>\n\
<0003> <D800>\n\
endbfchar\n\
endcmap\n";

#[test]
fn to_unicode_maps_codes_to_text() {
    let map = parse_to_unicode(TO_UNICODE.as_bytes());
    assert_eq!(map.get(&1).map(|s| s.as_str()), Some("F"));
    assert_eq!(map.get(&2).map(|s| s.as_str()), Some("re"));
    // a lone surrogate gives no character
    assert_eq!(map.get(&3).map(|s| s.as_str()), Some(""));
    assert_eq!(map.len(), 3);
}

#[test]
fn to_unicode_skips_section_lines_and_bad_codes() {
    let map = parse_to_unicode(b"<0001> <0041> beginbfchar\n<zz> <0042>\n<10000> <0043>\n<0004>\n");
    assert!(map.is_empty());
}

#[test]
fn decode_uses_map_and_question_mark() {
    let map = parse_to_unicode(TO_UNICODE.as_bytes());
    let text: Vec<char> = "[<00010002> 120 <0009>]".chars().collect();
    assert_eq!(decode_hex_text(&text, &map), "Fre?");
}

#[test]
fn decode_repeats_buffer_on_second_close() {
    let map = parse_to_unicode(TO_UNICODE.as_bytes());
    let text: Vec<char> = "<0001>>".chars().collect();
    assert_eq!(decode_hex_text(&text, &map), "FF");
}

#[test]
fn interest_words() {
    assert!(text_of_interest("Frequency response"));
    assert!(text_of_interest("Time Domain"));
    assert!(!text_of_interest("Frequently"));
}

#[test]
fn text_shows_track_font_and_matrix() {
    let content: Vec<char> =
        "BT /F1 12 Tf 1 0 0 1 72 700 Tm <0001> Tj [<0002> -50 <0001>] TJ /F2 9 Tf (x) Tj ET"
            .chars()
            .collect();
    let shows = find_text_shows(&content);
    assert_eq!(shows.len(), 3);
    let s0: String = shows[0].text.iter().collect();
    let f0: String = shows[0].font.iter().collect();
    let m0: String = shows[0].tm.iter().collect();
    assert_eq!(s0, "<0001>");
    assert_eq!(f0, "F1");
    assert_eq!(m0, "1 0 0 1 72 700");
    let s1: String = shows[1].text.iter().collect();
    assert_eq!(s1, "[<0002>-50<0001>]");
    let f2: String = shows[2].font.iter().collect();
    assert_eq!(f2, "F2");
}
