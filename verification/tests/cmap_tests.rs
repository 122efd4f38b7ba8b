use pdfcrop::cmap::{parse_cmap_bytes, parse_cmap_bytes_per_char_and_map, parse_cmap_text};
use pdfcrop::codemap::CodeMap;
use pdfcrop::codes::{hex_to_bytes, increment_bytes};

fn chars(s: &str) -> Vec<char> {
    s.chars().collect()
}

#[test]
fn hex_to_bytes_decodes_pairs() {
    assert_eq!(hex_to_bytes("48656C6C6F"), b"Hello".to_vec());
    assert_eq!(hex_to_bytes("00ff"), vec![0x00, 0xFF]);
}

#[test]
fn hex_to_bytes_skips_bad_pairs_and_odd_tail() {
    assert_eq!(hex_to_bytes("41ZZ42"), vec![0x41, 0x42]);
    assert_eq!(hex_to_bytes("414"), vec![0x41]);
    assert_eq!(hex_to_bytes(""), Vec::<u8>::new());
    // `u8::from_str_radix` accepts a leading plus sign
    assert_eq!(hex_to_bytes("+A"), vec![0x0A]);
}

#[test]
fn increment_bytes_carries() {
    assert_eq!(increment_bytes(&[0x00, 0x01]), vec![0x00, 0x02]);
    assert_eq!(increment_bytes(&[0x00, 0xFF]), vec![0x01, 0x00]);
    assert_eq!(increment_bytes(&[0xFF, 0xFF]), vec![0x00, 0x00]);
    assert_eq!(increment_bytes(&[]), Vec::<u8>::new());
}

#[test]
fn code_map_later_insert_wins() {
    let mut m = CodeMap::new();
    m.insert(&[1, 2], 7);
    m.insert(&[1, 2], 9);
    m.insert(&[3], 4);
    assert_eq!(m.get(&[1, 2]), Some(9));
    assert_eq!(m.get(&[3]), Some(4));
    assert_eq!(m.get(&[1]), None);
}

const SAMPLE: &str = "/CIDInit /ProcSet findresource begin\n\
1 begincodespacerange\n\
<0000> <FFFF>\n\
endcodespacerange\n\
2 beginbfchar\n\
<0003> <0020>\n\
<0024> <0041>\n\
endbfchar\n\
1 beginbfrange\n\
<0010> <0012> <0061>\n\
endbfrange\n\
1 beginbfrange\n\
<0020> <0022> [<0030> <0031> <0032>]\n\
endbfrange\n";

#[test]
fn cmap_text_reads_all_sections() {
    let text = chars(SAMPLE);
    let (n, map) = parse_cmap_text(&text).unwrap();
    assert_eq!(n, 2);
    assert_eq!(map.get(&[0x00, 0x03]), Some(0x20));
    assert_eq!(map.get(&[0x00, 0x24]), Some(0x41));
    assert_eq!(map.get(&[0x00, 0x10]), Some(0x61));
    assert_eq!(map.get(&[0x00, 0x11]), Some(0x62));
    assert_eq!(map.get(&[0x00, 0x12]), Some(0x63));
    assert_eq!(map.get(&[0x00, 0x13]), None);
    assert_eq!(map.get(&[0x00, 0x20]), Some(0x30));
    assert_eq!(map.get(&[0x00, 0x21]), Some(0x31));
    assert_eq!(map.get(&[0x00, 0x22]), Some(0x32));
}

#[test]
fn cmap_range_walks_across_byte_boundary() {
    let text = chars("beginbfrange\n<00FE> <0101> <0010>\nendbfrange\n");
    let (n, map) = parse_cmap_text(&text).unwrap();
    assert_eq!(n, 2);
    assert_eq!(map.get(&[0x00, 0xFE]), Some(0x10));
    assert_eq!(map.get(&[0x00, 0xFF]), Some(0x11));
    assert_eq!(map.get(&[0x01, 0x00]), Some(0x12));
    assert_eq!(map.get(&[0x01, 0x01]), Some(0x13));
}

#[test]
fn cmap_without_width_is_none() {
    let text = chars("nothing here\n");
    assert!(parse_cmap_text(&text).is_none());
}

#[test]
fn cmap_range_up_to_last_code_ends_there() {
    // a one-byte range up to <FF> ends at <FF> instead of wrapping to <00>
    let text = chars("beginbfrange\n<F0> <FF> <0000>\nendbfrange\n");
    let (n, map) = parse_cmap_text(&text).unwrap();
    assert_eq!(n, 1);
    assert_eq!(map.get(&[0xF0]), Some(0));
    assert_eq!(map.get(&[0xFF]), Some(15));
    assert_eq!(map.get(&[0x00]), None);
}

#[test]
fn cmap_stream_range_ending_at_ffff() {
    let data = b"1 beginbfrange\n<FF00> <FFFF> <0041>\nendbfrange".to_vec();
    let stream = lopdf::Stream::new(lopdf::Dictionary::new(), data);
    let (n, map) = parse_cmap_bytes_per_char_and_map(&stream).unwrap();
    assert_eq!(n, 2);
    for k in 0..=255u32 {
        assert_eq!(map.get(&[0xFF, k as u8]), Some(0x41 + k));
    }
    assert_eq!(map.get(&[0x00, 0x00]), None);
    assert_eq!(map.get(&[0xFE, 0xFF]), None);
}

#[test]
fn cmap_bytes_replace_invalid_utf8() {
    let mut data = b"begincodespacerange\n<00> <FF>\nendcodespacerange\n".to_vec();
    data.extend_from_slice(&[0xFF, 0xFE, b'\n']);
    let (n, _) = parse_cmap_bytes(&data).unwrap();
    assert_eq!(n, 1);
}

#[test]
fn cmap_stream_is_decompressed_then_read() {
    let stream = lopdf::Stream::new(lopdf::Dictionary::new(), SAMPLE.as_bytes().to_vec());
    let (n, map) = parse_cmap_bytes_per_char_and_map(&stream).unwrap();
    assert_eq!(n, 2);
    assert_eq!(map.get(&[0x00, 0x24]), Some(0x41));
}

#[test]
fn cmap_stream_with_unknown_filter_is_none() {
    let mut dict = lopdf::Dictionary::new();
    dict.set("Filter", lopdf::Object::Name(b"NoSuchDecode".to_vec()));
    let stream = lopdf::Stream::new(dict, SAMPLE.as_bytes().to_vec());
    assert!(parse_cmap_bytes_per_char_and_map(&stream).is_none());
}

#[test]
fn cmap_array_range_maps_codes_in_order() {
    let text = chars("beginbfrange\n<01> <02> [<41> <42> <43>]\n<10> <15> [<61> <62>]\nendbfrange\n");
    let (n, map) = parse_cmap_text(&text).unwrap();
    assert_eq!(n, 1);
    assert_eq!(map.get(&[0x01]), Some(0x41));
    assert_eq!(map.get(&[0x02]), Some(0x42));
    // the list stops at the end code
    assert_eq!(map.get(&[0x03]), None);
    // the end code is not reached when the list runs out
    assert_eq!(map.get(&[0x10]), Some(0x61));
    assert_eq!(map.get(&[0x11]), Some(0x62));
    assert_eq!(map.get(&[0x12]), None);
}
