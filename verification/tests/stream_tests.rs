use pdfcrop::ops::{classify, OpClass};
use pdfcrop::stream::{is_suspicious, join_streams, nothing_removed, select_operations};

#[test]
fn join_streams_separates_with_newline() {
    let parts = vec![b"q".to_vec(), Vec::new(), b"Q".to_vec()];
    assert_eq!(join_streams(&parts), b"q\n\nQ".to_vec());
    let parts = vec![Vec::new(), b"BT".to_vec()];
    assert_eq!(join_streams(&parts), b"BT".to_vec());
    assert_eq!(join_streams(&[]), Vec::<u8>::new());
}

#[test]
fn single_x_or_h_is_suspicious() {
    assert!(is_suspicious(&["x".to_string()]));
    assert!(is_suspicious(&["H".to_string()]));
    assert!(!is_suspicious(&["q".to_string()]));
    assert!(!is_suspicious(&["x".to_string(), "x".to_string()]));
    assert!(!is_suspicious(&[]));
}

#[test]
fn nothing_removed_saturates() {
    assert!(nothing_removed(5, 5));
    assert!(nothing_removed(3, 7));
    assert!(!nothing_removed(7, 3));
}

#[test]
fn operator_filter_holds_path_until_painted() {
    let names = ["q", "m", "l", "g", "S", "m", "f", "re", "W", "n", "Q"];
    let classes: Vec<OpClass> = names.iter().map(|n| classify(n)).collect();
    let keep = vec![false, false, false, false, true, false, false, false, false, false, false];
    // the colour operator passes on at once; the path follows with its paint
    assert_eq!(select_operations(&classes, &keep), vec![0, 3, 1, 2, 4, 10]);
}
