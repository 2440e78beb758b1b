use secsgml::filenames::{
    default_filename, extension_for_document, extension_for_format, extension_for_named_type, extension_for_type,
    is_binary_content, push_decimal, safe_char, safe_filename,
};
use secsgml::index::DocumentIndex;

#[test]
fn safe_filename_replaces_what_is_not_allowed() {
    assert_eq!(safe_filename("a b/c.txt"), "a_b_c.txt");
    assert_eq!(safe_filename("ex-99_1.htm"), "ex-99_1.htm");
    assert_eq!(safe_filename("r\u{e9}sum\u{e9} \u{20ac}.pdf"), "r\u{e9}sum\u{e9}__.pdf");
    assert_eq!(safe_filename(""), "");
    assert_eq!(safe_char('/', false), '_');
    assert_eq!(safe_char('x', true), 'x');
    assert_eq!(safe_char('.', false), '.');
}

#[test]
fn default_filename_counts_from_one() {
    assert_eq!(default_filename(0, true), "doc_1.bin");
    assert_eq!(default_filename(0, false), "doc_1.txt");
    assert_eq!(default_filename(9, false), "doc_10.txt");
    assert_eq!(default_filename(1233, true), "doc_1234.bin");
    let mut s = String::from("n=");
    push_decimal(&mut s, 0);
    push_decimal(&mut s, 907);
    assert_eq!(s, "n=0907");
}

#[test]
fn extension_tables() {
    assert_eq!(extension_for_type(b"10-K"), Some("txt".to_string()));
    assert_eq!(extension_for_type(b"8-k"), Some("txt".to_string()));
    assert_eq!(extension_for_type(b"HTM"), Some("html".to_string()));
    assert_eq!(extension_for_type(b"GRAPHIC"), Some("jpg".to_string()));
    assert_eq!(extension_for_type(b"xbrl"), Some("xbrl".to_string()));
    assert_eq!(extension_for_type(b"EX-99"), None);
    assert_eq!(extension_for_format(b"ASCII"), Some("txt".to_string()));
    assert_eq!(extension_for_format(b"jpeg"), Some("jpg".to_string()));
    assert_eq!(extension_for_format(b"10-k"), None);
    assert_eq!(extension_for_named_type(b"EX-101"), Some("xml".to_string()));
    assert_eq!(extension_for_named_type(b"10-Q"), Some("txt".to_string()));
    assert_eq!(extension_for_named_type(b"html"), None);
    assert_eq!(extension_for_document(b"Graphic", false), "jpg");
    assert_eq!(extension_for_document(b"EX-99", true), "bin");
    assert_eq!(extension_for_document(b"EX-99", false), "txt");
}

#[test]
fn binary_content_is_told_by_its_first_bytes() {
    assert!(is_binary_content(b"begin 644 a.pdf\nM"));
    assert!(is_binary_content(b"  begin"));
    assert!(!is_binary_content(b"           begin"));
    assert!(!is_binary_content(b""));
    assert!(!is_binary_content(b"<html>"));
}

#[test]
fn new_index_is_empty() {
    let index = DocumentIndex::new();
    assert_eq!(index.header_end, 0);
    assert!(index.document_positions.is_empty());
    assert!(index.text_positions.is_empty());
    assert!(index.text_leftovers.is_empty());
}
