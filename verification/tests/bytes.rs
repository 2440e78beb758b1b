use secsgml::bytes::{
    ascii_to_lowercase, bytes_eq, index_lines, parse_tag_content, starts_with, trim_ascii,
    trim_ascii_start,
};
use secsgml::search::{find_byte, find_tag};

#[test]
fn lines_are_split_at_line_feeds() {
    assert_eq!(index_lines(b"ab\ncd\r\n\nef"), vec![(0, 2), (3, 5), (7, 7), (8, 10)]);
    assert_eq!(index_lines(b"ab\n"), vec![(0, 2)]);
    assert_eq!(index_lines(b""), Vec::<(usize, usize)>::new());
    assert_eq!(index_lines(b"\r\n"), vec![(0, 0)]);
    assert_eq!(index_lines(b"x"), vec![(0, 1)]);
}

#[test]
fn trim_removes_the_four_whitespace_bytes() {
    assert_eq!(trim_ascii(b" \t\r\n a b \n\r\t "), b"a b");
    assert_eq!(trim_ascii(b"   "), b"");
    assert_eq!(trim_ascii(b""), b"");
    assert_eq!(trim_ascii(b"\x0bx\x0c"), b"\x0bx\x0c");
    assert_eq!(trim_ascii_start(b"\n\t x \n"), b"x \n");
}

#[test]
fn lowercase_leaves_other_bytes_alone() {
    assert_eq!(ascii_to_lowercase(b"AZaz09-@[\xc3\x84\xff").as_bytes(), b"azaz09-@[\xc3\x84\xff");
    assert_eq!(ascii_to_lowercase(b"").as_bytes(), b"");
    let long = vec![b'Q'; 200];
    assert_eq!(ascii_to_lowercase(&long).as_bytes(), vec![b'q'; 200].as_slice());
}

#[test]
fn tag_content_split() {
    assert_eq!(parse_tag_content(b"<TYPE>10-K"), Some((&b"TYPE"[..], &b"10-K"[..])));
    assert_eq!(parse_tag_content(b"<A>b>c"), Some((&b"A"[..], &b"b>c"[..])));
    assert_eq!(parse_tag_content(b"<>"), Some((&b""[..], &b""[..])));
    assert_eq!(parse_tag_content(b"<TYPE"), None);
    assert_eq!(parse_tag_content(b"TYPE>x"), None);
    assert_eq!(parse_tag_content(b""), None);
}

#[test]
fn prefix_and_equality() {
    assert!(starts_with(b"begin 644", b"begin"));
    assert!(!starts_with(b"begi", b"begin"));
    assert!(starts_with(b"x", b""));
    assert!(bytes_eq(b"abc", b"abc"));
    assert!(!bytes_eq(b"abc", b"abd"));
    assert!(!bytes_eq(b"abc", b"ab"));
}

#[test]
fn byte_search_finds_the_first_index() {
    assert_eq!(find_byte(b'>', b"<a>b>"), Some(2));
    assert_eq!(find_byte(b'>', b"abc"), None);
    assert_eq!(find_byte(b'a', b"abc"), Some(0));
}

#[test]
fn tag_search_finds_the_first_offset_from_the_start_given() {
    let data = b"xx<TEXT>yy<TEXT>";
    assert_eq!(find_tag(data, b"<TEXT>", 0), Some(2));
    assert_eq!(find_tag(data, b"<TEXT>", 2), Some(2));
    assert_eq!(find_tag(data, b"<TEXT>", 3), Some(10));
    assert_eq!(find_tag(data, b"<TEXT>", 11), None);
    assert_eq!(find_tag(data, b"</TEXT>", 0), None);
    assert_eq!(find_tag(data, b"<TEXT>", 16), None);
}
