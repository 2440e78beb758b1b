use secsgml::uu_decoder::{decode, decode_uu_line};

#[test]
fn test_uu_decode_basic() {
    let input = b"begin 644 test.txt\nM5&AE('1E<W0N\n`\nend\n";
    let expected = b"The test.";

    let result = decode(input);
    assert_eq!(result, expected);
}

#[test]
fn test_uu_decode_empty() {
    let input = b"begin 644 empty.txt\n`\nend\n";
    let expected = b"";

    let result = decode(input);
    assert_eq!(result, expected);
}

#[test]
fn truncated_group_yields_the_bytes_it_holds() {
    // Two encoded characters hold twelve bits: one whole byte.
    let result = decode(b"begin 644 partial.txt\n#0V\n`\nend\n");
    assert_eq!(result, vec![0x43u8]);
}

#[test]
fn line_formula_is_exact() {
    // '#' declares three bytes; "0V%T" are the values 16, 54, 5, 52.
    assert_eq!(decode_uu_line(b"#0V%T"), b"Cat".to_vec());
    assert_eq!(decode_uu_line(b"!00``"), b"A".to_vec());
    assert_eq!(decode_uu_line(b""), Vec::<u8>::new());
    assert_eq!(decode_uu_line(b"`"), Vec::<u8>::new());
}

#[test]
fn excess_bytes_beyond_declared_count_are_cut() {
    // '!' declares one byte, the line holds three.
    assert_eq!(decode_uu_line(b"!0V%T"), b"C".to_vec());
}

#[test]
fn bytes_outside_the_range_are_skipped() {
    assert_eq!(decode_uu_line(b"#0\rV\x01%\x7fT"), b"Cat".to_vec());
}

#[test]
fn no_begin_line_gives_nothing() {
    assert_eq!(decode(b"#0V%T\nend\n"), Vec::<u8>::new());
    assert_eq!(decode(b""), Vec::<u8>::new());
    assert_eq!(decode(b"begin 644 x"), Vec::<u8>::new());
}

#[test]
fn missing_end_and_stray_whitespace_are_tolerated() {
    assert_eq!(decode(b"begin 644 x\r\n  #0V%T  \r\n\r\n$=&%I;```"), b"Cattail".to_vec());
}

#[test]
fn lines_behind_end_are_ignored() {
    assert_eq!(decode(b"begin 644 x\n#0V%T\nend\n$=&%I;```\n"), b"Cat".to_vec());
}

#[test]
fn short_line_yields_thirty_bytes_and_decoding_goes_on() {
    // 'M' declares 45 bytes, the forty characters behind it hold 30.
    let input = b"begin 644 f.bin\nM,#$R,S0U-C<X.6%B8V1E9F=H:6I!0D-$149'2$E*\n$=&%I;```\n`\nend\n";
    let result = decode(input);
    assert_eq!(result.len(), 34);
    assert_eq!(result, b"0123456789abcdefghijABCDEFGHIJtail".to_vec());
}

#[test]
fn round_trip_through_the_encoder() {
    let text: &[u8] = b"The quick brown fox jumps over the lazy dog, twice: the quick brown fox jumps over the lazy dog.";
    let encoded = uuencode::uuencode("fox.txt", text);
    assert_eq!(decode(encoded.as_bytes()), text.to_vec());
    let binary: Vec<u8> = (1u8..=255).collect();
    let encoded = uuencode::uuencode("all.bin", &binary);
    assert_eq!(decode(encoded.as_bytes()), binary);
}
