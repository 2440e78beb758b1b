use secsgml::index::build_document_index;

#[test]
fn index_of_a_plain_submission() {
    let data = b"<SUBMISSION>\n<DOCUMENT>\n<TYPE>A\n<TEXT>\nx\n</TEXT>\n</DOCUMENT>\n";
    let index = build_document_index(data);
    assert_eq!(index.header_end, 13);
    assert_eq!(index.document_positions, vec![(13, 49)]);
    assert_eq!(index.text_positions, vec![(32, 41)]);
    assert!(index.text_leftovers.is_empty());
}

#[test]
fn header_end_is_the_length_without_a_document() {
    let data = b"<SUBMISSION>\n<TYPE>10-K\n";
    let index = build_document_index(data);
    assert_eq!(index.header_end, data.len());
    assert!(index.document_positions.is_empty());
    assert!(index.text_positions.is_empty());
}

#[test]
fn unclosed_document_is_dropped() {
    let data = b"<SUBMISSION>\n<DOCUMENT>\n<TEXT>\nx\n</TEXT>\n";
    let index = build_document_index(data);
    assert_eq!(index.header_end, 13);
    assert!(index.document_positions.is_empty());
    let data = b"<DOCUMENT>a</DOCUMENT><DOCUMENT>b";
    let index = build_document_index(data);
    assert_eq!(index.document_positions, vec![(0, 11)]);
}

#[test]
fn text_close_must_be_followed_by_document_close() {
    let data = b"<DOCUMENT>\n<TEXT>\nx\n</TEXT>\ny\n</DOCUMENT>\n";
    let index = build_document_index(data);
    assert_eq!(index.document_positions, vec![(0, 30)]);
    assert!(index.text_positions.is_empty());
}

#[test]
fn whitespace_between_text_close_and_document_close_is_skipped() {
    let data = b"<DOCUMENT><TEXT>x</TEXT> \t\r\n\n</DOCUMENT>";
    let index = build_document_index(data);
    assert_eq!(index.text_positions, vec![(10, 17)]);
    assert_eq!(index.document_positions, vec![(0, 29)]);
}

#[test]
fn spans_are_ordered_and_do_not_overlap() {
    let data = b"<DOCUMENT><TEXT>a</TEXT></DOCUMENT><DOCUMENT><TEXT>b<TEXT>c</TEXT></DOCUMENT>";
    let index = build_document_index(data);
    assert_eq!(index.document_positions, vec![(0, 24), (35, 66)]);
    assert_eq!(index.text_positions, vec![(10, 17), (45, 59)]);
    for spans in [&index.document_positions, &index.text_positions] {
        for k in 0..spans.len() {
            assert!(spans[k].0 < spans[k].1 && spans[k].1 <= data.len());
            if k + 1 < spans.len() {
                assert!(spans[k].1 < spans[k + 1].0);
            }
        }
    }
}
