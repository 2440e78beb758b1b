use secsgml::header::{parse_dashed_default_header, parse_header_metadata, parse_tab_header};
use secsgml::doc_meta::parse_document_metadata;
use secsgml::sgml::{
    clean_lines, detect_submission_type, detect_uu, parse_sgml_bytes, process_text_content,
    text_payload,
};
use secsgml::index::Span;
use secsgml::types::{MetadataDict, MetadataValue, ParseError, SubmissionType};

fn text(bytes: &[u8]) -> MetadataValue {
    MetadataValue::Text(bytes.to_vec())
}

fn keys(dict: &MetadataDict) -> Vec<Vec<u8>> {
    dict.entries.iter().map(|e| e.0.clone()).collect()
}

fn documents_of(metadata: &MetadataDict) -> &Vec<MetadataValue> {
    metadata.get(b"documents").unwrap().as_list().unwrap()
}

#[test]
fn dashed_minimal_submission() {
    let input = b"<SUBMISSION>\n<ACCESSION-NUMBER>0001-23-456\n<TYPE>10-K\n<DOCUMENT>\n<TYPE>10-K\n<SEQUENCE>1\n<FILENAME>primary.htm\n<TEXT>\nHello.\n</TEXT>\n</DOCUMENT>\n</SUBMISSION>\n";
    let (metadata, documents) = parse_sgml_bytes(input).unwrap();
    assert_eq!(metadata.get(b"accession-number"), Some(&text(b"0001-23-456")));
    assert_eq!(metadata.get(b"type"), Some(&text(b"10-K")));
    let docs = documents_of(&metadata);
    assert_eq!(docs.len(), 1);
    let first = docs[0].as_dict().unwrap();
    assert_eq!(first.get(b"filename"), Some(&text(b"primary.htm")));
    assert_eq!(first.get(b"type"), Some(&text(b"10-K")));
    assert_eq!(first.get(b"sequence"), Some(&text(b"1")));
    assert_eq!(documents, vec![b"Hello.\n".to_vec()]);
    assert_eq!(
        keys(&metadata),
        vec![b"accession-number".to_vec(), b"type".to_vec(), b"documents".to_vec()]
    );
}

#[test]
fn repeated_block_is_promoted_to_a_list() {
    let input = b"<SUBMISSION>\n<ACCESSION-NUMBER>0001\n<REPORTING-OWNER>\n<NAME>Alice\n<ADDRESS>\n<CITY>Oslo\n</ADDRESS>\n</REPORTING-OWNER>\n<REPORTING-OWNER>\n<NAME>Bob\n</REPORTING-OWNER>\n<ITEM>1\n<ITEM>2\n<ITEM>3\n<DOCUMENT>\n<TEXT>\nx\n</TEXT>\n</DOCUMENT>\n";
    let (metadata, documents) = parse_sgml_bytes(input).unwrap();
    let owners = metadata.get(b"reporting-owner").unwrap().as_list().unwrap();
    assert_eq!(owners.len(), 2);
    let alice = owners[0].as_dict().unwrap();
    assert_eq!(alice.get(b"name"), Some(&text(b"Alice")));
    assert_eq!(
        alice.get(b"address").unwrap().as_dict().unwrap().get(b"city"),
        Some(&text(b"Oslo"))
    );
    assert_eq!(owners[1].as_dict().unwrap().get(b"name"), Some(&text(b"Bob")));
    assert_eq!(
        metadata.get(b"item"),
        Some(&MetadataValue::List(vec![text(b"1"), text(b"2"), text(b"3")]))
    );
    assert_eq!(
        keys(&metadata),
        vec![
            b"accession-number".to_vec(),
            b"reporting-owner".to_vec(),
            b"item".to_vec(),
            b"documents".to_vec()
        ]
    );
    assert_eq!(documents, vec![b"x\n".to_vec()]);
}

#[test]
fn dashed_header_ignores_mismatched_closing_tags_and_closes_open_blocks() {
    let data = b"<A>\n<B>1\n</C>\n</a>\n<D>\n<E>2\n</D>\n<F>\n<G>3\n</F>x\n</A>\n";
    // `</a>` closes `<A>` because tags are compared in lower case; the last `</A>` matches nothing.
    let dict = parse_dashed_default_header(data, data.len());
    assert_eq!(keys(&dict), vec![b"a".to_vec(), b"d".to_vec(), b"f".to_vec()]);
    assert_eq!(dict.get(b"a").unwrap().as_dict().unwrap().get(b"b"), Some(&text(b"1")));
    assert_eq!(dict.get(b"d").unwrap().as_dict().unwrap().get(b"e"), Some(&text(b"2")));
    assert_eq!(dict.get(b"f").unwrap().as_dict().unwrap().get(b"g"), Some(&text(b"3")));
    let open = b"<A>\n<B>\n<C>1\n</B>\n<X>\n</A>\n<Y>2\n";
    let dict = parse_dashed_default_header(open, 18);
    // Within the first 18 bytes `<A>` has no closing tag: `<B>` nests at the root.
    assert_eq!(keys(&dict), vec![b"b".to_vec()]);
    assert_eq!(dict.get(b"b").unwrap().as_dict().unwrap().get(b"c"), Some(&text(b"1")));
}

#[test]
fn privacy_preamble_and_indented_blocks() {
    let input = b"-----BEGIN PRIVACY-ENHANCED MESSAGE-----\nProc-Type: 2001,MIC-CLEAR\nOriginator-Name: webmaster@www.sec.gov\n MFgwCgYEVQgBAQICAf8DSgAwRwJAW2sNKK9AVtBzYZmr6aGjlWyK3XmZv3dTINen\n<SEC-DOCUMENT>0000950123.txt : 19950103\nACCESSION NUMBER:\t\t0000950123-95-000001\nFILER:\n\n\tCOMPANY DATA:\n\t\tCOMPANY CONFORMED NAME:\tFOO INC\n\t\tCENTRAL INDEX KEY:\t0000001\n\tBUSINESS ADDRESS:\n\t\tSTREET 1:\t1 MAIN ST\nFILER:\n\tCOMPANY DATA:\n\t\tCOMPANY CONFORMED NAME:\tBAR INC\n<DOCUMENT>\n<TYPE>10-K\n<TEXT>\nbody\n</TEXT>\n</DOCUMENT>\n";
    let (metadata, documents) = parse_sgml_bytes(input).unwrap();
    assert_eq!(
        metadata.get(b"privacy-enhanced-message"),
        Some(&text(
            b"Proc-Type: 2001,MIC-CLEAR\nOriginator-Name: webmaster@www.sec.gov\nMFgwCgYEVQgBAQICAf8DSgAwRwJAW2sNKK9AVtBzYZmr6aGjlWyK3XmZv3dTINen"
        ))
    );
    assert_eq!(metadata.get(b"sec-document"), Some(&text(b"0000950123.txt : 19950103")));
    assert_eq!(metadata.get(b"accession number"), Some(&text(b"0000950123-95-000001")));
    let filers = metadata.get(b"filer").unwrap().as_list().unwrap();
    assert_eq!(filers.len(), 2);
    let first = filers[0].as_dict().unwrap();
    assert_eq!(keys(first), vec![b"company data".to_vec(), b"business address".to_vec()]);
    let company = first.get(b"company data").unwrap().as_dict().unwrap();
    assert_eq!(company.get(b"company conformed name"), Some(&text(b"FOO INC")));
    assert_eq!(company.get(b"central index key"), Some(&text(b"0000001")));
    assert_eq!(
        first.get(b"business address").unwrap().as_dict().unwrap().get(b"street 1"),
        Some(&text(b"1 MAIN ST"))
    );
    let second = filers[1].as_dict().unwrap();
    assert_eq!(
        second.get(b"company data").unwrap().as_dict().unwrap().get(b"company conformed name"),
        Some(&text(b"BAR INC"))
    );
    assert_eq!(
        keys(&metadata),
        vec![
            b"privacy-enhanced-message".to_vec(),
            b"sec-document".to_vec(),
            b"accession number".to_vec(),
            b"filer".to_vec(),
            b"documents".to_vec()
        ]
    );
    assert_eq!(documents, vec![b"body\n".to_vec()]);
}

#[test]
fn tab_default_header() {
    let data = b"<SEC-DOCUMENT>x.txt : 1\n</SEC-HEADER>\nFOO: a > b\nno separator here\nBAR:\n  BAZ: 1\n  BAZ: 2\nQUX: 3\n";
    let dict = parse_tab_header(data, data.len(), &SubmissionType::TabDefault);
    assert_eq!(
        keys(&dict),
        vec![b"sec-document".to_vec(), b"foo".to_vec(), b"bar".to_vec(), b"qux".to_vec()]
    );
    assert_eq!(dict.get(b"foo"), Some(&text(b"a > b")));
    assert_eq!(
        dict.get(b"bar").unwrap().as_dict().unwrap().get(b"baz"),
        Some(&MetadataValue::List(vec![text(b"1"), text(b"2")]))
    );
    assert_eq!(dict.get(b"qux"), Some(&text(b"3")));
    let same = parse_header_metadata(data, data.len(), &SubmissionType::TabDefault);
    assert_eq!(same, dict);
    // Without the privacy dialect the marker line is an ordinary line.
    let plain = b"-----BEGIN PRIVACY-ENHANCED MESSAGE-----\nA: 1\n";
    let dict = parse_tab_header(plain, plain.len(), &SubmissionType::TabDefault);
    assert_eq!(keys(&dict), vec![b"a".to_vec()]);
    let dict = parse_tab_header(plain, plain.len(), &SubmissionType::TabPrivacy);
    assert_eq!(dict.get(b"privacy-enhanced-message"), Some(&text(b"A: 1")));
    assert_eq!(dict.len(), 1);
}

#[test]
fn uu_payload_is_decoded() {
    let payload: &[u8] = b"begin 644 img.gif\n31TE&.#EA`0`!`(```/___P``````\n`\nend\n";
    let mut input = b"<SUBMISSION>\n<DOCUMENT>\n<TYPE>GRAPHIC\n<FILENAME>img.gif\n<TEXT>\n".to_vec();
    input.extend_from_slice(payload);
    input.extend_from_slice(b"</TEXT>\n</DOCUMENT>\n");
    let (metadata, documents) = parse_sgml_bytes(&input).unwrap();
    let expected = b"GIF89a\x01\x00\x01\x00\x80\x00\x00\xff\xff\xff\x00\x00\x00".to_vec();
    assert_eq!(documents, vec![expected.clone()]);
    assert_eq!(secsgml::uu_decoder::decode(payload), expected);
    assert_eq!(documents_of(&metadata).len(), 1);
}

#[test]
fn content_before_text_close_on_its_line_belongs_to_the_payload() {
    let input = b"<SUBMISSION>\n<DOCUMENT>\n<TYPE>X\n<TEXT>\nfirst\n  trailing</TEXT>\n</DOCUMENT>\n";
    let (_, documents) = parse_sgml_bytes(input).unwrap();
    assert_eq!(documents.len(), 1);
    assert!(documents[0].ends_with(b"trailing"));
    assert_eq!(documents[0], b"first\n  trailing".to_vec());
}

#[test]
fn empty_input_is_invalid_content() {
    assert_eq!(
        parse_sgml_bytes(b""),
        Err(ParseError::InvalidContent("Empty content".to_string()))
    );
    assert_eq!(
        parse_sgml_bytes(b"\n\r\n\n"),
        Err(ParseError::InvalidContent("Empty content".to_string()))
    );
}

#[test]
fn unknown_first_line_is_rejected() {
    assert_eq!(
        parse_sgml_bytes(b"<HTML>\n<SUBMISSION>\n"),
        Err(ParseError::UnknownSubmissionType(b"<HTML>".to_vec()))
    );
    let long = vec![b'x'; 150];
    assert_eq!(
        parse_sgml_bytes(&long),
        Err(ParseError::UnknownSubmissionType(vec![b'x'; 100]))
    );
    assert_eq!(
        detect_submission_type(b" <SUBMISSION>"),
        Err(ParseError::UnknownSubmissionType(b" <SUBMISSION>".to_vec()))
    );
}

#[test]
fn dialect_markers() {
    assert_eq!(detect_submission_type(b"<SUBMISSION>"), Ok(SubmissionType::DashedDefault));
    assert_eq!(
        detect_submission_type(b"-----BEGIN PRIVACY-ENHANCED MESSAGE-----"),
        Ok(SubmissionType::TabPrivacy)
    );
    assert_eq!(
        detect_submission_type(b"<SEC-DOCUMENT>0001.txt : 2001"),
        Ok(SubmissionType::TabDefault)
    );
    let (metadata, documents) = parse_sgml_bytes(b"\n\n<SEC-DOCUMENT>0001.txt\n").unwrap();
    assert_eq!(metadata.get(b"sec-document"), Some(&text(b"0001.txt")));
    assert_eq!(metadata.get(b"documents"), Some(&MetadataValue::List(vec![])));
    assert!(documents.is_empty());
}

#[test]
fn document_without_closing_tag_is_dropped() {
    let input = b"<SUBMISSION>\n<TYPE>A\n<DOCUMENT>\n<TYPE>B\n<TEXT>\nx\n</TEXT>\n";
    let (metadata, documents) = parse_sgml_bytes(input).unwrap();
    assert!(documents.is_empty());
    assert!(documents_of(&metadata).is_empty());
    assert_eq!(metadata.get(b"type"), Some(&text(b"A")));
}

#[test]
fn text_not_followed_by_document_close_is_not_accepted() {
    let input = b"<SUBMISSION>\n<DOCUMENT>\n<TYPE>B\n<TEXT>\nx\n</TEXT>\nstray\n</DOCUMENT>\n<DOCUMENT>\n<TYPE>C\n<TEXT>\ny\n</TEXT>\n</DOCUMENT>\n";
    let (metadata, documents) = parse_sgml_bytes(input).unwrap();
    assert_eq!(documents, vec![b"y\n".to_vec()]);
    let docs = documents_of(&metadata);
    assert_eq!(docs.len(), 1);
    assert_eq!(docs[0].as_dict().unwrap().get(b"type"), Some(&text(b"C")));
}

#[test]
fn documents_and_their_metadata_are_parallel() {
    let input = b"<SUBMISSION>\n<DOCUMENT>\n<TYPE>A\n<TEXT>\n1\n</TEXT>\n</DOCUMENT>\n<DOCUMENT>\n<TYPE>B\n</DOCUMENT>\n<DOCUMENT>\n<TYPE>C\n<TEXT>\n3\n</TEXT>\n</DOCUMENT>\n";
    let (metadata, documents) = parse_sgml_bytes(input).unwrap();
    let docs = documents_of(&metadata);
    assert_eq!(docs.len(), documents.len());
    assert_eq!(documents, vec![b"1\n".to_vec(), b"3\n".to_vec()]);
    assert_eq!(docs[0].as_dict().unwrap().get(b"type"), Some(&text(b"A")));
    assert_eq!(docs[1].as_dict().unwrap().get(b"type"), Some(&text(b"C")));
}

#[test]
fn parsing_twice_gives_the_same() {
    let input = b"<SUBMISSION>\n<A>1\n<A>2\n<DOCUMENT>\n<TYPE>A\n<TEXT>\n1\n</TEXT>\n</DOCUMENT>\n";
    assert_eq!(parse_sgml_bytes(input), parse_sgml_bytes(input));
}

#[test]
fn document_metadata_lines() {
    let data = b"\n<TYPE>EX-99\n<DESCRIPTION>PRESS\n RELEASE \n<type>second\n<EMPTY>\nmore\n";
    let dict = parse_document_metadata(data, 0, data.len());
    assert_eq!(keys(&dict), vec![b"type".to_vec(), b"description".to_vec(), b"empty".to_vec()]);
    assert_eq!(dict.get(b"type"), Some(&text(b"second")));
    assert_eq!(dict.get(b"description"), Some(&text(b"PRESS RELEASE")));
    assert_eq!(dict.get(b"empty"), Some(&text(b" more")));
    let none = parse_document_metadata(b"orphan\n", 0, 7);
    assert_eq!(none.len(), 0);
}

#[test]
fn keys_are_lower_case() {
    let input = b"<SUBMISSION>\n<Mixed-CASE>v\n<OUTER>\n<Inner>w\n</OUTER>\n<DOCUMENT>\n<FileName>N\n<TEXT>\n1\n</TEXT>\n</DOCUMENT>\n";
    let (metadata, _) = parse_sgml_bytes(input).unwrap();
    assert_eq!(
        keys(&metadata),
        vec![b"mixed-case".to_vec(), b"outer".to_vec(), b"documents".to_vec()]
    );
    assert_eq!(keys(metadata.get(b"outer").unwrap().as_dict().unwrap()), vec![b"inner".to_vec()]);
    assert_eq!(
        keys(documents_of(&metadata)[0].as_dict().unwrap()),
        vec![b"filename".to_vec()]
    );
}

#[test]
fn wrappers_are_stripped() {
    assert_eq!(clean_lines(b"\n \n<PDF>\nbegin 644 a.pdf\n#0V%T\nend\n</PDF>\n"), b"begin 644 a.pdf\n#0V%T\nend\n");
    assert_eq!(clean_lines(b"<XML>\n<a/>\n</XML>\n</XML>\n"), b"<a/>\n</XML>\n");
    assert_eq!(clean_lines(b"<XBRL>\n</XBRL>"), b"");
    assert_eq!(clean_lines(b"<XML>\n<a/>\n"), b"<XML>\n<a/>\n");
    assert_eq!(clean_lines(b"<XML>\n</PDF>\n"), b"<XML>\n</PDF>\n");
    assert_eq!(clean_lines(b"\n\n  plain\n"), b"  plain\n");
    assert_eq!(clean_lines(b" \n\t\n"), b"");
    assert_eq!(process_text_content(b"\n<PDF>\nbegin 644 a.pdf\n#0V%T\n`\nend\n</PDF>\n"), b"Cat".to_vec());
    assert_eq!(process_text_content(b"\n<XML>\n  <a/>\n</XML>\n"), b"<a/>\n".to_vec());
    assert_eq!(process_text_content(b""), Vec::<u8>::new());
}

#[test]
fn uu_detection() {
    assert!(detect_uu(b"begin 644 file"));
    assert!(detect_uu(b"  \tbegin"));
    assert!(!detect_uu(b"Begin 644 file"));
    assert!(!detect_uu(b"end"));
    assert!(!detect_uu(b""));
}

#[test]
fn payload_takes_the_leftover_recorded_for_its_close() {
    let data = b"<TEXT>body</TEXT>tail";
    let none: Vec<(usize, Span)> = Vec::new();
    assert_eq!(text_payload(data, &none, 0, 10), b"body".to_vec());
    let some = vec![(3, Span { start: 0, end: 1 }), (10, Span { start: 17, end: 21 })];
    assert_eq!(text_payload(data, &some, 0, 10), b"bodytail".to_vec());
}

#[test]
fn insert_or_append_promotes() {
    let mut dict = MetadataDict::new();
    dict.insert_or_append(b"k".to_vec(), text(b"1"));
    assert_eq!(dict.get(b"k"), Some(&text(b"1")));
    dict.insert_or_append(b"other".to_vec(), text(b"x"));
    dict.insert_or_append(b"k".to_vec(), text(b"2"));
    assert_eq!(dict.get(b"k"), Some(&MetadataValue::List(vec![text(b"1"), text(b"2")])));
    dict.insert_or_append(b"k".to_vec(), MetadataValue::Dict(MetadataDict::new()));
    assert_eq!(
        dict.get(b"k"),
        Some(&MetadataValue::List(vec![
            text(b"1"),
            text(b"2"),
            MetadataValue::Dict(MetadataDict::new())
        ]))
    );
    assert_eq!(keys(&dict), vec![b"k".to_vec(), b"other".to_vec()]);
    dict.set(b"k".to_vec(), text(b"3"));
    assert_eq!(dict.get(b"k"), Some(&text(b"3")));
    assert_eq!(keys(&dict), vec![b"k".to_vec(), b"other".to_vec()]);
    dict.append_to_text(b"k", b"+");
    dict.append_to_text(b"absent", b"+");
    assert_eq!(dict.get(b"k"), Some(&text(b"3+")));
    assert_eq!(dict.get(b"absent"), None);
    assert_eq!(dict.len(), 2);
    assert_eq!(text(b"a").as_text(), Some(&b"a".to_vec()));
    assert_eq!(text(b"a").as_dict(), None);
    assert_eq!(text(b"a").as_list(), None);
}

#[test]
fn carriage_returns_are_not_part_of_lines() {
    let input = b"<SUBMISSION>\r\n<TYPE>10-K\r\n<GROUP>\r\n<NAME>n\r\n</GROUP>\r\n<DOCUMENT>\r\n<TYPE>X\r\n<TEXT>\r\nHello.\r\n</TEXT>\r\n</DOCUMENT>\r\n";
    let (metadata, documents) = parse_sgml_bytes(input).unwrap();
    assert_eq!(metadata.get(b"type"), Some(&text(b"10-K")));
    assert_eq!(
        metadata.get(b"group").unwrap().as_dict().unwrap().get(b"name"),
        Some(&text(b"n"))
    );
    assert_eq!(documents_of(&metadata)[0].as_dict().unwrap().get(b"type"), Some(&text(b"X")));
    assert_eq!(documents, vec![b"Hello.\r\n".to_vec()]);
}

#[test]
fn root_block_is_never_closed() {
    let data = b"</>\n<A>1\n</>\n<B>2\n";
    let dict = parse_dashed_default_header(data, data.len());
    assert_eq!(keys(&dict), vec![b"a".to_vec(), b"b".to_vec()]);
    assert_eq!(parse_dashed_default_header(b"", 0).len(), 0);
    assert_eq!(parse_tab_header(b"", 0, &SubmissionType::TabPrivacy).len(), 0);
}

#[test]
fn wrapped_document_inside_a_submission() {
    let input = b"<SEC-DOCUMENT>0001.txt : 2001\n<DOCUMENT>\n<TYPE>EX-27\n<TEXT>\n<XBRL>\n<x>1</x>\n</XBRL>\n</TEXT>\n</DOCUMENT>\n";
    let (metadata, documents) = parse_sgml_bytes(input).unwrap();
    assert_eq!(documents, vec![b"<x>1</x>\n".to_vec()]);
    assert_eq!(documents_of(&metadata).len(), 1);
}
