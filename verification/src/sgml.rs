use vstd::prelude::*;
use vstd::slice::slice_subrange;
use vstd::string::*;
use crate::bytes::{
    append_bytes, bytes_eq, has_prefix, index_lines, lemma_line_spans_increase, line_spans,
    lines_of, spans_within, starts_with, to_vec, trim, trim_ascii, trim_ascii_start, trim_start,
};
use crate::doc_meta::{document_metadata, parse_document_metadata};
use crate::header::{header_metadata, parse_header_metadata};
use crate::index::{
    build_document_index, document_spans, header_end_of, ordered_spans, text_spans, Span,
};
use crate::tags::{
    begin_word, begin_word_bytes, documents_key, documents_key_bytes, pdf_close, pdf_close_bytes,
    pdf_open, pdf_open_bytes, privacy_marker, privacy_marker_bytes, sec_document_marker,
    sec_document_marker_bytes, submission_marker, submission_marker_bytes, xbrl_close,
    xbrl_close_bytes, xbrl_open, xbrl_open_bytes, xml_close, xml_close_bytes, xml_open,
    xml_open_bytes,
};
use crate::laws::{lemma_documents_parallel_to_metadata, lemma_parsed_tree_well_formed};
use crate::types::{
    dict_get, dict_set, dict_well_formed, lemma_dict_value_view, lemma_list_value_view, values_view, Meta, MetadataDict,
    MetadataValue, ParseError, SubmissionType,
};
use crate::uu_decoder::{decode, uu_decoded};

verus! {

/// The dialect that a first line announces, if any.
pub open spec fn dialect_of(first_line: Seq<u8>) -> Option<SubmissionType> {
    if has_prefix(first_line, submission_marker()) {
        Some(SubmissionType::DashedDefault)
    } else if has_prefix(first_line, privacy_marker()) {
        Some(SubmissionType::TabPrivacy)
    } else if has_prefix(first_line, sec_document_marker()) {
        Some(SubmissionType::TabDefault)
    } else {
        None
    }
}

/// At most the first hundred bytes of a line.
pub open spec fn line_head(line: Seq<u8>) -> Seq<u8> {
    if line.len() > 100 {
        line.subrange(0, 100)
    } else {
        line
    }
}

/// Tells the dialect from the first line of a submission. A line that begins
/// with none of the three markers is an error that holds the head of the line.
pub fn detect_submission_type(first_line: &[u8]) -> (r: Result<SubmissionType, ParseError>)
    ensures
        match r {
            Ok(t) => dialect_of(first_line@) == Some(t),
            Err(e) => dialect_of(first_line@) is None && (e matches ParseError::UnknownSubmissionType(
                head,
            ) && head@ == line_head(first_line@)),
        },
{
    if starts_with(first_line, submission_marker_bytes().as_slice()) {
        Ok(SubmissionType::DashedDefault)
    } else if starts_with(first_line, privacy_marker_bytes().as_slice()) {
        Ok(SubmissionType::TabPrivacy)
    } else if starts_with(first_line, sec_document_marker_bytes().as_slice()) {
        Ok(SubmissionType::TabDefault)
    } else {
        let n = first_line.len();
        let head = if n > 100 {
            to_vec(slice_subrange(first_line, 0, 100))
        } else {
            to_vec(first_line)
        };
        Err(ParseError::UnknownSubmissionType(head))
    }
}

/// A line announces a UU-encoded body: trimmed, it begins with `begin`.
pub open spec fn is_uu(first_line: Seq<u8>) -> bool {
    has_prefix(trim(first_line), begin_word())
}

/// Tells whether a line announces a UU-encoded body.
pub fn detect_uu(first_line: &[u8]) -> (r: bool)
    ensures
        r == is_uu(first_line@),
{
    starts_with(trim_ascii(first_line), begin_word_bytes().as_slice())
}

/// The first index at or after `i` of a line that is not blank, or the number of lines.
pub open spec fn first_content(lines: Seq<Seq<u8>>, i: int) -> int
    decreases lines.len() - i,
{
    if 0 <= i < lines.len() {
        if trim(lines[i]).len() > 0 {
            i
        } else {
            first_content(lines, i + 1)
        }
    } else {
        lines.len() as int
    }
}

/// The last index before `j` of a line that, trimmed, reads `want`; -1 where there is none.
pub open spec fn last_match(lines: Seq<Seq<u8>>, want: Seq<u8>, j: int) -> int
    decreases j,
{
    if j <= 0 || j > lines.len() {
        -1
    } else if trim(lines[j - 1]) == want {
        j - 1
    } else {
        last_match(lines, want, j - 1)
    }
}

/// The closing tag that belongs to a wrapper line, if the line is one of the
/// three wrappers.
pub open spec fn wrapper_close(line: Seq<u8>) -> Option<Seq<u8>> {
    if line == pdf_open() {
        Some(pdf_close())
    } else if line == xbrl_open() {
        Some(xbrl_close())
    } else if line == xml_open() {
        Some(xml_close())
    } else {
        None
    }
}

/// A text payload without its leading blank lines and without its wrapper:
/// where the first line that is not blank is `<PDF>`, `<XBRL>` or `<XML>` and a
/// later line closes it, what stands between that line and the last closing
/// line; otherwise everything from the first line that is not blank.
pub open spec fn cleaned(data: Seq<u8>) -> Seq<u8> {
    let spans = line_spans(data);
    let lines = lines_of(data);
    let f = first_content(lines, 0);
    if f >= lines.len() {
        Seq::empty()
    } else {
        let c = match wrapper_close(trim(lines[f])) {
            Some(want) => last_match(lines, want, lines.len() as int),
            None => -1,
        };
        if c > f {
            data.subrange(spans[f + 1].0 as int, spans[c].0 as int)
        } else {
            data.subrange(spans[f].0 as int, data.len() as int)
        }
    }
}

/// Finds the first line that is not blank.
fn find_first_content(data: &[u8], spans: &Vec<(usize, usize)>) -> (r: usize)
    requires
        spans@ == line_spans(data@),
        spans_within(spans@, data@.len() as int),
    ensures
        r == first_content(lines_of(data@), 0),
        r <= spans.len(),
{
    let ghost lines = lines_of(data@);
    let mut i: usize = 0;
    while i < spans.len()
        invariant
            i <= spans.len(),
            spans@ == line_spans(data@),
            spans_within(spans@, data@.len() as int),
            lines == lines_of(data@),
            first_content(lines, 0) == first_content(lines, i as int),
        decreases spans.len() - i,
    {
        let (s, e) = spans[i];
        let line = slice_subrange(data, s, e);
        assert(line@ == lines[i as int]);
        if trim_ascii(line).len() > 0 {
            return i;
        }
        i += 1;
    }
    i
}

/// Finds the last line that, trimmed, reads `want`.
fn find_last_match(data: &[u8], spans: &Vec<(usize, usize)>, want: &[u8]) -> (r: Option<usize>)
    requires
        spans@ == line_spans(data@),
        spans_within(spans@, data@.len() as int),
    ensures
        match r {
            Some(c) => c < spans.len() && last_match(lines_of(data@), want@, spans.len() as int)
                == c,
            None => last_match(lines_of(data@), want@, spans.len() as int) == -1,
        },
{
    let ghost lines = lines_of(data@);
    let mut j: usize = spans.len();
    while j > 0
        invariant
            j <= spans.len(),
            spans@ == line_spans(data@),
            spans_within(spans@, data@.len() as int),
            lines == lines_of(data@),
            last_match(lines, want@, spans.len() as int) == last_match(lines, want@, j as int),
        decreases j,
    {
        let (s, e) = spans[j - 1];
        let line = slice_subrange(data, s, e);
        assert(line@ == lines[j - 1]);
        if bytes_eq(trim_ascii(line), want) {
            return Some(j - 1);
        }
        j -= 1;
    }
    None
}

/// Cuts the leading blank lines and the `<PDF>`, `<XBRL>` or `<XML>` wrapper
/// off a text payload.
pub fn clean_lines(data: &[u8]) -> (r: &[u8])
    ensures
        r@ == cleaned(data@),
{
    let spans = index_lines(data);
    let n = data.len();
    let f = find_first_content(data, &spans);
    if f >= spans.len() {
        let r = slice_subrange(data, n, n);
        assert(r@ =~= Seq::<u8>::empty());
        return r;
    }
    let (s, e) = spans[f];
    let first = trim_ascii(slice_subrange(data, s, e));
    assert(first@ == trim(lines_of(data@)[f as int]));
    let close: Option<Vec<u8>> = if bytes_eq(first, pdf_open_bytes().as_slice()) {
        Some(pdf_close_bytes())
    } else if bytes_eq(first, xbrl_open_bytes().as_slice()) {
        Some(xbrl_close_bytes())
    } else if bytes_eq(first, xml_open_bytes().as_slice()) {
        Some(xml_close_bytes())
    } else {
        None
    };
    match close {
        Some(want) => {
            match find_last_match(data, &spans, want.as_slice()) {
                Some(c) => {
                    if c > f {
                        proof {
                            lemma_line_spans_increase(data@);
                        }
                        return slice_subrange(data, spans[f + 1].0, spans[c].0);
                    }
                },
                None => {},
            }
        },
        None => {},
    }
    slice_subrange(data, s, n)
}

/// What a text payload becomes: cleaned and without leading whitespace, then
/// UU-decoded where it announces a UU-encoded body, else as it is.
pub open spec fn processed(payload: Seq<u8>) -> Seq<u8> {
    let body = trim_start(cleaned(payload));
    if is_uu(body) {
        uu_decoded(body)
    } else {
        body
    }
}

/// Turns a text payload into the bytes of the document.
pub fn process_text_content(payload: &[u8]) -> (r: Vec<u8>)
    ensures
        r@ == processed(payload@),
{
    let body = trim_ascii_start(clean_lines(payload));
    if detect_uu(body) {
        decode(body)
    } else {
        to_vec(body)
    }
}

/// The first index at or after `k` of a leftover span recorded for the closing
/// tag at `close`, or the number of leftovers.
pub open spec fn leftover_for(leftovers: Seq<(usize, Span)>, close: usize, k: int) -> int
    decreases leftovers.len() - k,
{
    if 0 <= k < leftovers.len() {
        if leftovers[k].0 == close {
            k
        } else {
            leftover_for(leftovers, close, k + 1)
        }
    } else {
        leftovers.len() as int
    }
}

/// Every leftover span is a range within `len`.
pub open spec fn leftovers_within(leftovers: Seq<(usize, Span)>, len: int) -> bool {
    forall|k: int| 0 <= k < leftovers.len() ==> (#[trigger] leftovers[k]).1.start <= leftovers[k].1.end <= len
}

/// The payload of a text segment: the bytes between `<TEXT>` and `</TEXT>`,
/// followed by the leftover span recorded for that `</TEXT>`, if there is one.
pub open spec fn payload_bytes(data: Seq<u8>, leftovers: Seq<(usize, Span)>, open: int, close: int) -> Seq<u8> {
    let body = data.subrange(open + 6, close);
    let l = leftover_for(leftovers, close as usize, 0);
    if l < leftovers.len() {
        body + data.subrange(leftovers[l].1.start as int, leftovers[l].1.end as int)
    } else {
        body
    }
}

/// Assembles the payload of the text segment whose tags stand at `open` and `close`.
pub fn text_payload(data: &[u8], leftovers: &Vec<(usize, Span)>, open: usize, close: usize) -> (r: Vec<u8>)
    requires
        open + 6 <= close <= data.len(),
        leftovers_within(leftovers@, data@.len() as int),
    ensures
        r@ == payload_bytes(data@, leftovers@, open as int, close as int),
{
    let mut out = to_vec(slice_subrange(data, open + 6, close));
    let mut k: usize = 0;
    while k < leftovers.len()
        invariant
            k <= leftovers.len(),
            leftovers_within(leftovers@, data@.len() as int),
            out@ == data@.subrange(open + 6, close as int),
            leftover_for(leftovers@, close, 0) == leftover_for(leftovers@, close, k as int),
        decreases leftovers.len() - k,
    {
        if leftovers[k].0 == close {
            let span = leftovers[k].1;
            append_bytes(&mut out, slice_subrange(data, span.start, span.end));
            return out;
        }
        k += 1;
    }
    out
}

/// A text segment lies inside a document: it opens behind the document's
/// opening tag and closes before the document's closing tag.
pub open spec fn text_inside(doc: (usize, usize), text: (usize, usize)) -> bool {
    doc.0 + 10 <= text.0 && text.0 + 6 <= text.1 && text.1 < doc.1
}

/// The first index at or after `k` of a text segment inside `doc`, or the
/// number of text segments.
pub open spec fn text_for(texts: Seq<(usize, usize)>, doc: (usize, usize), k: int) -> int
    decreases texts.len() - k,
{
    if 0 <= k < texts.len() {
        if text_inside(doc, texts[k]) {
            k
        } else {
            text_for(texts, doc, k + 1)
        }
    } else {
        texts.len() as int
    }
}

/// The metadata of the first `n` documents that have a text segment, in order.
pub open spec fn document_metas(data: Seq<u8>, docs: Seq<(usize, usize)>, texts: Seq<(usize, usize)>, n: int) -> Seq<Meta>
    decreases n,
{
    if n <= 0 {
        Seq::empty()
    } else {
        let prev = document_metas(data, docs, texts, n - 1);
        let t = text_for(texts, docs[n - 1], 0);
        if t < texts.len() {
            prev.push(Meta::Dict(document_metadata(data.subrange(docs[n - 1].0 + 10, texts[t].0 as int))))
        } else {
            prev
        }
    }
}

/// The bytes of the first `n` documents that have a text segment, in order.
pub open spec fn document_payloads(
    data: Seq<u8>,
    docs: Seq<(usize, usize)>,
    texts: Seq<(usize, usize)>,
    leftovers: Seq<(usize, Span)>,
    n: int,
) -> Seq<Seq<u8>>
    decreases n,
{
    if n <= 0 {
        Seq::empty()
    } else {
        let prev = document_payloads(data, docs, texts, leftovers, n - 1);
        let t = text_for(texts, docs[n - 1], 0);
        if t < texts.len() {
            prev.push(processed(payload_bytes(data, leftovers, texts[t].0 as int, texts[t].1 as int)))
        } else {
            prev
        }
    }
}

/// The two sequences have one entry for each of the first `n` documents that
/// has a text segment.
pub proof fn lemma_documents_parallel(
    data: Seq<u8>,
    docs: Seq<(usize, usize)>,
    texts: Seq<(usize, usize)>,
    leftovers: Seq<(usize, Span)>,
    n: int,
)
    ensures
        document_metas(data, docs, texts, n).len() == document_payloads(
            data,
            docs,
            texts,
            leftovers,
            n,
        ).len(),
    decreases n,
{
    if n > 0 {
        lemma_documents_parallel(data, docs, texts, leftovers, n - 1);
    }
}

/// The first index at or after `i` of a line that holds at least one byte, or
/// the number of lines.
pub open spec fn first_nonempty(lines: Seq<Seq<u8>>, i: int) -> int
    decreases lines.len() - i,
{
    if 0 <= i < lines.len() {
        if lines[i].len() > 0 {
            i
        } else {
            first_nonempty(lines, i + 1)
        }
    } else {
        lines.len() as int
    }
}

/// Model of what parsing a submission gives.
pub ghost enum Outcome {
    /// The metadata tree and the documents' bytes.
    Parsed { metadata: Seq<(Seq<u8>, Meta)>, documents: Seq<Seq<u8>> },
    /// The first non-empty line begins with no dialect marker.
    UnknownSubmissionType { head: Seq<u8> },
    /// The input holds no non-empty line.
    InvalidContent,
}

/// The byte strings that a vector of documents holds.
pub open spec fn payloads_view(documents: Seq<Vec<u8>>) -> Seq<Seq<u8>> {
    Seq::new(documents.len(), |i: int| documents[i]@)
}

/// The model of a parse result.
pub open spec fn outcome_view(r: Result<(MetadataDict, Vec<Vec<u8>>), ParseError>) -> Outcome {
    match r {
        Ok((metadata, documents)) => Outcome::Parsed {
            metadata: metadata@,
            documents: payloads_view(documents@),
        },
        Err(ParseError::UnknownSubmissionType(head)) => Outcome::UnknownSubmissionType { head: head@ },
        Err(ParseError::InvalidContent(_)) => Outcome::InvalidContent,
    }
}

/// What parsing `data` gives. Input without a non-empty line, the empty input
/// included, is invalid content. Otherwise the first non-empty line decides the
/// dialect; the header before the first `<DOCUMENT>` gives the metadata; each
/// document that has a text segment gives one entry under `documents` and one
/// byte string.
pub open spec fn parse_model(data: Seq<u8>) -> Outcome {
    let lines = lines_of(data);
    let f = first_nonempty(lines, 0);
    if f >= lines.len() {
        Outcome::InvalidContent
    } else {
        match dialect_of(lines[f]) {
            None => Outcome::UnknownSubmissionType { head: line_head(lines[f]) },
            Some(dialect) => {
                let docs = document_spans(data, 0);
                let texts = text_spans(data, 0);
                let n = docs.len() as int;
                let header = header_metadata(lines_of(data.subrange(0, header_end_of(data))), dialect);
                Outcome::Parsed {
                    metadata: dict_set(
                        header,
                        documents_key(),
                        Meta::List(document_metas(data, docs, texts, n)),
                    ),
                    documents: document_payloads(data, docs, texts, Seq::empty(), n),
                }
            },
        }
    }
}

/// Finds the first text segment that lies inside a document.
fn find_text_for(texts: &Vec<(usize, usize)>, doc: (usize, usize)) -> (r: Option<usize>)
    ensures
        match r {
            Some(t) => t < texts.len() && text_for(texts@, doc, 0) == t && text_inside(doc, texts@[t as int]),
            None => text_for(texts@, doc, 0) == texts.len(),
        },
{
    let mut k: usize = 0;
    while k < texts.len()
        invariant
            k <= texts.len(),
            text_for(texts@, doc, 0) == text_for(texts@, doc, k as int),
        decreases texts.len() - k,
    {
        let (open, close) = texts[k];
        if doc.0 <= usize::MAX - 10 && doc.0 + 10 <= open && open <= usize::MAX - 6 && open + 6 <= close && close < doc.1 {
            return Some(k);
        }
        k += 1;
    }
    None
}

/// Finds the first line that holds at least one byte.
fn find_first_nonempty(spans: &Vec<(usize, usize)>, data: &[u8]) -> (r: usize)
    requires
        spans@ == line_spans(data@),
        spans_within(spans@, data@.len() as int),
    ensures
        r == first_nonempty(lines_of(data@), 0),
        r <= spans.len(),
{
    let ghost lines = lines_of(data@);
    let mut i: usize = 0;
    while i < spans.len()
        invariant
            i <= spans.len(),
            spans@ == line_spans(data@),
            spans_within(spans@, data@.len() as int),
            lines == lines_of(data@),
            first_nonempty(lines, 0) == first_nonempty(lines, i as int),
        decreases spans.len() - i,
    {
        let (s, e) = spans[i];
        assert(lines[i as int].len() == e - s);
        if e > s {
            return i;
        }
        i += 1;
    }
    i
}

/// Parses a submission held in memory into its metadata tree and the bytes of
/// its documents. The result is a function of the input bytes alone.
pub fn parse_sgml_bytes(data: &[u8]) -> (r: Result<(MetadataDict, Vec<Vec<u8>>), ParseError>)
    ensures
        outcome_view(r) == parse_model(data@),
        r matches Err(ParseError::InvalidContent(message)) ==> message@ == "Empty content"@,
        r matches Ok((metadata, documents)) ==> dict_well_formed(metadata@) && (dict_get(
            metadata@,
            documents_key(),
        ) matches Some(Meta::List(items)) && items.len() == documents@.len()),
{
    let spans = index_lines(data);
    let ghost lines = lines_of(data@);
    let f = find_first_nonempty(&spans, data);
    if f >= spans.len() {
        return Err(ParseError::InvalidContent(String::from_str("Empty content")));
    }
    let (s, e) = spans[f];
    let first_line = slice_subrange(data, s, e);
    assert(first_line@ == lines[f as int]);
    let dialect = match detect_submission_type(first_line) {
        Ok(d) => d,
        Err(err) => {
            return Err(err);
        },
    };
    let index = build_document_index(data);
    let mut metadata = parse_header_metadata(data, index.header_end, &dialect);
    let ghost docs = document_spans(data@, 0);
    let ghost texts = text_spans(data@, 0);
    let mut documents: Vec<Vec<u8>> = Vec::new();
    let mut metas: Vec<MetadataValue> = Vec::new();
    let mut i: usize = 0;
    while i < index.document_positions.len()
        invariant
            i <= index.document_positions.len(),
            index.document_positions@ == docs,
            index.text_positions@ == texts,
            index.text_leftovers@.len() == 0,
            ordered_spans(docs, data@.len() as int),
            values_view(metas@) == document_metas(data@, docs, texts, i as int),
            payloads_view(documents@) == document_payloads(data@, docs, texts, Seq::empty(), i as int),
        decreases index.document_positions.len() - i,
    {
        let doc = index.document_positions[i];
        match find_text_for(&index.text_positions, doc) {
            Some(t) => {
                let (open, close) = index.text_positions[t];
                let doc_meta = parse_document_metadata(data, doc.0 + 10, open);
                proof {
                    lemma_dict_value_view(doc_meta);
                }
                let ghost metas_before = values_view(metas@);
                metas.push(MetadataValue::Dict(doc_meta));
                assert(values_view(metas@) =~= metas_before.push(Meta::Dict(doc_meta@)));
                assert(index.text_leftovers@ =~= Seq::empty());
                let ghost payloads_before = payloads_view(documents@);
                let content = if index.text_leftovers.len() == 0 {
                    process_text_content(slice_subrange(data, open + 6, close))
                } else {
                    let payload = text_payload(data, &index.text_leftovers, open, close);
                    process_text_content(payload.as_slice())
                };
                documents.push(content);
                assert(payloads_view(documents@) =~= payloads_before.push(content@));
            },
            None => {},
        }
        i += 1;
    }
    proof {
        lemma_list_value_view(metas);
        lemma_parsed_tree_well_formed(data@);
        lemma_documents_parallel_to_metadata(data@);
        assert(payloads_view(documents@).len() == documents@.len());
    }
    metadata.set(documents_key_bytes(), MetadataValue::List(metas));
    Ok((metadata, documents))
}

} // verus!
