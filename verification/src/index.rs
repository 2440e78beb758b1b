use vstd::prelude::*;
use crate::bytes::{is_ws_byte, ws_from};
use crate::search::{find_from, find_tag, first_occurrence, lemma_first_exists, occurs_at};
use crate::tags::{
    doc_close, doc_close_bytes, doc_open, doc_open_bytes, text_close, text_close_bytes, text_open,
    text_open_bytes,
};

verus! {

/// A half-open range of offsets into the input.
#[derive(Debug, Clone, Copy, PartialEq, Eq, Structural)]
pub struct Span {
    pub start: usize,
    pub end: usize,
}

/// Where the parts of a submission lie: the end of the header, the documents
/// and the text segments as pairs of the offsets of their opening and closing
/// tags, and the leftover spans by the offset of the text's closing tag.
#[derive(Debug)]
pub struct DocumentIndex {
    pub document_positions: Vec<(usize, usize)>,
    pub text_positions: Vec<(usize, usize)>,
    pub header_end: usize,
    pub text_leftovers: Vec<(usize, Span)>,
}

impl DocumentIndex {
    /// An index that holds nothing yet.
    pub fn new() -> (r: DocumentIndex)
        ensures
            r.header_end == 0,
            r.document_positions@.len() == 0,
            r.text_positions@.len() == 0,
            r.text_leftovers@.len() == 0,
    {
        DocumentIndex {
            document_positions: Vec::new(),
            text_positions: Vec::new(),
            header_end: 0,
            text_leftovers: Vec::new(),
        }
    }
}

/// The offset of the first `<DOCUMENT>`, or the length where there is none.
pub open spec fn header_end_of(data: Seq<u8>) -> int {
    match find_from(data, doc_open(), 0) {
        Some(o) => o,
        None => data.len() as int,
    }
}

/// The documents from `pos` on: each `<DOCUMENT>` is paired with the next
/// `</DOCUMENT>` behind it, and the search goes on behind that. A `<DOCUMENT>`
/// that no `</DOCUMENT>` follows gives no pair.
pub open spec fn document_spans(data: Seq<u8>, pos: int) -> Seq<(usize, usize)>
    decreases data.len() - pos,
{
    match find_from(data, doc_open(), pos) {
        None => Seq::empty(),
        Some(o) => match find_from(data, doc_close(), o + 10) {
            None => Seq::empty(),
            Some(c) => if pos < c {
                seq![(o as usize, c as usize)] + document_spans(data, c + 11)
            } else {
                Seq::empty()
            },
        },
    }
}

/// A `</TEXT>` at `close` is accepted: behind it stands whitespace, if
/// anything, and then `</DOCUMENT>`.
pub open spec fn text_accepted(data: Seq<u8>, close: int) -> bool {
    occurs_at(data, doc_close(), ws_from(data, close + 7))
}

/// The text segments from `pos` on: each `<TEXT>` is paired with the nearest
/// `</TEXT>` behind it if that one is accepted, and the search goes on behind
/// it; otherwise the `<TEXT>` gives no pair and the search goes on behind it.
pub open spec fn text_spans(data: Seq<u8>, pos: int) -> Seq<(usize, usize)>
    decreases data.len() - pos,
{
    match find_from(data, text_open(), pos) {
        None => Seq::empty(),
        Some(t) => match find_from(data, text_close(), t + 6) {
            None => Seq::empty(),
            Some(c) => if pos <= t < c {
                if text_accepted(data, c) {
                    seq![(t as usize, c as usize)] + text_spans(data, c + 7)
                } else {
                    text_spans(data, t + 6)
                }
            } else {
                Seq::empty()
            },
        },
    }
}

/// Each pair is a non-empty range within `len`, and each ends before the next begins.
pub open spec fn ordered_spans(spans: Seq<(usize, usize)>, len: int) -> bool {
    &&& forall|k: int| 0 <= k < spans.len() ==> (#[trigger] spans[k]).0 < spans[k].1 <= len
    &&& forall|k: int, l: int| 0 <= k < l < spans.len() ==> (#[trigger] spans[k]).1 < (#[trigger] spans[l]).0
}

/// No pair begins before `pos`.
pub open spec fn spans_from(spans: Seq<(usize, usize)>, pos: int) -> bool {
    forall|k: int| 0 <= k < spans.len() ==> pos <= (#[trigger] spans[k]).0
}

/// What `find_from` names is a first occurrence.
pub proof fn lemma_find_from_some(hay: Seq<u8>, needle: Seq<u8>, from: int)
    requires
        find_from(hay, needle, from) is Some,
    ensures
        first_occurrence(hay, needle, from, find_from(hay, needle, from)->Some_0),
{
}

/// The document pairs are non-empty ranges within the input, in strictly
/// increasing order, and none overlaps another.
pub proof fn lemma_document_spans_ordered(data: Seq<u8>, pos: int)
    requires
        0 <= pos,
        data.len() <= usize::MAX,
    ensures
        ordered_spans(document_spans(data, pos), data.len() as int),
        spans_from(document_spans(data, pos), pos),
    decreases data.len() - pos,
{
    if let Some(o) = find_from(data, doc_open(), pos) {
        lemma_find_from_some(data, doc_open(), pos);
        if let Some(c) = find_from(data, doc_close(), o + 10) {
            lemma_find_from_some(data, doc_close(), o + 10);
            let rest = document_spans(data, c + 11);
            lemma_document_spans_ordered(data, c + 11);
            let all = seq![(o as usize, c as usize)] + rest;
            assert forall|k: int| 0 <= k < all.len() implies (#[trigger] all[k]).0 < all[k].1
                <= data.len() && pos <= all[k].0 by {
                if k > 0 {
                    assert(all[k] == rest[k - 1]);
                }
            }
            assert forall|k: int, l: int| 0 <= k < l < all.len() implies (#[trigger] all[k]).1 < (
            #[trigger] all[l]).0 by {
                assert(all[l] == rest[l - 1]);
                if k > 0 {
                    assert(all[k] == rest[k - 1]);
                }
            }
        }
    }
}

/// The text pairs are non-empty ranges within the input, in strictly
/// increasing order, and none overlaps another.
pub proof fn lemma_text_spans_ordered(data: Seq<u8>, pos: int)
    requires
        0 <= pos,
        data.len() <= usize::MAX,
    ensures
        ordered_spans(text_spans(data, pos), data.len() as int),
        spans_from(text_spans(data, pos), pos),
    decreases data.len() - pos,
{
    if let Some(t) = find_from(data, text_open(), pos) {
        lemma_find_from_some(data, text_open(), pos);
        if let Some(c) = find_from(data, text_close(), t + 6) {
            lemma_find_from_some(data, text_close(), t + 6);
            if text_accepted(data, c) {
                let rest = text_spans(data, c + 7);
                lemma_text_spans_ordered(data, c + 7);
                let all = seq![(t as usize, c as usize)] + rest;
                assert forall|k: int| 0 <= k < all.len() implies (#[trigger] all[k]).0 < all[k].1
                    <= data.len() && pos <= all[k].0 by {
                    if k > 0 {
                        assert(all[k] == rest[k - 1]);
                    }
                }
                assert forall|k: int, l: int| 0 <= k < l < all.len() implies (#[trigger] all[k]).1
                    < (#[trigger] all[l]).0 by {
                    assert(all[l] == rest[l - 1]);
                    if k > 0 {
                        assert(all[k] == rest[k - 1]);
                    }
                }
            } else {
                lemma_text_spans_ordered(data, t + 6);
            }
        }
    }
}

/// Each document pair ends at the first `</DOCUMENT>` behind its `<DOCUMENT>`.
pub open spec fn documents_closed(data: Seq<u8>, spans: Seq<(usize, usize)>) -> bool {
    forall|k: int|
        0 <= k < spans.len() ==> first_occurrence(
            data,
            doc_close(),
            (#[trigger] spans[k]).0 + 10,
            spans[k].1 as int,
        )
}

/// Each text pair begins at a `<TEXT>` and ends at an accepted `</TEXT>`, and
/// the next pair begins behind that `</TEXT>`.
pub open spec fn texts_accepted(data: Seq<u8>, spans: Seq<(usize, usize)>) -> bool {
    &&& forall|k: int|
        0 <= k < spans.len() ==> occurs_at(data, text_open(), (#[trigger] spans[k]).0 as int)
            && text_accepted(data, spans[k].1 as int)
    &&& forall|k: int, l: int|
        0 <= k < l < spans.len() ==> (#[trigger] spans[k]).1 + 7 <= (#[trigger] spans[l]).0
}

/// Each document pair ends at the first `</DOCUMENT>` behind its `<DOCUMENT>`.
pub proof fn lemma_documents_closed(data: Seq<u8>, pos: int)
    requires
        0 <= pos,
        data.len() <= usize::MAX,
    ensures
        documents_closed(data, document_spans(data, pos)),
    decreases data.len() - pos,
{
    if let Some(o) = find_from(data, doc_open(), pos) {
        lemma_find_from_some(data, doc_open(), pos);
        if let Some(c) = find_from(data, doc_close(), o + 10) {
            lemma_find_from_some(data, doc_close(), o + 10);
            let rest = document_spans(data, c + 11);
            lemma_documents_closed(data, c + 11);
            let all = seq![(o as usize, c as usize)] + rest;
            assert forall|k: int| 0 <= k < all.len() implies first_occurrence(
                data,
                doc_close(),
                (#[trigger] all[k]).0 + 10,
                all[k].1 as int,
            ) by {
                if k > 0 {
                    assert(all[k] == rest[k - 1]);
                }
            }
        }
    }
}

/// Each text pair begins at a `<TEXT>`, ends at an accepted `</TEXT>`, and the next
/// begins behind it.
pub proof fn lemma_texts_accepted(data: Seq<u8>, pos: int)
    requires
        0 <= pos,
        data.len() <= usize::MAX,
    ensures
        texts_accepted(data, text_spans(data, pos)),
    decreases data.len() - pos,
{
    if let Some(t) = find_from(data, text_open(), pos) {
        lemma_find_from_some(data, text_open(), pos);
        if let Some(c) = find_from(data, text_close(), t + 6) {
            lemma_find_from_some(data, text_close(), t + 6);
            if text_accepted(data, c) {
                let rest = text_spans(data, c + 7);
                lemma_texts_accepted(data, c + 7);
                lemma_text_spans_ordered(data, c + 7);
                let all = seq![(t as usize, c as usize)] + rest;
                assert forall|k: int| 0 <= k < all.len() implies occurs_at(
                    data,
                    text_open(),
                    (#[trigger] all[k]).0 as int,
                ) && text_accepted(data, all[k].1 as int) by {
                    if k > 0 {
                        assert(all[k] == rest[k - 1]);
                    }
                }
                assert forall|k: int, l: int| 0 <= k < l < all.len() implies (#[trigger] all[k]).1
                    + 7 <= (#[trigger] all[l]).0 by {
                    assert(all[l] == rest[l - 1]);
                    if k > 0 {
                        assert(all[k] == rest[k - 1]);
                    }
                }
            } else {
                lemma_texts_accepted(data, t + 6);
            }
        }
    }
}

/// A document holds at most one text segment: of two text segments, the
/// second does not lie between the tags of a document that the first lies
/// between.
pub proof fn lemma_one_text_per_document(data: Seq<u8>, d: int, i: int, j: int)
    requires
        data.len() <= usize::MAX,
        0 <= d < document_spans(data, 0).len(),
        0 <= i < j < text_spans(data, 0).len(),
        document_spans(data, 0)[d].0 + 10 <= text_spans(data, 0)[i].0,
        text_spans(data, 0)[i].1 < document_spans(data, 0)[d].1,
    ensures
        !(text_spans(data, 0)[j].1 < document_spans(data, 0)[d].1),
{
    let doc = document_spans(data, 0)[d];
    let first = text_spans(data, 0)[i];
    let second = text_spans(data, 0)[j];
    lemma_documents_closed(data, 0);
    lemma_texts_accepted(data, 0);
    lemma_text_spans_ordered(data, 0);
    let gap = first.1 + 7;
    let p = ws_from(data, gap);
    assert(occurs_at(data, doc_close(), p));
    assert(gap <= data.len()) by {
        if gap > data.len() {
            assert(ws_from(data, gap) == gap);
        }
    }
    crate::bytes::lemma_ws_from(data, gap);
    if second.1 < doc.1 {
        assert(doc.1 <= p) by {
            if p < doc.1 {
                assert(!occurs_at(data, doc_close(), p));
            }
        }
        assert(gap <= second.0 < p);
        assert(crate::bytes::is_ws(data[second.0 as int]));
        assert(data.subrange(second.0 as int, second.0 + 6)[0] == text_open()[0]);
    }
}

/// A `<DOCUMENT>` that no `</DOCUMENT>` follows gives no document.
pub proof fn lemma_unclosed_document_dropped(data: Seq<u8>)
    requires
        find_from(data, doc_close(), 0) is None,
    ensures
        document_spans(data, 0).len() == 0,
{
    if let Some(o) = find_from(data, doc_open(), 0) {
        if let Some(c) = find_from(data, doc_close(), o + 10) {
            lemma_find_from_some(data, doc_open(), 0);
            lemma_find_from_some(data, doc_close(), o + 10);
            lemma_first_exists(data, doc_close(), 0, c);
        }
    }
}

/// Tells whether the `</TEXT>` at `close` is followed by whitespace, if anything, and
/// `</DOCUMENT>`.
fn accepted_close(data: &[u8], close: usize, doc_close_tag: &[u8]) -> (r: bool)
    requires
        close + 7 <= data.len(),
        doc_close_tag@ == doc_close(),
    ensures
        r == text_accepted(data@, close as int),
{
    let mut p: usize = close + 7;
    while p < data.len() && is_ws_byte(data[p])
        invariant
            close + 7 <= p <= data.len(),
            ws_from(data@, close + 7) == ws_from(data@, p as int),
        decreases data.len() - p,
    {
        p += 1;
    }
    let n = data.len();
    if n - p < 11 {
        return false;
    }
    let found = find_tag(data, doc_close_tag, p);
    match found {
        Some(at) => {
            proof {
                lemma_find_from_some(data@, doc_close(), p as int);
            }
            at == p
        },
        None => {
            proof {
                if occurs_at(data@, doc_close(), p as int) {
                    lemma_first_exists(data@, doc_close(), p as int, p as int);
                }
            }
            false
        },
    }
}

/// Finds the header's end, the documents and the text segments of a submission.
/// No leftover span is recorded: behind an accepted `</TEXT>` nothing but
/// whitespace stands before the `</DOCUMENT>`.
pub fn build_document_index(data: &[u8]) -> (r: DocumentIndex)
    ensures
        r.header_end == header_end_of(data@),
        r.header_end <= data@.len(),
        r.document_positions@ == document_spans(data@, 0),
        r.text_positions@ == text_spans(data@, 0),
        r.text_leftovers@.len() == 0,
        ordered_spans(r.document_positions@, data@.len() as int),
        ordered_spans(r.text_positions@, data@.len() as int),
{
    let open = doc_open_bytes();
    let close = doc_close_bytes();
    let topen = text_open_bytes();
    let tclose = text_close_bytes();
    let n = data.len();
    let header_end = match find_tag(data, open.as_slice(), 0) {
        Some(o) => o,
        None => n,
    };
    let mut documents: Vec<(usize, usize)> = Vec::new();
    let mut pos: usize = 0;
    let mut done = false;
    while !done
        invariant
            pos <= n,
            n == data@.len(),
            open@ == doc_open(),
            close@ == doc_close(),
            documents@ + document_spans(data@, pos as int) == document_spans(data@, 0),
            done ==> document_spans(data@, pos as int).len() == 0,
        decreases n - pos, (if done { 0int } else { 1int }),
    {
        match find_tag(data, open.as_slice(), pos) {
            None => {
                done = true;
            },
            Some(o) => match find_tag(data, close.as_slice(), o + 10) {
                None => {
                    done = true;
                },
                Some(c) => {
                    let ghost before = documents@;
                    let ghost rest = document_spans(data@, c + 11);
                    documents.push((o, c));
                    assert((before + seq![(o, c)]) + rest =~= before + (seq![(o, c)] + rest));
                    assert(documents@ =~= before + seq![(o, c)]);
                    pos = c + 11;
                },
            },
        }
    }
    assert(documents@ + Seq::<(usize, usize)>::empty() =~= documents@);
    let mut texts: Vec<(usize, usize)> = Vec::new();
    pos = 0;
    done = false;
    while !done
        invariant
            pos <= n,
            n == data@.len(),
            topen@ == text_open(),
            tclose@ == text_close(),
            close@ == doc_close(),
            texts@ + text_spans(data@, pos as int) == text_spans(data@, 0),
            done ==> text_spans(data@, pos as int).len() == 0,
        decreases n - pos, (if done { 0int } else { 1int }),
    {
        match find_tag(data, topen.as_slice(), pos) {
            None => {
                done = true;
            },
            Some(t) => match find_tag(data, tclose.as_slice(), t + 6) {
                None => {
                    done = true;
                },
                Some(c) => {
                    if accepted_close(data, c, close.as_slice()) {
                        let ghost before = texts@;
                        let ghost rest = text_spans(data@, c + 7);
                        texts.push((t, c));
                        assert((before + seq![(t, c)]) + rest =~= before + (seq![(t, c)] + rest));
                        assert(texts@ =~= before + seq![(t, c)]);
                        pos = c + 7;
                    } else {
                        pos = t + 6;
                    }
                },
            },
        }
    }
    assert(texts@ + Seq::<(usize, usize)>::empty() =~= texts@);
    proof {
        lemma_document_spans_ordered(data@, 0);
        lemma_text_spans_ordered(data@, 0);
    }
    DocumentIndex {
        document_positions: documents,
        text_positions: texts,
        header_end: header_end,
        text_leftovers: Vec::new(),
    }
}

} // verus!
