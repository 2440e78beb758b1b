use vstd::prelude::*;
use vstd::slice::slice_subrange;
use crate::bytes::{
    append_bytes, ascii_to_lowercase, index_lines, line_spans, lines_of, lower, parse_tag_content, spans_within,
    tag_split, to_vec, trim, trim_ascii,
};
use crate::laws::lemma_document_metadata_well_formed;
use crate::types::{
    dict_append_text, dict_set, dict_well_formed, Meta, MetadataDict, MetadataValue,
};

verus! {

/// Model of the reader's state between two lines of a document's tag block:
/// what was read so far, and the key that a continuation line belongs to.
pub ghost struct DocState {
    pub dict: Seq<(Seq<u8>, Meta)>,
    pub current: Option<Seq<u8>>,
}

/// What a line of a document's tag block does: a tag line sets its key, in
/// lower case, to the trimmed rest of the line; any other line is appended,
/// trimmed and behind a space, to the text of the latest key, and is passed over
/// where there is none yet.
pub open spec fn doc_step(st: DocState, line: Seq<u8>) -> DocState {
    match tag_split(line) {
        Some((raw, content)) => DocState {
            dict: dict_set(st.dict, lower(raw), Meta::Text(trim(content))),
            current: Some(lower(raw)),
        },
        None => match st.current {
            Some(key) => DocState {
                dict: dict_append_text(st.dict, key, seq![32u8] + trim(line)),
                current: st.current,
            },
            None => st,
        },
    }
}

/// The state after the first `n` lines of a document's tag block.
pub open spec fn doc_fold(lines: Seq<Seq<u8>>, n: int) -> DocState
    decreases n,
{
    if n <= 0 {
        DocState { dict: Seq::empty(), current: None }
    } else {
        doc_step(doc_fold(lines, n - 1), lines[n - 1])
    }
}

/// The metadata that a document's tag block holds.
pub open spec fn document_metadata(block: Seq<u8>) -> Seq<(Seq<u8>, Meta)> {
    let lines = lines_of(block);
    doc_fold(lines, lines.len() as int).dict
}

/// Reads the tag block of a document, `data[start..end]`: the lines between
/// `<DOCUMENT>` and `<TEXT>`.
pub fn parse_document_metadata(data: &[u8], start: usize, end: usize) -> (r: MetadataDict)
    requires
        start <= end <= data.len(),
    ensures
        r@ == document_metadata(data@.subrange(start as int, end as int)),
        dict_well_formed(r@),
{
    proof {
        lemma_document_metadata_well_formed(data@.subrange(start as int, end as int));
    }
    let block = slice_subrange(data, start, end);
    let spans = index_lines(block);
    let ghost lines = lines_of(block@);
    let mut dict = MetadataDict::new();
    let mut current: Option<Vec<u8>> = None;
    let mut i: usize = 0;
    while i < spans.len()
        invariant
            i <= spans.len(),
            spans@ == line_spans(block@),
            spans_within(spans@, block@.len() as int),
            lines == lines_of(block@),
            dict@ == doc_fold(lines, i as int).dict,
            match current {
                Some(key) => doc_fold(lines, i as int).current == Some(key@),
                None => doc_fold(lines, i as int).current is None,
            },
        decreases spans.len() - i,
    {
        let (s, e) = spans[i];
        let line = slice_subrange(block, s, e);
        assert(line@ == lines[i as int]);
        match parse_tag_content(line) {
            Some((raw, content)) => {
                let lowered = ascii_to_lowercase(raw);
                let key = to_vec(lowered.as_bytes());
                let copy = to_vec(lowered.as_bytes());
                dict.set(key, MetadataValue::Text(to_vec(trim_ascii(content))));
                current = Some(copy);
            },
            None => {
                match &current {
                    Some(key) => {
                        let mut extra: Vec<u8> = Vec::new();
                        extra.push(32);
                        append_bytes(&mut extra, trim_ascii(line));
                        assert(extra@ =~= seq![32u8] + trim(line@));
                        dict.append_to_text(key.as_slice(), extra.as_slice());
                    },
                    None => {},
                }
            },
        }
        i += 1;
    }
    dict
}

} // verus!
