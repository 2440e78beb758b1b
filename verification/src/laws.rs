use vstd::prelude::*;
use crate::bytes::{lines_of, lower};
use crate::doc_meta::{doc_fold, document_metadata};
use crate::header::{
    close_all_model, close_top_model, dashed_fold, header_metadata, insert_top_model,
    pop_to_indent_model, tab_fold, tab_step, FrameModel,
};
use crate::index::{lemma_find_from_some, lemma_text_spans_ordered, text_accepted, text_spans};
use crate::search::find_from;
use crate::sgml::{document_metas, parse_model, Outcome};
use crate::tags::{documents_key, privacy_key, text_close, text_open};
use crate::types::{
    dict_append_text, dict_contains, dict_get, dict_insert, dict_keys, dict_set,
    dict_well_formed, is_lowercase, key_pos, lemma_key_pos, lemma_lower_is_lowercase, promote,
    well_formed, Meta, SubmissionType,
};

verus! {

/// Insert-or-promote keeps the keys in place: a key that is present keeps its
/// position, a new key goes to the end. So the keys of a dictionary stand in
/// the order in which they first appeared.
pub proof fn lemma_insert_keeps_key_order(d: Seq<(Seq<u8>, Meta)>, key: Seq<u8>, value: Meta)
    ensures
        dict_keys(dict_insert(d, key, value)) == if dict_contains(d, key) {
            dict_keys(d)
        } else {
            dict_keys(d).push(key)
        },
{
    lemma_key_pos(d, key, 0);
    assert(dict_keys(dict_insert(d, key, value)) =~= if dict_contains(d, key) {
        dict_keys(d)
    } else {
        dict_keys(d).push(key)
    });
}

/// Insert-or-replace keeps the keys in place as insert-or-promote does.
pub proof fn lemma_set_keeps_key_order(d: Seq<(Seq<u8>, Meta)>, key: Seq<u8>, value: Meta)
    ensures
        dict_keys(dict_set(d, key, value)) == if dict_contains(d, key) {
            dict_keys(d)
        } else {
            dict_keys(d).push(key)
        },
{
    lemma_key_pos(d, key, 0);
    assert(dict_keys(dict_set(d, key, value)) =~= if dict_contains(d, key) {
        dict_keys(d)
    } else {
        dict_keys(d).push(key)
    });
}

/// A dictionary has an entry under a key just when the key is among its keys.
pub proof fn lemma_contains_is_among_keys(d: Seq<(Seq<u8>, Meta)>, key: Seq<u8>)
    ensures
        dict_contains(d, key) == dict_keys(d).contains(key),
{
    lemma_key_pos(d, key, 0);
    let i = key_pos(d, key, 0);
    if i < d.len() {
        assert(dict_keys(d)[i] == key);
    } else if dict_keys(d).contains(key) {
        let w = choose|w: int| 0 <= w < dict_keys(d).len() && dict_keys(d)[w] == key;
        assert(d[w].0 == key);
    }
}

/// The first `n` of `keys` without repetitions, each at the place of its
/// first appearance.
pub open spec fn first_appearances(keys: Seq<Seq<u8>>, n: int) -> Seq<Seq<u8>>
    decreases n,
{
    if n <= 0 {
        Seq::empty()
    } else {
        let before = first_appearances(keys, n - 1);
        if before.contains(keys[n - 1]) {
            before
        } else {
            before.push(keys[n - 1])
        }
    }
}

/// The dictionary after the first `n` of `pairs` went into the empty one, in
/// order, by insert-or-promote.
pub open spec fn insert_pairs(pairs: Seq<(Seq<u8>, Meta)>, n: int) -> Seq<(Seq<u8>, Meta)>
    decreases n,
{
    if n <= 0 {
        Seq::empty()
    } else {
        dict_insert(insert_pairs(pairs, n - 1), pairs[n - 1].0, pairs[n - 1].1)
    }
}

/// The keys of a dictionary stand in the order in which they first appeared
/// among the insertions that built it.
pub proof fn lemma_keys_in_first_appearance_order(pairs: Seq<(Seq<u8>, Meta)>, n: int)
    requires
        n <= pairs.len(),
    ensures
        dict_keys(insert_pairs(pairs, n)) == first_appearances(dict_keys(pairs), n),
    decreases n,
{
    if n > 0 {
        lemma_keys_in_first_appearance_order(pairs, n - 1);
        let before = insert_pairs(pairs, n - 1);
        lemma_contains_is_among_keys(before, pairs[n - 1].0);
        lemma_insert_keeps_key_order(before, pairs[n - 1].0, pairs[n - 1].1);
        assert(dict_keys(pairs)[n - 1] == pairs[n - 1].0);
    } else {
        assert(dict_keys(insert_pairs(pairs, n)) =~= first_appearances(dict_keys(pairs), n));
    }
}

/// The dictionary after the first `n` of `values` went in under `key`, one
/// after the other, by insert-or-promote.
pub open spec fn insert_each(d: Seq<(Seq<u8>, Meta)>, key: Seq<u8>, values: Seq<Meta>, n: int) -> Seq<
    (Seq<u8>, Meta),
>
    decreases n,
{
    if n <= 0 {
        d
    } else {
        dict_insert(insert_each(d, key, values, n - 1), key, values[n - 1])
    }
}

/// A key that occurs `n` times, two or more, at one level ends as one entry
/// that holds the list of its `n` values in the order in which they came. The
/// first value must not itself be a list; the parsers insert texts and
/// dictionaries only.
pub proof fn lemma_repeated_key_becomes_list(
    d: Seq<(Seq<u8>, Meta)>,
    key: Seq<u8>,
    values: Seq<Meta>,
    n: int,
)
    requires
        !dict_contains(d, key),
        2 <= n <= values.len(),
        !(values[0] is List),
    ensures
        insert_each(d, key, values, n) == d.push((key, Meta::List(values.subrange(0, n)))),
    decreases n,
{
    lemma_key_pos(d, key, 0);
    let one = insert_each(d, key, values, 1);
    assert(insert_each(d, key, values, 0) == d);
    assert(one == d.push((key, values[0])));
    if n == 2 {
        lemma_key_pos(one, key, 0);
        assert(one[d.len() as int].0 == key);
        assert(forall|k: int| 0 <= k < d.len() ==> one[k] == d[k]);
        assert(key_pos(one, key, 0) == d.len());
        assert(seq![values[0], values[1]] =~= values.subrange(0, 2));
        assert(insert_each(d, key, values, 2) =~= d.push((key, Meta::List(values.subrange(0, 2)))));
    } else {
        lemma_repeated_key_becomes_list(d, key, values, n - 1);
        let prev = insert_each(d, key, values, n - 1);
        lemma_key_pos(prev, key, 0);
        assert(prev[d.len() as int].0 == key);
        assert(forall|k: int| 0 <= k < d.len() ==> prev[k] == d[k]);
        assert(key_pos(prev, key, 0) == d.len());
        assert(values.subrange(0, n - 1).push(values[n - 1]) =~= values.subrange(0, n));
        assert(insert_each(d, key, values, n) =~= d.push((key, Meta::List(values.subrange(0, n)))));
    }
}

/// Insert-or-promote keeps a dictionary well formed.
pub proof fn lemma_insert_well_formed(d: Seq<(Seq<u8>, Meta)>, key: Seq<u8>, value: Meta)
    requires
        dict_well_formed(d),
        is_lowercase(key),
        well_formed(value),
    ensures
        dict_well_formed(dict_insert(d, key, value)),
{
    lemma_key_pos(d, key, 0);
    let i = key_pos(d, key, 0);
    let r = dict_insert(d, key, value);
    if i < d.len() {
        let merged = promote(d[i].1, value);
        assert(well_formed(d[i].1));
        match d[i].1 {
            Meta::List(items) => {
                assert forall|k: int| 0 <= k < items.push(value).len() implies well_formed(
                    #[trigger] items.push(value)[k],
                ) by {
                    if k < items.len() {
                        assert(items.push(value)[k] == items[k]);
                    }
                }
            },
            _ => {
                let two = seq![d[i].1, value];
                assert forall|k: int| 0 <= k < two.len() implies well_formed(#[trigger] two[k]) by {}
            },
        }
        assert(well_formed(merged));
        assert forall|a: int, b: int| 0 <= a < b < r.len() implies (#[trigger] r[a]).0 != (
        #[trigger] r[b]).0 by {
            assert(r[a].0 == d[a].0);
            assert(r[b].0 == d[b].0);
        }
        assert forall|k: int| 0 <= k < r.len() implies is_lowercase((#[trigger] r[k]).0)
            && well_formed(r[k].1) by {
            if k != i {
                assert(r[k] == d[k]);
            }
        }
    } else {
        assert forall|a: int, b: int| 0 <= a < b < r.len() implies (#[trigger] r[a]).0 != (
        #[trigger] r[b]).0 by {
            assert(r[a] == d[a]);
            if b < d.len() {
                assert(r[b] == d[b]);
            }
        }
        assert forall|k: int| 0 <= k < r.len() implies is_lowercase((#[trigger] r[k]).0)
            && well_formed(r[k].1) by {
            if k < d.len() {
                assert(r[k] == d[k]);
            }
        }
    }
}

/// Insert-or-replace keeps a dictionary well formed.
pub proof fn lemma_set_well_formed(d: Seq<(Seq<u8>, Meta)>, key: Seq<u8>, value: Meta)
    requires
        dict_well_formed(d),
        is_lowercase(key),
        well_formed(value),
    ensures
        dict_well_formed(dict_set(d, key, value)),
{
    lemma_key_pos(d, key, 0);
    let i = key_pos(d, key, 0);
    let r = dict_set(d, key, value);
    assert forall|a: int, b: int| 0 <= a < b < r.len() implies (#[trigger] r[a]).0 != (
    #[trigger] r[b]).0 by {
        if a < d.len() {
            assert(r[a].0 == d[a].0);
        }
        if b < d.len() {
            assert(r[b].0 == d[b].0);
        }
    }
    assert forall|k: int| 0 <= k < r.len() implies is_lowercase((#[trigger] r[k]).0)
        && well_formed(r[k].1) by {
        if k != i && k < d.len() {
            assert(r[k] == d[k]);
        }
    }
}

/// Appending to a text keeps a dictionary well formed.
pub proof fn lemma_append_text_well_formed(d: Seq<(Seq<u8>, Meta)>, key: Seq<u8>, extra: Seq<u8>)
    requires
        dict_well_formed(d),
    ensures
        dict_well_formed(dict_append_text(d, key, extra)),
{
    lemma_key_pos(d, key, 0);
    let i = key_pos(d, key, 0);
    let r = dict_append_text(d, key, extra);
    if r != d {
        assert forall|a: int, b: int| 0 <= a < b < r.len() implies (#[trigger] r[a]).0 != (
        #[trigger] r[b]).0 by {
            assert(r[a].0 == d[a].0);
            assert(r[b].0 == d[b].0);
        }
        assert forall|k: int| 0 <= k < r.len() implies is_lowercase((#[trigger] r[k]).0)
            && well_formed(r[k].1) by {
            if k != i {
                assert(r[k] == d[k]);
            } else {
                assert(r[k].0 == d[k].0);
            }
        }
    }
}

/// Every open block has a tag without ASCII capitals and a well-formed dictionary.
pub open spec fn stack_well_formed(stack: Seq<FrameModel>) -> bool {
    &&& stack.len() >= 1
    &&& forall|k: int|
        0 <= k < stack.len() ==> is_lowercase((#[trigger] stack[k]).tag) && dict_well_formed(
            stack[k].dict,
        )
}

/// Inserting into the innermost block keeps the open blocks well formed.
pub proof fn lemma_insert_top_well_formed(stack: Seq<FrameModel>, key: Seq<u8>, value: Meta)
    requires
        stack_well_formed(stack),
        is_lowercase(key),
        well_formed(value),
    ensures
        stack_well_formed(insert_top_model(stack, key, value)),
        insert_top_model(stack, key, value).len() == stack.len(),
{
    let r = insert_top_model(stack, key, value);
    lemma_insert_well_formed(stack.last().dict, key, value);
    assert forall|k: int| 0 <= k < r.len() implies is_lowercase((#[trigger] r[k]).tag)
        && dict_well_formed(r[k].dict) by {
        if k < stack.len() - 1 {
            assert(r[k] == stack[k]);
        }
    }
}

/// Closing the innermost block keeps the open blocks well formed.
pub proof fn lemma_close_top_well_formed(stack: Seq<FrameModel>)
    requires
        stack_well_formed(stack),
        stack.len() >= 2,
    ensures
        stack_well_formed(close_top_model(stack)),
        close_top_model(stack).len() == stack.len() - 1,
{
    let rest = stack.drop_last();
    assert forall|k: int| 0 <= k < rest.len() implies is_lowercase((#[trigger] rest[k]).tag)
        && dict_well_formed(rest[k].dict) by {
        assert(rest[k] == stack[k]);
    }
    let top = stack.last();
    assert(well_formed(Meta::Dict(top.dict)));
    lemma_insert_top_well_formed(rest, top.tag, Meta::Dict(top.dict));
}

/// Closing every block leaves a well-formed root alone.
pub proof fn lemma_close_all_well_formed(stack: Seq<FrameModel>)
    requires
        stack_well_formed(stack),
    ensures
        stack_well_formed(close_all_model(stack)),
        close_all_model(stack).len() == 1,
    decreases stack.len(),
{
    if stack.len() > 1 {
        lemma_close_top_well_formed(stack);
        lemma_close_all_well_formed(close_top_model(stack));
    }
}

/// Closing blocks by indentation keeps the open blocks well formed.
pub proof fn lemma_pop_to_indent_well_formed(stack: Seq<FrameModel>, indent: int)
    requires
        stack_well_formed(stack),
    ensures
        stack_well_formed(pop_to_indent_model(stack, indent)),
    decreases stack.len(),
{
    if stack.len() >= 2 && stack.last().indent >= indent {
        lemma_close_top_well_formed(stack);
        lemma_pop_to_indent_well_formed(close_top_model(stack), indent);
    }
}

/// Opening an empty block with a tag in lower case keeps the open blocks well formed.
pub proof fn lemma_push_well_formed(stack: Seq<FrameModel>, frame: FrameModel)
    requires
        stack_well_formed(stack),
        is_lowercase(frame.tag),
        frame.dict.len() == 0,
    ensures
        stack_well_formed(stack.push(frame)),
{
    let r = stack.push(frame);
    assert forall|k: int| 0 <= k < r.len() implies is_lowercase((#[trigger] r[k]).tag)
        && dict_well_formed(r[k].dict) by {
        if k < stack.len() {
            assert(r[k] == stack[k]);
        }
    }
}

/// The open blocks are well formed after any number of lines of a dashed header.
pub proof fn lemma_dashed_fold_well_formed(lines: Seq<Seq<u8>>, n: int)
    requires
        n <= lines.len(),
    ensures
        stack_well_formed(dashed_fold(lines, n)),
    decreases n,
{
    if n > 0 {
        lemma_dashed_fold_well_formed(lines, n - 1);
        let stack = dashed_fold(lines, n - 1);
        match crate::bytes::tag_split(lines[n - 1]) {
            None => {},
            Some((raw, content)) => {
                let tag = lower(raw);
                if tag.len() > 0 && tag[0] == 47 {
                    if stack.len() >= 2 {
                        lemma_close_top_well_formed(stack);
                    }
                } else if crate::header::has_closing(lines, n, tag) {
                    lemma_push_well_formed(
                        stack,
                        FrameModel { indent: 0, tag: tag, dict: Seq::empty() },
                    );
                } else if crate::bytes::trim(content).len() > 0 {
                    lemma_insert_top_well_formed(
                        stack,
                        tag,
                        Meta::Text(crate::bytes::trim(content)),
                    );
                }
            },
        }
    } else {
        let root = crate::header::root_stack(Seq::empty());
        assert(is_lowercase(root[0].tag));
        assert(dict_well_formed(root[0].dict));
    }
}

/// A line of a tab header keeps the open blocks well formed.
pub proof fn lemma_tab_step_well_formed(stack: Seq<FrameModel>, line: Seq<u8>)
    requires
        stack_well_formed(stack),
    ensures
        stack_well_formed(tab_step(stack, line)),
{
    match crate::header::tab_entry_model(line) {
        None => {},
        Some((tag, content)) => {
            let indent = crate::header::indent_from(line, 0);
            lemma_pop_to_indent_well_formed(stack, indent);
            let popped = pop_to_indent_model(stack, indent);
            assert(is_lowercase(tag)) by {
                match crate::bytes::tag_split(line) {
                    Some((raw, _)) => {
                        lemma_lower_is_lowercase(raw);
                    },
                    None => {
                        let c = crate::search::byte_pos(line, 58)->Some_0;
                        lemma_lower_is_lowercase(crate::bytes::trim(line.subrange(0, c)));
                    },
                }
            }
            if content.len() > 0 {
                lemma_insert_top_well_formed(popped, tag, Meta::Text(content));
            } else {
                lemma_push_well_formed(
                    popped,
                    FrameModel { indent: indent, tag: tag, dict: Seq::empty() },
                );
            }
        },
    }
}

/// The open blocks are well formed after any number of lines of a tab header.
pub proof fn lemma_tab_fold_well_formed(
    root: Seq<(Seq<u8>, Meta)>,
    lines: Seq<Seq<u8>>,
    from: int,
    n: int,
)
    requires
        dict_well_formed(root),
    ensures
        stack_well_formed(tab_fold(root, lines, from, n)),
    decreases n - from,
{
    if n > from {
        lemma_tab_fold_well_formed(root, lines, from, n - 1);
        lemma_tab_step_well_formed(tab_fold(root, lines, from, n - 1), lines[n - 1]);
    } else {
        let stack = crate::header::root_stack(root);
        assert(is_lowercase(stack[0].tag));
    }
}

/// The metadata read from a header is well formed: at every depth the keys of
/// a dictionary are distinct and hold no ASCII capital.
pub proof fn lemma_header_well_formed(lines: Seq<Seq<u8>>, dialect: SubmissionType)
    ensures
        dict_well_formed(header_metadata(lines, dialect)),
{
    match dialect {
        SubmissionType::DashedDefault => {
            lemma_dashed_fold_well_formed(lines, lines.len() as int);
            lemma_close_all_well_formed(dashed_fold(lines, lines.len() as int));
        },
        _ => {
            let privacy = dialect == SubmissionType::TabPrivacy;
            let m = crate::header::marker_line(lines, 0);
            let n = lines.len() as int;
            if privacy && m < n {
                let e = crate::header::preamble_end(lines, m + 1);
                let root = seq![
                    (privacy_key(), Meta::Text(crate::header::join_trimmed(lines, m + 1, e))),
                ];
                assert(is_lowercase(privacy_key()));
                assert(dict_well_formed(root));
                lemma_tab_fold_well_formed(root, lines, e, n);
                lemma_close_all_well_formed(tab_fold(root, lines, e, n));
            } else {
                assert(dict_well_formed(Seq::<(Seq<u8>, Meta)>::empty()));
                lemma_tab_fold_well_formed(Seq::empty(), lines, 0, n);
                lemma_close_all_well_formed(tab_fold(Seq::empty(), lines, 0, n));
            }
        },
    }
}

/// What was read of a document's tag block is well formed after any number of lines.
pub proof fn lemma_doc_fold_well_formed(lines: Seq<Seq<u8>>, n: int)
    ensures
        dict_well_formed(doc_fold(lines, n).dict),
        doc_fold(lines, n).current matches Some(key) ==> is_lowercase(key),
    decreases n,
{
    if n > 0 {
        lemma_doc_fold_well_formed(lines, n - 1);
        let st = doc_fold(lines, n - 1);
        match crate::bytes::tag_split(lines[n - 1]) {
            Some((raw, content)) => {
                lemma_set_well_formed(st.dict, lower(raw), Meta::Text(crate::bytes::trim(content)));
            },
            None => match st.current {
                Some(key) => {
                    lemma_append_text_well_formed(
                        st.dict,
                        key,
                        seq![32u8] + crate::bytes::trim(lines[n - 1]),
                    );
                },
                None => {},
            },
        }
    }
}

/// The keys of the tag lines among the first `n` lines, in lower case, in order.
pub open spec fn tag_keys(lines: Seq<Seq<u8>>, n: int) -> Seq<Seq<u8>>
    decreases n,
{
    if n <= 0 {
        Seq::empty()
    } else {
        match crate::bytes::tag_split(lines[n - 1]) {
            Some((raw, _)) => tag_keys(lines, n - 1).push(lower(raw)),
            None => tag_keys(lines, n - 1),
        }
    }
}

/// The first appearances among the first `n` keys depend on those keys only.
pub proof fn lemma_first_appearances_of_prefix(a: Seq<Seq<u8>>, b: Seq<Seq<u8>>, n: int)
    requires
        n <= a.len(),
        n <= b.len(),
        forall|k: int| 0 <= k < n ==> a[k] == b[k],
    ensures
        first_appearances(a, n) == first_appearances(b, n),
    decreases n,
{
    if n > 0 {
        lemma_first_appearances_of_prefix(a, b, n - 1);
    }
}

/// Appending to a text leaves the keys as they are.
pub proof fn lemma_append_text_keeps_keys(d: Seq<(Seq<u8>, Meta)>, key: Seq<u8>, extra: Seq<u8>)
    ensures
        dict_keys(dict_append_text(d, key, extra)) == dict_keys(d),
{
    lemma_key_pos(d, key, 0);
    assert(dict_keys(dict_append_text(d, key, extra)) =~= dict_keys(d));
}

/// The keys of a document's metadata stand in the order in which their tags
/// first appear in the tag block.
pub proof fn lemma_document_keys_in_source_order(lines: Seq<Seq<u8>>, n: int)
    requires
        n <= lines.len(),
    ensures
        dict_keys(doc_fold(lines, n).dict) == first_appearances(
            tag_keys(lines, n),
            tag_keys(lines, n).len() as int,
        ),
    decreases n,
{
    if n > 0 {
        lemma_document_keys_in_source_order(lines, n - 1);
        let st = doc_fold(lines, n - 1);
        let before = tag_keys(lines, n - 1);
        match crate::bytes::tag_split(lines[n - 1]) {
            Some((raw, content)) => {
                let key = lower(raw);
                let now = before.push(key);
                lemma_first_appearances_of_prefix(now, before, before.len() as int);
                lemma_contains_is_among_keys(st.dict, key);
                lemma_set_keeps_key_order(st.dict, key, Meta::Text(crate::bytes::trim(content)));
            },
            None => match st.current {
                Some(key) => {
                    lemma_append_text_keeps_keys(
                        st.dict,
                        key,
                        seq![32u8] + crate::bytes::trim(lines[n - 1]),
                    );
                },
                None => {},
            },
        }
    } else {
        assert(dict_keys(doc_fold(lines, n).dict) =~= Seq::<Seq<u8>>::empty());
    }
}

/// The metadata read from a document's tag block is well formed.
pub proof fn lemma_document_metadata_well_formed(block: Seq<u8>)
    ensures
        dict_well_formed(document_metadata(block)),
{
    lemma_doc_fold_well_formed(lines_of(block), lines_of(block).len() as int);
}

/// The items of a well-formed list are well formed.
pub proof fn lemma_list_items_well_formed(items: Seq<Meta>)
    requires
        well_formed(Meta::List(items)),
    ensures
        forall|k: int| 0 <= k < items.len() ==> well_formed(#[trigger] items[k]),
{
    let m = Meta::List(items);
    assert(m->List_0 == items);
    assert(well_formed(m) == (forall|i: int|
        0 <= i < items.len() ==> well_formed(#[trigger] items[i])));
}

/// The list of the documents' metadata is well formed.
pub proof fn lemma_document_metas_well_formed(
    data: Seq<u8>,
    docs: Seq<(usize, usize)>,
    texts: Seq<(usize, usize)>,
    n: int,
)
    requires
        n <= docs.len(),
    ensures
        well_formed(Meta::List(document_metas(data, docs, texts, n))),
    decreases n,
{
    if n > 0 {
        lemma_document_metas_well_formed(data, docs, texts, n - 1);
        let prev = document_metas(data, docs, texts, n - 1);
        let t = crate::sgml::text_for(texts, docs[n - 1], 0);
        if t < texts.len() {
            let block = data.subrange(docs[n - 1].0 + 10, texts[t].0 as int);
            lemma_document_metadata_well_formed(block);
            let now = prev.push(Meta::Dict(document_metadata(block)));
            lemma_list_items_well_formed(prev);
            assert(well_formed(Meta::Dict(document_metadata(block))));
            assert forall|k: int| 0 <= k < now.len() implies well_formed(#[trigger] now[k]) by {
                if k < prev.len() {
                    assert(now[k] == prev[k]);
                    assert(well_formed(prev[k]));
                }
            }
        }
    }
}

/// In the metadata tree of a parsed submission every dictionary, at any depth,
/// has distinct keys, and no key holds an ASCII capital.
pub proof fn lemma_parsed_tree_well_formed(data: Seq<u8>)
    ensures
        parse_model(data) matches Outcome::Parsed { metadata, documents } ==> dict_well_formed(
            metadata,
        ),
{
    if let Outcome::Parsed { metadata, documents } = parse_model(data) {
        let lines = lines_of(data);
        let f = crate::sgml::first_nonempty(lines, 0);
        let dialect = crate::sgml::dialect_of(lines[f])->Some_0;
        let docs = crate::index::document_spans(data, 0);
        let texts = text_spans(data, 0);
        let header = header_metadata(
            lines_of(data.subrange(0, crate::index::header_end_of(data))),
            dialect,
        );
        lemma_header_well_formed(
            lines_of(data.subrange(0, crate::index::header_end_of(data))),
            dialect,
        );
        lemma_document_metas_well_formed(data, docs, texts, docs.len() as int);
        assert(is_lowercase(documents_key()));
        lemma_set_well_formed(
            header,
            documents_key(),
            Meta::List(document_metas(data, docs, texts, docs.len() as int)),
        );
    }
}

/// What was set under a key is what is found under it.
pub proof fn lemma_get_after_set(d: Seq<(Seq<u8>, Meta)>, key: Seq<u8>, value: Meta)
    ensures
        dict_get(dict_set(d, key, value), key) == Some(value),
{
    lemma_key_pos(d, key, 0);
    let r = dict_set(d, key, value);
    let i = key_pos(d, key, 0);
    lemma_key_pos(r, key, 0);
    assert(r[i].0 == key);
    assert(forall|k: int| 0 <= k < i ==> r[k] == d[k]);
    assert(key_pos(r, key, 0) == i);
}

/// The metadata of a parsed submission holds, under `documents`, a list with
/// one entry for each returned document.
pub proof fn lemma_documents_parallel_to_metadata(data: Seq<u8>)
    ensures
        parse_model(data) matches Outcome::Parsed { metadata, documents } ==> (dict_get(
            metadata,
            documents_key(),
        ) matches Some(Meta::List(items)) && items.len() == documents.len()),
{
    if let Outcome::Parsed { metadata, documents } = parse_model(data) {
        let lines = lines_of(data);
        let f = crate::sgml::first_nonempty(lines, 0);
        let dialect = crate::sgml::dialect_of(lines[f])->Some_0;
        let docs = crate::index::document_spans(data, 0);
        let texts = text_spans(data, 0);
        let header = header_metadata(
            lines_of(data.subrange(0, crate::index::header_end_of(data))),
            dialect,
        );
        let items = document_metas(data, docs, texts, docs.len() as int);
        lemma_get_after_set(header, documents_key(), Meta::List(items));
        crate::sgml::lemma_documents_parallel(data, docs, texts, Seq::empty(), docs.len() as int);
    }
}

/// A `<TEXT>` whose nearest `</TEXT>` is not followed by whitespace and
/// `</DOCUMENT>` opens no text segment.
pub proof fn lemma_rejected_text_gives_no_span(data: Seq<u8>, pos: int, open: int, close: int)
    requires
        0 <= pos,
        data.len() <= usize::MAX,
        find_from(data, text_open(), pos) == Some(open),
        find_from(data, text_close(), open + 6) == Some(close),
        !text_accepted(data, close),
    ensures
        forall|k: int|
            0 <= k < text_spans(data, pos).len() ==> (#[trigger] text_spans(data, pos)[k]).0
                != open,
{
    lemma_find_from_some(data, text_open(), pos);
    lemma_find_from_some(data, text_close(), open + 6);
    lemma_text_spans_ordered(data, open + 6);
    assert(text_spans(data, pos) == text_spans(data, open + 6));
}

} // verus!
