use vstd::prelude::*;
use vstd::slice::slice_subrange;
use crate::bytes::{
    ascii_to_lowercase, bytes_eq, index_lines, line_spans, lines_of, lower, lower_byte,
    parse_tag_content, spans_within, tag_split, to_vec, trim, trim_ascii,
};
use crate::search::{byte_pos, find_byte};
use crate::tag_buffer::{buffer_bytes, buffer_new, TagBuffer};
use crate::tags::{privacy_key, privacy_key_bytes, privacy_marker, privacy_marker_bytes};
use crate::laws::lemma_header_well_formed;
use crate::types::{
    dict_insert, dict_well_formed, lemma_dict_value_view, Meta, MetadataDict, MetadataValue, SubmissionType,
};

verus! {

/// Model of a block that is still open while the header is read.
pub ghost struct FrameModel {
    pub indent: int,
    pub tag: Seq<u8>,
    pub dict: Seq<(Seq<u8>, Meta)>,
}

/// A block that is still open while the header is read: the indentation of its
/// opening line (0 in the dashed dialect), its tag, and what it holds so far.
pub struct Frame {
    pub indent: usize,
    pub tag: TagBuffer,
    pub dict: MetadataDict,
}

impl View for Frame {
    type V = FrameModel;

    open spec fn view(&self) -> FrameModel {
        FrameModel { indent: self.indent as int, tag: buffer_bytes(self.tag), dict: self.dict@ }
    }
}

/// The models of the open blocks, outermost first.
pub open spec fn stack_view(stack: Seq<Frame>) -> Seq<FrameModel> {
    Seq::new(stack.len(), |i: int| stack[i]@)
}

/// The stack that holds the root block alone.
pub open spec fn root_stack(root: Seq<(Seq<u8>, Meta)>) -> Seq<FrameModel> {
    seq![FrameModel { indent: 0, tag: Seq::empty(), dict: root }]
}

/// The stack after `(key, value)` went into its innermost block by insert-or-promote.
pub open spec fn insert_top_model(stack: Seq<FrameModel>, key: Seq<u8>, value: Meta) -> Seq<
    FrameModel,
> {
    let top = stack.last();
    stack.drop_last().push(
        FrameModel { indent: top.indent, tag: top.tag, dict: dict_insert(top.dict, key, value) },
    )
}

/// The stack after its innermost block was closed: the block goes into its
/// parent under its tag, by insert-or-promote.
pub open spec fn close_top_model(stack: Seq<FrameModel>) -> Seq<FrameModel> {
    let top = stack.last();
    insert_top_model(stack.drop_last(), top.tag, Meta::Dict(top.dict))
}

/// The stack after every block but the root was closed, innermost first.
pub open spec fn close_all_model(stack: Seq<FrameModel>) -> Seq<FrameModel>
    decreases stack.len(),
{
    if stack.len() <= 1 {
        stack
    } else {
        close_all_model(close_top_model(stack))
    }
}

/// The line is a closing tag for `tag`: it splits as a tag line, and its tag in
/// lower case is `/` followed by `tag`.
pub open spec fn is_closing_line(line: Seq<u8>, tag: Seq<u8>) -> bool {
    match tag_split(line) {
        Some((raw, _)) => lower(raw) == seq![47u8] + tag,
        None => false,
    }
}

/// Some line at or after `from` is a closing tag for `tag`.
pub open spec fn has_closing(lines: Seq<Seq<u8>>, from: int, tag: Seq<u8>) -> bool {
    exists|j: int| from <= j < lines.len() && is_closing_line(#[trigger] lines[j], tag)
}

/// What line `i` of a dashed header does to the stack of open blocks.
pub open spec fn dashed_step(stack: Seq<FrameModel>, lines: Seq<Seq<u8>>, i: int) -> Seq<
    FrameModel,
> {
    match tag_split(lines[i]) {
        None => stack,
        Some((raw, content)) => {
            let tag = lower(raw);
            if tag.len() > 0 && tag[0] == 47 {
                if stack.len() >= 2 && stack.last().tag == tag.subrange(1, tag.len() as int) {
                    close_top_model(stack)
                } else {
                    stack
                }
            } else if has_closing(lines, i + 1, tag) {
                stack.push(FrameModel { indent: 0, tag: tag, dict: Seq::empty() })
            } else if trim(content).len() > 0 {
                insert_top_model(stack, tag, Meta::Text(trim(content)))
            } else {
                stack
            }
        },
    }
}

/// The stack of open blocks after the first `n` lines of a dashed header.
pub open spec fn dashed_fold(lines: Seq<Seq<u8>>, n: int) -> Seq<FrameModel>
    decreases n,
{
    if n <= 0 {
        root_stack(Seq::empty())
    } else {
        dashed_step(dashed_fold(lines, n - 1), lines, n - 1)
    }
}

/// The metadata that a dashed header holds.
pub open spec fn dashed_header(lines: Seq<Seq<u8>>) -> Seq<(Seq<u8>, Meta)> {
    close_all_model(dashed_fold(lines, lines.len() as int))[0].dict
}

/// The first index at or after `i` that holds neither a space nor a tab, or the length.
pub open spec fn indent_from(line: Seq<u8>, i: int) -> int
    decreases line.len() - i,
{
    if 0 <= i < line.len() && (line[i] == 32 || line[i] == 9) {
        indent_from(line, i + 1)
    } else {
        i
    }
}

/// The tag and the trimmed content that a line of a tab header gives, if any:
/// from a line that splits as a tag line, unless the tag closes; else from a line
/// with a colon, split at the first one.
pub open spec fn tab_entry_model(line: Seq<u8>) -> Option<(Seq<u8>, Seq<u8>)> {
    match tag_split(line) {
        Some((raw, content)) => {
            let tag = lower(raw);
            if tag.len() > 0 && tag[0] == 47 {
                None
            } else {
                Some((tag, trim(content)))
            }
        },
        None => match byte_pos(line, 58) {
            Some(c) => Some((lower(trim(line.subrange(0, c))), trim(line.skip(c + 1)))),
            None => None,
        },
    }
}

/// The stack after the blocks indented as deep as `indent` or deeper were closed.
pub open spec fn pop_to_indent_model(stack: Seq<FrameModel>, indent: int) -> Seq<FrameModel>
    decreases stack.len(),
{
    if stack.len() >= 2 && stack.last().indent >= indent {
        pop_to_indent_model(close_top_model(stack), indent)
    } else {
        stack
    }
}

/// What a line of a tab header does to the stack of open blocks.
pub open spec fn tab_step(stack: Seq<FrameModel>, line: Seq<u8>) -> Seq<FrameModel> {
    match tab_entry_model(line) {
        None => stack,
        Some((tag, content)) => {
            let indent = indent_from(line, 0);
            let popped = pop_to_indent_model(stack, indent);
            if content.len() > 0 {
                insert_top_model(popped, tag, Meta::Text(content))
            } else {
                popped.push(FrameModel { indent: indent, tag: tag, dict: Seq::empty() })
            }
        },
    }
}

/// The stack of open blocks after lines `from..n` of a tab header, begun with `root`.
pub open spec fn tab_fold(root: Seq<(Seq<u8>, Meta)>, lines: Seq<Seq<u8>>, from: int, n: int) -> Seq<
    FrameModel,
>
    decreases n - from,
{
    if n <= from {
        root_stack(root)
    } else {
        tab_step(tab_fold(root, lines, from, n - 1), lines[n - 1])
    }
}

/// The first index at or after `i` of a line that, trimmed, is the
/// privacy-enhanced marker; the number of lines where there is none.
pub open spec fn marker_line(lines: Seq<Seq<u8>>, i: int) -> int
    decreases lines.len() - i,
{
    if 0 <= i < lines.len() {
        if trim(lines[i]) == privacy_marker() {
            i
        } else {
            marker_line(lines, i + 1)
        }
    } else {
        lines.len() as int
    }
}

/// The line holds a `<` and, somewhere behind the first one, an ASCII capital.
pub open spec fn is_tag_like(line: Seq<u8>) -> bool {
    match byte_pos(line, 60) {
        Some(lt) => exists|k: int| lt < k < line.len() && 65 <= #[trigger] line[k] <= 90,
        None => false,
    }
}

/// The line ends the privacy-enhanced preamble: it is blank or tag-like.
pub open spec fn ends_preamble(line: Seq<u8>) -> bool {
    trim(line).len() == 0 || is_tag_like(line)
}

/// The first index at or after `i` of a line that ends the preamble, or the
/// number of lines.
pub open spec fn preamble_end(lines: Seq<Seq<u8>>, i: int) -> int
    decreases lines.len() - i,
{
    if 0 <= i < lines.len() {
        if ends_preamble(lines[i]) {
            i
        } else {
            preamble_end(lines, i + 1)
        }
    } else {
        lines.len() as int
    }
}

/// Lines `from..to`, each trimmed, joined by line feeds.
pub open spec fn join_trimmed(lines: Seq<Seq<u8>>, from: int, to: int) -> Seq<u8>
    decreases to - from,
{
    if to <= from {
        Seq::empty()
    } else if to == from + 1 {
        trim(lines[from])
    } else {
        join_trimmed(lines, from, to - 1) + seq![10u8] + trim(lines[to - 1])
    }
}

/// The metadata that a tab header holds. With `privacy` set and a marker line
/// present, the preamble behind the marker is stored under its own root key and
/// the header is read from the line that ended the preamble.
pub open spec fn tab_header(lines: Seq<Seq<u8>>, privacy: bool) -> Seq<(Seq<u8>, Meta)> {
    let m = marker_line(lines, 0);
    let n = lines.len() as int;
    if privacy && m < n {
        let e = preamble_end(lines, m + 1);
        let root = seq![(privacy_key(), Meta::Text(join_trimmed(lines, m + 1, e)))];
        close_all_model(tab_fold(root, lines, e, n))[0].dict
    } else {
        close_all_model(tab_fold(Seq::empty(), lines, 0, n))[0].dict
    }
}

/// The metadata that a header of the given dialect holds.
pub open spec fn header_metadata(lines: Seq<Seq<u8>>, dialect: SubmissionType) -> Seq<
    (Seq<u8>, Meta),
> {
    match dialect {
        SubmissionType::DashedDefault => dashed_header(lines),
        SubmissionType::TabPrivacy => tab_header(lines, true),
        SubmissionType::TabDefault => tab_header(lines, false),
    }
}

/// Puts `(key, value)` into the innermost open block by insert-or-promote.
fn insert_top(stack: &mut Vec<Frame>, key: Vec<u8>, value: MetadataValue)
    requires
        old(stack).len() >= 1,
    ensures
        final(stack).len() == old(stack).len(),
        stack_view(final(stack)@) == insert_top_model(stack_view(old(stack)@), key@, value@),
{
    let mut top = stack.pop().unwrap();
    top.dict.insert_or_append(key, value);
    stack.push(top);
    assert(stack_view(stack@) =~= insert_top_model(stack_view(old(stack)@), key@, value@));
}

/// Closes the innermost open block: it goes into its parent under its tag.
fn close_top(stack: &mut Vec<Frame>)
    requires
        old(stack).len() >= 2,
    ensures
        final(stack).len() == old(stack).len() - 1,
        stack_view(final(stack)@) == close_top_model(stack_view(old(stack)@)),
{
    let top = stack.pop().unwrap();
    let ghost rest = stack_view(stack@);
    assert(rest =~= stack_view(old(stack)@).drop_last());
    let Frame { indent: _, tag, dict } = top;
    proof {
        lemma_dict_value_view(dict);
    }
    insert_top(stack, to_vec(tag.as_bytes()), MetadataValue::Dict(dict));
}

/// Closes every open block but the root and hands out the root's dictionary.
fn close_all(stack: Vec<Frame>) -> (r: MetadataDict)
    requires
        stack.len() >= 1,
    ensures
        r@ == close_all_model(stack_view(stack@))[0].dict,
{
    let mut stack = stack;
    let ghost start = stack_view(stack@);
    while stack.len() > 1
        invariant
            stack.len() >= 1,
            close_all_model(stack_view(stack@)) == close_all_model(start),
        decreases stack.len(),
    {
        close_top(&mut stack);
    }
    let root = stack.pop().unwrap();
    root.dict
}

/// Tells whether a line is a closing tag for `tag`, comparing in lower case.
fn is_closing(line: &[u8], tag: &[u8]) -> (r: bool)
    ensures
        r == is_closing_line(line@, tag@),
{
    match parse_tag_content(line) {
        None => false,
        Some((raw, ignored)) => {
            let ghost want = seq![47u8] + tag@;
            assert(want.len() == tag@.len() + 1);
            assert(lower(raw@).len() == raw@.len());
            let raw_len = raw.len();
            if tag.len() == usize::MAX || raw_len != tag.len() + 1 {
                return false;
            }
            if raw[0] != 47 {
                assert(lower(raw@)[0] != want[0]);
                return false;
            }
            let mut k: usize = 0;
            while k < tag.len()
                invariant
                    k <= tag.len(),
                    raw.len() == tag.len() + 1,
                    want == seq![47u8] + tag@,
                    tag_split(line@) == Some((raw@, ignored@)),
                    forall|j: int| 0 <= j < k ==> lower_byte(raw@[j + 1]) == tag@[j],
                decreases tag.len() - k,
            {
                let b: u8 = raw[k + 1];
                let lb: u8 = if b >= 65 && b <= 90 {
                    b + 32
                } else {
                    b
                };
                if lb != tag[k] {
                    assert(lower(raw@)[k + 1] != want[k + 1]);
                    return false;
                }
                k += 1;
            }
            assert(lower(raw@) =~= want);
            true
        },
    }
}

/// Tells whether a line at or after `from` is a closing tag for `tag`.
fn has_closing_tag(head: &[u8], spans: &Vec<(usize, usize)>, from: usize, tag: &[u8]) -> (r: bool)
    requires
        spans@ == line_spans(head@),
        spans_within(spans@, head@.len() as int),
    ensures
        r == has_closing(lines_of(head@), from as int, tag@),
{
    let ghost lines = lines_of(head@);
    let mut j: usize = from;
    while j < spans.len()
        invariant
            from <= j,
            spans@ == line_spans(head@),
            spans_within(spans@, head@.len() as int),
            lines == lines_of(head@),
            forall|k: int| from <= k < j && k < lines.len() ==> !is_closing_line(#[trigger] lines[k], tag@),
        decreases spans.len() - j,
    {
        let (s, e) = spans[j];
        let line = slice_subrange(head, s, e);
        assert(line@ == lines[j as int]);
        if is_closing(line, tag) {
            return true;
        }
        j += 1;
    }
    false
}

/// Applies line `i` of a dashed header to the stack of open blocks.
fn dashed_line(stack: &mut Vec<Frame>, head: &[u8], spans: &Vec<(usize, usize)>, i: usize)
    requires
        old(stack).len() >= 1,
        i < spans.len(),
        spans@ == line_spans(head@),
        spans_within(spans@, head@.len() as int),
    ensures
        final(stack).len() >= 1,
        stack_view(final(stack)@) == dashed_step(stack_view(old(stack)@), lines_of(head@), i as int),
{
    let (s, e) = spans[i];
    let line = slice_subrange(head, s, e);
    assert(line@ == lines_of(head@)[i as int]);
    match parse_tag_content(line) {
        None => {},
        Some((raw, content)) => {
            let lowered = ascii_to_lowercase(raw);
            let tag = lowered.as_bytes();
            if tag.len() > 0 && tag[0] == 47 {
                let n = stack.len();
                if n >= 2 {
                    let name = slice_subrange(tag, 1, tag.len());
                    if bytes_eq(stack[n - 1].tag.as_bytes(), name) {
                        close_top(stack);
                    }
                }
            } else if has_closing_tag(head, spans, i + 1, tag) {
                stack.push(Frame { indent: 0, tag: lowered, dict: MetadataDict::new() });
                assert(stack_view(stack@) =~= stack_view(old(stack)@).push(
                    FrameModel { indent: 0, tag: buffer_bytes(lowered), dict: Seq::empty() },
                ));
            } else {
                let text = trim_ascii(content);
                if text.len() > 0 {
                    insert_top(stack, to_vec(tag), MetadataValue::Text(to_vec(text)));
                }
            }
        },
    }
}

/// Reads a header of the dashed dialect: tags nest by their closing tags, a tag
/// without closing tag is a leaf, and a repeated key becomes a list.
pub fn parse_dashed_default_header(data: &[u8], end: usize) -> (r: MetadataDict)
    requires
        end <= data.len(),
    ensures
        r@ == dashed_header(lines_of(data@.subrange(0, end as int))),
{
    let head = slice_subrange(data, 0, end);
    let spans = index_lines(head);
    let ghost lines = lines_of(head@);
    let mut stack: Vec<Frame> = Vec::new();
    stack.push(Frame { indent: 0, tag: buffer_new(), dict: MetadataDict::new() });
    assert(stack_view(stack@) =~= root_stack(Seq::empty()));
    let mut i: usize = 0;
    while i < spans.len()
        invariant
            i <= spans.len(),
            spans@ == line_spans(head@),
            spans_within(spans@, head@.len() as int),
            lines == lines_of(head@),
            stack.len() >= 1,
            stack_view(stack@) == dashed_fold(lines, i as int),
        decreases spans.len() - i,
    {
        dashed_line(&mut stack, head, &spans, i);
        i += 1;
    }
    close_all(stack)
}

/// Counts the leading spaces and tabs of a line.
fn count_indent(line: &[u8]) -> (r: usize)
    ensures
        r == indent_from(line@, 0),
{
    let mut i: usize = 0;
    while i < line.len() && (line[i] == 32 || line[i] == 9)
        invariant
            i <= line.len(),
            indent_from(line@, 0) == indent_from(line@, i as int),
        decreases line.len() - i,
    {
        i += 1;
    }
    i
}

/// Splits a line of a tab header into its tag, in lower case, and its trimmed content.
fn tab_entry(line: &[u8]) -> (r: Option<(TagBuffer, Vec<u8>)>)
    ensures
        match r {
            Some((tag, content)) => tab_entry_model(line@) == Some((buffer_bytes(tag), content@)),
            None => tab_entry_model(line@) is None,
        },
{
    match parse_tag_content(line) {
        Some((raw, content)) => {
            let tag = ascii_to_lowercase(raw);
            let closes = {
                let bytes = tag.as_bytes();
                bytes.len() > 0 && bytes[0] == 47
            };
            if closes {
                None
            } else {
                Some((tag, to_vec(trim_ascii(content))))
            }
        },
        None => match find_byte(58, line) {
            Some(c) => {
                let n = line.len();
                let left = slice_subrange(line, 0, c);
                let right = slice_subrange(line, c + 1, n);
                Some((ascii_to_lowercase(trim_ascii(left)), to_vec(trim_ascii(right))))
            },
            None => None,
        },
    }
}

/// Closes the open blocks that are indented as deep as `indent` or deeper.
fn pop_to_indent(stack: &mut Vec<Frame>, indent: usize)
    requires
        old(stack).len() >= 1,
    ensures
        final(stack).len() >= 1,
        stack_view(final(stack)@) == pop_to_indent_model(stack_view(old(stack)@), indent as int),
{
    let ghost start = stack_view(stack@);
    while stack.len() >= 2 && stack[stack.len() - 1].indent >= indent
        invariant
            stack.len() >= 1,
            pop_to_indent_model(stack_view(stack@), indent as int) == pop_to_indent_model(
                start,
                indent as int,
            ),
        decreases stack.len(),
    {
        close_top(stack);
    }
}

/// Applies a line of a tab header to the stack of open blocks.
fn tab_line(stack: &mut Vec<Frame>, line: &[u8])
    requires
        old(stack).len() >= 1,
    ensures
        final(stack).len() >= 1,
        stack_view(final(stack)@) == tab_step(stack_view(old(stack)@), line@),
{
    match tab_entry(line) {
        None => {},
        Some((tag, content)) => {
            let indent = count_indent(line);
            pop_to_indent(stack, indent);
            if content.len() > 0 {
                insert_top(stack, to_vec(tag.as_bytes()), MetadataValue::Text(content));
            } else {
                let ghost before = stack_view(stack@);
                stack.push(Frame { indent: indent, tag: tag, dict: MetadataDict::new() });
                assert(stack_view(stack@) =~= before.push(
                    FrameModel { indent: indent as int, tag: buffer_bytes(tag), dict: Seq::empty() },
                ));
            }
        },
    }
}

/// Tells whether a line holds a `<` and an ASCII capital behind the first one.
fn line_is_tag_like(line: &[u8]) -> (r: bool)
    ensures
        r == is_tag_like(line@),
{
    match find_byte(60, line) {
        None => false,
        Some(lt) => {
            let n = line.len();
            let mut k: usize = lt + 1;
            while k < n
                invariant
                    lt < k,
                    n == line@.len(),
                    byte_pos(line@, 60) == Some(lt as int),
                    forall|j: int| lt < j < k && j < line@.len() ==> !(65 <= #[trigger] line@[j] <= 90),
                decreases n - k,
            {
                if line[k] >= 65 && line[k] <= 90 {
                    assert(lt < k < line@.len() && 65 <= line@[k as int] <= 90);
                    return true;
                }
                k += 1;
            }
            false
        },
    }
}

/// Finds the first line that, trimmed, is the privacy-enhanced marker.
fn find_marker_line(head: &[u8], spans: &Vec<(usize, usize)>) -> (m: usize)
    requires
        spans@ == line_spans(head@),
        spans_within(spans@, head@.len() as int),
    ensures
        m == marker_line(lines_of(head@), 0),
        m <= spans.len(),
{
    let ghost lines = lines_of(head@);
    let marker = privacy_marker_bytes();
    let mut m: usize = 0;
    while m < spans.len()
        invariant
            m <= spans.len(),
            spans@ == line_spans(head@),
            spans_within(spans@, head@.len() as int),
            lines == lines_of(head@),
            marker@ == privacy_marker(),
            marker_line(lines, 0) == marker_line(lines, m as int),
        decreases spans.len() - m,
    {
        let (s, e) = spans[m];
        let line = slice_subrange(head, s, e);
        assert(line@ == lines[m as int]);
        if bytes_eq(trim_ascii(line), marker.as_slice()) {
            return m;
        }
        m += 1;
    }
    m
}

/// Reads the preamble from line `from` on: the lines up to the first that is blank or
/// tag-like, trimmed and joined by line feeds, and the index of the line that ended it.
fn read_preamble(head: &[u8], spans: &Vec<(usize, usize)>, from: usize) -> (r: (Vec<u8>, usize))
    requires
        spans@ == line_spans(head@),
        spans_within(spans@, head@.len() as int),
        from <= spans.len(),
    ensures
        r.1 == preamble_end(lines_of(head@), from as int),
        from <= r.1 <= spans.len(),
        r.0@ == join_trimmed(lines_of(head@), from as int, r.1 as int),
{
    let ghost lines = lines_of(head@);
    let n = spans.len();
    let mut message: Vec<u8> = Vec::new();
    let mut e: usize = from;
    while e < n
        invariant
            from <= e <= n,
            n == spans.len(),
            spans@ == line_spans(head@),
            spans_within(spans@, head@.len() as int),
            lines == lines_of(head@),
            preamble_end(lines, from as int) == preamble_end(lines, e as int),
            message@ == join_trimmed(lines, from as int, e as int),
        decreases n - e,
    {
        let (s, t) = spans[e];
        let line = slice_subrange(head, s, t);
        assert(line@ == lines[e as int]);
        let trimmed = trim_ascii(line);
        if trimmed.len() == 0 || line_is_tag_like(line) {
            return (message, e);
        }
        if e > from {
            message.push(10);
        }
        let mut k: usize = 0;
        let ghost base = message@;
        while k < trimmed.len()
            invariant
                k <= trimmed.len(),
                message@ == base + trimmed@.subrange(0, k as int),
            decreases trimmed.len() - k,
        {
            message.push(trimmed[k]);
            assert(trimmed@.subrange(0, k + 1) =~= trimmed@.subrange(0, k as int).push(
                trimmed@[k as int],
            ));
            k += 1;
        }
        assert(trimmed@.subrange(0, k as int) =~= trimmed@);
        assert(message@ =~= join_trimmed(lines, from as int, e + 1));
        e += 1;
    }
    (message, e)
}

/// Reads a header of the tab dialects: lines nest by their indentation, a line
/// with content is a leaf, one without opens a block. With `TabPrivacy` the
/// preamble behind the marker line is stored under its own root key first.
pub fn parse_tab_header(data: &[u8], end: usize, submission_type: &SubmissionType) -> (r:
    MetadataDict)
    requires
        end <= data.len(),
    ensures
        r@ == tab_header(
            lines_of(data@.subrange(0, end as int)),
            *submission_type == SubmissionType::TabPrivacy,
        ),
{
    let head = slice_subrange(data, 0, end);
    let spans = index_lines(head);
    let ghost lines = lines_of(head@);
    let n = spans.len();
    let mut root = MetadataDict::new();
    let mut first: usize = 0;
    let privacy = match submission_type {
        SubmissionType::TabPrivacy => true,
        _ => false,
    };
    if privacy {
        let m = find_marker_line(head, &spans);
        if m < n {
            let (message, e) = read_preamble(head, &spans, m + 1);
            root.insert_or_append(privacy_key_bytes(), MetadataValue::Text(message));
            assert(root@ =~= seq![(privacy_key(), Meta::Text(join_trimmed(lines, m + 1, e as int)))]);
            first = e;
        }
    }
    let ghost root_model = root@;
    let mut stack: Vec<Frame> = Vec::new();
    stack.push(Frame { indent: 0, tag: buffer_new(), dict: root });
    assert(stack_view(stack@) =~= root_stack(root_model));
    let mut i: usize = first;
    while i < n
        invariant
            first <= i <= n,
            n == spans.len(),
            spans@ == line_spans(head@),
            spans_within(spans@, head@.len() as int),
            lines == lines_of(head@),
            stack.len() >= 1,
            stack_view(stack@) == tab_fold(root_model, lines, first as int, i as int),
        decreases n - i,
    {
        let (s, e) = spans[i];
        let line = slice_subrange(head, s, e);
        assert(line@ == lines[i as int]);
        tab_line(&mut stack, line);
        i += 1;
    }
    close_all(stack)
}

/// Reads the header of a submission, `data[..end]`, in the given dialect.
pub fn parse_header_metadata(data: &[u8], end: usize, submission_type: &SubmissionType) -> (r:
    MetadataDict)
    requires
        end <= data.len(),
    ensures
        r@ == header_metadata(lines_of(data@.subrange(0, end as int)), *submission_type),
        dict_well_formed(r@),
{
    proof {
        lemma_header_well_formed(lines_of(data@.subrange(0, end as int)), *submission_type);
    }
    match submission_type {
        SubmissionType::DashedDefault => parse_dashed_default_header(data, end),
        _ => parse_tab_header(data, end, submission_type),
    }
}

} // verus!
