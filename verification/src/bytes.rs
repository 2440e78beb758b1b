use vstd::prelude::*;
use vstd::slice::slice_subrange;
use crate::search::{byte_pos, find_byte};
use crate::tag_buffer::{buffer_bytes, buffer_new, buffer_push, TagBuffer};

verus! {

/// The four bytes that count as ASCII whitespace: space, tab, carriage return, line feed.
pub open spec fn is_ws(b: u8) -> bool {
    b == 32 || b == 9 || b == 13 || b == 10
}

/// The first index at or after `i` that holds no whitespace, or the length.
pub open spec fn ws_from(s: Seq<u8>, i: int) -> int
    decreases s.len() - i,
{
    if 0 <= i < s.len() && is_ws(s[i]) {
        ws_from(s, i + 1)
    } else {
        i
    }
}

/// The end of `s[lo..j]` once its trailing whitespace is cut off.
pub open spec fn ws_back(s: Seq<u8>, lo: int, j: int) -> int
    decreases j,
{
    if lo < j <= s.len() && 0 < j && is_ws(s[j - 1]) {
        ws_back(s, lo, j - 1)
    } else {
        j
    }
}

/// `s` without its leading whitespace.
pub open spec fn trim_start(s: Seq<u8>) -> Seq<u8> {
    s.skip(ws_from(s, 0))
}

/// `s` without its leading and trailing whitespace.
pub open spec fn trim(s: Seq<u8>) -> Seq<u8> {
    s.subrange(ws_from(s, 0), ws_back(s, ws_from(s, 0), s.len() as int))
}

/// The lower-case form of an ASCII capital; any other byte unchanged.
pub open spec fn lower_byte(b: u8) -> u8 {
    if 65 <= b <= 90 {
        (b + 32) as u8
    } else {
        b
    }
}

/// `s` with each ASCII capital replaced by its lower-case form.
pub open spec fn lower(s: Seq<u8>) -> Seq<u8> {
    Seq::new(s.len(), |i: int| lower_byte(s[i]))
}

/// `p` is a prefix of `s`.
pub open spec fn has_prefix(s: Seq<u8>, p: Seq<u8>) -> bool {
    p.len() <= s.len() && s.subrange(0, p.len() as int) == p
}

/// Tells whether a byte is ASCII whitespace.
pub fn is_ws_byte(b: u8) -> (r: bool)
    ensures
        r == is_ws(b),
{
    b == 32 || b == 9 || b == 13 || b == 10
}

/// Between `i` and the first byte that is no whitespace stands whitespace only.
pub proof fn lemma_ws_from(s: Seq<u8>, i: int)
    requires
        0 <= i <= s.len(),
    ensures
        i <= ws_from(s, i) <= s.len(),
        forall|k: int| i <= k < ws_from(s, i) ==> is_ws(#[trigger] s[k]),
    decreases s.len() - i,
{
    if i < s.len() && is_ws(s[i]) {
        lemma_ws_from(s, i + 1);
    }
}

/// Two byte strings hold the same bytes.
pub fn bytes_eq(a: &[u8], b: &[u8]) -> (r: bool)
    ensures
        r == (a@ == b@),
{
    if a.len() != b.len() {
        return false;
    }
    let mut i: usize = 0;
    while i < a.len()
        invariant
            i <= a.len(),
            a.len() == b.len(),
            forall|k: int| 0 <= k < i ==> a@[k] == b@[k],
        decreases a.len() - i,
    {
        if a[i] != b[i] {
            return false;
        }
        i += 1;
    }
    assert(a@ =~= b@);
    true
}

/// `data` begins with `prefix`.
pub fn starts_with(data: &[u8], prefix: &[u8]) -> (r: bool)
    ensures
        r == has_prefix(data@, prefix@),
{
    if prefix.len() > data.len() {
        return false;
    }
    let head = slice_subrange(data, 0, prefix.len());
    bytes_eq(head, prefix)
}

/// Cuts leading ASCII whitespace off a byte string.
pub fn trim_ascii_start(data: &[u8]) -> (r: &[u8])
    ensures
        r@ == trim_start(data@),
{
    let mut i: usize = 0;
    while i < data.len() && is_ws_byte(data[i])
        invariant
            i <= data.len(),
            ws_from(data@, 0) == ws_from(data@, i as int),
        decreases data.len() - i,
    {
        i += 1;
    }
    slice_subrange(data, i, data.len())
}

/// Cuts leading and trailing ASCII whitespace off a byte string.
pub fn trim_ascii(data: &[u8]) -> (r: &[u8])
    ensures
        r@ == trim(data@),
{
    let mut i: usize = 0;
    while i < data.len() && is_ws_byte(data[i])
        invariant
            i <= data.len(),
            ws_from(data@, 0) == ws_from(data@, i as int),
        decreases data.len() - i,
    {
        i += 1;
    }
    let mut j: usize = data.len();
    while j > i && is_ws_byte(data[j - 1])
        invariant
            i <= j <= data.len(),
            ws_back(data@, i as int, data@.len() as int) == ws_back(data@, i as int, j as int),
        decreases j,
    {
        j -= 1;
    }
    slice_subrange(data, i, j)
}

/// Copies a byte string into a tag buffer, turning ASCII capitals into lower
/// case and leaving every other byte, non-ASCII ones included, as it is.
pub fn ascii_to_lowercase(bytes: &[u8]) -> (r: TagBuffer)
    ensures
        buffer_bytes(r) == lower(bytes@),
{
    let mut out = buffer_new();
    let mut i: usize = 0;
    while i < bytes.len()
        invariant
            i <= bytes.len(),
            buffer_bytes(out) == lower(bytes@).subrange(0, i as int),
        decreases bytes.len() - i,
    {
        let b: u8 = bytes[i];
        let lowered: u8 = if b >= 65 && b <= 90 {
            b + 32
        } else {
            b
        };
        buffer_push(&mut out, lowered);
        assert(lower(bytes@).subrange(0, i + 1) =~= lower(bytes@).subrange(0, i as int).push(
            lowered,
        ));
        i += 1;
    }
    assert(lower(bytes@).subrange(0, i as int) =~= lower(bytes@));
    out
}

/// Copies a byte string.
pub fn to_vec(bytes: &[u8]) -> (r: Vec<u8>)
    ensures
        r@ == bytes@,
{
    let mut out: Vec<u8> = Vec::with_capacity(bytes.len());
    let mut i: usize = 0;
    while i < bytes.len()
        invariant
            i <= bytes.len(),
            out@ == bytes@.subrange(0, i as int),
        decreases bytes.len() - i,
    {
        out.push(bytes[i]);
        assert(bytes@.subrange(0, i + 1) =~= bytes@.subrange(0, i as int).push(bytes@[i as int]));
        i += 1;
    }
    assert(bytes@.subrange(0, i as int) =~= bytes@);
    out
}

/// Appends `src` to `dst`.
pub fn append_bytes(dst: &mut Vec<u8>, src: &[u8])
    ensures
        final(dst)@ == old(dst)@ + src@,
{
    let ghost base = dst@;
    let mut i: usize = 0;
    while i < src.len()
        invariant
            i <= src.len(),
            dst@ == base + src@.subrange(0, i as int),
        decreases src.len() - i,
    {
        dst.push(src[i]);
        assert(src@.subrange(0, i + 1) =~= src@.subrange(0, i as int).push(src@[i as int]));
        i += 1;
    }
    assert(src@.subrange(0, i as int) =~= src@);
}

/// The start of the line that is open at `pos`: just behind the last line feed
/// before `pos`, or 0.
pub open spec fn line_start(data: Seq<u8>, pos: int) -> int
    decreases pos,
{
    if pos <= 0 {
        0
    } else if data[pos - 1] == 10 {
        pos
    } else {
        line_start(data, pos - 1)
    }
}

/// The end of a line whose line feed stands at `nl`: a carriage return just
/// before the line feed is left out.
pub open spec fn line_end(data: Seq<u8>, nl: int) -> int {
    if nl > 0 && data[nl - 1] == 13 {
        nl - 1
    } else {
        nl
    }
}

/// The lines of `data` that a line feed before `pos` closes, in order.
pub open spec fn closed_lines(data: Seq<u8>, pos: int) -> Seq<(usize, usize)>
    decreases pos,
{
    if pos <= 0 {
        Seq::empty()
    } else if data[pos - 1] == 10 {
        closed_lines(data, pos - 1).push(
            (line_start(data, pos - 1) as usize, line_end(data, pos - 1) as usize),
        )
    } else {
        closed_lines(data, pos - 1)
    }
}

/// The lines of `data` as half-open ranges: split at line feeds, a carriage
/// return before the line feed left out, a last line without line feed included.
pub open spec fn line_spans(data: Seq<u8>) -> Seq<(usize, usize)> {
    let n = data.len() as int;
    if line_start(data, n) < n {
        closed_lines(data, n).push((line_start(data, n) as usize, n as usize))
    } else {
        closed_lines(data, n)
    }
}

/// The contents of the lines of `data`, in order.
pub open spec fn lines_of(data: Seq<u8>) -> Seq<Seq<u8>> {
    let spans = line_spans(data);
    Seq::new(spans.len(), |k: int| data.subrange(spans[k].0 as int, spans[k].1 as int))
}

/// Every range is within the data and well ordered.
pub open spec fn spans_within(spans: Seq<(usize, usize)>, len: int) -> bool {
    forall|k: int| 0 <= k < spans.len() ==> (#[trigger] spans[k]).0 <= spans[k].1 <= len
}

/// The open line starts at or before `pos`, and before a carriage return at `pos - 1`.
pub proof fn lemma_line_start_bounds(data: Seq<u8>, pos: int)
    requires
        0 <= pos <= data.len(),
    ensures
        0 <= line_start(data, pos) <= pos,
        pos > 0 && data[pos - 1] == 13 ==> line_start(data, pos) <= pos - 1,
    decreases pos,
{
    if pos > 0 && data[pos - 1] != 10 {
        lemma_line_start_bounds(data, pos - 1);
    }
}

/// The closed lines lie within the data.
pub proof fn lemma_closed_lines_within(data: Seq<u8>, pos: int)
    requires
        0 <= pos <= data.len(),
        data.len() <= usize::MAX,
    ensures
        spans_within(closed_lines(data, pos), data.len() as int),
    decreases pos,
{
    if pos > 0 {
        lemma_closed_lines_within(data, pos - 1);
        lemma_line_start_bounds(data, pos - 1);
    }
}

/// Each closed line ends before the next one begins, and all end before the open line
/// begins.
pub proof fn lemma_closed_lines_increase(data: Seq<u8>, pos: int)
    requires
        0 <= pos <= data.len(),
        data.len() <= usize::MAX,
    ensures
        forall|k: int|
            0 <= k < closed_lines(data, pos).len() ==> (#[trigger] closed_lines(data, pos)[k]).1
                < line_start(data, pos),
        forall|k: int, l: int|
            0 <= k < l < closed_lines(data, pos).len() ==> (#[trigger] closed_lines(data, pos)[k]).1
                < (#[trigger] closed_lines(data, pos)[l]).0,
    decreases pos,
{
    if pos > 0 {
        lemma_closed_lines_increase(data, pos - 1);
        lemma_line_start_bounds(data, pos - 1);
        lemma_line_start_bounds(data, pos);
        let prev = closed_lines(data, pos - 1);
        let cur = closed_lines(data, pos);
        if data[pos - 1] == 10 {
            let s = line_start(data, pos - 1);
            let e = line_end(data, pos - 1);
            assert(cur == prev.push((s as usize, e as usize)));
            assert(0 <= s <= e <= pos - 1);
            assert(line_start(data, pos) == pos);
            assert forall|k: int| 0 <= k < cur.len() implies (#[trigger] cur[k]).1 < line_start(
                data,
                pos,
            ) by {
                if k < prev.len() {
                    assert(cur[k] == prev[k]);
                }
            }
            assert forall|k: int, l: int| 0 <= k < l < cur.len() implies (#[trigger] cur[k]).1 < (
            #[trigger] cur[l]).0 by {
                assert(cur[k] == prev[k]);
                if l < prev.len() {
                    assert(cur[l] == prev[l]);
                }
            }
        } else {
            assert(cur == prev);
            assert(line_start(data, pos) == line_start(data, pos - 1));
        }
    }
}

/// Each line of a byte string ends before the next one begins.
pub proof fn lemma_line_spans_increase(data: Seq<u8>)
    requires
        data.len() <= usize::MAX,
    ensures
        forall|k: int, l: int|
            0 <= k < l < line_spans(data).len() ==> (#[trigger] line_spans(data)[k]).1 < (
            #[trigger] line_spans(data)[l]).0,
{
    lemma_closed_lines_increase(data, data.len() as int);
    lemma_line_start_bounds(data, data.len() as int);
}

/// The lines of a byte string lie within it.
pub proof fn lemma_line_spans_within(data: Seq<u8>)
    requires
        data.len() <= usize::MAX,
    ensures
        spans_within(line_spans(data), data.len() as int),
{
    lemma_closed_lines_within(data, data.len() as int);
    lemma_line_start_bounds(data, data.len() as int);
}

/// Splits a byte string into lines, each given as a half-open range of offsets.
pub fn index_lines(data: &[u8]) -> (r: Vec<(usize, usize)>)
    ensures
        r@ == line_spans(data@),
        spans_within(r@, data@.len() as int),
{
    let mut lines: Vec<(usize, usize)> = Vec::new();
    let mut pos: usize = 0;
    let mut start: usize = 0;
    while pos < data.len()
        invariant
            pos <= data.len(),
            start == line_start(data@, pos as int),
            start <= pos,
            lines@ == closed_lines(data@, pos as int),
        decreases data.len() - pos,
    {
        if data[pos] == 10 {
            let end: usize = if pos > 0 && data[pos - 1] == 13 {
                pos - 1
            } else {
                pos
            };
            lines.push((start, end));
            start = pos + 1;
        }
        pos += 1;
    }
    if start < data.len() {
        lines.push((start, data.len()));
    }
    proof {
        lemma_line_spans_within(data@);
    }
    lines
}

/// What a line that opens a tag splits into: the bytes between `<` and the first
/// `>`, and the bytes behind that `>`. None where the line does not begin with `<`
/// or holds no `>`.
pub open spec fn tag_split(line: Seq<u8>) -> Option<(Seq<u8>, Seq<u8>)> {
    if line.len() > 0 && line[0] == 60 {
        match byte_pos(line, 62) {
            Some(gt) => Some((line.subrange(1, gt), line.skip(gt + 1))),
            None => None,
        }
    } else {
        None
    }
}

/// Splits a line that begins with `<` into the tag between the angle brackets
/// and the content behind the closing bracket.
pub fn parse_tag_content(line: &[u8]) -> (r: Option<(&[u8], &[u8])>)
    ensures
        match r {
            Some((tag, content)) => tag_split(line@) == Some((tag@, content@)),
            None => tag_split(line@) is None,
        },
{
    if line.len() == 0 || line[0] != 60 {
        return None;
    }
    match find_byte(62, line) {
        None => None,
        Some(gt) => {
            let tag = slice_subrange(line, 1, gt);
            let content = slice_subrange(line, gt + 1, line.len());
            Some((tag, content))
        },
    }
}

} // verus!
