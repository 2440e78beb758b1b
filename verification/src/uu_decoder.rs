use vstd::prelude::*;
use vstd::slice::slice_subrange;
use crate::bytes::{
    append_bytes, bytes_eq, has_prefix, index_lines, line_spans, lines_of, spans_within, starts_with, trim,
    trim_ascii,
};
use crate::tags::{begin_word, begin_word_bytes, end_word, end_word_bytes};

verus! {

/// The byte is in the printable range that UU encoding uses.
pub open spec fn in_uu_range(b: u8) -> bool {
    32 <= b <= 96
}

/// `b - 32` modulo 256.
pub open spec fn sub32(b: u8) -> u8 {
    if b >= 32 {
        (b - 32) as u8
    } else {
        (b + 224) as u8
    }
}

/// The six bits that an encoded byte stands for.
pub open spec fn six_bits(b: u8) -> u8 {
    sub32(b) & 0x3f
}

/// The six-bit values of the bytes of `s` that are in the UU range, in order;
/// bytes outside the range are passed over.
pub open spec fn uu_values(s: Seq<u8>) -> Seq<u8>
    decreases s.len(),
{
    if s.len() == 0 {
        Seq::empty()
    } else if in_uu_range(s.last()) {
        uu_values(s.drop_last()).push(six_bits(s.last()))
    } else {
        uu_values(s.drop_last())
    }
}

/// Byte `j` of what the six-bit values `v` decode to: four values give three bytes.
pub open spec fn uu_byte(v: Seq<u8>, j: int) -> u8 {
    let g = 4 * (j / 3);
    if j % 3 == 0 {
        (v[g] << 2) | (v[g + 1] >> 4)
    } else if j % 3 == 1 {
        ((v[g + 1] & 0x0f) << 4) | (v[g + 2] >> 2)
    } else {
        ((v[g + 2] & 0x03) << 6) | v[g + 3]
    }
}

/// The number of bytes that a line yields: the count its first byte declares,
/// or the whole bytes that its `values` six-bit values hold, if that is less.
pub open spec fn line_yield(first: u8, values: int) -> int {
    let declared = six_bits(first) as int;
    let present = (3 * values) / 4;
    if declared <= present {
        declared
    } else {
        present
    }
}

/// What one encoded line decodes to.
pub open spec fn decode_line(line: Seq<u8>) -> Seq<u8> {
    if line.len() == 0 {
        Seq::empty()
    } else {
        let v = uu_values(line.subrange(1, line.len() as int));
        Seq::new(line_yield(line[0], v.len() as int) as nat, |j: int| uu_byte(v, j))
    }
}

/// The first index at or after `i` of a line that, trimmed, begins with
/// `begin`; the number of lines where there is none.
pub open spec fn begin_line(lines: Seq<Seq<u8>>, i: int) -> int
    decreases lines.len() - i,
{
    if 0 <= i < lines.len() {
        if has_prefix(trim(lines[i]), begin_word()) {
            i
        } else {
            begin_line(lines, i + 1)
        }
    } else {
        lines.len() as int
    }
}

/// What the lines from `i` on decode to: each line is trimmed and decoded, up
/// to a line that reads `end`.
pub open spec fn decode_lines(lines: Seq<Seq<u8>>, i: int) -> Seq<u8>
    decreases lines.len() - i,
{
    if 0 <= i < lines.len() {
        if trim(lines[i]) == end_word() {
            Seq::empty()
        } else {
            decode_line(trim(lines[i])) + decode_lines(lines, i + 1)
        }
    } else {
        Seq::empty()
    }
}

/// What a UU-encoded body decodes to: the lines behind the first `begin` line,
/// up to the `end` line. Empty where there is no `begin` line.
pub open spec fn uu_decoded(data: Seq<u8>) -> Seq<u8> {
    let lines = lines_of(data);
    decode_lines(lines, begin_line(lines, 0) + 1)
}

/// There are at most as many six-bit values as bytes, and each is below 64.
pub proof fn lemma_uu_values_len(s: Seq<u8>)
    ensures
        uu_values(s).len() <= s.len(),
        forall|k: int| 0 <= k < uu_values(s).len() ==> #[trigger] uu_values(s)[k] < 64,
    decreases s.len(),
{
    if s.len() > 0 {
        lemma_uu_values_len(s.drop_last());
        let b = s.last();
        assert(sub32(b) & 0x3f < 64) by (bit_vector);
    }
}

/// Computes the six bits that an encoded byte stands for.
fn six_bits_of(b: u8) -> (r: u8)
    ensures
        r == six_bits(b),
        r < 64,
{
    let d: u8 = if b >= 32 {
        b - 32
    } else {
        b + 224
    };
    assert(d & 0x3f < 64) by (bit_vector);
    d & 0x3f
}

/// Decodes one UU-encoded line: the first byte declares how many bytes the line
/// holds; the rest gives six bits per byte in the printable range, four of them
/// to three bytes. A line that is cut short yields what its bytes hold.
pub fn decode_uu_line(line: &[u8]) -> (r: Vec<u8>)
    ensures
        r@ == decode_line(line@),
{
    let mut out: Vec<u8> = Vec::new();
    let n = line.len();
    if n == 0 {
        assert(out@ =~= decode_line(line@));
        return out;
    }
    let declared: usize = six_bits_of(line[0]) as usize;
    let ghost body = line@.subrange(1, n as int);
    let mut values: Vec<u8> = Vec::new();
    let mut i: usize = 1;
    while i < n
        invariant
            1 <= i <= n,
            n == line@.len(),
            values@ == uu_values(line@.subrange(1, i as int)),
        decreases n - i,
    {
        let b: u8 = line[i];
        assert(line@.subrange(1, i + 1).drop_last() =~= line@.subrange(1, i as int));
        if b >= 32 && b <= 96 {
            values.push(six_bits_of(b));
        }
        i += 1;
    }
    proof {
        lemma_uu_values_len(body);
    }
    let held: usize = if values.len() > 84 {
        84
    } else {
        values.len()
    };
    let present: usize = (3 * held) / 4;
    let count: usize = if declared <= present {
        declared
    } else {
        present
    };
    assert(count == line_yield(line@[0], values@.len() as int));
    let mut j: usize = 0;
    while j < count
        invariant
            j <= count,
            count <= 63,
            count <= (3 * values@.len()) / 4,
            out@.len() == j,
            forall|k: int| 0 <= k < j ==> out@[k] == uu_byte(values@, k),
        decreases count - j,
    {
        let g: usize = 4 * (j / 3);
        let byte: u8 = if j % 3 == 0 {
            (values[g] << 2) | (values[g + 1] >> 4)
        } else if j % 3 == 1 {
            ((values[g + 1] & 0x0f) << 4) | (values[g + 2] >> 2)
        } else {
            ((values[g + 2] & 0x03) << 6) | values[g + 3]
        };
        out.push(byte);
        j += 1;
    }
    assert(out@ =~= decode_line(line@));
    out
}

/// The index of the first line that, trimmed, begins with `begin`; the number
/// of lines where there is none.
pub fn find_begin_line(input: &[u8], spans: &Vec<(usize, usize)>) -> (r: usize)
    requires
        spans@ == line_spans(input@),
        spans_within(spans@, input@.len() as int),
    ensures
        r == begin_line(lines_of(input@), 0),
        r <= spans.len(),
{
    let ghost lines = lines_of(input@);
    let word = begin_word_bytes();
    let mut i: usize = 0;
    while i < spans.len()
        invariant
            i <= spans.len(),
            spans@ == line_spans(input@),
            spans_within(spans@, input@.len() as int),
            lines == lines_of(input@),
            word@ == begin_word(),
            begin_line(lines, 0) == begin_line(lines, i as int),
        decreases spans.len() - i,
    {
        let (s, e) = spans[i];
        let line = slice_subrange(input, s, e);
        assert(line@ == lines[i as int]);
        if starts_with(trim_ascii(line), word.as_slice()) {
            return i;
        }
        i += 1;
    }
    i
}

/// Decodes a UU-encoded body. Lines that are malformed yield what they hold;
/// nothing makes the decoding fail.
pub fn decode(input: &[u8]) -> (r: Vec<u8>)
    ensures
        r@ == uu_decoded(input@),
{
    let spans = index_lines(input);
    let ghost lines = lines_of(input@);
    let begin = find_begin_line(input, &spans);
    let mut out: Vec<u8> = Vec::new();
    if begin >= spans.len() {
        return out;
    }
    let end_marker = end_word_bytes();
    let mut i: usize = begin + 1;
    while i < spans.len()
        invariant
            begin + 1 <= i <= spans.len(),
            spans@ == line_spans(input@),
            spans_within(spans@, input@.len() as int),
            lines == lines_of(input@),
            end_marker@ == end_word(),
            begin == begin_line(lines, 0),
            out@ + decode_lines(lines, i as int) == decode_lines(lines, begin + 1),
        decreases spans.len() - i,
    {
        let (s, e) = spans[i];
        let line = slice_subrange(input, s, e);
        assert(line@ == lines[i as int]);
        let trimmed = trim_ascii(line);
        if bytes_eq(trimmed, end_marker.as_slice()) {
            assert(out@ + Seq::<u8>::empty() =~= out@);
            return out;
        }
        let piece = decode_uu_line(trimmed);
        let ghost before = out@;
        append_bytes(&mut out, piece.as_slice());
        assert((before + piece@) + decode_lines(lines, i + 1) =~= before + (piece@ + decode_lines(
            lines,
            i + 1,
        )));
        i += 1;
    }
    assert(out@ + Seq::<u8>::empty() =~= out@);
    out
}

} // verus!
