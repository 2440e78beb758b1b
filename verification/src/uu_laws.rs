use vstd::prelude::*;
use crate::bytes::{
    closed_lines, has_prefix, is_ws, lemma_line_spans_within, line_end, line_spans, line_start,
    lines_of, trim,
};
use crate::tags::{begin_word, end_word};
use crate::uu_decoder::{
    begin_line, decode_line, decode_lines, in_uu_range, six_bits, sub32, uu_byte, uu_decoded,
    uu_values,
};

verus! {

/// The byte at `i`, or zero behind the end.
pub open spec fn byte_or_zero(x: Seq<u8>, i: int) -> u8 {
    if 0 <= i < x.len() {
        x[i]
    } else {
        0
    }
}

/// The `k`-th six-bit value of the encoding of `x`: three bytes give four values.
pub open spec fn encoded_value(x: Seq<u8>, k: int) -> u8 {
    let g = 3 * (k / 4);
    let a = byte_or_zero(x, g);
    let b = byte_or_zero(x, g + 1);
    let c = byte_or_zero(x, g + 2);
    if k % 4 == 0 {
        a >> 2
    } else if k % 4 == 1 {
        ((a & 0x03) << 4) | (b >> 4)
    } else if k % 4 == 2 {
        ((b & 0x0f) << 2) | (c >> 6)
    } else {
        c & 0x3f
    }
}

/// The printable byte that stands for a six-bit value: a backtick for zero.
pub open spec fn uu_char(v: u8) -> u8 {
    if v == 0 {
        96
    } else {
        (v + 32) as u8
    }
}

/// The encoded line for at most 63 bytes: the length, then four printable
/// bytes for each three bytes, the last group filled up with zeros.
pub open spec fn encode_line(x: Seq<u8>) -> Seq<u8> {
    seq![uu_char(x.len() as u8)] + encode_body(x)
}

/// Where every byte is in the UU range, each gives one six-bit value.
pub proof fn lemma_uu_values_of_printable(s: Seq<u8>)
    requires
        forall|k: int| 0 <= k < s.len() ==> in_uu_range(#[trigger] s[k]),
    ensures
        uu_values(s) == Seq::new(s.len(), |k: int| six_bits(s[k])),
    decreases s.len(),
{
    if s.len() > 0 {
        let head = s.drop_last();
        assert forall|k: int| 0 <= k < head.len() implies in_uu_range(#[trigger] head[k]) by {
            assert(head[k] == s[k]);
        }
        lemma_uu_values_of_printable(head);
        assert(uu_values(s) =~= Seq::new(s.len(), |k: int| six_bits(s[k])));
    } else {
        assert(uu_values(s) =~= Seq::new(s.len(), |k: int| six_bits(s[k])));
    }
}

/// The printable byte of a six-bit value is in the UU range, is no whitespace, and
/// stands for that value.
pub proof fn lemma_six_bits_of_char(v: u8)
    requires
        v < 64,
    ensures
        in_uu_range(uu_char(v)),
        six_bits(uu_char(v)) == v,
        !is_ws(uu_char(v)),
{
    let c = uu_char(v);
    if v == 0 {
        assert(sub32(96u8) & 0x3f == 0) by (bit_vector);
    } else {
        let d: u8 = v;
        assert(d < 64 ==> d & 0x3f == d) by (bit_vector);
        assert(sub32(c) == v);
    }
}

/// The four values made from three bytes are below 64, and the three bytes are got back
/// from them.
pub proof fn lemma_encoded_value_small(a: u8, b: u8, c: u8)
    ensures
        a >> 2 < 64,
        ((a & 0x03) << 4) | (b >> 4) < 64,
        ((b & 0x0f) << 2) | (c >> 6) < 64,
        c & 0x3f < 64,
        ((a >> 2) << 2) | ((((a & 0x03) << 4) | (b >> 4)) >> 4) == a,
        (((((a & 0x03) << 4) | (b >> 4)) & 0x0f) << 4) | ((((b & 0x0f) << 2) | (c >> 6)) >> 2) == b,
        (((((b & 0x0f) << 2) | (c >> 6)) & 0x03) << 6) | (c & 0x3f) == c,
{
    assert(a >> 2 < 64) by (bit_vector);
    assert(((a & 0x03) << 4) | (b >> 4) < 64) by (bit_vector);
    assert(((b & 0x0f) << 2) | (c >> 6) < 64) by (bit_vector);
    assert(c & 0x3f < 64) by (bit_vector);
    assert(((a >> 2) << 2) | ((((a & 0x03) << 4) | (b >> 4)) >> 4) == a) by (bit_vector);
    assert((((((a & 0x03) << 4) | (b >> 4)) & 0x0f) << 4) | ((((b & 0x0f) << 2) | (c >> 6)) >> 2)
        == b) by (bit_vector);
    assert((((((b & 0x0f) << 2) | (c >> 6)) & 0x03) << 6) | (c & 0x3f) == c) by (bit_vector);
}

/// The printable bytes of an encoded line behind its length byte.
pub open spec fn encode_body(x: Seq<u8>) -> Seq<u8> {
    Seq::new((4 * ((x.len() + 2) / 3)) as nat, |k: int| uu_char(encoded_value(x, k)))
}

/// The six-bit values of an encoded line's body are the values that were encoded.
pub proof fn lemma_values_of_encoding(x: Seq<u8>)
    ensures
        uu_values(encode_body(x)) == Seq::new(encode_body(x).len(), |k: int| encoded_value(x, k)),
        encode_body(x).len() > 0 ==> !is_ws(encode_body(x).last()),
{
    let body = encode_body(x);
    assert forall|k: int| 0 <= k < body.len() implies encoded_value(x, k) < 64 by {
        let g = 3 * (k / 4);
        lemma_encoded_value_small(byte_or_zero(x, g), byte_or_zero(x, g + 1), byte_or_zero(x, g + 2));
    }
    assert forall|k: int| 0 <= k < body.len() implies in_uu_range(#[trigger] body[k]) && six_bits(
        body[k],
    ) == encoded_value(x, k) && !is_ws(body[k]) by {
        lemma_six_bits_of_char(encoded_value(x, k));
    }
    lemma_uu_values_of_printable(body);
    assert(uu_values(body) =~= Seq::new(body.len(), |k: int| encoded_value(x, k)));
}

/// Byte `3 * q + r` decoded from the encoded values is the byte that was encoded.
pub proof fn lemma_decoded_byte(x: Seq<u8>, v: Seq<u8>, q: int, r: int)
    requires
        0 <= q,
        0 <= r < 3,
        3 * q + r < x.len(),
        4 * q + 3 < v.len(),
        forall|k: int| 0 <= k < v.len() ==> v[k] == encoded_value(x, k),
    ensures
        uu_byte(v, 3 * q + r) == x[3 * q + r],
{
    let j = 3 * q + r;
    let g = 4 * q;
    assert(j / 3 == q && j % 3 == r);
    assert(g / 4 == q && g % 4 == 0);
    assert((g + 1) / 4 == q && (g + 1) % 4 == 1);
    assert((g + 2) / 4 == q && (g + 2) % 4 == 2);
    assert((g + 3) / 4 == q && (g + 3) % 4 == 3);
    let a = byte_or_zero(x, 3 * q);
    let b = byte_or_zero(x, 3 * q + 1);
    let c = byte_or_zero(x, 3 * q + 2);
    lemma_encoded_value_small(a, b, c);
    assert(v[g] == encoded_value(x, g));
    assert(v[g + 1] == encoded_value(x, g + 1));
    assert(v[g + 2] == encoded_value(x, g + 2));
    assert(v[g + 3] == encoded_value(x, g + 3));
    assert(v[g] == a >> 2);
    assert(v[g + 1] == ((a & 0x03) << 4) | (b >> 4));
    assert(v[g + 2] == ((b & 0x0f) << 2) | (c >> 6));
    assert(v[g + 3] == c & 0x3f);
}

/// Decoding an encoded line gives back the bytes that were encoded, for every
/// line of at most 45 bytes; trimming leaves such a line as it is.
pub proof fn lemma_line_round_trip(x: Seq<u8>)
    requires
        x.len() <= 45,
    ensures
        trim(encode_line(x)) == encode_line(x),
        decode_line(encode_line(x)) == x,
{
    let n = x.len() as int;
    let groups = (n + 2) / 3;
    let e = encode_line(x);
    let body = encode_body(x);
    assert(e =~= seq![uu_char(n as u8)] + body);
    assert(e.len() == 1 + 4 * groups);
    assert(e.subrange(1, e.len() as int) =~= body);
    lemma_values_of_encoding(x);
    let v = uu_values(body);
    lemma_six_bits_of_char(n as u8);
    assert(e[0] == uu_char(n as u8));
    let d = decode_line(e);
    assert(d.len() == n);
    assert forall|j: int| 0 <= j < n implies d[j] == x[j] by {
        let q = j / 3;
        let r = j % 3;
        lemma_decoded_byte(x, v, q, r);
        assert(d[j] == uu_byte(v, j));
    }
    assert(d =~= x);
    assert(!is_ws(e[0]));
    assert(!is_ws(e[e.len() - 1])) by {
        if groups > 0 {
            assert(e[e.len() - 1] == body.last());
        }
    }
    assert(trim(e) =~= e);
}

/// Every byte of an encoded line is printable and no whitespace.
pub proof fn lemma_encoded_line_printable(x: Seq<u8>)
    requires
        x.len() <= 45,
    ensures
        encode_line(x).len() >= 1,
        forall|k: int| 0 <= k < encode_line(x).len() ==> 33 <= #[trigger] encode_line(x)[k] <= 96,
{
    let e = encode_line(x);
    let body = encode_body(x);
    assert forall|k: int| 0 <= k < e.len() implies 33 <= #[trigger] e[k] <= 96 by {
        if k == 0 {
            lemma_six_bits_of_char(x.len() as u8);
        } else {
            let g = 3 * ((k - 1) / 4);
            lemma_encoded_value_small(
                byte_or_zero(x, g),
                byte_or_zero(x, g + 1),
                byte_or_zero(x, g + 2),
            );
            lemma_six_bits_of_char(encoded_value(x, k - 1));
            assert(e[k] == body[k - 1]);
        }
    }
}

/// The byte string is empty or ends with a line feed.
pub open spec fn ends_lines(a: Seq<u8>) -> bool {
    a.len() == 0 || a.last() == 10
}

/// The lines closed before `pos` depend on the bytes before `pos` only.
pub proof fn lemma_lines_of_prefix(d1: Seq<u8>, d2: Seq<u8>, pos: int)
    requires
        0 <= pos <= d1.len(),
        pos <= d2.len(),
        d1.subrange(0, pos) == d2.subrange(0, pos),
    ensures
        closed_lines(d1, pos) == closed_lines(d2, pos),
        line_start(d1, pos) == line_start(d2, pos),
    decreases pos,
{
    if pos > 0 {
        assert(d1.subrange(0, pos - 1) =~= d1.subrange(0, pos).subrange(0, pos - 1));
        assert(d2.subrange(0, pos - 1) =~= d2.subrange(0, pos).subrange(0, pos - 1));
        lemma_lines_of_prefix(d1, d2, pos - 1);
        assert(d1[pos - 1] == d1.subrange(0, pos)[pos - 1]);
        assert(d2[pos - 1] == d2.subrange(0, pos)[pos - 1]);
        if pos >= 2 {
            assert(d1[pos - 2] == d1.subrange(0, pos)[pos - 2]);
            assert(d2[pos - 2] == d2.subrange(0, pos)[pos - 2]);
        }
    }
}

/// A stretch without line feed closes no line.
pub proof fn lemma_stretch_without_line_feed(d: Seq<u8>, from: int, pos: int)
    requires
        0 <= from <= pos <= d.len(),
        forall|i: int| from <= i < pos ==> d[i] != 10,
    ensures
        closed_lines(d, pos) == closed_lines(d, from),
        line_start(d, pos) == line_start(d, from),
    decreases pos - from,
{
    if pos > from {
        lemma_stretch_without_line_feed(d, from, pos - 1);
    }
}

/// A line appended behind complete lines is one more line.
pub proof fn lemma_append_line(a: Seq<u8>, l: Seq<u8>)
    requires
        a.len() + l.len() + 1 <= usize::MAX,
        ends_lines(a),
        forall|i: int| 0 <= i < l.len() ==> l[i] != 10,
        l.len() > 0 ==> l.last() != 13,
    ensures
        ends_lines(a + l + seq![10u8]),
        lines_of(a + l + seq![10u8]) == lines_of(a).push(l),
{
    let d = a + l + seq![10u8];
    let n = a.len() as int;
    let m = l.len() as int;
    assert(d.len() == n + m + 1);
    assert(d.subrange(0, n) =~= a);
    assert(a.subrange(0, n) =~= a);
    lemma_lines_of_prefix(a, d, n);
    assert(line_start(a, n) == n);
    assert forall|i: int| n <= i < n + m implies d[i] != 10 by {
        assert(d[i] == l[i - n]);
    }
    lemma_stretch_without_line_feed(d, n, n + m);
    assert(d[n + m] == 10);
    assert(line_end(d, n + m) == n + m) by {
        if m > 0 {
            assert(d[n + m - 1] == l[m - 1]);
        } else if n > 0 {
            assert(d[n - 1] == a[n - 1]);
        }
    }
    assert(closed_lines(d, n + m + 1) == closed_lines(a, n).push((n as usize, (n + m) as usize)));
    assert(line_start(d, n + m + 1) == n + m + 1);
    assert(line_spans(d) == line_spans(a).push((n as usize, (n + m) as usize)));
    lemma_line_spans_within(a);
    let spans = line_spans(a);
    assert forall|k: int| 0 <= k < lines_of(d).len() implies lines_of(d)[k] == lines_of(a).push(
        l,
    )[k] by {
        if k < spans.len() {
            assert(line_spans(d)[k] == spans[k]);
            assert(d.subrange(spans[k].0 as int, spans[k].1 as int) =~= a.subrange(
                spans[k].0 as int,
                spans[k].1 as int,
            ));
        } else {
            assert(d.subrange(n, n + m) =~= l);
        }
    }
    assert(lines_of(d) =~= lines_of(a).push(l));
}

/// The first `n` chunks, each as an encoded line with its line feed.
pub open spec fn encoded_lines(chunks: Seq<Seq<u8>>, n: int) -> Seq<u8>
    decreases n,
{
    if n <= 0 {
        Seq::empty()
    } else {
        encoded_lines(chunks, n - 1) + encode_line(chunks[n - 1]) + seq![10u8]
    }
}

/// An encoded body: the line that opens it, one encoded line for each chunk,
/// and the line that reads `end`.
pub open spec fn encode(opening: Seq<u8>, chunks: Seq<Seq<u8>>) -> Seq<u8> {
    opening + seq![10u8] + encoded_lines(chunks, chunks.len() as int) + end_word() + seq![10u8]
}

/// The chunks from `i` on, one behind the other.
pub open spec fn joined_from(chunks: Seq<Seq<u8>>, i: int) -> Seq<u8>
    decreases chunks.len() - i,
{
    if 0 <= i < chunks.len() {
        chunks[i] + joined_from(chunks, i + 1)
    } else {
        Seq::empty()
    }
}

/// The lines of an encoded body before its `end` line.
pub open spec fn framed_lines(opening: Seq<u8>, chunks: Seq<Seq<u8>>, n: int) -> Seq<Seq<u8>> {
    Seq::new((n + 1) as nat, |k: int| if k == 0 { opening } else { encode_line(chunks[k - 1]) })
}

/// The lines of the opening line and the first `n` encoded lines.
pub proof fn lemma_lines_of_frame(opening: Seq<u8>, chunks: Seq<Seq<u8>>, n: int)
    requires
        0 <= n <= chunks.len(),
        forall|i: int| 0 <= i < opening.len() ==> opening[i] != 10,
        opening.len() > 0 ==> opening.last() != 13,
        forall|i: int| 0 <= i < chunks.len() ==> (#[trigger] chunks[i]).len() <= 45,
        (opening + seq![10u8] + encoded_lines(chunks, n)).len() <= usize::MAX,
    ensures
        ends_lines(opening + seq![10u8] + encoded_lines(chunks, n)),
        lines_of(opening + seq![10u8] + encoded_lines(chunks, n)) == framed_lines(
            opening,
            chunks,
            n,
        ),
    decreases n,
{
    let empty = Seq::<u8>::empty();
    if n == 0 {
        assert(line_spans(empty) =~= Seq::<(usize, usize)>::empty());
        assert(lines_of(empty) =~= Seq::<Seq<u8>>::empty());
        lemma_append_line(empty, opening);
        assert(empty + opening + seq![10u8] =~= opening + seq![10u8] + encoded_lines(chunks, 0));
        assert(lines_of(empty).push(opening) =~= framed_lines(opening, chunks, 0));
    } else {
        let before = opening + seq![10u8] + encoded_lines(chunks, n - 1);
        let line = encode_line(chunks[n - 1]);
        assert(before + line + seq![10u8] =~= opening + seq![10u8] + encoded_lines(chunks, n));
        lemma_lines_of_frame(opening, chunks, n - 1);
        lemma_encoded_line_printable(chunks[n - 1]);
        lemma_append_line(before, line);
        assert(framed_lines(opening, chunks, n - 1).push(line) =~= framed_lines(
            opening,
            chunks,
            n,
        ));
    }
}

/// The lines behind the opening line decode to the chunks, from chunk `i` on.
pub proof fn lemma_decode_framed(lines: Seq<Seq<u8>>, opening: Seq<u8>, chunks: Seq<Seq<u8>>, i: int)
    requires
        0 <= i <= chunks.len(),
        forall|k: int| 0 <= k < chunks.len() ==> (#[trigger] chunks[k]).len() <= 45,
        lines == framed_lines(opening, chunks, chunks.len() as int).push(end_word()),
    ensures
        decode_lines(lines, 1 + i) == joined_from(chunks, i),
    decreases chunks.len() - i,
{
    if i < chunks.len() {
        let line = encode_line(chunks[i]);
        assert(lines[1 + i] == line);
        lemma_line_round_trip(chunks[i]);
        lemma_encoded_line_printable(chunks[i]);
        assert(line[0] != end_word()[0]);
        lemma_decode_framed(lines, opening, chunks, i + 1);
    } else {
        assert(lines[1 + i] == end_word());
        assert(trim(end_word()) =~= end_word());
    }
}

/// Decoding an encoded body gives back the bytes that were encoded: for every
/// opening line that, trimmed, begins with `begin`, and every sequence of
/// chunks of at most 45 bytes each, encoded one chunk a line.
pub proof fn lemma_round_trip(opening: Seq<u8>, chunks: Seq<Seq<u8>>)
    requires
        has_prefix(trim(opening), begin_word()),
        forall|i: int| 0 <= i < opening.len() ==> opening[i] != 10,
        opening.len() > 0 ==> opening.last() != 13,
        forall|i: int| 0 <= i < chunks.len() ==> (#[trigger] chunks[i]).len() <= 45,
        encode(opening, chunks).len() <= usize::MAX,
    ensures
        uu_decoded(encode(opening, chunks)) == joined_from(chunks, 0),
{
    let n = chunks.len() as int;
    let before = opening + seq![10u8] + encoded_lines(chunks, n);
    lemma_lines_of_frame(opening, chunks, n);
    assert(forall|i: int| 0 <= i < end_word().len() ==> end_word()[i] != 10);
    lemma_append_line(before, end_word());
    let lines = lines_of(encode(opening, chunks));
    assert(before + end_word() + seq![10u8] =~= encode(opening, chunks));
    assert(lines == framed_lines(opening, chunks, n).push(end_word()));
    assert(lines[0] == opening);
    assert(begin_line(lines, 0) == 0);
    lemma_decode_framed(lines, opening, chunks, 0);
}

} // verus!
