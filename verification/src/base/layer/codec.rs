//! The byte image of a layer.
//!
//! An image opens with three big-endian `u64`s: the total payload size and the
//! two ends of the layer's bounds. The segments follow in ascending order,
//! each as its two range ends and then its bytes.

use crate::base::layer::ranges::{ascending, covers, holds, lemma_covers_push};
use crate::errors::Error;
use std::ops::Range;
use vstd::prelude::*;

verus! {

/// The bytes that the header of an image takes.
pub const HEADER_LEN: usize = 24;

/// The bytes that the two range ends in front of each segment's payload take.
pub const SEGMENT_HEADER_LEN: usize = 16;

/// A run of bytes and the addresses it stands at.
pub struct Segment {
    pub range: Range<u64>,
    pub bytes: Seq<u8>,
}

/// The eight bytes of `x`, most significant first.
#[verifier::opaque]
pub open spec fn be_bytes(x: u64) -> Seq<u8> {
    let q1 = x / 256;
    let q2 = q1 / 256;
    let q3 = q2 / 256;
    let q4 = q3 / 256;
    let q5 = q4 / 256;
    let q6 = q5 / 256;
    let q7 = q6 / 256;
    seq![
        q7 as u8,
        (q6 % 256) as u8,
        (q5 % 256) as u8,
        (q4 % 256) as u8,
        (q3 % 256) as u8,
        (q2 % 256) as u8,
        (q1 % 256) as u8,
        (x % 256) as u8,
    ]
}

/// The number that the first eight bytes of `b` spell, most significant first.
#[verifier::opaque]
pub open spec fn be_value(b: Seq<u8>) -> u64
    recommends
        b.len() >= 8,
{
    (((((((b[0] as int * 256 + b[1]) * 256 + b[2]) * 256 + b[3]) * 256 + b[4]) * 256 + b[5]) * 256
        + b[6]) * 256 + b[7]) as u64
}

/// Reading back what was written gives the number that was written.
pub proof fn lemma_be_round_trip(x: u64)
    ensures
        be_bytes(x).len() == 8,
        be_value(be_bytes(x)) == x,
{
    reveal(be_bytes);
    reveal(be_value);
}

/// Appends the eight big-endian bytes of `x`.
pub fn put_u64(out: &mut Vec<u8>, x: u64)
    ensures
        final(out)@ == old(out)@ + be_bytes(x),
{
    proof {
        reveal(be_bytes);
    }
    let q1: u64 = x / 256;
    let q2: u64 = q1 / 256;
    let q3: u64 = q2 / 256;
    let q4: u64 = q3 / 256;
    let q5: u64 = q4 / 256;
    let q6: u64 = q5 / 256;
    let q7: u64 = q6 / 256;
    out.push(q7 as u8);
    out.push((q6 % 256) as u8);
    out.push((q5 % 256) as u8);
    out.push((q4 % 256) as u8);
    out.push((q3 % 256) as u8);
    out.push((q2 % 256) as u8);
    out.push((q1 % 256) as u8);
    out.push((x % 256) as u8);
    assert(out@ == old(out)@ + be_bytes(x));
}

/// Reads the big-endian `u64` that `range` marks in `buffer`. The range has to
/// be eight bytes long and lie in the buffer; anything else is reported as a
/// corrupt layer.
pub fn get_u64(buffer: &[u8], range: Range<usize>) -> (r: Result<u64, Error>)
    ensures
        range.start <= range.end <= buffer@.len() && range.end - range.start == 8 ==> r == Ok::<
            u64,
            Error,
        >(be_value(buffer@.subrange(range.start as int, range.end as int))),
        !(range.start <= range.end <= buffer@.len() && range.end - range.start == 8) ==> r == Err::<
            u64,
            Error,
        >(Error::corrupt()),
{
    if range.start > range.end || range.end > buffer.len() || range.end - range.start != 8 {
        return Err(Error::invalid_layer());
    }
    proof {
        reveal(be_value);
    }
    let at: usize = range.start;
    let ghost b = buffer@.subrange(range.start as int, range.end as int);
    let v0: u64 = buffer[at] as u64;
    let v1: u64 = v0 * 256 + buffer[at + 1] as u64;
    let v2: u64 = v1 * 256 + buffer[at + 2] as u64;
    let v3: u64 = v2 * 256 + buffer[at + 3] as u64;
    let v4: u64 = v3 * 256 + buffer[at + 4] as u64;
    let v5: u64 = v4 * 256 + buffer[at + 5] as u64;
    let v6: u64 = v5 * 256 + buffer[at + 6] as u64;
    let v7: u64 = v6 * 256 + buffer[at + 7] as u64;
    assert(b[0] == buffer@[at as int] && b[1] == buffer@[at + 1] && b[2] == buffer@[at + 2] && b[3]
        == buffer@[at + 3] && b[4] == buffer@[at + 4] && b[5] == buffer@[at + 5] && b[6]
        == buffer@[at + 6] && b[7] == buffer@[at + 7]);
    Ok(v7)
}


/// The segment is not empty and holds one byte for each of its addresses.
pub open spec fn framed(s: Segment) -> bool {
    s.range.start < s.range.end && s.bytes.len() == s.range.end - s.range.start
}

/// The ranges of a list of segments.
pub open spec fn ranges(s: Seq<Segment>) -> Seq<Range<u64>> {
    Seq::new(s.len(), |i: int| s[i].range)
}

/// The list is in ascending order without overlap, and every segment is framed.
pub open spec fn sound(s: Seq<Segment>) -> bool {
    &&& ascending(ranges(s))
    &&& forall|i: int| 0 <= i < s.len() ==> framed(#[trigger] s[i])
}

/// The number of payload bytes in a list of segments.
pub open spec fn payload(s: Seq<Segment>) -> int
    decreases s.len(),
{
    if s.len() == 0 {
        0
    } else {
        payload(s.drop_last()) + s.last().bytes.len()
    }
}

/// The smallest range that encloses an ascending list of segments.
pub open spec fn span(s: Seq<Segment>) -> Option<Range<u64>> {
    if s.len() == 0 {
        None
    } else {
        Some(Range { start: s[0].range.start, end: s.last().range.end })
    }
}

/// One segment as it stands in an image.
pub open spec fn encode_segment(s: Segment) -> Seq<u8> {
    be_bytes(s.range.start) + be_bytes(s.range.end) + s.bytes
}

/// The segments of an image, one after the other.
pub open spec fn encode_segments(s: Seq<Segment>) -> Seq<u8>
    decreases s.len(),
{
    if s.len() == 0 {
        Seq::empty()
    } else {
        encode_segments(s.drop_last()) + encode_segment(s.last())
    }
}

/// The header of an image.
pub open spec fn encode_header(size: u64, bounds: Range<u64>) -> Seq<u8> {
    be_bytes(size) + be_bytes(bounds.start) + be_bytes(bounds.end)
}

/// The whole image of a layer.
pub open spec fn encode_layer(size: u64, bounds: Range<u64>, s: Seq<Segment>) -> Seq<u8> {
    encode_header(size, bounds) + encode_segments(s)
}

/// The payload size that the header of `stream` gives.
pub open spec fn header_size(stream: Seq<u8>) -> u64 {
    be_value(stream.subrange(0, 8))
}

/// The bounds that the header of `stream` gives.
pub open spec fn header_bounds(stream: Seq<u8>) -> Range<u64> {
    Range { start: be_value(stream.subrange(8, 16)), end: be_value(stream.subrange(16, 24)) }
}

/// The stream opens with a whole header whose bounds are in order and wide
/// enough for the payload it announces.
pub open spec fn header_ok(stream: Seq<u8>) -> bool {
    &&& stream.len() >= HEADER_LEN
    &&& header_bounds(stream).start <= header_bounds(stream).end
    &&& header_size(stream) <= header_bounds(stream).end - header_bounds(stream).start
}

/// The segment that stands at `pos` in `stream`, if a whole, non-empty one of
/// at most `remaining` payload bytes stands there.
pub open spec fn decode_one(stream: Seq<u8>, pos: int, remaining: int) -> Option<Segment> {
    if pos < 0 || pos + SEGMENT_HEADER_LEN > stream.len() {
        None
    } else {
        let start = be_value(stream.subrange(pos, pos + 8));
        let end = be_value(stream.subrange(pos + 8, pos + 16));
        if start >= end || end - start > remaining || pos + SEGMENT_HEADER_LEN + (end - start)
            > stream.len() {
            None
        } else {
            Some(
                Segment {
                    range: Range { start, end },
                    bytes: stream.subrange(
                        pos + SEGMENT_HEADER_LEN,
                        pos + SEGMENT_HEADER_LEN + (end - start),
                    ),
                },
            )
        }
    }
}

/// What reading segments from a stream yields: the segments that could be
/// read, and whether the reading got through all of the payload.
pub struct Decoded {
    pub segments: Seq<Segment>,
    pub complete: bool,
}

/// Reads segments from `pos` on until `remaining` payload bytes have been
/// read, or until no whole segment stands where one is due.
pub open spec fn decode_segments(stream: Seq<u8>, pos: int, remaining: int) -> Decoded
    decreases remaining,
{
    if remaining <= 0 {
        Decoded { segments: Seq::empty(), complete: true }
    } else {
        match decode_one(stream, pos, remaining) {
            None => Decoded { segments: Seq::empty(), complete: false },
            Some(first) => {
                let rest = decode_segments(
                    stream,
                    pos + SEGMENT_HEADER_LEN + first.bytes.len(),
                    remaining - first.bytes.len(),
                );
                Decoded { segments: seq![first] + rest.segments, complete: rest.complete }
            },
        }
    }
}

/// The segments of an image with the given header fields: what stands behind
/// the header has to read through to the announced payload size, in ascending
/// order, and span exactly the announced bounds.
pub open spec fn decode_layer(stream: Seq<u8>, size: u64, bounds: Option<Range<u64>>) -> Option<
    Seq<Segment>,
> {
    let d = decode_segments(stream, HEADER_LEN as int, size as int);
    if d.complete && ascending(ranges(d.segments)) && span(d.segments) == bounds {
        Some(d.segments)
    } else {
        None
    }
}

pub proof fn lemma_payload_add(a: Seq<Segment>, b: Seq<Segment>)
    ensures
        payload(a + b) == payload(a) + payload(b),
        payload(a) >= 0,
    decreases b.len(),
{
    if b.len() == 0 {
        assert(a + b == a);
        lemma_payload_nonnegative(a);
    } else {
        lemma_payload_add(a, b.drop_last());
        assert((a + b).drop_last() == a + b.drop_last());
    }
}

pub proof fn lemma_payload_nonnegative(a: Seq<Segment>)
    ensures
        payload(a) >= 0,
    decreases a.len(),
{
    if a.len() > 0 {
        lemma_payload_nonnegative(a.drop_last());
    }
}

pub proof fn lemma_encode_add(a: Seq<Segment>, b: Seq<Segment>)
    ensures
        encode_segments(a + b) == encode_segments(a) + encode_segments(b),
    decreases b.len(),
{
    if b.len() == 0 {
        assert(a + b == a);
    } else {
        lemma_encode_add(a, b.drop_last());
        assert((a + b).drop_last() == a + b.drop_last());
    }
}

/// A framed segment put between a segment that ends before it starts and one
/// that starts after it ends leaves a sound list sound.
pub proof fn lemma_insert_sound(s: Seq<Segment>, idx: int, x: Segment)
    requires
        sound(s),
        framed(x),
        0 <= idx <= s.len(),
        idx > 0 ==> s[idx - 1].range.end <= x.range.start,
        idx < s.len() ==> x.range.end <= s[idx].range.start,
    ensures
        sound(s.insert(idx, x)),
{
    let after = s.insert(idx, x);
    let ra = ranges(after);
    let rb = ranges(s);
    assert forall|i: int| 0 <= i < after.len() implies framed(#[trigger] after[i]) && (
    #[trigger] ra[i]).start < ra[i].end by {
        if i < idx {
            assert(after[i] == s[i]);
            assert(framed(s[i]));
        } else if i > idx {
            assert(after[i] == s[i - 1]);
            assert(framed(s[i - 1]));
        }
    }
    assert forall|i: int, j: int| 0 <= i < j < after.len() implies (#[trigger] ra[i]).end <= (
    #[trigger] ra[j]).start by {
        let bi = if i < idx { i } else { i - 1 };
        let bj = if j < idx { j } else { j - 1 };
        if i != idx && j != idx {
            assert(rb[bi].end <= rb[bj].start);
        } else if i == idx {
            assert(rb[idx].end <= rb[bj].start || bj == idx);
            assert(rb[bj].start < rb[bj].end);
        } else {
            assert(rb[bi].end <= rb[idx - 1].start || bi == idx - 1);
            assert(rb[idx - 1].start < rb[idx - 1].end);
        }
    }
}

/// A segment put into a sound list, the list staying sound, is what the
/// list then holds for the addresses of the segment; for every other address
/// the list holds what it held.
pub proof fn lemma_stored_insert(s: Seq<Segment>, idx: int, x: Segment, a: u64)
    requires
        sound(s),
        0 <= idx <= s.len(),
        sound(s.insert(idx, x)),
    ensures
        stored(s.insert(idx, x), a) == if x.range.start <= a < x.range.end {
            Some(x.bytes[a - x.range.start])
        } else {
            stored(s, a)
        },
{
    let after = s.insert(idx, x);
    lemma_stored(s, a);
    lemma_stored(after, a);
    assert(after[idx] == x);
    if x.range.start <= a < x.range.end {
    } else {
        if stored(s, a) is Some {
            let i = choose|i: int|
                0 <= i < s.len() && holds(#[trigger] ranges(s)[i], a);
            let j = if i < idx { i } else { i + 1 };
            assert(after[j] == s[i]);
        } else {
            if stored(after, a) is Some {
                let j = choose|j: int|
                    0 <= j < after.len() && holds(
                        #[trigger] ranges(after)[j],
                        a,
                    );
                let i = if j < idx { j } else { j - 1 };
                assert(after[j] == s[i]);
                assert(holds(ranges(s)[i], a));
            }
        }
    }
}

/// A segment put into a list adds its bytes to the payload.
pub proof fn lemma_payload_insert(s: Seq<Segment>, p: int, x: Segment)
    requires
        0 <= p <= s.len(),
    ensures
        payload(s.insert(p, x)) == payload(s) + x.bytes.len(),
{
    let a = s.subrange(0, p);
    let b = s.subrange(p, s.len() as int);
    assert(s == a + b);
    assert(s.insert(p, x) == (a + seq![x]) + b);
    lemma_payload_add(a, b);
    lemma_payload_add(a + seq![x], b);
    lemma_payload_add(a, seq![x]);
    assert(seq![x].drop_last() == Seq::<Segment>::empty());
    assert(payload(Seq::<Segment>::empty()) == 0);
    assert(payload(seq![x]) == x.bytes.len());
}

/// The payload of a sound list fits between the start of its first segment
/// and the end of its last.
pub proof fn lemma_payload_span(s: Seq<Segment>)
    requires
        sound(s),
        s.len() > 0,
    ensures
        0 < payload(s) <= s.last().range.end - s[0].range.start,
    decreases s.len(),
{
    let front = s.drop_last();
    assert(framed(s[s.len() - 1]));
    if front.len() > 0 {
        lemma_sound_subrange(s, 0, s.len() - 1);
        assert(front == s.subrange(0, s.len() - 1));
        lemma_payload_span(front);
        assert(ranges(s)[s.len() - 2].end <= ranges(s)[s.len() - 1].start);
    } else {
        assert(payload(front) == 0);
    }
}

/// Any stretch of a sound list is sound.
pub proof fn lemma_sound_subrange(s: Seq<Segment>, from: int, to: int)
    requires
        sound(s),
        0 <= from <= to <= s.len(),
    ensures
        sound(s.subrange(from, to)),
{
    let t = s.subrange(from, to);
    assert forall|i: int| 0 <= i < t.len() implies framed(#[trigger] t[i]) && (#[trigger] ranges(
        t,
    )[i]).start < ranges(t)[i].end by {
        assert(t[i] == s[from + i]);
        assert(framed(s[from + i]));
    }
    assert forall|i: int, j: int| 0 <= i < j < t.len() implies (#[trigger] ranges(t)[i]).end <= (
    #[trigger] ranges(t)[j]).start by {
        assert(ranges(s)[from + i].end <= ranges(s)[from + j].start);
    }
}

/// A framed segment that stands whole at `pos` is the one that is read there.
pub proof fn lemma_decode_one(stream: Seq<u8>, pos: int, first: Segment, remaining: int)
    requires
        framed(first),
        0 <= pos,
        pos + SEGMENT_HEADER_LEN + first.bytes.len() <= stream.len(),
        stream.subrange(pos, pos + SEGMENT_HEADER_LEN + first.bytes.len()) == encode_segment(first),
        first.bytes.len() <= remaining,
    ensures
        decode_one(stream, pos, remaining) == Some(first),
{
    let body = encode_segment(first);
    let n = first.bytes.len() as int;
    let whole = stream.subrange(pos, pos + SEGMENT_HEADER_LEN + n);
    lemma_be_round_trip(first.range.start);
    lemma_be_round_trip(first.range.end);
    assert(stream.subrange(pos, pos + 8) == whole.subrange(0, 8));
    assert(body.subrange(0, 8) == be_bytes(first.range.start));
    assert(stream.subrange(pos + 8, pos + 16) == whole.subrange(8, 16));
    assert(body.subrange(8, 16) == be_bytes(first.range.end));
    assert(stream.subrange(pos + 16, pos + 16 + n) == whole.subrange(16, 16 + n));
    assert(body.subrange(16, 16 + n) == first.bytes);
}

/// Reading an image back gives the segments it was written from, whatever
/// stands in front of them and behind them in the stream.
pub proof fn lemma_decode_encode(prefix: Seq<u8>, s: Seq<Segment>, tail: Seq<u8>)
    requires
        forall|i: int| 0 <= i < s.len() ==> framed(#[trigger] s[i]),
    ensures
        decode_segments(prefix + encode_segments(s) + tail, prefix.len() as int, payload(s))
            == (Decoded { segments: s, complete: true }),
    decreases s.len(),
{
    let stream = prefix + encode_segments(s) + tail;
    let pos = prefix.len() as int;
    if s.len() == 0 {
        assert(s == Seq::<Segment>::empty());
    } else {
        let first = s[0];
        let rest = s.skip(1);
        assert(s == seq![first] + rest);
        lemma_encode_add(seq![first], rest);
        lemma_payload_add(seq![first], rest);
        lemma_payload_nonnegative(rest);
        assert(seq![first].drop_last() == Seq::<Segment>::empty());
        assert(encode_segments(Seq::<Segment>::empty()) == Seq::<u8>::empty());
        assert(payload(Seq::<Segment>::empty()) == 0);
        assert(seq![first].last() == first);
        assert(encode_segments(seq![first]) == Seq::<u8>::empty() + encode_segment(first));
        assert(encode_segments(seq![first]) == encode_segment(first));
        assert(payload(seq![first]) == first.bytes.len());
        assert(framed(s[0]));
        let body = encode_segment(first);
        lemma_be_round_trip(first.range.start);
        lemma_be_round_trip(first.range.end);
        assert(body.len() == SEGMENT_HEADER_LEN + first.bytes.len());
        assert(stream.subrange(pos, pos + SEGMENT_HEADER_LEN + first.bytes.len()) == body);
        lemma_decode_one(stream, pos, first, payload(s));
        assert forall|i: int| 0 <= i < rest.len() implies framed(#[trigger] rest[i]) by {
            assert(rest[i] == s[i + 1]);
        }
        lemma_decode_encode(prefix + body, rest, tail);
        assert(stream == (prefix + body) + encode_segments(rest) + tail);
        let next = decode_segments(
            stream,
            pos + SEGMENT_HEADER_LEN + first.bytes.len(),
            payload(s) - first.bytes.len(),
        );
        assert(next == (Decoded { segments: rest, complete: true }));
        assert(payload(s) > 0);
        assert(decode_segments(stream, pos, payload(s)) == (Decoded {
            segments: seq![first] + next.segments,
            complete: next.complete,
        }));
    }
}


/// What reading segments yields is framed, and holds no more payload than was
/// asked for; a reading that got through holds exactly that much.
pub proof fn lemma_decode_framed(stream: Seq<u8>, pos: int, remaining: int)
    requires
        remaining >= 0,
    ensures
        forall|i: int|
            0 <= i < decode_segments(stream, pos, remaining).segments.len() ==> framed(
                #[trigger] decode_segments(stream, pos, remaining).segments[i],
            ),
        payload(decode_segments(stream, pos, remaining).segments) <= remaining,
        decode_segments(stream, pos, remaining).complete ==> payload(
            decode_segments(stream, pos, remaining).segments,
        ) == remaining,
    decreases remaining,
{
    let d = decode_segments(stream, pos, remaining);
    if remaining <= 0 {
        assert(payload(d.segments) == 0);
    } else {
        match decode_one(stream, pos, remaining) {
            None => {
                assert(payload(d.segments) == 0);
            },
            Some(first) => {
                let n = first.bytes.len() as int;
                let rest = decode_segments(stream, pos + SEGMENT_HEADER_LEN + n, remaining - n);
                lemma_decode_framed(stream, pos + SEGMENT_HEADER_LEN + n, remaining - n);
                assert(d.segments == seq![first] + rest.segments);
                lemma_payload_add(seq![first], rest.segments);
                assert(seq![first].drop_last() == Seq::<Segment>::empty());
                assert(payload(Seq::<Segment>::empty()) == 0);
                assert(payload(seq![first]) == n);
                assert forall|i: int| 0 <= i < d.segments.len() implies framed(
                    #[trigger] d.segments[i],
                ) by {
                    if i > 0 {
                        assert(d.segments[i] == rest.segments[i - 1]);
                    }
                }
            },
        }
    }
}

/// The byte that a list of segments holds for the address `a`, if it holds one.
pub open spec fn stored(s: Seq<Segment>, a: u64) -> Option<u8>
    decreases s.len(),
{
    if s.len() == 0 {
        None
    } else if s.last().range.start <= a < s.last().range.end {
        Some(s.last().bytes[a - s.last().range.start])
    } else {
        stored(s.drop_last(), a)
    }
}

/// A sound list holds a byte for exactly the addresses that its ranges cover,
/// and it is the byte of the one segment that holds the address.
pub proof fn lemma_stored(s: Seq<Segment>, a: u64)
    requires
        sound(s),
    ensures
        stored(s, a) is Some <==> covers(ranges(s), a),
        forall|i: int|
            0 <= i < s.len() && (#[trigger] s[i]).range.start <= a < s[i].range.end ==> stored(s, a)
                == Some(s[i].bytes[a - s[i].range.start]),
    decreases s.len(),
{
    if s.len() == 0 {
    } else {
        let front = s.drop_last();
        let last = s.last();
        lemma_sound_subrange(s, 0, s.len() - 1);
        assert(front == s.subrange(0, s.len() - 1));
        lemma_stored(front, a);
        assert(ranges(s) == ranges(front).push(last.range));
        lemma_covers_push(ranges(front), last.range, a);
        assert forall|i: int|
            0 <= i < s.len() && (#[trigger] s[i]).range.start <= a < s[i].range.end implies stored(
            s,
            a,
        ) == Some(s[i].bytes[a - s[i].range.start]) by {
            if i < s.len() - 1 {
                assert(front[i] == s[i]);
                assert(ranges(s)[i].end <= ranges(s)[s.len() - 1].start);
            }
        }
    }
}

} // verus!
