//! One layer of the stack: a sorted, non-overlapping collection of byte
//! segments, either open for writing in memory or sealed into a byte image.

pub mod codec;
pub mod mapper;
pub mod ranges;

use crate::base::layer::codec::{
    decode_layer, decode_segments, encode_header, encode_layer, encode_segments, get_u64,
    header_bounds, header_ok, header_size, lemma_decode_encode, lemma_decode_framed, payload,
    put_u64, ranges as ranges_of, sound, span, Segment, HEADER_LEN,
};
use crate::base::layer::mapper::{
    lemma_place, lemma_slot_unique, section_bytes, section_view, sections, slot, Mapper,
};
use crate::base::layer::ranges::{
    ascending, collide, collisions, complement, enclose, find_collisions, find_gaps,
};
use crate::errors::Error;
use std::borrow::Cow;
use std::ops::Range;
use vstd::prelude::*;

verus! {

/// One layer of the stack.
#[derive(Debug)]
pub struct Layer<'l> {
    /// The smallest range that encloses the segments; `None` while there are none.
    bounds: Option<Range<u64>>,
    /// The segments, or the mark that they are in the image.
    mapper: Mapper<'l>,
    /// The number of payload bytes in the segments.
    size: u64,
    /// Where the last read ended, and the index of the segment it read from.
    read_cursor: (u64, usize),
    /// The bytes that back the layer: its image, once it is sealed.
    stream: Vec<u8>,
}

/// What a layer stands for.
pub struct LayerView {
    /// The layer is open for writing, its segments in memory.
    pub heap: bool,
    /// The smallest range that encloses the segments; `None` if there are none.
    pub bounds: Option<Range<u64>>,
    /// The number of payload bytes in the segments.
    pub size: u64,
    /// The segments in ascending order; `None` for a sealed layer whose image
    /// does not read back as sound segments that match its header.
    pub segments: Option<Seq<Segment>>,
    /// The bytes that back the layer.
    pub stream: Seq<u8>,
}

impl LayerView {
    /// What holds of every layer: an open layer has its segments; a sealed
    /// layer is what its stream is loaded as, header and segments; segments
    /// are sound, and the size and the bounds are those of the segments.
    pub open spec fn inv(self) -> bool {
        &&& self.heap ==> self.segments is Some
        &&& !self.heap ==> header_ok(self.stream) && self == LayerView::loaded(self.stream)
        &&& self.segments matches Some(s) ==> sound(s) && payload(s) == self.size && span(s)
            == self.bounds
        &&& match self.bounds {
            Some(b) => b.start < b.end && self.size <= b.end - b.start,
            None => self.size == 0,
        }
    }

    /// An open layer without segments over the given stream.
    pub open spec fn fresh(stream: Seq<u8>) -> LayerView {
        LayerView {
            heap: true,
            bounds: None,
            size: 0,
            segments: Some(Seq::empty()),
            stream,
        }
    }

    /// The open layer over the given stream that holds the segments `s`.
    pub open spec fn holding(stream: Seq<u8>, s: Seq<Segment>) -> LayerView {
        LayerView {
            heap: true,
            bounds: span(s),
            size: payload(s) as u64,
            segments: Some(s),
            stream,
        }
    }

    /// The layer after `data` was written at `addr`: the new segment stands
    /// at its place in the order, and the bounds and the size take it in. A
    /// write of nothing changes nothing.
    pub open spec fn written(self, addr: u64, data: Seq<u8>) -> LayerView {
        if data.len() == 0 {
            self
        } else {
            let q = Range { start: addr, end: (addr + data.len()) as u64 };
            let s = self.segments.unwrap();
            LayerView {
                heap: self.heap,
                bounds: Some(enclose(self.bounds, q)),
                size: (self.size + data.len()) as u64,
                segments: Some(
                    s.insert(slot(ranges_of(s), addr), Segment { range: q, bytes: data }),
                ),
                stream: self.stream,
            }
        }
    }

    /// No segment of the layer holds an address between `addr` and `addr + len`.
    pub open spec fn free(self, addr: u64, len: nat) -> bool {
        self.segments matches Some(s) ==> forall|i: int|
            0 <= i < s.len() ==> !collide(
                #[trigger] ranges_of(s)[i],
                Range { start: addr, end: (addr + len) as u64 },
            )
    }

    /// The layer after it was sealed: its image stands at the start of the
    /// stream, over what was there, and the segments are left to the image. A
    /// layer that is sealed already, or holds no segments, stays as it is.
    pub open spec fn sealed(self) -> LayerView {
        if self.heap && self.bounds is Some {
            LayerView {
                heap: false,
                bounds: self.bounds,
                size: self.size,
                segments: self.segments,
                stream: overwrite(
                    self.stream,
                    encode_layer(self.size, self.bounds.unwrap(), self.segments.unwrap()),
                ),
            }
        } else {
            self
        }
    }

    /// The sealed layer that a stream with a valid header is loaded as.
    pub open spec fn loaded(stream: Seq<u8>) -> LayerView {
        let bounds = if header_bounds(stream).start < header_bounds(stream).end {
            Some(header_bounds(stream))
        } else {
            None
        };
        LayerView {
            heap: false,
            bounds,
            size: header_size(stream),
            segments: decode_layer(stream, header_size(stream), bounds),
            stream,
        }
    }
}

/// A stream after `data` was written at its start: `data`, and behind it what
/// the stream held beyond the length of `data`.
pub open spec fn overwrite(stream: Seq<u8>, data: Seq<u8>) -> Seq<u8> {
    if data.len() >= stream.len() {
        data
    } else {
        data + stream.subrange(data.len() as int, stream.len() as int)
    }
}

/// What a stream with a header in order is loaded as satisfies the layer
/// invariant, whatever the stream holds behind the header.
pub proof fn lemma_loaded_inv(stream: Seq<u8>)
    requires
        header_ok(stream),
    ensures
        LayerView::loaded(stream).inv(),
{
    lemma_decode_framed(stream, HEADER_LEN as int, header_size(stream) as int);
}

/// In a layer whose segments can be read, the segments are sorted and do not
/// overlap, the size is the sum of their lengths, and the bounds span them
/// exactly; a layer has no bounds exactly when it has no segments.
pub proof fn lemma_layer_coherent(v: LayerView)
    requires
        v.inv(),
        v.segments is Some,
    ensures
        ascending(ranges_of(v.segments.unwrap())),
        v.size == payload(v.segments.unwrap()),
        v.bounds == span(v.segments.unwrap()),
        v.bounds is None <==> v.segments.unwrap().len() == 0,
        v.bounds matches Some(b) ==> v.size <= b.end - b.start,
{
}

/// Sealing a layer and loading its stream again gives the sealed layer back:
/// the same segments in the same order, under the same bounds and size.
pub proof fn lemma_seal_then_load(v: LayerView)
    requires
        v.inv(),
        v.heap,
        v.bounds is Some,
    ensures
        v.sealed().inv(),
        v.sealed().segments == v.segments,
        header_ok(v.sealed().stream),
        LayerView::loaded(v.sealed().stream) == v.sealed(),
{
    let bounds = v.bounds.unwrap();
    let segs = v.segments.unwrap();
    let header = encode_header(v.size, bounds);
    let image = encode_layer(v.size, bounds, segs);
    let stream = v.sealed().stream;
    let tail = if image.len() >= v.stream.len() {
        Seq::<u8>::empty()
    } else {
        v.stream.subrange(image.len() as int, v.stream.len() as int)
    };
    codec::lemma_be_round_trip(v.size);
    codec::lemma_be_round_trip(bounds.start);
    codec::lemma_be_round_trip(bounds.end);
    assert(stream == header + encode_segments(segs) + tail);
    assert(stream.subrange(0, 8) == codec::be_bytes(v.size));
    assert(stream.subrange(8, 16) == codec::be_bytes(bounds.start));
    assert(stream.subrange(16, 24) == codec::be_bytes(bounds.end));
    assert(header_bounds(stream) == bounds);
    lemma_decode_encode(header, segs, tail);
}

impl<'l> View for Layer<'l> {
    type V = LayerView;

    closed spec fn view(&self) -> LayerView {
        LayerView {
            heap: self.mapper is Heap,
            bounds: self.bounds,
            size: self.size,
            segments: match self.mapper {
                Mapper::Heap { .. } => Some(self.mapper.segments()),
                Mapper::Disk => decode_layer(self.stream@, self.size, self.bounds),
            },
            stream: self.stream@,
        }
    }
}

impl<'l> Layer<'l> {
    /// The layer is in order inside: its write cursor is a valid hint.
    pub closed spec fn tidy(&self) -> bool {
        self.mapper.wf()
    }

    /// The layer invariant holds, inside and out.
    pub open spec fn wf(&self) -> bool {
        self@.inv() && self.tidy()
    }

    /// What a layer in order shows to the outside is in order too.
    pub proof fn lemma_wf(&self)
        requires
            self.wf(),
        ensures
            self@.inv(),
    {
    }

    /// An empty layer, open for writing, over the given stream.
    pub fn new(stream: Vec<u8>) -> (r: Self)
        ensures
            r.wf(),
            r@ == LayerView::fresh(stream@),
    {
        let r = Layer {
            bounds: None,
            mapper: Mapper::new(),
            size: 0,
            read_cursor: (0, 0),
            stream,
        };
        proof {
            assert(payload(Seq::<Segment>::empty()) == 0);
            assert(ranges_of(Seq::<Segment>::empty()) == Seq::<Range<u64>>::empty());
        }
        r
    }

    /// The sealed layer whose image `stream` is. Only the header is looked
    /// at: a stream too short for one, or one whose bounds are out of order or
    /// too narrow for the size it announces, is refused as a corrupt layer.
    pub fn load(stream: Vec<u8>) -> (r: Result<Self, Error>)
        ensures
            header_ok(stream@) ==> (r matches Ok(l) && l.wf() && l@ == LayerView::loaded(stream@)),
            !header_ok(stream@) ==> (r matches Err(e) && e == Error::corrupt()),
    {
        if stream.len() < HEADER_LEN {
            return Err(Error::invalid_layer());
        }
        let size: u64 = match get_u64(stream.as_slice(), 0..8) {
            Ok(x) => x,
            Err(e) => {
                return Err(e);
            },
        };
        let start: u64 = match get_u64(stream.as_slice(), 8..16) {
            Ok(x) => x,
            Err(e) => {
                return Err(e);
            },
        };
        let end: u64 = match get_u64(stream.as_slice(), 16..24) {
            Ok(x) => x,
            Err(e) => {
                return Err(e);
            },
        };
        if start > end || size > end - start {
            return Err(Error::invalid_layer());
        }
        let bounds: Option<Range<u64>> = if start < end {
            Some(start..end)
        } else {
            None
        };
        proof {
            lemma_loaded_inv(stream@);
        }
        Ok(Layer { bounds, mapper: Mapper::Disk, size, read_cursor: (0, 0), stream })
    }

    /// The ranges of the segments, in order. For a sealed layer the whole
    /// image is read and held against its header.
    fn index(&self) -> (r: Result<Vec<Range<u64>>, Error>)
        requires
            self.wf(),
        ensures
            match self@.segments {
                Some(s) => r matches Ok(v) && v@ == ranges_of(s),
                None => r matches Err(e) && e == Error::corrupt(),
            },
    {
        let mut it = match self.mapper.iter(self.stream.as_slice(), self.size, HEADER_LEN as u64) {
            Ok(it) => it,
            Err(e) => {
                return Err(e);
            },
        };
        let ghost whole = it.pending();
        let ghost mut done: Seq<Segment> = Seq::empty();
        let mut out: Vec<Range<u64>> = Vec::new();
        proof {
            lemma_decode_framed(self.stream@, HEADER_LEN as int, self.size as int);
            assert(done + whole.segments == whole.segments);
        }
        loop
            invariant
                self.wf(),
                it.wf(),
                whole == match self.mapper {
                    Mapper::Heap { .. } => codec::Decoded {
                        segments: self.mapper.segments(),
                        complete: true,
                    },
                    Mapper::Disk => decode_segments(
                        self.stream@,
                        HEADER_LEN as int,
                        self.size as int,
                    ),
                },
                forall|i: int|
                    0 <= i < whole.segments.len() ==> codec::framed(#[trigger] whole.segments[i]),
                done + it.pending().segments == whole.segments,
                it.pending().complete == whole.complete,
                out@ == ranges_of(done),
                ascending(out@),
            ensures
                whole.complete,
                whole.segments == done,
                out@ == ranges_of(done),
                ascending(out@),
            decreases it.pending().segments.len(),
        {
            let ghost before = it.pending();
            match it.next_range() {
                None => {
                    proof {
                        assert(done + before.segments == done);
                    }
                    break ;
                },
                Some(Err(e)) => {
                    return Err(e);
                },
                Some(Ok(range)) => {
                    let ghost k = done.len() as int;
                    proof {
                        assert(whole.segments[k] == before.segments[0]);
                        assert(codec::framed(whole.segments[k]));
                    }
                    if out.len() > 0 && range.start < out[out.len() - 1].end {
                        proof {
                            let r = ranges_of(whole.segments);
                            assert(whole.segments[k - 1] == done[k - 1]);
                            assert(r[k - 1].end > r[k].start);
                        }
                        return Err(Error::invalid_layer());
                    }
                    proof {
                        let grown = done.push(before.segments[0]);
                        assert(grown + before.segments.skip(1) == whole.segments);
                        assert(ranges_of(grown) == out@.push(range));
                        done = grown;
                    }
                    out.push(range);
                },
            }
        }
        let spans: bool = match &self.bounds {
            None => out.len() == 0,
            Some(b) => out.len() > 0 && out[0].start == b.start && out[out.len() - 1].end == b.end,
        };
        if !spans {
            return Err(Error::invalid_layer());
        }
        Ok(out)
    }

    /// The parts of `range` that segments of this layer hold, in ascending
    /// order. A sealed layer whose image does not read back as sound segments
    /// that match its header is reported as corrupt.
    pub fn check_collisions(&self, range: Range<u64>) -> (r: Result<Vec<Range<u64>>, Error>)
        requires
            self.wf(),
        ensures
            match self@.segments {
                Some(s) => r matches Ok(v) && v@ == collisions(range, ranges_of(s)),
                None => r matches Err(e) && e == Error::corrupt(),
            },
    {
        match self.index() {
            Ok(all) => Ok(find_collisions(&range, all.as_slice())),
            Err(e) => Err(e),
        }
    }

    /// The parts of `range` that the given collisions leave free, in
    /// ascending order.
    pub fn check_non_collisions(&self, range: Range<u64>, collisions: &[Range<u64>]) -> (r: Vec<
        Range<u64>,
    >)
        ensures
            r@ == complement(range, collisions@),
    {
        find_gaps(&range, collisions)
    }

    /// Puts `data` at address `idx` without looking for collisions: the
    /// caller sees to it that no segment of the layer holds any of the
    /// addresses written, and that they end within the address space. The
    /// bytes are taken as they come, borrowed or owned. A sealed layer
    /// refuses with `ReadOnly`.
    pub fn write_unchecked(&mut self, idx: u64, data: Cow<'l, [u8]>) -> (r: Result<(), Error>)
        requires
            old(self).wf(),
            old(self)@.heap ==> idx + data@.len() <= u64::MAX && old(self)@.free(idx, data@.len()),
        ensures
            final(self).wf(),
            old(self)@.heap ==> r is Ok && final(self)@ == old(self)@.written(idx, data@),
            !old(self)@.heap ==> r == Err::<(), Error>(Error::ReadOnly) && final(self)@ == old(
                self,
            )@,
    {
        if !self.is_heap() {
            return Err(Error::ReadOnly);
        }
        let len: usize = section_bytes(&data).len();
        if len == 0 {
            return Ok(());
        }
        let end: u64 = idx + len as u64;
        let ghost before = self.mapper.segments();
        let ghost added = Segment { range: Range { start: idx, end }, bytes: data@ };
        let ghost hint = self.mapper->write_cursor;
        proof {
            lemma_place(before, added.range, hint);
        }
        let at: usize = self.mapper.position_for(idx);
        match self.mapper.insert_at(at, idx..end, data) {
            Ok(()) => {},
            Err(e) => {
                return Err(e);
            },
        }
        proof {
            let after = self.mapper.segments();
            codec::lemma_payload_insert(before, at as int, added);
            codec::lemma_payload_span(after);
            assert(after[at as int] == added);
            if before.len() > 0 {
                if at > 0 {
                    assert(after[0] == before[0]);
                    assert(ranges_of(before)[0].end <= ranges_of(before)[at - 1].end);
                }
                if at < before.len() {
                    assert(after.last() == before.last());
                    assert(ranges_of(before)[at as int].start <= ranges_of(before)[before.len()
                        - 1].start);
                }
            }
        }
        self.size = self.size + len as u64;
        let bounds: Range<u64> = match &self.bounds {
            Some(b) => {
                let lo: u64 = if b.start <= idx { b.start } else { idx };
                let hi: u64 = if b.end >= end { b.end } else { end };
                lo..hi
            },
            None => idx..end,
        };
        self.bounds = Some(bounds);
        Ok(())
    }

    /// The segment that holds all of `range`, as the offset of the range's
    /// first byte in the segment's bytes, and those bytes. The caller sees to
    /// it that the range is not empty and that one segment of the layer holds
    /// all of it. An open layer lends its bytes; a sealed layer reads them out
    /// of its image into a buffer of their own, and is reported as corrupt if
    /// the image does not read back as sound segments that match its header.
    pub fn read_unchecked(&mut self, range: Range<u64>) -> (r: Result<
        (usize, Cow<'_, [u8]>),
        Error,
    >)
        requires
            old(self).wf(),
            range.start < range.end,
            old(self)@.segments matches Some(s) ==> exists|i: int|
                0 <= i < s.len() && (#[trigger] s[i]).range.start <= range.start && range.end
                    <= s[i].range.end,
        ensures
            final(self).wf(),
            final(self)@ == old(self)@,
            match old(self)@.segments {
                Some(s) => r matches Ok((offset, bytes)) && exists|i: int|
                    0 <= i < s.len() && (#[trigger] s[i]).range.start <= range.start && range.end
                        <= s[i].range.end && bytes@ == s[i].bytes && offset == range.start
                        - s[i].range.start,
                None => r matches Err(e) && e == Error::corrupt(),
            },
    {
        if self.is_heap() {
            let at: usize = self.locate(&range);
            self.read_cursor = (range.end, at);
            match &self.mapper {
                Mapper::Heap { mapper, .. } => {
                    let section = &mapper[at];
                    let bytes: &[u8] = section_bytes(&section.1);
                    let n: usize = bytes.len();
                    proof {
                        assert(sections(mapper@)[at as int] == section_view(*section));
                        assert(codec::framed(sections(mapper@)[at as int]));
                    }
                    let offset: usize = (range.start - section.0.start) as usize;
                    Ok((offset, Cow::Borrowed(bytes)))
                },
                Mapper::Disk => Err(Error::ReadOnly),
            }
        } else {
            let all = match self.index() {
                Ok(all) => all,
                Err(e) => {
                    return Err(e);
                },
            };
            let ghost s = self@.segments.unwrap();
            let mut at: usize = 0;
            while !(all[at].start <= range.start && range.end <= all[at].end)
                invariant
                    all@ == ranges_of(s),
                    at < all.len(),
                    exists|i: int|
                        at <= i < s.len() && (#[trigger] s[i]).range.start <= range.start
                            && range.end <= s[i].range.end,
                decreases all.len() - at,
            {
                proof {
                    assert(all@[at as int] == s[at as int].range);
                }
                at += 1;
            }
            self.read_cursor = (range.end, at);
            let offset_in: u64 = range.start - all[at].start;
            let mut it = match self.mapper.iter(
                self.stream.as_slice(),
                self.size,
                HEADER_LEN as u64,
            ) {
                Ok(it) => it,
                Err(e) => {
                    return Err(e);
                },
            };
            let mut k: usize = 0;
            proof {
                assert(s.skip(0) == s);
                assert(all@[at as int] == s[at as int].range);
            }
            while k < at
                invariant
                    k <= at < s.len(),
                    it.wf(),
                    it.pending() == (codec::Decoded { segments: s.skip(k as int), complete: true }),
                decreases at - k,
            {
                proof {
                    assert(s.skip(k as int).skip(1) == s.skip(k + 1));
                }
                match it.next_range() {
                    Some(Ok(_)) => {},
                    _ => {
                        return Err(Error::invalid_layer());
                    },
                }
                k += 1;
            }
            proof {
                assert(s.skip(at as int)[0] == s[at as int]);
            }
            match it.next() {
                Some(Ok(section)) => {
                    proof {
                        codec::lemma_sound_subrange(s, at as int, at + 1);
                        assert(s.subrange(at as int, at + 1)[0] == s[at as int]);
                        assert(codec::framed(s[at as int]));
                    }
                    let bytes: Cow<'_, [u8]> = section.1;
                    let n: usize = section_bytes(&bytes).len();
                    let offset: usize = offset_in as usize;
                    Ok((offset, bytes))
                },
                _ => Err(Error::invalid_layer()),
            }
        }
    }

    /// The index of the segment in memory that holds all of `range`: the one
    /// the read cursor points to, or the one behind it, if the last read
    /// ended where this one starts; else the last one that starts at or
    /// before the range.
    fn locate(&self, range: &Range<u64>) -> (at: usize)
        requires
            self.wf(),
            self@.heap,
            range.start < range.end,
            exists|i: int|
                0 <= i < self@.segments.unwrap().len() && (
                #[trigger] self@.segments.unwrap()[i]).range.start <= range.start && range.end
                    <= self@.segments.unwrap()[i].range.end,
        ensures
            at < self@.segments.unwrap().len(),
            self@.segments.unwrap()[at as int].range.start <= range.start,
            range.end <= self@.segments.unwrap()[at as int].range.end,
    {
        match &self.mapper {
            Mapper::Heap { mapper, .. } => {
                let ghost s = sections(mapper@);
                let hint: usize = self.read_cursor.1;
                if self.read_cursor.0 == range.start {
                    if hint < mapper.len() && mapper[hint].0.start <= range.start && range.end
                        <= mapper[hint].0.end {
                        proof {
                            assert(s[hint as int] == section_view(mapper@[hint as int]));
                        }
                        return hint;
                    }
                    if hint < mapper.len() - 1 && mapper[hint + 1].0.start <= range.start
                        && range.end <= mapper[hint + 1].0.end {
                        proof {
                            assert(s[hint + 1] == section_view(mapper@[hint + 1]));
                        }
                        return hint + 1;
                    }
                }
                let behind: usize = self.mapper.search(range.start);
                proof {
                    let r = ranges_of(s);
                    let i = choose|i: int|
                        0 <= i < s.len() && (#[trigger] s[i]).range.start <= range.start
                            && range.end <= s[i].range.end;
                    assert(r[i] == s[i].range);
                    if i + 1 < s.len() {
                        assert(r[i].end <= r[i + 1].start);
                    }
                    lemma_slot_unique(r, range.start, i + 1);
                }
                behind - 1
            },
            Mapper::Disk => 0,
        }
    }

    /// Seals the layer: writes its image at the start of its stream and
    /// leaves the segments to the image. From then on the layer is read-only.
    /// A layer that holds no segments, or is sealed already, stays as it is.
    pub fn flush(&mut self) -> (r: Result<(), Error>)
        requires
            old(self).wf(),
        ensures
            final(self).wf(),
            r is Ok,
            final(self)@ == old(self)@.sealed(),
    {
        let mut out: Vec<u8> = Vec::new();
        let ghost segs = self.mapper.segments();
        let ghost open = self@;
        match (&self.bounds, &self.mapper) {
            (Some(bounds), Mapper::Heap { mapper, .. }) => {
                put_u64(&mut out, self.size);
                put_u64(&mut out, bounds.start);
                put_u64(&mut out, bounds.end);
                let ghost header = encode_header(self.size, *bounds);
                let mut i: usize = 0;
                proof {
                    assert(segs.take(0) == Seq::<Segment>::empty());
                    assert(out@ == header + encode_segments(segs.take(0)));
                }
                while i < mapper.len()
                    invariant
                        i <= mapper.len(),
                        segs == sections(mapper@),
                        out@ == header + encode_segments(segs.take(i as int)),
                    decreases mapper.len() - i,
                {
                    let section = &mapper[i];
                    let ghost so_far = out@;
                    put_u64(&mut out, section.0.start);
                    put_u64(&mut out, section.0.end);
                    out.extend_from_slice(section_bytes(&section.1));
                    proof {
                        let seg = segs[i as int];
                        assert(seg == section_view(*section));
                        assert(segs.take(i + 1).drop_last() == segs.take(i as int));
                        assert(segs.take(i + 1).last() == seg);
                        assert(out@ == so_far + codec::encode_segment(seg));
                    }
                    i += 1;
                }
                proof {
                    assert(segs.take(mapper.len() as int) == segs);
                }
            },
            _ => {
                return Ok(());
            },
        }
        let ghost image = out@;
        let ghost old_stream = self.stream@;
        let mut k: usize = out.len();
        while k < self.stream.len()
            invariant
                image.len() <= k,
                k == out.len(),
                self.stream@ == old_stream,
                k <= old_stream.len() ==> out@ == image + old_stream.subrange(
                    image.len() as int,
                    k as int,
                ),
                k > old_stream.len() ==> out@ == image,
            decreases self.stream.len() - k,
        {
            out.push(self.stream[k]);
            k += 1;
        }
        proof {
            let bounds = self.bounds.unwrap();
            let header = encode_header(self.size, bounds);
            let tail = if image.len() >= old_stream.len() {
                Seq::<u8>::empty()
            } else {
                old_stream.subrange(image.len() as int, old_stream.len() as int)
            };
            assert(out@ == overwrite(old_stream, image));
            assert(image == encode_layer(self.size, bounds, segs));
            lemma_seal_then_load(open);
            assert(out@ == open.sealed().stream);
        }
        self.stream = out;
        self.mapper = Mapper::Disk;
        self.read_cursor = (0, 0);
        Ok(())
    }

    /// The smallest range that encloses the segments, if there are any.
    pub fn bounds(&self) -> (r: &Option<Range<u64>>)
        ensures
            *r == self@.bounds,
    {
        &self.bounds
    }

    /// The number of payload bytes in the segments.
    pub fn size(&self) -> (r: u64)
        ensures
            r == self@.size,
    {
        self.size
    }

    /// Whether the layer is open for writing.
    pub fn is_heap(&self) -> (r: bool)
        ensures
            r == self@.heap,
    {
        match &self.mapper {
            Mapper::Heap { .. } => true,
            Mapper::Disk => false,
        }
    }

    /// The bytes that back the layer: its image, once it is sealed.
    pub fn stream(&self) -> (r: &Vec<u8>)
        ensures
            r@ == self@.stream,
    {
        &self.stream
    }
}

} // verus!
