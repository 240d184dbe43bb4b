//! The segments of one layer, held in memory or left in the layer's image.

use crate::base::layer::codec::{
    decode_one, decode_segments, framed, get_u64, lemma_insert_sound, ranges, sound, Decoded,
    Segment, SEGMENT_HEADER_LEN,
};
use crate::base::layer::ranges::{ascending, collide};
use crate::errors::Error;
use std::borrow::Cow;
use std::ops::Range;
use vstd::prelude::*;

verus! {

/// A segment as a layer holds it: its range, and its bytes either borrowed
/// from the writer or owned.
pub type Section<'l> = (Range<u64>, Cow<'l, [u8]>);

/// The segments of a layer.
#[derive(Debug)]
pub enum Mapper<'l> {
    /// The segments are in memory and more can be inserted.
    Heap {
        /// Where the last insertion ended, and the index behind it: an
        /// insertion that starts at that address goes to that index.
        write_cursor: (u64, usize),
        /// The segments, in ascending order.
        mapper: Vec<Section<'l>>,
    },
    /// The segments are in the layer's image and are read from it on demand.
    Disk,
}

/// Walks the segments of a layer in ascending order.
pub struct MapperIter<'a, 'l> {
    mapper: &'a Mapper<'l>,
    stream: &'a [u8],
    /// The payload bytes that the image announces.
    size: u64,
    /// The index of the next segment in memory.
    idx: usize,
    /// The position of the next segment in the image.
    cursor: u64,
    /// The payload bytes read from the image so far.
    read: u64,
}

/// What a section stands for.
pub open spec fn section_view(s: Section) -> Segment {
    Segment { range: s.0, bytes: s.1@ }
}

/// What a list of sections stands for.
pub open spec fn sections(v: Seq<Section>) -> Seq<Segment> {
    Seq::new(v.len(), |i: int| section_view(v[i]))
}

/// The index of the first range that starts behind `addr`, or the length of
/// the list if none does.
pub open spec fn slot(r: Seq<Range<u64>>, addr: u64) -> int
    decreases r.len(),
{
    if r.len() == 0 || r[0].start > addr {
        0
    } else {
        1 + slot(r.skip(1), addr)
    }
}

/// Inserting at `idx` a range that starts at the hinted address keeps the
/// list in order: everything before `idx` ends by then, nothing from `idx` on
/// starts before.
pub open spec fn hint_ok(hint: (u64, usize), r: Seq<Range<u64>>) -> bool {
    &&& hint.1 <= r.len()
    &&& forall|j: int| 0 <= j < hint.1 ==> (#[trigger] r[j]).end <= hint.0
    &&& forall|j: int| hint.1 <= j < r.len() ==> hint.0 <= (#[trigger] r[j]).start
}

/// The slot for an address lies in the list; every range before it starts
/// at or before the address, and in an ascending list every range from it on
/// starts behind the address.
pub proof fn lemma_slot(r: Seq<Range<u64>>, addr: u64)
    ensures
        0 <= slot(r, addr) <= r.len(),
        forall|j: int| 0 <= j < slot(r, addr) ==> (#[trigger] r[j]).start <= addr,
        slot(r, addr) < r.len() ==> r[slot(r, addr)].start > addr,
    decreases r.len(),
{
    if r.len() == 0 || r[0].start > addr {
    } else {
        let t = r.skip(1);
        lemma_slot(t, addr);
        assert forall|j: int| 0 <= j < slot(r, addr) implies (#[trigger] r[j]).start <= addr by {
            if j > 0 {
                assert(r[j] == t[j - 1]);
            }
        }
        if slot(r, addr) < r.len() {
            assert(r[slot(r, addr)] == t[slot(t, addr)]);
        }
    }
}

/// An index that splits the list into the ranges that start at or before the
/// address and those that start behind it is the slot for the address.
pub proof fn lemma_slot_unique(r: Seq<Range<u64>>, addr: u64, p: int)
    requires
        0 <= p <= r.len(),
        forall|j: int| 0 <= j < p ==> (#[trigger] r[j]).start <= addr,
        p < r.len() ==> r[p].start > addr,
    ensures
        slot(r, addr) == p,
    decreases r.len(),
{
    if r.len() == 0 {
    } else if p == 0 {
    } else {
        let t = r.skip(1);
        assert(r[0].start <= addr);
        assert forall|j: int| 0 <= j < p - 1 implies (#[trigger] t[j]).start <= addr by {
            assert(t[j] == r[j + 1]);
        }
        if p - 1 < t.len() {
            assert(t[p - 1] == r[p]);
        }
        lemma_slot_unique(t, addr, p - 1);
    }
}

/// Where a non-empty range that collides with nothing in a sound list goes:
/// the slot for its start; and the write cursor, where it stands at that
/// start, points to the same index.
pub proof fn lemma_place(s: Seq<Segment>, q: Range<u64>, hint: (u64, usize))
    requires
        sound(s),
        q.start < q.end,
        forall|i: int| 0 <= i < s.len() ==> !collide(#[trigger] ranges(s)[i], q),
    ensures
        ({
            let p = slot(ranges(s), q.start);
            &&& 0 <= p <= s.len()
            &&& p > 0 ==> s[p - 1].range.end <= q.start
            &&& p < s.len() ==> q.end <= s[p].range.start
        }),
        hint_ok(hint, ranges(s)) && hint.0 == q.start ==> hint.1 == slot(ranges(s), q.start),
{
    let r = ranges(s);
    let p = slot(r, q.start);
    lemma_slot(r, q.start);
    if p > 0 {
        assert(!collide(r[p - 1], q));
        assert(r[p - 1].start <= q.start);
    }
    if p < s.len() {
        assert(!collide(r[p], q));
        assert(r[p].start < r[p].end);
    }
    if hint_ok(hint, r) && hint.0 == q.start {
        let h = hint.1 as int;
        assert forall|j: int| 0 <= j < h implies (#[trigger] r[j]).start <= q.start by {
            assert(r[j].start < r[j].end);
        }
        if h < r.len() {
            assert(!collide(r[h], q));
            assert(r[h].start < r[h].end);
        }
        lemma_slot_unique(r, q.start, h);
    }
}

/// The bytes of a section.
pub fn section_bytes<'a, 'l>(bytes: &'a Cow<'l, [u8]>) -> (r: &'a [u8])
    ensures
        r@ == bytes@,
{
    match bytes {
        Cow::Borrowed(b) => b,
        Cow::Owned(v) => v.as_slice(),
    }
}

impl<'l> Default for Mapper<'l> {
    fn default() -> (r: Self)
        ensures
            r.wf(),
            r is Heap,
            r.segments() == Seq::<Segment>::empty(),
    {
        Mapper::new()
    }
}

impl<'l> Mapper<'l> {
    /// The segments held in memory; none for a mapper whose segments are in
    /// the image.
    pub open spec fn segments(&self) -> Seq<Segment> {
        match self {
            Mapper::Heap { mapper, .. } => sections(mapper@),
            Mapper::Disk => Seq::empty(),
        }
    }

    /// The segments in memory are sound and the write cursor is a valid hint.
    pub open spec fn wf(&self) -> bool {
        match self {
            Mapper::Heap { write_cursor, mapper } => {
                &&& sound(sections(mapper@))
                &&& hint_ok(*write_cursor, ranges(sections(mapper@)))
            },
            Mapper::Disk => true,
        }
    }

    /// A mapper that holds no segments yet and takes insertions. Its write
    /// cursor stands at address 0 and index 0.
    pub fn new() -> (r: Self)
        ensures
            r.wf(),
            r is Heap,
            r.segments() == Seq::<Segment>::empty(),
            r->mapper@ == Seq::<Section<'l>>::empty(),
            r->write_cursor == (0u64, 0usize),
    {
        let r = Mapper::Heap { write_cursor: (0, 0), mapper: Vec::new() };
        assert(r.segments() == Seq::<Segment>::empty());
        r
    }

    /// The segment list and the write cursor, for writing; `ReadOnly` if the
    /// segments are not in memory. What the caller leaves in the two is what
    /// the mapper then holds.
    pub fn get_writer(&mut self) -> (r: Result<
        (&mut Vec<Section<'l>>, &mut (u64, usize)),
        Error,
    >)
        ensures
            match r {
                Ok((list, cursor)) => {
                    &&& *old(self) is Heap
                    &&& *list == (*old(self))->mapper
                    &&& *cursor == (*old(self))->write_cursor
                    &&& *final(self) == (Mapper::Heap {
                        write_cursor: *final(cursor),
                        mapper: *final(list),
                    })
                },
                Err(e) => *old(self) is Disk && e == Error::ReadOnly && *final(self) == *old(self),
            },
    {
        match self {
            Mapper::Heap { write_cursor, mapper } => Ok((mapper, write_cursor)),
            Mapper::Disk => Err(Error::ReadOnly),
        }
    }

    /// The index of the first segment in memory that starts behind `addr`, or
    /// the number of segments if none does.
    pub fn search(&self, addr: u64) -> (p: usize)
        requires
            self.wf(),
        ensures
            p == slot(ranges(self.segments()), addr),
            p <= self.segments().len(),
    {
        match self {
            Mapper::Heap { mapper, .. } => {
                let ghost r = ranges(sections(mapper@));
                let mut lo: usize = 0;
                let mut hi: usize = mapper.len();
                while lo < hi
                    invariant
                        lo <= hi <= mapper.len(),
                        r == ranges(sections(mapper@)),
                        ascending(r),
                        forall|j: int| 0 <= j < lo ==> (#[trigger] r[j]).start <= addr,
                        forall|j: int| hi <= j < r.len() ==> (#[trigger] r[j]).start > addr,
                    decreases hi - lo,
                {
                    let mid: usize = lo + (hi - lo) / 2;
                    if mapper[mid].0.start <= addr {
                        proof {
                            assert forall|j: int| 0 <= j < mid + 1 implies (#[trigger] r[j]).start
                                <= addr by {
                                if j < mid {
                                    assert(r[j].end <= r[mid as int].start);
                                }
                            }
                        }
                        lo = mid + 1;
                    } else {
                        proof {
                            assert forall|j: int| mid <= j < r.len() implies (#[trigger] r[j]).start
                                > addr by {
                                if j > mid {
                                    assert(r[mid as int].end <= r[j].start);
                                }
                            }
                        }
                        hi = mid;
                    }
                }
                proof {
                    lemma_slot_unique(r, addr, lo as int);
                }
                lo
            },
            Mapper::Disk => {
                proof {
                    assert(ranges(Seq::<Segment>::empty()) == Seq::<Range<u64>>::empty());
                }
                0
            },
        }
    }

    /// The index at which a segment that starts at `addr` is inserted: the
    /// write cursor's index if the cursor stands at `addr`, else the index of
    /// the first segment that starts behind `addr`.
    pub fn position_for(&self, addr: u64) -> (p: usize)
        requires
            self.wf(),
        ensures
            match self {
                Mapper::Heap { write_cursor, mapper } => p == if write_cursor.0 == addr {
                    write_cursor.1 as int
                } else {
                    slot(ranges(sections(mapper@)), addr)
                },
                Mapper::Disk => p == 0,
            },
            p <= self.segments().len(),
    {
        match self {
            Mapper::Heap { write_cursor, .. } => {
                if write_cursor.0 == addr {
                    return write_cursor.1;
                }
                self.search(addr)
            },
            Mapper::Disk => 0,
        }
    }

    /// Puts a segment at index `idx` and moves the write cursor behind it. The
    /// caller sees to it that the segment fits there: it is framed, starts no
    /// earlier than the segment before `idx` ends, and ends no later than the
    /// segment at `idx` starts. A mapper whose segments are not in memory
    /// refuses with `ReadOnly`.
    pub fn insert_at(&mut self, idx: usize, range: Range<u64>, bytes: Cow<'l, [u8]>) -> (r: Result<
        (),
        Error,
    >)
        requires
            old(self).wf(),
            *old(self) is Heap ==> {
                let s = old(self).segments();
                &&& idx <= s.len()
                &&& framed(Segment { range, bytes: bytes@ })
                &&& idx > 0 ==> s[idx - 1].range.end <= range.start
                &&& idx < s.len() ==> range.end <= s[idx as int].range.start
            },
        ensures
            final(self).wf(),
            match *old(self) {
                Mapper::Heap { .. } => {
                    &&& r is Ok
                    &&& *final(self) is Heap
                    &&& final(self).segments() == old(self).segments().insert(
                        idx as int,
                        Segment { range, bytes: bytes@ },
                    )
                    &&& (*final(self))->write_cursor == (range.end, (idx + 1) as usize)
                },
                Mapper::Disk => r == Err::<(), Error>(Error::ReadOnly) && *final(self) == *old(self),
            },
    {
        let ghost before = self.segments();
        let ghost added = Segment { range, bytes: bytes@ };
        match self {
            Mapper::Heap { write_cursor, mapper } => {
                let end: u64 = range.end;
                mapper.insert(idx, (range, bytes));
                let grown: usize = mapper.len();
                assert(grown == before.len() + 1);
                *write_cursor = (end, idx + 1);
                proof {
                    let after = sections(mapper@);
                    assert(after =~= before.insert(idx as int, added));
                    lemma_insert_sound(before, idx as int, added);
                    let ra = ranges(after);
                    assert(ra[idx as int] == added.range);
                    assert forall|j: int| 0 <= j < idx + 1 implies (#[trigger] ra[j]).end <= end by {
                        if j < idx {
                            assert(ra[j].end <= ra[idx as int].start);
                        }
                    }
                    assert forall|j: int| idx + 1 <= j < ra.len() implies end <= (
                    #[trigger] ra[j]).start by {
                        assert(ra[idx as int].end <= ra[j].start);
                    }
                }
                Ok(())
            },
            Mapper::Disk => Err(Error::ReadOnly),
        }
    }

    /// Starts a walk over the segments. For segments in memory the walk goes
    /// over the list. For segments in the image it reads `stream` from
    /// position `cursor` on, until `size` payload bytes have been read.
    pub fn iter<'a>(&'a self, stream: &'a [u8], size: u64, cursor: u64) -> (r: Result<
        MapperIter<'a, 'l>,
        Error,
    >)
        ensures
            r is Ok,
            r matches Ok(it) ==> it.wf() && it.pending() == match *self {
                Mapper::Heap { .. } => Decoded { segments: self.segments(), complete: true },
                Mapper::Disk => decode_segments(stream@, cursor as int, size as int),
            },
    {
        let it = MapperIter { mapper: self, stream, size, idx: 0, cursor, read: 0 };
        proof {
            assert(self.segments().skip(0) == self.segments());
        }
        Ok(it)
    }
}

impl<'a, 'l> MapperIter<'a, 'l> {
    /// The walk has not run past the end of what it walks over.
    pub closed spec fn wf(&self) -> bool {
        &&& self.read <= self.size
        &&& self.mapper is Heap ==> self.idx <= self.mapper.segments().len()
    }

    /// What the walk has still to yield: the segments, and whether it will
    /// get through to the end without meeting a broken one.
    pub closed spec fn pending(&self) -> Decoded {
        match self.mapper {
            Mapper::Heap { .. } => Decoded {
                segments: self.mapper.segments().skip(self.idx as int),
                complete: true,
            },
            Mapper::Disk => decode_segments(
                self.stream@,
                self.cursor as int,
                self.size - self.read,
            ),
        }
    }

    /// The segment `seg` is held at `place`: at that index of the list in
    /// memory, or with its bytes from that position on in the image.
    closed spec fn held_at(&self, place: usize, seg: Segment) -> bool {
        match self.mapper {
            Mapper::Heap { mapper, .. } => place < mapper@.len() && section_view(
                mapper@[place as int],
            ) == seg,
            Mapper::Disk => {
                &&& seg.bytes.len() == seg.range.end - seg.range.start
                &&& place + seg.bytes.len() <= self.stream@.len()
                &&& self.stream@.subrange(place as int, place + seg.bytes.len()) == seg.bytes
            },
        }
    }

    /// Steps over the next segment and gives its range and its place: its
    /// index in the list in memory, or the position of its bytes in the image.
    fn advance(&mut self) -> (r: Option<Result<(Range<u64>, usize), Error>>)
        requires
            old(self).wf(),
        ensures
            final(self).wf(),
            final(self).mapper == old(self).mapper,
            final(self).stream == old(self).stream,
            old(self).pending().segments.len() > 0 ==> {
                &&& r matches Some(Ok((range, place)))
                &&& range == old(self).pending().segments[0].range
                &&& old(self).held_at(place, old(self).pending().segments[0])
                &&& final(self).pending() == (Decoded {
                    segments: old(self).pending().segments.skip(1),
                    complete: old(self).pending().complete,
                })
            },
            old(self).pending().segments.len() == 0 ==> {
                &&& final(self).pending() == old(self).pending()
                &&& old(self).pending().complete ==> r is None
                &&& !old(self).pending().complete ==> r == Some(
                    Err::<(Range<u64>, usize), Error>(Error::corrupt()),
                )
            },
    {
        match self.mapper {
            Mapper::Heap { mapper, .. } => {
                let ghost all = sections(mapper@);
                if self.idx >= mapper.len() {
                    return None;
                }
                let place: usize = self.idx;
                let section = &mapper[place];
                proof {
                    assert(all.skip(place as int)[0] == all[place as int]);
                    assert(all.skip(place as int).skip(1) == all.skip(place + 1));
                }
                self.idx = place + 1;
                Some(Ok((section.0.start..section.0.end, place)))
            },
            Mapper::Disk => {
                let remaining: u64 = self.size - self.read;
                if remaining == 0 {
                    return None;
                }
                let stream: &'a [u8] = self.stream;
                let n: usize = stream.len();
                if self.cursor > n as u64 || (n as u64) - self.cursor < SEGMENT_HEADER_LEN as u64 {
                    return Some(Err(Error::invalid_layer()));
                }
                let pos: usize = self.cursor as usize;
                let start: u64 = match get_u64(stream, pos..pos + 8) {
                    Ok(x) => x,
                    Err(e) => {
                        return Some(Err(e));
                    },
                };
                let end: u64 = match get_u64(stream, pos + 8..pos + 16) {
                    Ok(x) => x,
                    Err(e) => {
                        return Some(Err(e));
                    },
                };
                if start >= end || end - start > remaining || end - start > (n - pos - 16) as u64 {
                    return Some(Err(Error::invalid_layer()));
                }
                let len: usize = (end - start) as usize;
                proof {
                    let first = decode_one(stream@, pos as int, remaining as int);
                    assert(first == Some(
                        Segment {
                            range: Range { start, end },
                            bytes: stream@.subrange(pos + 16, pos + 16 + len),
                        },
                    ));
                    let rest = decode_segments(stream@, pos + 16 + len, remaining - len);
                    assert((seq![first.unwrap()] + rest.segments).skip(1) == rest.segments);
                }
                self.cursor = self.cursor + 16 + (end - start);
                self.read = self.read + (end - start);
                Some(Ok((start..end, pos + 16)))
            },
        }
    }

    /// The next segment. A walk that has yielded everything returns `None`. A
    /// walk over an image that meets a truncated or malformed segment returns
    /// the error for a corrupt layer, and stays where it is. A segment in
    /// memory lends its bytes; the bytes of a segment in an image come in a
    /// buffer of their own.
    pub fn next(&mut self) -> (r: Option<Result<Section<'a>, Error>>)
        requires
            old(self).wf(),
        ensures
            final(self).wf(),
            old(self).pending().segments.len() > 0 ==> {
                &&& r matches Some(Ok(section))
                &&& section_view(section) == old(self).pending().segments[0]
                &&& final(self).pending() == (Decoded {
                    segments: old(self).pending().segments.skip(1),
                    complete: old(self).pending().complete,
                })
            },
            old(self).pending().segments.len() == 0 ==> {
                &&& final(self).pending() == old(self).pending()
                &&& old(self).pending().complete ==> r is None
                &&& !old(self).pending().complete ==> r == Some(
                    Err::<Section<'a>, Error>(Error::corrupt()),
                )
            },
    {
        match self.advance() {
            None => None,
            Some(Err(e)) => Some(Err(e)),
            Some(Ok((range, place))) => match self.mapper {
                Mapper::Heap { mapper, .. } => Some(
                    Ok((range, Cow::Borrowed(section_bytes(&mapper[place].1)))),
                ),
                Mapper::Disk => {
                    let stream: &'a [u8] = self.stream;
                    let total: usize = stream.len();
                    let len: usize = (range.end - range.start) as usize;
                    let mut data: Vec<u8> = Vec::new();
                    data.extend_from_slice(&stream[place..place + len]);
                    proof {
                        assert(data@ =~= stream@.subrange(place as int, place + len));
                    }
                    Some(Ok((range, Cow::Owned(data))))
                },
            },
        }
    }

    /// The range of the next segment, which is stepped over without a look
    /// at its bytes. Ends and fails as `next` does.
    pub fn next_range(&mut self) -> (r: Option<Result<Range<u64>, Error>>)
        requires
            old(self).wf(),
        ensures
            final(self).wf(),
            old(self).pending().segments.len() > 0 ==> {
                &&& r matches Some(Ok(range))
                &&& range == old(self).pending().segments[0].range
                &&& final(self).pending() == (Decoded {
                    segments: old(self).pending().segments.skip(1),
                    complete: old(self).pending().complete,
                })
            },
            old(self).pending().segments.len() == 0 ==> {
                &&& final(self).pending() == old(self).pending()
                &&& old(self).pending().complete ==> r is None
                &&& !old(self).pending().complete ==> r == Some(
                    Err::<Range<u64>, Error>(Error::corrupt()),
                )
            },
    {
        match self.advance() {
            None => None,
            Some(Err(e)) => Some(Err(e)),
            Some(Ok((range, _))) => Some(Ok(range)),
        }
    }
}

} // verus!
