//! The stack of layers that presents one address space.

pub mod allocator;
pub mod laws;
pub mod view;

use crate::base::database::allocator::Allocator;
use crate::base::database::laws::{
    lemma_gaps_apart, lemma_place_all, lemma_place_one, lemma_placed_apart,
};
use crate::base::database::view::{
    apart, extent, flushed_views, fused, image, piece, place, place_all, resolve, strata_of,
    written_below, StackView, Stratum,
};
use crate::base::layer::codec::{
    framed, lemma_stored, ranges as ranges_of, sound, stored, Segment,
};
use crate::base::layer::mapper::section_bytes;
use crate::base::layer::ranges::{
    ascending, collide, collisions, complement, covers, holds, lemma_collisions_ascending,
    lemma_collisions_cover, lemma_covers_add, lemma_covers_push, lemma_gaps_ascending,
    lemma_gaps_cover,
};
use crate::base::layer::{Layer, LayerView};
use crate::errors::Error;
use std::borrow::Cow;
use std::ops::Range;
use vstd::prelude::*;

verus! {

/// A stack of layers over one address space. Writes go to an open layer on
/// top; reads see, for every address, the topmost layer that holds it.
pub struct StackDB<'l, A: Allocator<'l>> {
    /// Keeps the layers.
    alloc: A,
    /// Whether the topmost layer is open for writing.
    heap_layer: bool,
    /// The layers, oldest first.
    layers: Vec<Layer<'l>>,
}

/// Every range is non-empty and lies in `q`.
pub open spec fn proper(s: Seq<Range<u64>>, q: Range<u64>) -> bool {
    forall|i: int|
        0 <= i < s.len() ==> (#[trigger] s[i]).start < s[i].end && q.start <= s[i].start
            && s[i].end <= q.end
}

/// Every range lies within one of the segments.
pub open spec fn lodged(hits: Seq<Range<u64>>, s: Seq<Segment>) -> bool {
    forall|i: int|
        0 <= i < hits.len() ==> exists|j: int|
            0 <= j < s.len() && (#[trigger] s[j]).range.start <= (#[trigger] hits[i]).start
                && hits[i].end <= s[j].range.end
}

/// `hits` covers what both `missing` and `r` cover, and `rest` covers what
/// `missing` covers and `r` does not.
pub open spec fn parted(
    missing: Seq<Range<u64>>,
    r: Seq<Range<u64>>,
    hits: Seq<Range<u64>>,
    rest: Seq<Range<u64>>,
) -> bool {
    forall|a: u64|
        #![trigger covers(hits, a)]
        #![trigger covers(rest, a)]
        #![trigger covers(missing, a)]
        (covers(hits, a) <==> covers(missing, a) && covers(r, a)) && (covers(rest, a) <==> covers(
            missing,
            a,
        ) && !covers(r, a))
}

/// Taking one more missing range into the split keeps it a split.
proof fn lemma_split_step(
    missing: Seq<Range<u64>>,
    m: Range<u64>,
    s: Seq<Segment>,
    hits: Seq<Range<u64>>,
    rest: Seq<Range<u64>>,
    q: Range<u64>,
)
    requires
        sound(s),
        parted(missing, ranges_of(s), hits, rest),
        proper(hits, q),
        proper(rest, q),
        lodged(hits, s),
        q.start <= m.start,
        m.end <= q.end,
    ensures
        ({
            let c = collisions(m, ranges_of(s));
            let g = complement(m, c);
            &&& parted(missing.push(m), ranges_of(s), hits + c, rest + g)
            &&& proper(hits + c, q)
            &&& proper(rest + g, q)
            &&& lodged(hits + c, s)
        }),
{
    let r = ranges_of(s);
    let c = collisions(m, r);
    let g = complement(m, c);
    lemma_collisions_ascending(m, r);
    lemma_gaps_ascending(m.start, m.end, c);
    assert forall|a: u64|
        #![trigger covers(hits + c, a)]
        #![trigger covers(rest + g, a)]
        #![trigger covers(missing.push(m), a)]
        (covers(hits + c, a) <==> covers(missing.push(m), a) && covers(r, a)) && (covers(
            rest + g,
            a,
        ) <==> covers(missing.push(m), a) && !covers(r, a)) by {
        lemma_covers_push(missing, m, a);
        lemma_covers_add(hits, c, a);
        lemma_covers_add(rest, g, a);
        lemma_collisions_cover(m, r, a);
        lemma_gaps_cover(m.start, m.end, c, a);
        assert(covers(hits, a) <==> covers(missing, a) && covers(r, a));
        assert(covers(rest, a) <==> covers(missing, a) && !covers(r, a));
    }
    assert forall|i: int| 0 <= i < (hits + c).len() implies (#[trigger] (hits + c)[i]).start < (
    hits + c)[i].end && q.start <= (hits + c)[i].start && (hits + c)[i].end <= q.end by {
        if i >= hits.len() {
            assert((hits + c)[i] == c[i - hits.len()]);
        }
    }
    assert forall|i: int| 0 <= i < (rest + g).len() implies (#[trigger] (rest + g)[i]).start < (
    rest + g)[i].end && q.start <= (rest + g)[i].start && (rest + g)[i].end <= q.end by {
        if i >= rest.len() {
            assert((rest + g)[i] == g[i - rest.len()]);
        }
    }
    assert forall|i: int| 0 <= i < (hits + c).len() implies exists|j: int|
        0 <= j < s.len() && (#[trigger] s[j]).range.start <= (#[trigger] (hits + c)[i]).start && (
        hits + c)[i].end <= s[j].range.end by {
        if i >= hits.len() {
            let k = i - hits.len();
            assert((hits + c)[i] == c[k]);
            let j = choose|j: int|
                0 <= j < r.len() && r[j].start <= (#[trigger] c[k]).start && c[k].end <= r[j].end;
            assert(s[j].range == r[j]);
        } else {
            assert((hits + c)[i] == hits[i]);
        }
    }
}

/// Splits what is missing by what the layer holds of it: the parts that
/// the layer holds, and the parts that are still missing below it.
fn split<'l>(layer: &Layer<'l>, missing: &Vec<Range<u64>>, q: &Range<u64>) -> (r: Result<
    (Vec<Range<u64>>, Vec<Range<u64>>),
    Error,
>)
    requires
        layer.wf(),
        proper(missing@, *q),
        missing@.len() > 0,
    ensures
        match layer@.segments {
            Some(s) => r matches Ok((hits, rest)) && parted(missing@, ranges_of(s), hits@, rest@)
                && proper(hits@, *q) && proper(rest@, *q) && lodged(hits@, s),
            None => r matches Err(e) && e == Error::corrupt(),
        },
{
    let mut hits: Vec<Range<u64>> = Vec::new();
    let mut rest: Vec<Range<u64>> = Vec::new();
    let mut i: usize = 0;
    while i < missing.len()
        invariant
            layer.wf(),
            i <= missing.len(),
            proper(missing@, *q),
            layer@.segments is None ==> i == 0,
            layer@.segments matches Some(s) ==> parted(
                missing@.take(i as int),
                ranges_of(s),
                hits@,
                rest@,
            ) && proper(hits@, *q) && proper(rest@, *q) && lodged(hits@, s),
        decreases missing.len() - i,
    {
        let m = &missing[i];
        let mut c = match layer.check_collisions(m.start..m.end) {
            Ok(c) => c,
            Err(e) => {
                return Err(e);
            },
        };
        let mut g = layer.check_non_collisions(m.start..m.end, c.as_slice());
        proof {
            let s = layer@.segments.unwrap();
            assert(*m == Range { start: m.start, end: m.end });
            lemma_split_step(missing@.take(i as int), *m, s, hits@, rest@, *q);
            assert(missing@.take(i as int).push(*m) == missing@.take(i + 1));
        }
        hits.append(&mut c);
        rest.append(&mut g);
        i += 1;
    }
    proof {
        assert(missing@.take(missing.len() as int) == missing@);
    }
    Ok((hits, rest))
}

/// Copies the bytes that the layer holds for the range `c` to their place
/// in `data`, which starts at address `base`.
fn fetch_one<'l>(layer: &mut Layer<'l>, c: &Range<u64>, base: u64, data: &mut Vec<u8>) -> (r:
    Result<(), Error>)
    requires
        old(layer).wf(),
        old(layer)@.segments is Some,
        exists|j: int|
            0 <= j < old(layer)@.segments.unwrap().len() && (#[trigger] old(
                layer,
            )@.segments.unwrap()[j]).range.start <= c.start && c.end <= old(
                layer,
            )@.segments.unwrap()[j].range.end,
        c.start < c.end,
        base <= c.start,
        c.end - base <= old(data)@.len(),
    ensures
        final(layer).wf(),
        final(layer)@ == old(layer)@,
        final(data)@.len() == old(data)@.len(),
        r is Ok,
        forall|k: int|
            0 <= k < old(data)@.len() ==> if c.start <= base + k < c.end {
                stored(old(layer)@.segments.unwrap(), (base + k) as u64) == Some(
                    #[trigger] final(data)@[k],
                )
            } else {
                final(data)@[k] == old(data)@[k]
            },
{
    let ghost s = layer@.segments.unwrap();
    let ghost before = data@;
    proof {
        layer.lemma_wf();
    }
    let total: usize = data.len();
    let n: usize = (c.end - c.start) as usize;
    let at: usize = (c.start - base) as usize;
    let (offset, bytes) = match layer.read_unchecked(c.start..c.end) {
        Ok(found) => found,
        Err(e) => {
            return Err(e);
        },
    };
    let src: &[u8] = section_bytes(&bytes);
    let available: usize = src.len();
    let ghost i = choose|i: int|
        0 <= i < s.len() && (#[trigger] s[i]).range.start <= c.start && c.end <= s[i].range.end
            && bytes@ == s[i].bytes && offset == c.start - s[i].range.start;
    proof {
        assert(framed(s[i]));
    }
    let mut j: usize = 0;
    while j < n
        invariant
            j <= n,
            n == c.end - c.start,
            at == c.start - base,
            at + n <= data@.len(),
            data@.len() == before.len(),
            src@ == s[i].bytes,
            0 <= i < s.len(),
            sound(s),
            s[i].range.start <= c.start,
            c.end <= s[i].range.end,
            offset == c.start - s[i].range.start,
            offset + n <= src@.len(),
            data@.len() == total,
            src@.len() == available,
            forall|k: int|
                0 <= k < data@.len() ==> if at <= k < at + j {
                    stored(s, (base + k) as u64) == Some(#[trigger] data@[k])
                } else {
                    data@[k] == before[k]
                },
        decreases n - j,
    {
        proof {
            lemma_stored(s, (c.start + j) as u64);
        }
        data.set(at + j, src[offset + j]);
        j += 1;
    }
    Ok(())
}

/// Copies the bytes that the layer holds for each of the ranges in `hits`
/// to their place in `data`, which starts at address `base`.
fn fetch<'l>(layer: &mut Layer<'l>, hits: &Vec<Range<u64>>, q: &Range<u64>, data: &mut Vec<u8>) -> (r:
    Result<(), Error>)
    requires
        old(layer).wf(),
        old(layer)@.segments is Some,
        lodged(hits@, old(layer)@.segments.unwrap()),
        proper(hits@, *q),
        q.end - q.start == old(data)@.len(),
    ensures
        final(layer).wf(),
        final(layer)@ == old(layer)@,
        final(data)@.len() == old(data)@.len(),
        r is Ok,
        forall|k: int|
            0 <= k < old(data)@.len() ==> if covers(hits@, (q.start + k) as u64) {
                stored(old(layer)@.segments.unwrap(), (q.start + k) as u64) == Some(
                    #[trigger] final(data)@[k],
                )
            } else {
                final(data)@[k] == old(data)@[k]
            },
{
    let ghost s = layer@.segments.unwrap();
    let ghost before = data@;
    let mut i: usize = 0;
    while i < hits.len()
        invariant
            i <= hits.len(),
            layer.wf(),
            layer@ == old(layer)@,
            layer@.segments == Some(s),
            lodged(hits@, s),
            proper(hits@, *q),
            data@.len() == before.len(),
            q.end - q.start == before.len(),
            forall|k: int|
                0 <= k < before.len() ==> if covers(hits@.take(i as int), (q.start + k) as u64) {
                    stored(s, (q.start + k) as u64) == Some(#[trigger] data@[k])
                } else {
                    data@[k] == before[k]
                },
        decreases hits.len() - i,
    {
        let c = &hits[i];
        let ghost so_far = data@;
        proof {
            let j = choose|j: int|
                0 <= j < s.len() && (#[trigger] s[j]).range.start <= hits@[i as int].start
                    && hits@[i as int].end <= s[j].range.end;
            assert(s[j].range.start <= c.start && c.end <= s[j].range.end);
        }
        match fetch_one(layer, c, q.start, data) {
            Ok(()) => {},
            Err(e) => {
                return Err(e);
            },
        }
        proof {
            assert(hits@.take(i + 1) == hits@.take(i as int).push(*c));
            assert forall|k: int| 0 <= k < before.len() implies if covers(
                hits@.take(i + 1),
                (q.start + k) as u64,
            ) {
                stored(s, (q.start + k) as u64) == Some(#[trigger] data@[k])
            } else {
                data@[k] == before[k]
            } by {
                lemma_covers_push(hits@.take(i as int), *c, (q.start + k) as u64);
                assert(if covers(hits@.take(i as int), (q.start + k) as u64) {
                    stored(s, (q.start + k) as u64) == Some(so_far[k])
                } else {
                    so_far[k] == before[k]
                });
            }
        }
        i += 1;
    }
    proof {
        assert(hits@.take(hits.len() as int) == hits@);
    }
    Ok(())
}

/// How far a read has come for the address `a`, with the layers from index
/// `below` upwards looked at: an address that is still missing shows in the
/// whole stack what it shows in the layers under `below`, and its byte in
/// `data` is still zero; any other address has its byte in `data`.
pub open spec fn settled(
    layers: Seq<Stratum>,
    below: int,
    missing: Seq<Range<u64>>,
    data: Seq<u8>,
    base: u64,
    a: u64,
) -> bool {
    if covers(missing, a) {
        resolve(layers, a) == resolve(layers.take(below), a) && data[a - base] == 0
    } else {
        resolve(layers, a) == Some(data[a - base])
    }
}

/// Looking at one more layer keeps the read on course for the address `a`.
proof fn lemma_read_step(
    layers: Seq<Stratum>,
    below: int,
    s: Seq<Segment>,
    missing: Seq<Range<u64>>,
    hits: Seq<Range<u64>>,
    rest: Seq<Range<u64>>,
    data: Seq<u8>,
    copied: Seq<u8>,
    base: u64,
    a: u64,
)
    requires
        0 < below <= layers.len(),
        layers[below - 1].segments == Some(s),
        sound(s),
        parted(missing, ranges_of(s), hits, rest),
        settled(layers, below, missing, data, base, a),
        if covers(hits, a) {
            stored(s, a) == Some(copied[a - base])
        } else {
            copied[a - base] == data[a - base]
        },
    ensures
        settled(layers, below - 1, rest, copied, base, a),
{
    lemma_stored(s, a);
    let upper = layers.take(below);
    assert(upper.last() == layers[below - 1]);
    assert(upper.drop_last() == layers.take(below - 1));
    assert(covers(hits, a) <==> covers(missing, a) && covers(ranges_of(s), a));
    assert(covers(rest, a) <==> covers(missing, a) && !covers(ranges_of(s), a));
}

/// What the stack knows of each of the given layers.
pub open spec fn strata<'l>(layers: Seq<Layer<'l>>) -> Seq<Stratum> {
    Seq::new(layers.len(), |i: int| Stratum::of(layers[i]@))
}

/// What each of the given layers stands for.
pub open spec fn views<'l>(layers: Seq<Layer<'l>>) -> Seq<LayerView> {
    Seq::new(layers.len(), |i: int| layers[i]@)
}

impl<'l, A: Allocator<'l>> View for StackDB<'l, A> {
    type V = StackView;

    closed spec fn view(&self) -> StackView {
        StackView { layers: strata(self.layers@), heap_open: self.heap_layer }
    }
}

impl<'l, A: Allocator<'l>> StackDB<'l, A> {
    /// Every layer of the stack is in order inside.
    pub closed spec fn tidy(&self) -> bool {
        forall|i: int| 0 <= i < self.layers.len() ==> (#[trigger] self.layers[i]).wf()
    }

    /// The stack invariant holds, inside and out.
    pub open spec fn wf(&self) -> bool {
        self@.inv() && self.tidy()
    }

    /// What each layer of the stack stands for, stream and all, oldest first.
    pub closed spec fn layer_views(&self) -> Seq<LayerView> {
        views(self.layers@)
    }

    /// The stack knows of each of its layers what the layer stands for, and
    /// each layer of a stack in order is in order.
    pub proof fn lemma_layer_views(&self)
        requires
            self.wf(),
        ensures
            strata_of(self.layer_views()) == self@.layers,
            forall|i: int|
                0 <= i < self.layer_views().len() ==> (#[trigger] self.layer_views()[i]).inv(),
    {
        assert(strata_of(self.layer_views()) == self@.layers);
        assert forall|i: int| 0 <= i < self.layer_views().len() implies (
        #[trigger] self.layer_views()[i]).inv() by {
            assert(self.layers[i].wf());
        }
    }

    /// A stack over the layers that the allocator has stored, closed for
    /// writing until the first write; the stack keeps the allocator. Whether
    /// the stored layers can be had is up to the allocator: the stack holds
    /// the layers that it gives, and an error that it gives is passed on.
    pub fn new(alloc: A) -> (r: Result<Self, Error>)
        ensures
            r matches Ok(db) ==> {
                &&& db.wf()
                &&& !db@.heap_open
                &&& db.keeper() == alloc
                &&& db.agrees()
                &&& forall|i: int| 0 <= i < db@.layers.len() ==> !(#[trigger] db@.layers[i]).heap
            },
            match r {
                Ok(db) => exists|stored: Vec<Layer<'l>>|
                    call_ensures(A::load_layers, (&alloc,), Ok::<Vec<Layer<'l>>, Error>(stored))
                        && #[trigger] strata(stored@) == db@.layers && views(stored@)
                        == db.layer_views(),
                Err(e) => call_ensures(A::load_layers, (&alloc,), Err::<Vec<Layer<'l>>, Error>(e)),
            },
    {
        match alloc.load_layers() {
            Ok(layers) => Ok(Self::with_layers(alloc, layers)),
            Err(e) => Err(e),
        }
    }

    /// A stack over the given sealed layers, oldest first, closed for
    /// writing until the first write; the stack keeps the allocator.
    pub fn with_layers(alloc: A, layers: Vec<Layer<'l>>) -> (db: Self)
        requires
            forall|i: int| 0 <= i < layers.len() ==> (#[trigger] layers[i]).wf() && !layers[i]@.heap,
        ensures
            db.wf(),
            db@ == (StackView { layers: strata(layers@), heap_open: false }),
            db.layer_views() == views(layers@),
            db.keeper() == alloc,
    {
        let db = StackDB { alloc, heap_layer: false, layers };
        proof {
            assert forall|i: int| 0 <= i < db@.layers.len() implies (#[trigger] db@.layers[i]).inv()
                && !db@.layers[i].heap by {
                assert(db.layers[i].wf());
            }
        }
        db
    }

    /// Makes sure that the topmost layer is open for writing, asking the
    /// allocator for a new layer if it is not, and returns its index.
    fn get_heap_layer(&mut self) -> (r: Result<usize, Error>)
        requires
            old(self).wf(),
        ensures
            final(self).wf(),
            old(self)@.heap_open ==> r is Ok,
            r matches Ok(top) ==> top == final(self)@.layers.len() - 1 && final(self)@ == old(
                self,
            )@.opened(),
            r is Err ==> final(self)@ == old(self)@,
            old(self)@.heap_open ==> final(self).keeper() == old(self).keeper(),
            old(self).agrees() ==> final(self).agrees(),
            r is Err || old(self)@.heap_open ==> final(self).layer_views() == old(self).layer_views(),
            r is Ok && !old(self)@.heap_open ==> final(self).layer_views().drop_last() == old(
                self,
            ).layer_views(),
    {
        if self.heap_layer {
            return Ok(self.layers.len() - 1);
        }
        let layer = match self.alloc.add_layer() {
            Ok(layer) => layer,
            Err(e) => {
                return Err(e);
            },
        };
        let ghost before = self.layers@;
        self.layers.push(layer);
        self.heap_layer = true;
        proof {
            assert(strata(self.layers@) == strata(before).push(
                Stratum::holding(true, Seq::<Segment>::empty()),
            ));
            assert(views(self.layers@).drop_last() == views(before));
            assert forall|i: int| 0 <= i < self.layers.len() implies (
            #[trigger] self.layers[i]).wf() by {
                if i < before.len() {
                    assert(self.layers[i] == before[i]);
                }
            }
        }
        Ok(self.layers.len() - 1)
    }

    /// Seals the open layer, if there is one, and closes the stack for
    /// writing until the next write. An open layer without segments is not
    /// sealed: it leaves the stack, and the allocator is told to drop it.
    pub fn flush(&mut self) -> (r: Result<(), Error>)
        requires
            old(self).wf(),
        ensures
            final(self).wf(),
            r is Ok ==> final(self)@ == old(self)@.flushed(),
            r is Err ==> final(self)@ == old(self)@,
            !old(self)@.heap_open || old(self)@.layers.last().bounds is Some ==> r is Ok,
            !old(self)@.heap_open || old(self)@.layers.last().bounds is Some ==> final(self).keeper()
                == old(self).keeper(),
            old(self).agrees() && r is Ok ==> final(self).agrees(),
            r is Ok ==> final(self).layer_views() == flushed_views(
                old(self).layer_views(),
                old(self)@.heap_open,
            ),
            r is Err ==> final(self).layer_views() == old(self).layer_views(),
    {
        if !self.heap_layer {
            return Ok(());
        }
        let ghost before = self.layers@;
        let top: usize = self.layers.len() - 1;
        proof {
            assert(self.layers[top as int].wf());
            assert(self@.layers[top as int] == Stratum::of(self.layers[top as int]@));
        }
        if self.layers[top].bounds().is_none() {
            match self.alloc.drop_top_layer() {
                Ok(()) => {},
                Err(e) => {
                    return Err(e);
                },
            }
            self.layers.pop();
            self.heap_layer = false;
            proof {
                assert(views(self.layers@) == views(before).drop_last());
                assert(strata(self.layers@) == strata(before).drop_last());
                assert forall|i: int| 0 <= i < self.layers.len() implies (
                #[trigger] self.layers[i]).wf() && (#[trigger] self@.layers[i]).inv()
                    && !self@.layers[i].heap by {
                    assert(self.layers[i] == before[i]);
                    assert(strata(before)[i].inv());
                }
            }
            return Ok(());
        }
        match self.layers[top].flush() {
            Ok(()) => {},
            Err(e) => {
                return Err(e);
            },
        }
        self.heap_layer = false;
        proof {
            crate::base::layer::lemma_seal_then_load(before[top as int]@);
            assert(views(self.layers@) == views(before).update(
                top as int,
                before[top as int]@.sealed(),
            ));
            assert(strata(self.layers@) == strata(before).update(
                top as int,
                Stratum { heap: false, ..strata(before)[top as int] },
            ));
            assert forall|i: int| 0 <= i < self.layers.len() implies (
            #[trigger] self.layers[i]).wf() && (#[trigger] self@.layers[i]).inv()
                && !self@.layers[i].heap by {
                if i != top {
                    assert(self.layers[i] == before[i]);
                }
                assert(strata(before)[i].inv());
            }
        }
        Ok(())
    }

    /// The bytes that the stack shows for the addresses of `addr`: for each
    /// address the byte of the topmost layer that holds it, and zero where no
    /// layer does. An empty range gives an empty buffer. The layers are
    /// looked at from the top for as long as something is missing; a sealed
    /// layer that is reached and turns out to be corrupt fails the read.
    pub fn read(&mut self, addr: Range<u64>) -> (r: Result<Vec<u8>, Error>)
        requires
            old(self).wf(),
            addr.end - addr.start <= usize::MAX,
        ensures
            final(self).wf(),
            final(self)@ == old(self)@,
            final(self).layer_views() == old(self).layer_views(),
            final(self).keeper() == old(self).keeper(),
            match r {
                Ok(data) => {
                    &&& data@.len() == if addr.start < addr.end {
                        addr.end - addr.start
                    } else {
                        0
                    }
                    &&& forall|k: int|
                        0 <= k < data@.len() ==> resolve(
                            old(self)@.layers,
                            (addr.start + k) as u64,
                        ) == Some(#[trigger] data@[k])
                },
                Err(e) => e == Error::corrupt() && exists|a: u64|
                    holds(addr, a) && #[trigger] resolve(old(self)@.layers, a) is None,
            },
    {
        let n: usize = if addr.start < addr.end {
            (addr.end - addr.start) as usize
        } else {
            0
        };
        let mut data: Vec<u8> = vec![0u8; n];
        let mut missing: Vec<Range<u64>> = Vec::new();
        if n > 0 {
            missing.push(addr.start..addr.end);
        }
        let ghost all = self@.layers;
        let mut below: usize = self.layers.len();
        proof {
            assert(all.take(below as int) == all);
            assert forall|a: u64| holds(addr, a) implies #[trigger] settled(
                all,
                below as int,
                missing@,
                data@,
                addr.start,
                a,
            ) by {
                assert(holds(missing@[0], a));
            }
        }
        while below > 0 && missing.len() > 0
            invariant
                below <= self.layers.len(),
                self.wf(),
                self@ == old(self)@,
                self.layer_views() == old(self).layer_views(),
                self.keeper() == old(self).keeper(),
                all == self@.layers,
                data@.len() == n,
                n == if addr.start < addr.end {
                    addr.end - addr.start
                } else {
                    0
                },
                proper(missing@, addr),
                forall|a: u64|
                    holds(addr, a) ==> #[trigger] settled(
                        all,
                        below as int,
                        missing@,
                        data@,
                        addr.start,
                        a,
                    ),
            decreases below,
        {
            let at: usize = below - 1;
            let ghost layers_before = self.layers@;
            let ghost had = data@;
            proof {
                assert(self.layers[at as int].wf());
                assert(all[at as int] == Stratum::of(self.layers[at as int]@));
                assert(missing@[0].start < missing@[0].end);
            }
            let (hits, rest) = match split(&self.layers[at], &missing, &addr) {
                Ok(parts) => parts,
                Err(e) => {
                    proof {
                        let a = missing@[0].start;
                        assert(holds(missing@[0], a));
                        assert(settled(all, below as int, missing@, data@, addr.start, a));
                        assert(all.take(below as int).last() == all[at as int]);
                    }
                    return Err(e);
                },
            };
            let ghost s = self.layers[at as int]@.segments.unwrap();
            match fetch(&mut self.layers[at], &hits, &addr, &mut data) {
                Ok(()) => {},
                Err(e) => {
                    return Err(e);
                },
            }
            proof {
                layers_before[at as int].lemma_wf();
                assert(views(self.layers@) == views(layers_before));
                assert(strata(self.layers@) == strata(layers_before));
                assert forall|i: int| 0 <= i < self.layers.len() implies (
                #[trigger] self.layers[i]).wf() by {
                    if i != at {
                        assert(self.layers[i] == layers_before[i]);
                    }
                }
                assert forall|a: u64| holds(addr, a) implies #[trigger] settled(
                    all,
                    at as int,
                    rest@,
                    data@,
                    addr.start,
                    a,
                ) by {
                    assert(settled(all, below as int, missing@, had, addr.start, a));
                    let k = a - addr.start;
                    assert(data@[k] == data@[k]);
                    assert((addr.start + k) as u64 == a);
                    lemma_read_step(
                        all,
                        below as int,
                        s,
                        missing@,
                        hits@,
                        rest@,
                        had,
                        data@,
                        addr.start,
                        a,
                    );
                }
            }
            missing = rest;
            below = at;
        }
        proof {
            assert forall|k: int| 0 <= k < data@.len() implies resolve(
                all,
                (addr.start + k) as u64,
            ) == Some(#[trigger] data@[k]) by {
                let a = (addr.start + k) as u64;
                assert(settled(all, below as int, missing@, data@, addr.start, a));
                if covers(missing@, a) {
                    assert(below == 0);
                    assert(all.take(0).len() == 0);
                }
            }
        }
        Ok(data)
    }

    /// Puts the bytes that a write of `data` at `addr` has for each of the
    /// ranges `rs` into the open layer on top. The ranges are in order, lie
    /// within the write, and collide with nothing that the layer holds.
    fn put_all(&mut self, rs: &Vec<Range<u64>>, addr: u64, data: &[u8]) -> (r: Result<(), Error>)
        requires
            old(self).wf(),
            old(self)@.heap_open,
            ascending(rs@),
            apart(ranges_of(old(self)@.top()), rs@),
            forall|k: int|
                0 <= k < rs@.len() ==> addr <= (#[trigger] rs@[k]).start && rs@[k].end <= addr
                    + data@.len(),
            addr + data@.len() <= u64::MAX,
        ensures
            final(self).wf(),
            r is Ok,
            final(self)@ == old(self)@.with_top(
                place_all(old(self)@.top(), rs@, addr, data@),
            ),
            final(self).keeper() == old(self).keeper(),
            final(self).layer_views() == old(self).layer_views().update(
                old(self).layer_views().len() - 1,
                LayerView::holding(
                    old(self).layer_views().last().stream,
                    place_all(old(self)@.top(), rs@, addr, data@),
                ),
            ),
    {
        let top: usize = self.layers.len() - 1;
        let ghost start = self@;
        let ghost s = self@.top();
        let ghost seen = self.layer_views();
        let ghost stream = seen.last().stream;
        let mut i: usize = 0;
        proof {
            assert(self.layers[top as int].wf());
            assert(start.layers[top as int].inv());
            assert(rs@.take(0) == Seq::<Range<u64>>::empty());
            assert(self@.layers == start.with_top(s).layers);
            self.layers[top as int].lemma_wf();
            assert(seen[top as int] == LayerView::holding(stream, s));
            assert(seen == seen.update(top as int, LayerView::holding(stream, s)));
        }
        while i < rs.len()
            invariant
                i <= rs.len(),
                top == self.layers.len() - 1,
                self.wf(),
                self.keeper() == old(self).keeper(),
                seen == old(self).layer_views(),
                seen.len() == top + 1,
                stream == seen.last().stream,
                self.layer_views() == seen.update(
                    top as int,
                    LayerView::holding(stream, place_all(s, rs@.take(i as int), addr, data@)),
                ),
                start.inv(),
                start.heap_open,
                s == start.top(),
                sound(s),
                ascending(rs@),
                apart(ranges_of(s), rs@),
                forall|k: int|
                    0 <= k < rs@.len() ==> addr <= (#[trigger] rs@[k]).start && rs@[k].end <= addr
                        + data@.len(),
                addr + data@.len() <= u64::MAX,
                self@ == start.with_top(place_all(s, rs@.take(i as int), addr, data@)),
            decreases rs.len() - i,
        {
            let r = &rs[i];
            let ghost done = rs@.take(i as int);
            let ghost placed = place_all(s, done, addr, data@);
            let ghost layers_before = self.layers@;
            let total: usize = data.len();
            proof {
                assert(*r == rs@[i as int]);
                assert(rs@[i as int].start < rs@[i as int].end);
                assert(addr <= rs@[i as int].start && rs@[i as int].end <= addr + data@.len());
                assert forall|k: int| 0 <= k < done.len() implies (#[trigger] done[k]).start
                    < done[k].end && addr <= done[k].start && done[k].end <= addr + data@.len()
                    && done[k].end <= r.start by {
                    assert(done[k] == rs@[k]);
                    assert(rs@[k].end <= rs@[i as int].start);
                }
                assert forall|j: int, k: int| 0 <= j < k < done.len() implies (
                #[trigger] done[j]).end <= (#[trigger] done[k]).start by {
                    assert(done[j] == rs@[j] && done[k] == rs@[k]);
                }
                assert forall|j: int, k: int|
                    0 <= j < ranges_of(s).len() && 0 <= k < done.len() implies !collide(
                    #[trigger] ranges_of(s)[j],
                    #[trigger] done[k],
                ) by {
                    assert(done[k] == rs@[k]);
                }
                lemma_place_all(s, done, addr, data@);
                assert forall|j: int| 0 <= j < s.len() implies !collide(
                    #[trigger] ranges_of(s)[j],
                    *r,
                ) by {
                    assert(!collide(ranges_of(s)[j], rs@[i as int]));
                }
                lemma_placed_apart(s, done, placed, *r);
                assert(views(self.layers@)[top as int] == self.layers[top as int]@);
                assert(self.layers[top as int]@ == LayerView::holding(stream, placed));
                assert(self.layers[top as int].wf());
                assert(self@.layers[top as int] == Stratum::of(self.layers[top as int]@));
            }
            let lo: usize = (r.start - addr) as usize;
            let hi: usize = (r.end - addr) as usize;
            let mut bytes: Vec<u8> = Vec::new();
            bytes.extend_from_slice(&data[lo..hi]);
            proof {
                assert(bytes@ =~= data@.subrange(lo as int, hi as int));
                assert(Range { start: r.start, end: (r.start + bytes@.len()) as u64 } == *r);
            }
            match self.layers[top].write_unchecked(r.start, Cow::Owned(bytes)) {
                Ok(()) => {},
                Err(e) => {
                    return Err(e);
                },
            }
            proof {
                let x = piece(*r, addr, data@);
                self.layers[top as int].lemma_wf();
                assert(rs@.take(i + 1).drop_last() == done);
                assert(rs@.take(i + 1).last() == *r);
                assert(place_all(s, rs@.take(i + 1), addr, data@) == place(placed, x));
                assert(self.layers[top as int]@.segments == Some(place(placed, x)));
                assert(self.layers[top as int]@.stream == stream);
                assert(self.layers[top as int]@.heap);
                assert(self.layers[top as int]@ == LayerView::holding(stream, place(placed, x)));
                assert forall|j: int| 0 <= j < self.layers.len() && j != top implies views(
                    self.layers@,
                )[j] == seen[j] by {
                    assert(self.layers[j] == layers_before[j]);
                    assert(views(layers_before)[j] == layers_before[j]@);
                }
                assert(views(self.layers@) == seen.update(
                    top as int,
                    LayerView::holding(stream, place(placed, x)),
                ));
                assert(strata(self.layers@) == strata(layers_before).update(
                    top as int,
                    Stratum::holding(true, place(placed, x)),
                ));
                assert forall|j: int| 0 <= j < self.layers.len() implies (
                #[trigger] self.layers[j]).wf() by {
                    if j != top {
                        assert(self.layers[j] == layers_before[j]);
                    }
                }
                assert(self@.layers == start.with_top(place(placed, x)).layers);
                lemma_place_one(placed, x);
                assert forall|j: int| 0 <= j < self@.layers.len() implies (
                #[trigger] self@.layers[j]).inv() && (self@.layers[j].heap <==> j
                    == self@.layers.len() - 1) by {
                    if j != top {
                        assert(self@.layers[j] == start.layers[j]);
                    }
                }
            }
            i += 1;
        }
        proof {
            assert(rs@.take(rs.len() as int) == rs@);
        }
        Ok(())
    }

    /// Writes `data` at address `addr`, over whatever the stack shows there.
    /// The bytes go to the open layer on top, which the allocator is asked
    /// for if the stack is closed. Where that layer holds some of the
    /// addresses already, it takes the bytes for the others and is sealed,
    /// and the bytes for the addresses that it held go to a new open layer
    /// on top of it. A write of nothing changes nothing. If the allocator
    /// does not give a layer, its error is returned: a stack that was closed
    /// is then as it was, and a stack that was open has the first half of the
    /// write done.
    pub fn write(&mut self, addr: u64, data: &[u8]) -> (r: Result<(), Error>)
        requires
            old(self).wf(),
            addr + data@.len() <= u64::MAX,
        ensures
            final(self).wf(),
            r is Ok ==> final(self)@ == old(self)@.written(addr, data@),
            r is Err ==> final(self)@ == if old(self)@.heap_open {
                old(self)@.stalled(addr, data@)
            } else {
                old(self)@
            },
            r is Err ==> data@.len() > 0 && (old(self)@.heap_open ==> collisions(
                Range { start: addr, end: (addr + data@.len()) as u64 },
                ranges_of(old(self)@.top()),
            ).len() > 0),
            data@.len() == 0 || (old(self)@.heap_open && collisions(
                Range { start: addr, end: (addr + data@.len()) as u64 },
                ranges_of(old(self)@.top()),
            ).len() == 0) ==> r is Ok && final(self).keeper() == old(self).keeper(),
            old(self).agrees() ==> final(self).agrees(),
            written_below(
                old(self).layer_views(),
                old(self)@.heap_open,
                addr,
                data@,
            ).is_prefix_of(final(self).layer_views()),
            data@.len() == 0 ==> final(self).layer_views() == old(self).layer_views(),
            r is Err && !old(self)@.heap_open ==> final(self).layer_views() == old(
                self,
            ).layer_views(),
    {
        let ghost seen = self.layer_views();
        let ghost was_open = self@.heap_open;
        proof {
            self.lemma_layer_views();
        }
        if data.len() == 0 {
            return Ok(());
        }
        let top: usize = match self.get_heap_layer() {
            Ok(top) => top,
            Err(e) => {
                return Err(e);
            },
        };
        let end: u64 = addr + data.len() as u64;
        let ghost q = Range { start: addr, end };
        let ghost open = self@;
        let ghost opened = self.layer_views();
        proof {
            self.lemma_layer_views();
            assert(open.layers[top as int] == Stratum::of(opened[top as int]));
            assert(ranges_of(Seq::<Segment>::empty()) == Seq::<Range<u64>>::empty());
            assert(self.layers[top as int].wf());
            assert(open.layers[top as int] == Stratum::of(self.layers[top as int]@));
            assert(open.layers[top as int].inv());
        }
        let hits = match self.layers[top].check_collisions(addr..end) {
            Ok(hits) => hits,
            Err(e) => {
                return Err(e);
            },
        };
        let gaps = self.layers[top].check_non_collisions(addr..end, hits.as_slice());
        proof {
            let r = ranges_of(open.top());
            lemma_collisions_ascending(q, r);
            lemma_gaps_ascending(q.start, q.end, hits@);
            lemma_gaps_apart(q, r);
        }
        match self.put_all(&gaps, addr, data) {
            Ok(()) => {},
            Err(e) => {
                return Err(e);
            },
        }
        let ghost filled_views = self.layer_views();
        proof {
            if was_open {
                assert(opened == seen);
                if hits.len() == 0 {
                    assert(filled_views == written_below(seen, was_open, addr, data@));
                }
            } else {
                assert(opened.drop_last() == seen);
                assert forall|i: int| 0 <= i < seen.len() implies filled_views[i] == seen[i] by {
                    assert(opened.drop_last()[i] == opened[i]);
                }
                assert(filled_views.subrange(0, seen.len() as int) == seen);
            }
        }
        if hits.len() > 0 {
            proof {
                let r = ranges_of(open.top());
                lemma_place_all(open.top(), gaps@, addr, data@);
                let filled = place_all(open.top(), gaps@, addr, data@);
                assert(self@.layers[top as int] == Stratum::holding(true, filled));
                // the layer held something before, so it holds something now
                let j = choose|j: int|
                    0 <= j < r.len() && r[j].start <= (#[trigger] hits@[0]).start && hits@[0].end
                        <= r[j].end;
                assert(framed(open.top()[j]));
                let a = r[j].start;
                assert(holds(r[j], a));
                lemma_stored(open.top(), a);
                lemma_stored(filled, a);
                assert(stored(filled, a) is Some);
                assert(filled.len() > 0);
            }
            match self.flush() {
                Ok(()) => {},
                Err(e) => {
                    return Err(e);
                },
            }
            let ghost sealed_views = self.layer_views();
            proof {
                assert(was_open);
                assert(filled_views.last() == filled_views[top as int]);
                assert(filled_views[top as int].bounds is Some) by {
                    assert(filled_views[top as int].bounds == crate::base::layer::codec::span(
                        place_all(open.top(), gaps@, addr, data@),
                    ));
                }
                assert(sealed_views == written_below(seen, was_open, addr, data@));
            }
            match self.get_heap_layer() {
                Ok(_) => {},
                Err(e) => {
                    return Err(e);
                },
            }
            let ghost reopened = self.layer_views();
            proof {
                assert(ranges_of(Seq::<Segment>::empty()) == Seq::<Range<u64>>::empty());
            }
            match self.put_all(&hits, addr, data) {
                Ok(()) => {},
                Err(e) => {
                    return Err(e);
                },
            }
            proof {
                assert(reopened.drop_last() == sealed_views);
                assert forall|i: int| 0 <= i < sealed_views.len() implies self.layer_views()[i]
                    == sealed_views[i] by {
                    assert(reopened.drop_last()[i] == reopened[i]);
                }
                assert(self.layer_views().subrange(0, sealed_views.len() as int) == sealed_views);
            }
        }
        Ok(())
    }

    /// The smallest range that encloses the bounds of all layers.
    fn reach(&self) -> (r: Range<u64>)
        requires
            self.wf(),
        ensures
            r == extent(self@.layers),
    {
        let mut lo: u64 = u64::MAX;
        let mut hi: u64 = 0;
        let mut i: usize = 0;
        let ghost all = self@.layers;
        while i < self.layers.len()
            invariant
                i <= self.layers.len(),
                all == self@.layers,
                (Range { start: lo, end: hi }) == extent(all.take(i as int)),
            decreases self.layers.len() - i,
        {
            proof {
                assert(all.take(i + 1).drop_last() == all.take(i as int));
                assert(all.take(i + 1).last() == Stratum::of(self.layers[i as int]@));
            }
            match self.layers[i].bounds() {
                Some(b) => {
                    if b.start < lo {
                        lo = b.start;
                    }
                    if b.end > hi {
                        hi = b.end;
                    }
                },
                None => {},
            }
            i += 1;
        }
        proof {
            assert(all.take(self.layers.len() as int) == all);
        }
        lo..hi
    }

    /// Fuses the stack into what it shows: reads the extent of its layers in
    /// pieces of at most `buffer_size` bytes, writes each piece back as a new
    /// sealed layer on top, and then drops the old layers from under the new
    /// ones. What the stack shows within that extent stays; the bytes that
    /// were overwritten are gone. A stack without layers, or with an empty
    /// layer on top, stays as it is. If a read meets a corrupt layer, or the
    /// allocator fails, the error is returned: the old layers are then still
    /// there, sealed and in their order, under the new layers written so far,
    /// and the stack shows what it showed. The first piece is read before
    /// the allocator is asked for anything: if the stack does not show all of
    /// it, the rebase fails as the read does.
    pub fn rebase(&mut self, buffer_size: u64) -> (r: Result<(), Error>)
        requires
            old(self).wf(),
            0 < buffer_size <= usize::MAX,
        ensures
            final(self).wf(),
            r is Ok ==> final(self)@ == old(self)@.rebased(buffer_size),
            r is Ok ==> forall|a: u64|
                holds(extent(old(self)@.layers), a) ==> #[trigger] resolve(final(self)@.layers, a)
                    == resolve(old(self)@.layers, a),
            r is Ok && old(self)@.layers.len() > 0 && old(self)@.layers.last().bounds is Some
                ==> forall|a: u64|
                !holds(extent(old(self)@.layers), a) ==> #[trigger] resolve(
                    final(self)@.layers,
                    a,
                ) == Some(0u8),
            r is Ok && old(self)@.layers.len() > 0 && old(self)@.layers.last().bounds is Some
                ==> forall|a: u64|
                holds(extent(old(self)@.layers), a) ==> (#[trigger] resolve(
                    old(self)@.layers,
                    a,
                )) is Some,
            r is Err ==> forall|a: u64| #[trigger]
                resolve(final(self)@.layers, a) == resolve(old(self)@.layers, a),
            r is Err ==> old(self)@.flushed().layers.is_prefix_of(final(self)@.layers),
            r is Err ==> flushed_views(old(self).layer_views(), old(self)@.heap_open).is_prefix_of(
                final(self).layer_views(),
            ),
            r is Err ==> !final(self)@.heap_open,
            old(self)@.layers.len() == 0 || old(self)@.layers.last().bounds is None ==> r is Ok
                && final(self).keeper() == old(self).keeper() && final(self).layer_views() == old(
                self,
            ).layer_views(),
            old(self).agrees() && r is Ok ==> final(self).agrees(),
            old(self)@.layers.len() > 0 && old(self)@.layers.last().bounds is Some && (exists|
                a: u64,
            |
                extent(old(self)@.layers).start <= a && a - extent(old(self)@.layers).start
                    < buffer_size && a < extent(old(self)@.layers).end && (#[trigger] resolve(
                    old(self)@.layers,
                    a,
                )) is None) ==> (r matches Err(e) && e == Error::corrupt()),
    {
        if self.layers.len() == 0 {
            return Ok(());
        }
        let last: usize = self.layers.len() - 1;
        proof {
            assert(self@.layers[last as int] == Stratum::of(self.layers[last as int]@));
        }
        if self.layers[last].bounds().is_none() {
            return Ok(());
        }
        let ghost first = self@;
        let ghost was = first.layers;
        match self.flush() {
            Ok(()) => {},
            Err(e) => {
                return Err(e);
            },
        }
        let old_count: usize = self.layers.len();
        let ghost base = self@.layers;
        let ghost base_views = self.layer_views();
        proof {
            self.lemma_layer_views();
        }
        let within = self.reach();
        let lo: u64 = within.start;
        let hi: u64 = within.end;
        let ghost mut done: Seq<Stratum> = Seq::empty();
        proof {
            assert(base.len() == was.len());
            assert forall|i: int| 0 <= i < base.len() implies (#[trigger] base[i]).bounds
                == was[i].bounds by {}
            laws::lemma_extent_bounds(base, was);
            assert forall|a: u64| #[trigger] resolve(base, a) == resolve(was, a) by {
                laws::lemma_flushed_shows(first, a);
            }
            assert(base + done == base);
            assert(done + fused(was, lo, hi, buffer_size) == fused(was, lo, hi, buffer_size));
        }
        let mut idx: u64 = lo;
        while idx < hi
            invariant
                self.wf(),
                !self@.heap_open,
                0 < buffer_size <= usize::MAX,
                was == old(self)@.layers,
                was.len() > 0,
                was.last().bounds is Some,
                base == old(self)@.flushed().layers,
                base_views == flushed_views(old(self).layer_views(), old(self)@.heap_open),
                base_views.len() == base.len(),
                base_views.is_prefix_of(self.layer_views()),
                old(self).agrees() ==> self.agrees(),
                lo == extent(was).start,
                hi == extent(was).end,
                forall|a: u64| lo <= a < idx ==> (#[trigger] resolve(was, a)) is Some,
                old_count == base.len(),
                self@.layers == base + done,
                done + fused(was, idx, hi, buffer_size) == fused(was, lo, hi, buffer_size),
                lo <= idx,
                lo < hi ==> idx <= hi,
                forall|a: u64| #[trigger] resolve(self@.layers, a) == resolve(was, a),
                forall|a: u64|
                    #[trigger] resolve(done, a) == if lo <= a < idx {
                        resolve(was, a)
                    } else {
                        Some(0u8)
                    },
                forall|i: int| 0 <= i < done.len() ==> (#[trigger] done[i]).inv() && !done[i].heap,
            decreases hi - idx,
        {
            let end: u64 = if hi - idx <= buffer_size {
                hi
            } else {
                idx + buffer_size
            };
            let ghost cur = self@;
            let ghost cur_views = self.layer_views();
            let ghost q = Range { start: idx, end };
            proof {
                self.lemma_layer_views();
            }
            let buffer = match self.read(idx..end) {
                Ok(buffer) => buffer,
                Err(e) => {
                    return Err(e);
                },
            };
            let ghost seg = Segment { range: q, bytes: buffer@ };
            let ghost chunk = Stratum::holding(false, seq![seg]);
            proof {
                assert(framed(seg));
                assert(buffer@ == image(was, q)) by {
                    assert forall|k: int| 0 <= k < buffer@.len() implies buffer@[k] == image(
                        was,
                        q,
                    )[k] by {
                        assert(resolve(cur.layers, (idx + k) as u64) == Some(buffer@[k]));
                        assert(resolve(cur.layers, (idx + k) as u64) == resolve(
                            was,
                            (idx + k) as u64,
                        ));
                    }
                }
                assert forall|a: u64| holds(q, a) implies resolve(was, a) == Some(
                    buffer@[a - idx],
                ) by {
                    let k = a - idx;
                    assert(resolve(cur.layers, (idx + k) as u64) == Some(buffer@[k]));
                    assert(resolve(cur.layers, a) == resolve(was, a));
                }
            }
            match self.write(idx, buffer.as_slice()) {
                Ok(()) => {},
                Err(e) => {
                    proof {
                        assert forall|a: u64| #[trigger]
                            resolve(self@.layers, a) == resolve(was, a) by {
                            laws::lemma_stalled_shows(cur, idx, buffer@, a);
                            assert(resolve(cur.layers, a) == resolve(was, a));
                        }
                    }
                    return Err(e);
                },
            }
            let ghost grown_views = self.layer_views();
            proof {
                laws::lemma_written_fresh(cur, idx, buffer@);
                laws::lemma_stored_single(seg, 0);
                assert(self@.layers.last().bounds is Some);
                self.lemma_layer_views();
                assert(cur_views.is_prefix_of(grown_views));
                assert(grown_views.len() == cur.layers.len() + 1);
                assert(Stratum::of(grown_views.last()) == self@.layers.last());
            }
            match self.flush() {
                Ok(()) => {},
                Err(e) => {
                    return Err(e);
                },
            }
            proof {
                assert(base_views.is_prefix_of(self.layer_views())) by {
                    assert forall|i: int| 0 <= i < base_views.len() implies self.layer_views()[i]
                        == base_views[i] by {
                        assert(grown_views[i] == cur_views[i]);
                        assert(cur_views[i] == base_views[i]);
                    }
                    assert(self.layer_views().subrange(0, base_views.len() as int) == base_views);
                }
                let open = Stratum::holding(true, seq![seg]);
                assert(self@.layers == cur.layers.push(open).update(cur.layers.len() as int, chunk));
                assert(self@.layers == cur.layers.push(chunk));
                assert(cur.layers.push(chunk) == base + done.push(chunk));
                let rest = fused(was, end, hi, buffer_size);
                assert(fused(was, idx, hi, buffer_size) == seq![chunk] + rest);
                assert(done.push(chunk) + rest == done + (seq![chunk] + rest));
                assert forall|a: u64| #[trigger]
                    resolve(self@.layers, a) == resolve(was, a) by {
                    laws::lemma_resolve_push(cur.layers, chunk, a);
                    laws::lemma_stored_single(seg, a);
                    assert(resolve(cur.layers, a) == resolve(was, a));
                    if holds(q, a) {
                        assert(resolve(was, a) == Some(buffer@[a - idx]));
                    }
                }
                assert forall|a: u64|
                    #[trigger] resolve(done.push(chunk), a) == if lo <= a < end {
                        resolve(was, a)
                    } else {
                        Some(0u8)
                    } by {
                    laws::lemma_resolve_push(done, chunk, a);
                    laws::lemma_stored_single(seg, a);
                    assert(resolve(done, a) == if lo <= a < idx {
                        resolve(was, a)
                    } else {
                        Some(0u8)
                    });
                    if holds(q, a) {
                        assert(resolve(was, a) == Some(buffer@[a - idx]));
                    }
                }
                laws::lemma_holding_inv(false, seq![seg]);
                assert forall|i: int| 0 <= i < done.push(chunk).len() implies (
                #[trigger] done.push(chunk)[i]).inv() && !done.push(chunk)[i].heap by {
                    if i < done.len() {
                        assert(done.push(chunk)[i] == done[i]);
                    }
                }
                done = done.push(chunk);
            }
            idx = end;
        }
        match self.alloc.rebase(old_count) {
            Ok(()) => {},
            Err(e) => {
                return Err(e);
            },
        }
        let ghost stacked = self.layers@;
        let fresh = self.layers.split_off(old_count);
        self.layers = fresh;
        proof {
            assert(fused(was, idx, hi, buffer_size) == Seq::<Stratum>::empty());
            assert(done + Seq::<Stratum>::empty() == done);
            assert(strata(self.layers@) == done) by {
                assert forall|i: int| 0 <= i < done.len() implies strata(self.layers@)[i]
                    == done[i] by {
                    assert(self.layers@[i] == stacked[old_count + i]);
                    assert(strata(stacked)[old_count + i] == (base + done)[old_count + i]);
                }
            }
            assert forall|i: int| 0 <= i < self.layers.len() implies (
            #[trigger] self.layers[i]).wf() by {
                assert(self.layers@[i] == stacked[old_count + i]);
            }
            assert forall|i: int| 0 <= i < self@.layers.len() implies (
            #[trigger] self@.layers[i]).inv() && !self@.layers[i].heap by {
                assert(self@.layers[i] == done[i]);
            }
        }
        Ok(())
    }

    /// The number of layers in the stack.
    pub fn depth(&self) -> (r: usize)
        ensures
            r == self@.layers.len(),
    {
        self.layers.len()
    }

    /// Whether the topmost layer is open for writing.
    pub fn is_open(&self) -> (r: bool)
        ensures
            r == self@.heap_open,
    {
        self.heap_layer
    }

    /// The layers, oldest first.
    pub fn layers(&self) -> (r: &Vec<Layer<'l>>)
        requires
            self.wf(),
        ensures
            strata(r@) == self@.layers,
            forall|i: int| 0 <= i < r.len() ==> (#[trigger] r[i]).wf(),
    {
        &self.layers
    }

    /// The allocator that keeps the layers.
    pub closed spec fn keeper(&self) -> A {
        self.alloc
    }

    /// The allocator, where it keeps count, keeps as many layers as the
    /// stack holds.
    pub open spec fn agrees(&self) -> bool {
        self.keeper().kept() matches Some(n) ==> n == self@.layers.len()
    }

    /// The allocator that keeps the layers.
    pub fn allocator(&self) -> (r: &A)
        ensures
            *r == self.keeper(),
    {
        &self.alloc
    }
}

} // verus!
