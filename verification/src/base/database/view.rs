//! What a stack stands for, and what its operations make of it.

use crate::base::layer::codec::{ranges as ranges_of, sound, span, stored, Segment};
use crate::base::layer::mapper::slot;
use crate::base::layer::ranges::{collide, collisions, complement};
use crate::base::layer::LayerView;
use std::ops::Range;
use vstd::prelude::*;

verus! {

/// What the stack knows of one layer.
pub struct Stratum {
    /// The layer is open for writing.
    pub heap: bool,
    /// The smallest range that encloses the segments; `None` if there are none.
    pub bounds: Option<Range<u64>>,
    /// The segments in ascending order; `None` for a sealed layer whose image
    /// is corrupt.
    pub segments: Option<Seq<Segment>>,
}

impl Stratum {
    /// What the stack knows of a layer.
    pub open spec fn of(v: LayerView) -> Stratum {
        Stratum { heap: v.heap, bounds: v.bounds, segments: v.segments }
    }

    /// The layer with the given segments.
    pub open spec fn holding(heap: bool, s: Seq<Segment>) -> Stratum {
        Stratum { heap, bounds: span(s), segments: Some(s) }
    }

    /// The segments, where there are any, are sound and the bounds are theirs.
    pub open spec fn inv(self) -> bool {
        &&& self.heap ==> self.segments is Some
        &&& self.segments matches Some(s) ==> sound(s) && span(s) == self.bounds
        &&& self.bounds matches Some(b) ==> b.start < b.end
    }
}

/// What the stack knows of each of the given layers.
pub open spec fn strata_of(views: Seq<LayerView>) -> Seq<Stratum> {
    Seq::new(views.len(), |i: int| Stratum::of(views[i]))
}

/// The layers of a stack after a flush that went through: an open layer
/// with segments is sealed where it stands, its image written to its stream;
/// an open layer without segments is gone; every other layer is as it was.
pub open spec fn flushed_views(views: Seq<LayerView>, heap_open: bool) -> Seq<LayerView> {
    if !heap_open {
        views
    } else if views.last().bounds is Some {
        views.update(views.len() - 1, views.last().sealed())
    } else {
        views.drop_last()
    }
}

/// What a write of `data` at `addr` makes of the layers that the stack
/// holds: the layers under an open topmost layer, or all layers of a closed
/// stack, stay as they are; an open topmost layer takes the bytes for the
/// addresses that it did not hold, and is sealed if it held some. A write of
/// nothing touches no layer.
pub open spec fn written_below(
    views: Seq<LayerView>,
    heap_open: bool,
    addr: u64,
    data: Seq<u8>,
) -> Seq<LayerView> {
    if data.len() == 0 || !heap_open {
        views
    } else {
        let q = Range { start: addr, end: (addr + data.len()) as u64 };
        let top = views.last();
        let hits = collisions(q, ranges_of(top.segments.unwrap()));
        let filled = LayerView::holding(
            top.stream,
            place_all(top.segments.unwrap(), complement(q, hits), addr, data),
        );
        views.update(
            views.len() - 1,
            if hits.len() == 0 {
                filled
            } else {
                filled.sealed()
            },
        )
    }
}

/// What a stack stands for.
pub struct StackView {
    /// The layers, oldest first.
    pub layers: Seq<Stratum>,
    /// Whether the topmost layer is open for writing.
    pub heap_open: bool,
}

impl StackView {
    /// What holds of every stack: each layer is in order, and the only layer
    /// that can be open is the topmost, which is open exactly when the stack
    /// says so.
    pub open spec fn inv(self) -> bool {
        &&& forall|i: int| 0 <= i < self.layers.len() ==> (#[trigger] self.layers[i]).inv()
        &&& forall|i: int|
            0 <= i < self.layers.len() ==> ((#[trigger] self.layers[i]).heap <==> self.heap_open
                && i == self.layers.len() - 1)
        &&& self.heap_open ==> self.layers.len() > 0
    }

    /// The stack with its topmost layer open: as it is, if it is open
    /// already, else with a new, empty layer on top.
    pub open spec fn opened(self) -> StackView {
        if self.heap_open {
            self
        } else {
            StackView {
                layers: self.layers.push(Stratum::holding(true, Seq::empty())),
                heap_open: true,
            }
        }
    }

    /// The segments of the topmost layer.
    pub open spec fn top(self) -> Seq<Segment> {
        self.layers.last().segments.unwrap()
    }

    /// The stack with `s` as the segments of its topmost layer, which is open.
    pub open spec fn with_top(self, s: Seq<Segment>) -> StackView {
        StackView {
            layers: self.layers.update(self.layers.len() - 1, Stratum::holding(true, s)),
            heap_open: true,
        }
    }

    /// The first half of a write of `data` at `addr`: the topmost layer is
    /// open and has taken the bytes for the addresses that it did not hold.
    pub open spec fn filled(self, addr: u64, data: Seq<u8>) -> StackView {
        let q = Range { start: addr, end: (addr + data.len()) as u64 };
        let open = self.opened();
        let hits = collisions(q, ranges_of(open.top()));
        open.with_top(place_all(open.top(), complement(q, hits), addr, data))
    }

    /// A write of `data` at `addr` that came to a halt halfway: the topmost
    /// layer has taken the bytes for the addresses that it did not hold and is
    /// sealed, and the bytes for the addresses that it did hold are not
    /// written.
    pub open spec fn stalled(self, addr: u64, data: Seq<u8>) -> StackView {
        self.filled(addr, data).flushed()
    }

    /// The stack after a write of `data` at `addr`. The open layer on top, a
    /// new one if the stack was closed, takes the bytes for the addresses that
    /// it does not hold yet. If it holds some of the addresses, it is then
    /// sealed, and a new open layer on top of it takes the bytes for those. A
    /// write of nothing changes nothing.
    pub open spec fn written(self, addr: u64, data: Seq<u8>) -> StackView {
        if data.len() == 0 {
            self
        } else {
            let q = Range { start: addr, end: (addr + data.len()) as u64 };
            let hits = collisions(q, ranges_of(self.opened().top()));
            if hits.len() == 0 {
                self.filled(addr, data)
            } else {
                self.stalled(addr, data).opened().with_top(
                    place_all(Seq::empty(), hits, addr, data),
                )
            }
        }
    }

    /// The stack after a rebase with buffers of `size` bytes: what the stack
    /// shows within the extent of its layers, fused into new sealed layers
    /// that take the place of the old ones. A stack without layers, or with an
    /// empty layer on top, stays as it is.
    pub open spec fn rebased(self, size: u64) -> StackView {
        if self.layers.len() == 0 || self.layers.last().bounds is None {
            self
        } else {
            StackView {
                layers: fused(
                    self.layers,
                    extent(self.layers).start,
                    extent(self.layers).end,
                    size,
                ),
                heap_open: false,
            }
        }
    }

    /// The stack after a flush that went through: an open layer with
    /// segments is sealed where it stands, an open layer without any leaves
    /// the stack, and the stack is closed.
    pub open spec fn flushed(self) -> StackView {
        if !self.heap_open {
            self
        } else if self.layers.last().bounds is Some {
            StackView {
                layers: self.layers.update(
                    self.layers.len() - 1,
                    Stratum { heap: false, ..self.layers.last() },
                ),
                heap_open: false,
            }
        } else {
            StackView { layers: self.layers.drop_last(), heap_open: false }
        }
    }
}

/// The byte that a stack of layers shows at address `a`: that of the topmost
/// layer that holds the address, or zero if none does. `None` if a corrupt
/// layer stands in the way before a layer that holds the address is reached.
pub open spec fn resolve(layers: Seq<Stratum>, a: u64) -> Option<u8>
    decreases layers.len(),
{
    if layers.len() == 0 {
        Some(0u8)
    } else {
        match layers.last().segments {
            None => None,
            Some(s) => match stored(s, a) {
                Some(b) => Some(b),
                None => resolve(layers.drop_last(), a),
            },
        }
    }
}

/// The segment that a write of `data` at `addr` puts at the range `r`.
pub open spec fn piece(r: Range<u64>, addr: u64, data: Seq<u8>) -> Segment {
    Segment { range: r, bytes: data.subrange(r.start - addr, r.end - addr) }
}

/// The list with the segment `x` at its place in the order.
pub open spec fn place(s: Seq<Segment>, x: Segment) -> Seq<Segment> {
    s.insert(slot(ranges_of(s), x.range.start), x)
}

/// The list after a write of `data` at `addr` has put its bytes at each of
/// the ranges `rs`, one range after the other.
pub open spec fn place_all(s: Seq<Segment>, rs: Seq<Range<u64>>, addr: u64, data: Seq<u8>) -> Seq<
    Segment,
>
    decreases rs.len(),
{
    if rs.len() == 0 {
        s
    } else {
        place(place_all(s, rs.drop_last(), addr, data), piece(rs.last(), addr, data))
    }
}

/// No range of `r` collides with a range of `rs`.
pub open spec fn apart(r: Seq<Range<u64>>, rs: Seq<Range<u64>>) -> bool {
    forall|j: int, k: int|
        0 <= j < r.len() && 0 <= k < rs.len() ==> !collide(#[trigger] r[j], #[trigger] rs[k])
}

/// The smallest range that encloses the bounds of all layers. For layers
/// without bounds it starts at the highest address and ends at the lowest.
pub open spec fn extent(layers: Seq<Stratum>) -> Range<u64>
    decreases layers.len(),
{
    if layers.len() == 0 {
        Range { start: u64::MAX, end: 0 }
    } else {
        let below = extent(layers.drop_last());
        match layers.last().bounds {
            Some(b) => Range {
                start: if b.start <= below.start { b.start } else { below.start },
                end: if b.end >= below.end { b.end } else { below.end },
            },
            None => below,
        }
    }
}

/// The bytes that a stack shows for the addresses of `r`.
pub open spec fn image(layers: Seq<Stratum>, r: Range<u64>) -> Seq<u8> {
    Seq::new((r.end - r.start) as nat, |k: int| resolve(layers, (r.start + k) as u64).unwrap())
}

/// What a stack shows between `from` and `to`, as sealed layers of one
/// segment each, every segment `size` bytes long but for the last, which may
/// be shorter.
pub open spec fn fused(layers: Seq<Stratum>, from: u64, to: u64, size: u64) -> Seq<Stratum>
    decreases to - from,
{
    if from >= to || size == 0 {
        Seq::empty()
    } else {
        let end = if to - from <= size { to } else { (from + size) as u64 };
        let r = Range { start: from, end };
        seq![Stratum::holding(false, seq![Segment { range: r, bytes: image(layers, r) }])] + fused(
            layers,
            end,
            to,
            size,
        )
    }
}

/// One step in the life of a stack.
pub enum Step {
    /// A write of `data` at `addr` that went through.
    Write { addr: u64, data: Seq<u8> },
    /// A flush that went through.
    Flush,
}

/// Every write of the steps ends within the address space.
pub open spec fn in_space(steps: Seq<Step>) -> bool {
    forall|i: int|
        0 <= i < steps.len() ==> ((#[trigger] steps[i]) matches Step::Write { addr, data } ==> addr
            + data.len() <= u64::MAX)
}

/// The stack after the steps, one after the other.
pub open spec fn after(v: StackView, steps: Seq<Step>) -> StackView
    decreases steps.len(),
{
    if steps.len() == 0 {
        v
    } else {
        let before = after(v, steps.drop_last());
        match steps.last() {
            Step::Write { addr, data } => before.written(addr, data),
            Step::Flush => before.flushed(),
        }
    }
}

/// The byte that the latest write to the address `a` among the steps wrote
/// there; `None` if none of them wrote to `a`.
pub open spec fn latest(steps: Seq<Step>, a: u64) -> Option<u8>
    decreases steps.len(),
{
    if steps.len() == 0 {
        None
    } else {
        match steps.last() {
            Step::Write { addr, data } => if addr <= a < addr + data.len() {
                Some(data[a - addr])
            } else {
                latest(steps.drop_last(), a)
            },
            Step::Flush => latest(steps.drop_last(), a),
        }
    }
}

} // verus!
