//! What the operations of the stack do to what the stack shows.

use crate::base::database::view::{
    after, apart, extent, fused, image, in_space, latest, piece, place, place_all, resolve, Step,
    StackView, Stratum,
};
use crate::base::layer::codec::{
    framed, lemma_insert_sound, lemma_payload_span, lemma_stored, lemma_stored_insert,
    ranges as ranges_of, sound, span, stored, Segment,
};
use crate::base::layer::mapper::{lemma_place, slot};
use crate::base::layer::ranges::{
    ascending, collide, collisions, complement, covers, holds, lemma_collisions_ascending,
    lemma_collisions_cover, lemma_covers_push, lemma_gaps_ascending, lemma_gaps_cover,
};
use std::ops::Range;
use vstd::prelude::*;

verus! {

/// Two ranges that collide share the later of their two starts.
pub proof fn lemma_collide_shares(x: Range<u64>, y: Range<u64>) -> (a: u64)
    requires
        collide(x, y),
        x.start < x.end,
        y.start < y.end,
    ensures
        holds(x, a),
        holds(y, a),
{
    if x.start >= y.start {
        x.start
    } else {
        y.start
    }
}

/// A framed segment that collides with nothing in a sound list goes to its
/// slot: the list stays sound, holds the segment's bytes for the segment's
/// addresses, and holds for every other address what it held.
pub proof fn lemma_place_one(s: Seq<Segment>, x: Segment)
    requires
        sound(s),
        framed(x),
        forall|j: int| 0 <= j < s.len() ==> !collide(#[trigger] ranges_of(s)[j], x.range),
    ensures
        sound(place(s, x)),
        forall|a: u64|
            #[trigger] stored(place(s, x), a) == if x.range.start <= a < x.range.end {
                Some(x.bytes[a - x.range.start])
            } else {
                stored(s, a)
            },
{
    lemma_place(s, x.range, (0, 0));
    let idx = slot(ranges_of(s), x.range.start);
    lemma_insert_sound(s, idx, x);
    assert forall|a: u64|
        #[trigger] stored(place(s, x), a) == if x.range.start <= a < x.range.end {
            Some(x.bytes[a - x.range.start])
        } else {
            stored(s, a)
        } by {
        lemma_stored_insert(s, idx, x, a);
    }
}

/// A list that holds bytes only where the list `s` or the ranges `rs` do
/// collides with no range that lies behind all of `rs` and collides with
/// nothing in `s`.
pub proof fn lemma_placed_apart(
    s: Seq<Segment>,
    rs: Seq<Range<u64>>,
    placed: Seq<Segment>,
    r: Range<u64>,
)
    requires
        sound(s),
        sound(placed),
        forall|a: u64| #[trigger] stored(placed, a) is Some ==> covers(rs, a) || stored(s, a) is Some,
        r.start < r.end,
        forall|k: int| 0 <= k < rs.len() ==> (#[trigger] rs[k]).end <= r.start,
        forall|j: int| 0 <= j < s.len() ==> !collide(#[trigger] ranges_of(s)[j], r),
    ensures
        forall|j: int| 0 <= j < placed.len() ==> !collide(#[trigger] ranges_of(placed)[j], r),
{
    assert forall|j: int| 0 <= j < placed.len() implies !collide(
        #[trigger] ranges_of(placed)[j],
        r,
    ) by {
        let y = ranges_of(placed)[j];
        if collide(y, r) {
            assert(framed(placed[j]));
            let a = lemma_collide_shares(y, r);
            lemma_stored(placed, a);
            lemma_stored(s, a);
            assert(stored(placed, a) is Some);
            if covers(rs, a) {
                let k = choose|k: int| 0 <= k < rs.len() && holds(#[trigger] rs[k], a);
                assert(rs[k].end <= r.start);
            } else {
                let i = choose|i: int| 0 <= i < s.len() && holds(#[trigger] ranges_of(s)[i], a);
                assert(!collide(ranges_of(s)[i], r));
            }
        }
    }
}

/// A write that puts its bytes at ranges that are in order, lie within the
/// write, and collide with nothing in a sound list leaves the list sound; the
/// list then holds the written bytes for the addresses of those ranges, and
/// for every other address what it held.
pub proof fn lemma_place_all(s: Seq<Segment>, rs: Seq<Range<u64>>, addr: u64, data: Seq<u8>)
    requires
        sound(s),
        ascending(rs),
        apart(ranges_of(s), rs),
        forall|k: int|
            0 <= k < rs.len() ==> addr <= (#[trigger] rs[k]).start && rs[k].end <= addr
                + data.len(),
    ensures
        sound(place_all(s, rs, addr, data)),
        forall|a: u64|
            #[trigger] stored(place_all(s, rs, addr, data), a) == if covers(rs, a) {
                Some(data[a - addr])
            } else {
                stored(s, a)
            },
    decreases rs.len(),
{
    if rs.len() == 0 {
    } else {
        let front = rs.drop_last();
        let r = rs.last();
        let before = place_all(s, front, addr, data);
        let x = piece(r, addr, data);
        assert forall|i: int, j: int| 0 <= i < j < front.len() implies (#[trigger] front[i]).end
            <= (#[trigger] front[j]).start by {
            assert(front[i] == rs[i] && front[j] == rs[j]);
        }
        assert forall|i: int| 0 <= i < front.len() implies (#[trigger] front[i]).start
            < front[i].end && addr <= front[i].start && front[i].end <= addr + data.len() by {
            assert(front[i] == rs[i]);
        }
        assert forall|j: int, k: int|
            0 <= j < ranges_of(s).len() && 0 <= k < front.len() implies !collide(
            #[trigger] ranges_of(s)[j],
            #[trigger] front[k],
        ) by {
            assert(front[k] == rs[k]);
        }
        lemma_place_all(s, front, addr, data);
        assert(rs[rs.len() - 1].start < rs[rs.len() - 1].end);
        assert(framed(x));
        assert forall|k: int| 0 <= k < front.len() implies (#[trigger] front[k]).end <= r.start by {
            assert(front[k] == rs[k]);
            assert(rs[k].end <= rs[rs.len() - 1].start);
        }
        assert forall|j: int| 0 <= j < s.len() implies !collide(
            #[trigger] ranges_of(s)[j],
            r,
        ) by {
            assert(!collide(ranges_of(s)[j], rs[rs.len() - 1]));
        }
        lemma_placed_apart(s, front, before, r);
        lemma_place_one(before, x);
        assert forall|a: u64|
            #[trigger] stored(place_all(s, rs, addr, data), a) == if covers(rs, a) {
                Some(data[a - addr])
            } else {
                stored(s, a)
            } by {
            assert(rs == front.push(r));
            lemma_covers_push(front, r, a);
            assert(stored(place(before, x), a) == if x.range.start <= a < x.range.end {
                Some(x.bytes[a - x.range.start])
            } else {
                stored(before, a)
            });
            assert(stored(before, a) == if covers(front, a) {
                Some(data[a - addr])
            } else {
                stored(s, a)
            });
        }
    }
}

/// What a query leaves free of the ranges it collides with does not collide
/// with any of the ranges.
pub proof fn lemma_gaps_apart(q: Range<u64>, r: Seq<Range<u64>>)
    requires
        ascending(r),
    ensures
        apart(r, complement(q, collisions(q, r))),
{
    let c = collisions(q, r);
    let g = complement(q, c);
    lemma_collisions_ascending(q, r);
    lemma_gaps_ascending(q.start, q.end, c);
    assert forall|j: int, k: int| 0 <= j < r.len() && 0 <= k < g.len() implies !collide(
        #[trigger] r[j],
        #[trigger] g[k],
    ) by {
        if collide(r[j], g[k]) {
            let a = lemma_collide_shares(r[j], g[k]);
            lemma_gaps_cover(q.start, q.end, c, a);
            lemma_collisions_cover(q, r, a);
            assert(covers(g, a));
            assert(covers(r, a));
        }
    }
}

/// A stack shows what its topmost layer holds, and under it what the layers
/// below show.
pub proof fn lemma_resolve_push(layers: Seq<Stratum>, top: Stratum, a: u64)
    ensures
        resolve(layers.push(top), a) == match top.segments {
            None => None,
            Some(s) => match stored(s, a) {
                Some(b) => Some(b),
                None => resolve(layers, a),
            },
        },
{
    assert(layers.push(top).drop_last() == layers);
}

/// A stack whose topmost layer is replaced shows what the new layer holds,
/// and under it what the layers below show.
pub proof fn lemma_resolve_set_top(layers: Seq<Stratum>, top: Stratum, a: u64)
    requires
        layers.len() > 0,
    ensures
        resolve(layers.update(layers.len() - 1, top), a) == match top.segments {
            None => None,
            Some(s) => match stored(s, a) {
                Some(b) => Some(b),
                None => resolve(layers.drop_last(), a),
            },
        },
{
    assert(layers.update(layers.len() - 1, top).drop_last() == layers.drop_last());
}

/// A sound list that is not empty is spanned by a range that is not empty.
pub proof fn lemma_holding_inv(heap: bool, s: Seq<Segment>)
    requires
        sound(s),
    ensures
        Stratum::holding(heap, s).inv(),
{
    if s.len() > 0 {
        lemma_payload_span(s);
    }
}

/// Sealing the open layer, or dropping it where it is empty, keeps the stack
/// in order and does not change what the stack shows.
pub proof fn lemma_flushed_shows(v: StackView, a: u64)
    requires
        v.inv(),
    ensures
        v.flushed().inv(),
        resolve(v.flushed().layers, a) == resolve(v.layers, a),
{
    if v.heap_open {
        let n = v.layers.len() - 1;
        let top = v.layers[n];
        assert(top.inv());
        if top.bounds is Some {
            let sealed = Stratum { heap: false, ..top };
            lemma_resolve_set_top(v.layers, sealed, a);
            assert(v.layers == v.layers.drop_last().push(top));
            lemma_resolve_push(v.layers.drop_last(), top, a);
            assert forall|i: int| 0 <= i < v.flushed().layers.len() implies (
            #[trigger] v.flushed().layers[i]).inv() && !v.flushed().layers[i].heap by {
                assert(v.layers[i].inv());
            }
        } else {
            assert(v.layers == v.layers.drop_last().push(top));
            lemma_resolve_push(v.layers.drop_last(), top, a);
            assert(top.segments.unwrap().len() == 0);
            assert forall|i: int| 0 <= i < v.flushed().layers.len() implies (
            #[trigger] v.flushed().layers[i]).inv() && !v.flushed().layers[i].heap by {
                assert(v.flushed().layers[i] == v.layers[i]);
            }
        }
    }
}

/// Opening the stack keeps it in order and does not change what it shows.
pub proof fn lemma_opened_shows(v: StackView, a: u64)
    requires
        v.inv(),
    ensures
        v.opened().inv(),
        v.opened().layers.last().segments is Some,
        sound(v.opened().top()),
        resolve(v.opened().layers, a) == resolve(v.layers, a),
{
    if !v.heap_open {
        let fresh = Stratum::holding(true, Seq::<Segment>::empty());
        lemma_resolve_push(v.layers, fresh, a);
        assert(ranges_of(Seq::<Segment>::empty()) == Seq::<Range<u64>>::empty());
        assert forall|i: int| 0 <= i < v.opened().layers.len() implies (
        #[trigger] v.opened().layers[i]).inv() && (v.opened().layers[i].heap <==> i
            == v.opened().layers.len() - 1) by {
            if i < v.layers.len() {
                assert(v.opened().layers[i] == v.layers[i]);
            }
        }
    } else {
        assert(v.layers[v.layers.len() - 1].inv());
    }
}

/// The open layer on top taking bytes keeps the stack in order; the stack
/// then shows those bytes where the layer took them, and elsewhere what it
/// showed.
pub proof fn lemma_with_top_shows(
    v: StackView,
    rs: Seq<Range<u64>>,
    addr: u64,
    data: Seq<u8>,
    a: u64,
)
    requires
        v.inv(),
        v.heap_open,
        ascending(rs),
        apart(ranges_of(v.top()), rs),
        forall|k: int|
            0 <= k < rs.len() ==> addr <= (#[trigger] rs[k]).start && rs[k].end <= addr
                + data.len(),
    ensures
        v.with_top(place_all(v.top(), rs, addr, data)).inv(),
        resolve(v.with_top(place_all(v.top(), rs, addr, data)).layers, a) == if covers(rs, a) {
            Some(data[a - addr])
        } else {
            resolve(v.layers, a)
        },
{
    let n = v.layers.len() - 1;
    let top = v.layers[n];
    assert(top.inv());
    let s = v.top();
    let placed = place_all(s, rs, addr, data);
    lemma_place_all(s, rs, addr, data);
    lemma_holding_inv(true, placed);
    let after = v.with_top(placed);
    lemma_resolve_set_top(v.layers, Stratum::holding(true, placed), a);
    assert(v.layers == v.layers.drop_last().push(top));
    lemma_resolve_push(v.layers.drop_last(), top, a);
    assert(stored(placed, a) == if covers(rs, a) {
        Some(data[a - addr])
    } else {
        stored(s, a)
    });
    assert forall|i: int| 0 <= i < after.layers.len() implies (#[trigger] after.layers[i]).inv()
        && (after.layers[i].heap <==> i == after.layers.len() - 1) by {
        if i < n {
            assert(after.layers[i] == v.layers[i]);
        }
    }
}

/// Newest wins: after a write, the stack shows the written bytes at the
/// addresses of the write, and at every other address what it showed before.
/// The stack stays in order.
pub proof fn lemma_written_shows(v: StackView, addr: u64, data: Seq<u8>, a: u64)
    requires
        v.inv(),
        addr + data.len() <= u64::MAX,
    ensures
        v.written(addr, data).inv(),
        v.written(addr, data).heap_open || data.len() == 0,
        resolve(v.written(addr, data).layers, a) == if addr <= a < addr + data.len() {
            Some(data[a - addr])
        } else {
            resolve(v.layers, a)
        },
{
    if data.len() > 0 {
        let q = Range { start: addr, end: (addr + data.len()) as u64 };
        let open = v.opened();
        lemma_opened_shows(v, a);
        let top = open.top();
        let r = ranges_of(top);
        let hits = collisions(q, r);
        let gaps = complement(q, hits);
        lemma_collisions_ascending(q, r);
        lemma_gaps_ascending(q.start, q.end, hits);
        lemma_gaps_apart(q, r);
        lemma_gaps_cover(q.start, q.end, hits, a);
        lemma_collisions_cover(q, r, a);
        lemma_with_top_shows(open, gaps, addr, data, a);
        let filled = v.filled(addr, data);
        if hits.len() > 0 {
            // the layer held something before, so it holds something now
            let j = choose|j: int|
                0 <= j < r.len() && r[j].start <= (#[trigger] hits[0]).start && hits[0].end
                    <= r[j].end;
            assert(framed(top[j]));
            let b = r[j].start;
            assert(holds(r[j], b));
            lemma_stored(top, b);
            lemma_place_all(top, gaps, addr, data);
            lemma_stored(filled.top(), b);
            assert(filled.top().len() > 0);
            lemma_flushed_shows(filled, a);
            let stalled = v.stalled(addr, data);
            lemma_opened_shows(stalled, a);
            let reopened = stalled.opened();
            assert(reopened.top() == Seq::<Segment>::empty());
            assert(ranges_of(Seq::<Segment>::empty()) == Seq::<Range<u64>>::empty());
            lemma_with_top_shows(reopened, hits, addr, data, a);
        }
    }
}

/// A write that came to a halt halfway leaves the stack in order; the stack
/// then shows the written bytes at the addresses of the write that the open
/// layer did not hold, and at every other address what it showed before.
pub proof fn lemma_stalled_shows(v: StackView, addr: u64, data: Seq<u8>, a: u64)
    requires
        v.inv(),
        addr + data.len() <= u64::MAX,
    ensures
        v.stalled(addr, data).inv(),
        !v.stalled(addr, data).heap_open,
        resolve(v.stalled(addr, data).layers, a) == resolve(v.layers, a) || (addr <= a < addr
            + data.len() && resolve(v.stalled(addr, data).layers, a) == Some(data[a - addr])),
{
    let q = Range { start: addr, end: (addr + data.len()) as u64 };
    let open = v.opened();
    lemma_opened_shows(v, a);
    let r = ranges_of(open.top());
    let hits = collisions(q, r);
    let gaps = complement(q, hits);
    lemma_collisions_ascending(q, r);
    lemma_gaps_ascending(q.start, q.end, hits);
    lemma_gaps_apart(q, r);
    lemma_gaps_cover(q.start, q.end, hits, a);
    lemma_with_top_shows(open, gaps, addr, data, a);
    lemma_flushed_shows(v.filled(addr, data), a);
}

/// A write to a closed stack puts one new layer on top, which holds the
/// written bytes as one segment.
pub proof fn lemma_written_fresh(v: StackView, addr: u64, data: Seq<u8>)
    requires
        !v.heap_open,
        data.len() > 0,
        addr + data.len() <= u64::MAX,
    ensures
        v.written(addr, data) == (StackView {
            layers: v.layers.push(
                Stratum::holding(
                    true,
                    seq![
                        Segment {
                            range: Range { start: addr, end: (addr + data.len()) as u64 },
                            bytes: data,
                        },
                    ],
                ),
            ),
            heap_open: true,
        }),
        sound(
            seq![
                Segment {
                    range: Range { start: addr, end: (addr + data.len()) as u64 },
                    bytes: data,
                },
            ],
        ),
{
    let q = Range { start: addr, end: (addr + data.len()) as u64 };
    let none = Seq::<Segment>::empty();
    let open = v.opened();
    assert(open.top() == none);
    assert(ranges_of(none) == Seq::<Range<u64>>::empty());
    let hits = collisions(q, ranges_of(none));
    assert(hits == Seq::<Range<u64>>::empty());
    let gaps = complement(q, hits);
    assert(gaps == seq![q]);
    assert(gaps.drop_last() == Seq::<Range<u64>>::empty());
    assert(place_all(none, gaps.drop_last(), addr, data) == none);
    assert(gaps.last() == q);
    let x = piece(q, addr, data);
    assert(data.subrange(0, data.len() as int) == data);
    assert(x == Segment { range: q, bytes: data });
    assert(place(none, x) == none.insert(0, x));
    assert(none.insert(0, x) == seq![x]);
    assert(place_all(none, gaps, addr, data) == seq![x]);
    assert(open.layers.update(open.layers.len() - 1, Stratum::holding(true, seq![x]))
        == v.layers.push(Stratum::holding(true, seq![x])));
    assert(framed(seq![x][0]));
}

/// A list of one framed segment holds the segment's bytes for the segment's
/// addresses and nothing else.
pub proof fn lemma_stored_single(x: Segment, a: u64)
    requires
        framed(x),
    ensures
        sound(seq![x]),
        span(seq![x]) == Some(x.range),
        stored(seq![x], a) == if x.range.start <= a < x.range.end {
            Some(x.bytes[a - x.range.start])
        } else {
            None
        },
{
    assert(seq![x].last() == x);
    assert(seq![x].drop_last() == Seq::<Segment>::empty());
    assert(framed(seq![x][0]));
    assert(stored(Seq::<Segment>::empty(), a) is None);
}

/// Layers with the same bounds have the same extent.
pub proof fn lemma_extent_bounds(x: Seq<Stratum>, y: Seq<Stratum>)
    requires
        x.len() == y.len(),
        forall|i: int| 0 <= i < x.len() ==> (#[trigger] x[i]).bounds == y[i].bounds,
    ensures
        extent(x) == extent(y),
    decreases x.len(),
{
    if x.len() > 0 {
        assert(x[x.len() - 1].bounds == y[y.len() - 1].bounds);
        assert forall|i: int| 0 <= i < x.drop_last().len() implies (
        #[trigger] x.drop_last()[i]).bounds == y.drop_last()[i].bounds by {
            assert(x[i].bounds == y[i].bounds);
        }
        lemma_extent_bounds(x.drop_last(), y.drop_last());
    }
}

/// Zero fill: an address that no layer holds shows zero.
pub proof fn lemma_uncovered_shows_zero(layers: Seq<Stratum>, a: u64)
    requires
        forall|i: int|
            0 <= i < layers.len() ==> (#[trigger] layers[i]).segments is Some && stored(
                layers[i].segments.unwrap(),
                a,
            ) is None,
    ensures
        resolve(layers, a) == Some(0u8),
    decreases layers.len(),
{
    if layers.len() > 0 {
        let below = layers.drop_last();
        assert(layers[layers.len() - 1].segments is Some);
        assert forall|i: int| 0 <= i < below.len() implies (#[trigger] below[i]).segments is Some
            && stored(below[i].segments.unwrap(), a) is None by {
            assert(below[i] == layers[i]);
        }
        lemma_uncovered_shows_zero(below, a);
    }
}

/// The topmost layer that holds an address is the one whose byte shows,
/// whatever the layers under it hold, as long as no layer above it is
/// corrupt.
pub proof fn lemma_topmost_shows(layers: Seq<Stratum>, i: int, a: u64)
    requires
        0 <= i < layers.len(),
        layers[i].segments is Some,
        stored(layers[i].segments.unwrap(), a) is Some,
        forall|j: int|
            i < j < layers.len() ==> (#[trigger] layers[j]).segments is Some && stored(
                layers[j].segments.unwrap(),
                a,
            ) is None,
    ensures
        resolve(layers, a) == stored(layers[i].segments.unwrap(), a),
    decreases layers.len(),
{
    if i < layers.len() - 1 {
        let below = layers.drop_last();
        assert(layers[layers.len() - 1].segments is Some);
        assert(below[i] == layers[i]);
        assert forall|j: int| i < j < below.len() implies (#[trigger] below[j]).segments is Some
            && stored(below[j].segments.unwrap(), a) is None by {
            assert(below[j] == layers[j]);
        }
        lemma_topmost_shows(below, i, a);
    }
}

/// In every layer of a stack in order, the segments that can be read are
/// sorted, do not overlap, hold one byte for each of their addresses, and
/// are spanned by the bounds of the layer; a layer has no bounds exactly
/// when it has no segments.
pub proof fn lemma_stack_layers_in_order(v: StackView, i: int)
    requires
        v.inv(),
        0 <= i < v.layers.len(),
        v.layers[i].segments is Some,
    ensures
        ascending(ranges_of(v.layers[i].segments.unwrap())),
        forall|k: int|
            0 <= k < v.layers[i].segments.unwrap().len() ==> framed(
                #[trigger] v.layers[i].segments.unwrap()[k],
            ),
        v.layers[i].bounds == span(v.layers[i].segments.unwrap()),
        v.layers[i].bounds is None <==> v.layers[i].segments.unwrap().len() == 0,
{
    assert(v.layers[i].inv());
}

/// Newest wins, over a whole history: after any writes and flushes, the
/// stack shows at every address the byte of the latest write to it, and
/// where none of them wrote what it showed before. The stack stays in order.
pub proof fn lemma_history_shows(v: StackView, steps: Seq<Step>, a: u64)
    requires
        v.inv(),
        in_space(steps),
    ensures
        after(v, steps).inv(),
        resolve(after(v, steps).layers, a) == match latest(steps, a) {
            Some(b) => Some(b),
            None => resolve(v.layers, a),
        },
    decreases steps.len(),
{
    if steps.len() > 0 {
        let earlier = steps.drop_last();
        assert forall|i: int| 0 <= i < earlier.len() implies ((
        #[trigger] earlier[i]) matches Step::Write { addr, data } ==> addr + data.len()
            <= u64::MAX) by {
            assert(earlier[i] == steps[i]);
        }
        lemma_history_shows(v, earlier, a);
        let before = after(v, earlier);
        match steps.last() {
            Step::Write { addr, data } => {
                assert(steps[steps.len() - 1] matches Step::Write { addr, data } ==> addr
                    + data.len() <= u64::MAX);
                lemma_written_shows(before, addr, data, a);
            },
            Step::Flush => {
                lemma_flushed_shows(before, a);
            },
        }
    }
}

/// Zero fill, over a whole history: in a stack that started without layers,
/// an address that no write has written to shows zero.
pub proof fn lemma_never_written_shows_zero(steps: Seq<Step>, a: u64)
    requires
        in_space(steps),
        latest(steps, a) is None,
    ensures
        resolve(
            after(StackView { layers: Seq::empty(), heap_open: false }, steps).layers,
            a,
        ) == Some(0u8),
{
    lemma_history_shows(StackView { layers: Seq::empty(), heap_open: false }, steps, a);
}

/// The extent takes in the bounds of every layer.
pub proof fn lemma_extent_encloses(layers: Seq<Stratum>, i: int)
    requires
        0 <= i < layers.len(),
        layers[i].bounds is Some,
    ensures
        extent(layers).start <= layers[i].bounds.unwrap().start,
        layers[i].bounds.unwrap().end <= extent(layers).end,
    decreases layers.len(),
{
    if i < layers.len() - 1 {
        assert(layers.drop_last()[i] == layers[i]);
        lemma_extent_encloses(layers.drop_last(), i);
    }
}

/// Outside the extent of its layers a stack shows zero, unless a corrupt
/// layer stands in the way.
pub proof fn lemma_outside_extent(layers: Seq<Stratum>, a: u64)
    requires
        forall|i: int| 0 <= i < layers.len() ==> (#[trigger] layers[i]).inv(),
        !holds(extent(layers), a),
    ensures
        resolve(layers, a) is Some ==> resolve(layers, a) == Some(0u8),
    decreases layers.len(),
{
    if layers.len() > 0 {
        let top = layers.last();
        let below = layers.drop_last();
        assert(top.inv());
        assert forall|i: int| 0 <= i < below.len() implies (#[trigger] below[i]).inv() by {
            assert(below[i] == layers[i]);
        }
        if top.segments is Some {
            let s = top.segments.unwrap();
            lemma_stored(s, a);
            if stored(s, a) is Some {
                let i = choose|i: int| 0 <= i < s.len() && holds(#[trigger] ranges_of(s)[i], a);
                assert(ranges_of(s)[0].start <= ranges_of(s)[i].start);
                assert(ranges_of(s)[i].end <= ranges_of(s)[s.len() - 1].end);
                assert(false);
            }
            lemma_outside_extent(below, a);
        }
    }
}

/// Layers fused from what a stack shows between `from` and `to`, put on
/// top of other layers, show between `from` and `to` what that stack showed,
/// and elsewhere what the layers under them show.
pub proof fn lemma_fused_shows(
    under: Seq<Stratum>,
    layers: Seq<Stratum>,
    from: u64,
    to: u64,
    size: u64,
    a: u64,
)
    requires
        size > 0,
    ensures
        resolve(under + fused(layers, from, to, size), a) == if from <= a < to {
            Some(resolve(layers, a).unwrap())
        } else {
            resolve(under, a)
        },
    decreases to - from,
{
    if from >= to {
        assert(under + fused(layers, from, to, size) == under);
    } else {
        let end = if to - from <= size { to } else { (from + size) as u64 };
        let r = Range { start: from, end };
        let seg = Segment { range: r, bytes: image(layers, r) };
        let chunk = Stratum::holding(false, seq![seg]);
        let rest = fused(layers, end, to, size);
        assert(under + (seq![chunk] + rest) == under.push(chunk) + rest);
        lemma_fused_shows(under.push(chunk), layers, end, to, size, a);
        lemma_resolve_push(under, chunk, a);
        lemma_stored_single(seg, a);
        if from <= a < end {
            assert((from + (a - from)) as u64 == a);
        }
    }
}

/// Rebase semantics: the fused stack shows within the extent of the old
/// layers what the old stack showed there, and zero outside of it; so every
/// address at which the old stack showed a byte shows the same byte.
pub proof fn lemma_rebased_shows(v: StackView, size: u64, a: u64)
    requires
        v.inv(),
        size > 0,
    ensures
        v.layers.len() > 0 && v.layers.last().bounds is Some ==> resolve(
            v.rebased(size).layers,
            a,
        ) == if holds(extent(v.layers), a) {
            Some(resolve(v.layers, a).unwrap())
        } else {
            Some(0u8)
        },
        resolve(v.layers, a) is Some ==> resolve(v.rebased(size).layers, a) == resolve(v.layers, a),
{
    if v.layers.len() > 0 && v.layers.last().bounds is Some {
        let e = extent(v.layers);
        let none = Seq::<Stratum>::empty();
        lemma_fused_shows(none, v.layers, e.start, e.end, size, a);
        assert(none + fused(v.layers, e.start, e.end, size) == fused(
            v.layers,
            e.start,
            e.end,
            size,
        ));
        if !holds(e, a) {
            lemma_outside_extent(v.layers, a);
        }
    }
}

/// The extent of a layer put under other layers takes in the bounds of the
/// layer and the extent of the others.
pub proof fn lemma_extent_prepend(first: Stratum, rest: Seq<Stratum>)
    ensures
        extent(seq![first] + rest) == match first.bounds {
            Some(b) => Range {
                start: if b.start <= extent(rest).start { b.start } else { extent(rest).start },
                end: if b.end >= extent(rest).end { b.end } else { extent(rest).end },
            },
            None => extent(rest),
        },
    decreases rest.len(),
{
    let all = seq![first] + rest;
    if rest.len() == 0 {
        assert(all.drop_last() == Seq::<Stratum>::empty());
        assert(all.last() == first);
        assert(rest == Seq::<Stratum>::empty());
        assert(extent(Seq::<Stratum>::empty()) == (Range { start: u64::MAX, end: 0 }));
    } else {
        assert(all.drop_last() == seq![first] + rest.drop_last());
        assert(all.last() == rest.last());
        lemma_extent_prepend(first, rest.drop_last());
    }
}

/// The layers fused from a stretch that is not empty are in order, span
/// that stretch, and the last of them holds something.
pub proof fn lemma_fused_extent(layers: Seq<Stratum>, from: u64, to: u64, size: u64)
    requires
        from < to,
        size > 0,
    ensures
        fused(layers, from, to, size).len() > 0,
        fused(layers, from, to, size).last().bounds is Some,
        extent(fused(layers, from, to, size)) == (Range { start: from, end: to }),
        forall|i: int|
            0 <= i < fused(layers, from, to, size).len() ==> (#[trigger] fused(
                layers,
                from,
                to,
                size,
            )[i]).inv() && !fused(layers, from, to, size)[i].heap,
    decreases to - from,
{
    let end = if to - from <= size { to } else { (from + size) as u64 };
    let r = Range { start: from, end };
    let seg = Segment { range: r, bytes: image(layers, r) };
    let chunk = Stratum::holding(false, seq![seg]);
    let rest = fused(layers, end, to, size);
    let all = fused(layers, from, to, size);
    assert(all == seq![chunk] + rest);
    lemma_stored_single(seg, 0);
    lemma_holding_inv(false, seq![seg]);
    lemma_extent_prepend(chunk, rest);
    if end < to {
        lemma_fused_extent(layers, end, to, size);
        assert(all.last() == rest.last());
    } else {
        assert(rest == Seq::<Stratum>::empty());
        assert(all.last() == chunk);
    }
    assert forall|i: int| 0 <= i < all.len() implies (#[trigger] all[i]).inv() && !all[i].heap by {
        if i > 0 {
            assert(all[i] == rest[i - 1]);
        }
    }
}

/// Stacks that show the same bytes between `from` and `to` fuse into the
/// same layers there.
pub proof fn lemma_fused_same(
    one: Seq<Stratum>,
    other: Seq<Stratum>,
    from: u64,
    to: u64,
    size: u64,
)
    requires
        forall|a: u64|
            from <= a < to ==> (#[trigger] resolve(one, a)).unwrap() == resolve(other, a).unwrap(),
    ensures
        fused(one, from, to, size) == fused(other, from, to, size),
    decreases to - from,
{
    if from >= to || size == 0 {
    } else {
        let end = if to - from <= size { to } else { (from + size) as u64 };
        let r = Range { start: from, end };
        assert(image(one, r) =~= image(other, r)) by {
            assert forall|k: int| 0 <= k < end - from implies image(one, r)[k] == image(
                other,
                r,
            )[k] by {
                let a = (from + k) as u64;
                assert(resolve(one, a).unwrap() == resolve(other, a).unwrap());
            }
        }
        lemma_fused_same(one, other, end, to, size);
    }
}

/// Rebase idempotence: a second rebase with the same buffer size finds
/// nothing to change. The layers that the first one left, with their
/// bounds and segments, are the layers that the second one leaves.
pub proof fn lemma_rebase_twice(v: StackView, size: u64)
    requires
        v.inv(),
        size > 0,
    ensures
        v.rebased(size).inv(),
        v.rebased(size).rebased(size) == v.rebased(size),
{
    if v.layers.len() > 0 && v.layers.last().bounds is Some {
        let e = extent(v.layers);
        let once = fused(v.layers, e.start, e.end, size);
        let top = v.layers.len() - 1;
        assert(v.layers[top].inv());
        lemma_extent_encloses(v.layers, top);
        lemma_fused_extent(v.layers, e.start, e.end, size);
        assert forall|a: u64| e.start <= a < e.end implies (#[trigger] resolve(
            once,
            a,
        )).unwrap() == resolve(v.layers, a).unwrap() by {
            let none = Seq::<Stratum>::empty();
            lemma_fused_shows(none, v.layers, e.start, e.end, size, a);
            assert(none + once == once);
        }
        lemma_fused_same(once, v.layers, e.start, e.end, size);
    }
}

/// An empty write is a no-op.
pub proof fn lemma_written_nothing(v: StackView, addr: u64)
    ensures
        v.written(addr, Seq::<u8>::empty()) == v,
{
}

} // verus!
