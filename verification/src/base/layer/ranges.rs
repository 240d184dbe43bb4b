//! The interval arithmetic that every layer operation rests on.
//!
//! A range is half open, `[start, end)`. Lists of ranges are kept ascending:
//! every range is non-empty and ends no later than the next one starts.

use std::ops::Range;
use vstd::prelude::*;

verus! {

/// The address `a` lies in `r`.
pub open spec fn holds(r: Range<u64>, a: u64) -> bool {
    r.start <= a < r.end
}

/// Two ranges share at least one address.
pub open spec fn collide(a: Range<u64>, b: Range<u64>) -> bool {
    a.start < b.end && b.start < a.end
}

/// The part of `s` that lies in `q`; empty (`start >= end`) when they share nothing.
pub open spec fn clip(q: Range<u64>, s: Range<u64>) -> Range<u64> {
    Range {
        start: if q.start >= s.start { q.start } else { s.start },
        end: if q.end <= s.end { q.end } else { s.end },
    }
}

/// Every range is non-empty and the list is sorted without overlap.
pub open spec fn ascending(s: Seq<Range<u64>>) -> bool {
    &&& forall|i: int| 0 <= i < s.len() ==> (#[trigger] s[i]).start < s[i].end
    &&& forall|i: int, j: int|
        0 <= i < j < s.len() ==> (#[trigger] s[i]).end <= (#[trigger] s[j]).start
}

/// Every range of `s` lies in `q`.
pub open spec fn inside(s: Seq<Range<u64>>, q: Range<u64>) -> bool {
    forall|i: int| 0 <= i < s.len() ==> q.start <= (#[trigger] s[i]).start && s[i].end <= q.end
}

/// Some range of `s` holds the address `a`.
pub open spec fn covers(s: Seq<Range<u64>>, a: u64) -> bool {
    exists|i: int| 0 <= i < s.len() && holds(#[trigger] s[i], a)
}

/// The non-empty intersections of `q` with the ranges of `s`, in the order of `s`.
pub open spec fn collisions(q: Range<u64>, s: Seq<Range<u64>>) -> Seq<Range<u64>>
    decreases s.len(),
{
    if s.len() == 0 {
        Seq::empty()
    } else {
        let rest = collisions(q, s.drop_last());
        let c = clip(q, s.last());
        if c.start < c.end {
            rest.push(c)
        } else {
            rest
        }
    }
}

/// The non-empty stretches between `from` and `to` that the ranges of `c` leave free.
pub open spec fn gaps(from: u64, to: u64, c: Seq<Range<u64>>) -> Seq<Range<u64>>
    decreases c.len(),
{
    if c.len() == 0 {
        if from < to {
            seq![Range { start: from, end: to }]
        } else {
            Seq::empty()
        }
    } else {
        let head = if from < c[0].start {
            seq![Range { start: from, end: c[0].start }]
        } else {
            Seq::empty()
        };
        head + gaps(c[0].end, to, c.skip(1))
    }
}

/// What of `q` the ranges of `c` leave free.
pub open spec fn complement(q: Range<u64>, c: Seq<Range<u64>>) -> Seq<Range<u64>> {
    gaps(q.start, q.end, c)
}

/// The smallest range that encloses both `bounds`, if there are any, and `q`.
pub open spec fn enclose(bounds: Option<Range<u64>>, q: Range<u64>) -> Range<u64> {
    match bounds {
        Some(b) => Range {
            start: if b.start <= q.start { b.start } else { q.start },
            end: if b.end >= q.end { b.end } else { q.end },
        },
        None => q,
    }
}

/// For two non-empty ranges, the clipped range is non-empty exactly when they collide.
pub proof fn lemma_clip_collide(q: Range<u64>, s: Range<u64>)
    requires
        q.start < q.end,
        s.start < s.end,
    ensures
        collide(q, s) <==> clip(q, s).start < clip(q, s).end,
{
}

pub proof fn lemma_covers_push(s: Seq<Range<u64>>, r: Range<u64>, a: u64)
    ensures
        covers(s.push(r), a) <==> covers(s, a) || holds(r, a),
{
    let t = s.push(r);
    if covers(s, a) {
        let i = choose|i: int| 0 <= i < s.len() && holds(#[trigger] s[i], a);
        assert(holds(t[i], a));
    }
    if holds(r, a) {
        assert(holds(t[s.len() as int], a));
    }
    if covers(t, a) {
        let i = choose|i: int| 0 <= i < t.len() && holds(#[trigger] t[i], a);
        if i < s.len() {
            assert(holds(s[i], a));
        }
    }
}

pub proof fn lemma_covers_add(s: Seq<Range<u64>>, t: Seq<Range<u64>>, a: u64)
    ensures
        covers(s + t, a) <==> covers(s, a) || covers(t, a),
{
    let u = s + t;
    if covers(s, a) {
        let i = choose|i: int| 0 <= i < s.len() && holds(#[trigger] s[i], a);
        assert(holds(u[i], a));
    }
    if covers(t, a) {
        let i = choose|i: int| 0 <= i < t.len() && holds(#[trigger] t[i], a);
        assert(holds(u[s.len() + i], a));
    }
    if covers(u, a) {
        let i = choose|i: int| 0 <= i < u.len() && holds(#[trigger] u[i], a);
        if i < s.len() {
            assert(holds(s[i], a));
        } else {
            assert(holds(t[i - s.len()], a));
        }
    }
}

/// An address is in a collision exactly when it is in the query and in a range of `s`.
pub proof fn lemma_collisions_cover(q: Range<u64>, s: Seq<Range<u64>>, a: u64)
    ensures
        covers(collisions(q, s), a) <==> holds(q, a) && covers(s, a),
    decreases s.len(),
{
    if s.len() == 0 {
    } else {
        let front = s.drop_last();
        lemma_collisions_cover(q, front, a);
        assert(s == front.push(s.last()));
        lemma_covers_push(front, s.last(), a);
        let c = clip(q, s.last());
        if c.start < c.end {
            lemma_covers_push(collisions(q, front), c, a);
        }
    }
}

/// The collisions with an ascending list are ascending, lie in the query, and
/// each of them lies in the range of `s` it was cut from.
pub proof fn lemma_collisions_ascending(q: Range<u64>, s: Seq<Range<u64>>)
    requires
        ascending(s),
    ensures
        ascending(collisions(q, s)),
        inside(collisions(q, s), q),
        collisions(q, s).len() <= s.len(),
        forall|i: int|
            0 <= i < collisions(q, s).len() ==> exists|j: int|
                0 <= j < s.len() && s[j].start <= (#[trigger] collisions(q, s)[i]).start
                    && collisions(q, s)[i].end <= s[j].end,
    decreases s.len(),
{
    if s.len() == 0 {
    } else {
        let front = s.drop_last();
        assert forall|i: int, j: int| 0 <= i < j < front.len() implies (#[trigger] front[i]).end
            <= (#[trigger] front[j]).start by {
            assert(front[i] == s[i] && front[j] == s[j]);
        }
        assert forall|i: int| 0 <= i < front.len() implies (#[trigger] front[i]).start
            < front[i].end by {
            assert(front[i] == s[i]);
        }
        lemma_collisions_ascending(q, front);
        let rest = collisions(q, front);
        let c = clip(q, s.last());
        let all = collisions(q, s);
        assert forall|i: int| 0 <= i < rest.len() implies (#[trigger] rest[i]).end
            <= s.last().start by {
            let j = choose|j: int|
                0 <= j < front.len() && front[j].start <= rest[i].start && rest[i].end
                    <= front[j].end;
            assert(front[j] == s[j]);
            assert(s[j].end <= s[s.len() - 1].start);
        }
        assert forall|i: int| 0 <= i < all.len() implies exists|j: int|
            0 <= j < s.len() && s[j].start <= (#[trigger] all[i]).start && all[i].end
                <= s[j].end by {
            if i < rest.len() {
                let j = choose|j: int|
                    0 <= j < front.len() && front[j].start <= rest[i].start && rest[i].end
                        <= front[j].end;
                assert(front[j] == s[j]);
            } else {
                let j = s.len() - 1;
                assert(s[j].start <= all[i].start && all[i].end <= s[j].end);
            }
        }
    }
}


/// The first range of a list holds an address, or one of the others does.
pub proof fn lemma_covers_skip(c: Seq<Range<u64>>, a: u64)
    requires
        c.len() > 0,
    ensures
        covers(c, a) <==> holds(c[0], a) || covers(c.skip(1), a),
{
    let t = c.skip(1);
    if covers(c, a) {
        let i = choose|i: int| 0 <= i < c.len() && holds(#[trigger] c[i], a);
        if i > 0 {
            assert(holds(t[i - 1], a));
        }
    }
    if covers(t, a) {
        let i = choose|i: int| 0 <= i < t.len() && holds(#[trigger] t[i], a);
        assert(holds(c[i + 1], a));
    }
}

/// What is left of an ascending list after its first range is ascending too,
/// and starts no earlier than that first range ends.
pub proof fn lemma_ascending_skip(c: Seq<Range<u64>>, to: u64)
    requires
        c.len() > 0,
        ascending(c),
        forall|i: int| 0 <= i < c.len() ==> (#[trigger] c[i]).end <= to,
    ensures
        ascending(c.skip(1)),
        forall|i: int|
            0 <= i < c.skip(1).len() ==> c[0].end <= (#[trigger] c.skip(1)[i]).start
                && c.skip(1)[i].end <= to,
{
    let t = c.skip(1);
    assert forall|i: int| 0 <= i < t.len() implies (#[trigger] t[i]).start < t[i].end && c[0].end
        <= t[i].start && t[i].end <= to by {
        assert(t[i] == c[i + 1]);
    }
    assert forall|i: int, j: int| 0 <= i < j < t.len() implies (#[trigger] t[i]).end <= (
    #[trigger] t[j]).start by {
        assert(t[i] == c[i + 1] && t[j] == c[j + 1]);
    }
}

/// An address between `from` and `to` is in a gap exactly when no range of `c` holds it,
/// and no gap reaches outside `[from, to)`.
pub proof fn lemma_gaps_cover(from: u64, to: u64, c: Seq<Range<u64>>, a: u64)
    requires
        ascending(c),
        forall|i: int| 0 <= i < c.len() ==> from <= (#[trigger] c[i]).start && c[i].end <= to,
    ensures
        covers(gaps(from, to, c), a) <==> from <= a < to && !covers(c, a),
    decreases c.len(),
{
    if c.len() == 0 {
        if from < to {
            let g = seq![Range { start: from, end: to }];
            if from <= a < to {
                assert(holds(g[0], a));
            }
        }
    } else {
        let head = if from < c[0].start {
            seq![Range { start: from, end: c[0].start }]
        } else {
            Seq::empty()
        };
        let tail = c.skip(1);
        lemma_ascending_skip(c, to);
        lemma_gaps_cover(c[0].end, to, tail, a);
        lemma_covers_add(head, gaps(c[0].end, to, tail), a);
        lemma_covers_skip(c, a);
        if from <= a < c[0].start {
            assert(holds(head[0], a));
            if covers(tail, a) {
                let i = choose|i: int| 0 <= i < tail.len() && holds(#[trigger] tail[i], a);
                assert(false);
            }
        }
    }
}

/// The gaps are ascending and lie between `from` and `to`.
pub proof fn lemma_gaps_ascending(from: u64, to: u64, c: Seq<Range<u64>>)
    requires
        ascending(c),
        forall|i: int| 0 <= i < c.len() ==> from <= (#[trigger] c[i]).start && c[i].end <= to,
    ensures
        ascending(gaps(from, to, c)),
        forall|i: int|
            0 <= i < gaps(from, to, c).len() ==> from <= (#[trigger] gaps(from, to, c)[i]).start
                && gaps(from, to, c)[i].end <= to,
    decreases c.len(),
{
    if c.len() == 0 {
    } else {
        let head = if from < c[0].start {
            seq![Range { start: from, end: c[0].start }]
        } else {
            Seq::empty()
        };
        let tail = c.skip(1);
        lemma_ascending_skip(c, to);
        lemma_gaps_ascending(c[0].end, to, tail);
        let rest = gaps(c[0].end, to, tail);
        let all = head + rest;
        assert forall|i: int| 0 <= i < all.len() implies (#[trigger] all[i]).start < all[i].end
            && from <= all[i].start && all[i].end <= to by {
            if i >= head.len() {
                assert(all[i] == rest[i - head.len()]);
            }
        }
        assert forall|i: int, j: int| 0 <= i < j < all.len() implies (#[trigger] all[i]).end <= (
        #[trigger] all[j]).start by {
            assert(all[j] == rest[j - head.len()]);
            if i >= head.len() {
                assert(all[i] == rest[i - head.len()]);
            }
        }
    }
}

/// The collisions of a query with an ascending list, and what they leave free
/// of the query, split the query: both lists are ascending and lie in the
/// query, and every address of the query is in exactly one of the two.
pub proof fn lemma_collisions_complement_partition(q: Range<u64>, s: Seq<Range<u64>>)
    requires
        ascending(s),
    ensures
        ascending(collisions(q, s)),
        inside(collisions(q, s), q),
        ascending(complement(q, collisions(q, s))),
        inside(complement(q, collisions(q, s)), q),
        forall|a: u64|
            holds(q, a) ==> (#[trigger] covers(collisions(q, s), a) <==> !covers(
                complement(q, collisions(q, s)),
                a,
            )),
        forall|a: u64| #[trigger] covers(collisions(q, s), a) ==> holds(q, a),
        forall|a: u64| #[trigger] covers(complement(q, collisions(q, s)), a) ==> holds(q, a),
{
    let c = collisions(q, s);
    lemma_collisions_ascending(q, s);
    lemma_gaps_ascending(q.start, q.end, c);
    assert forall|a: u64|
        (holds(q, a) ==> (#[trigger] covers(c, a) <==> !covers(complement(q, c), a))) && (covers(
            c,
            a,
        ) ==> holds(q, a)) by {
        lemma_gaps_cover(q.start, q.end, c, a);
        lemma_collisions_cover(q, s, a);
    }
    assert forall|a: u64| #[trigger] covers(complement(q, c), a) implies holds(q, a) by {
        lemma_gaps_cover(q.start, q.end, c, a);
    }
}

/// Whether two ranges share an address.
pub fn ranges_collide(a: &Range<u64>, b: &Range<u64>) -> (r: bool)
    ensures
        r == collide(*a, *b),
{
    a.start < b.end && b.start < a.end
}

/// Cuts `s` down to what lies in `q`.
pub fn clip_range(q: &Range<u64>, s: &Range<u64>) -> (r: Range<u64>)
    ensures
        r == clip(*q, *s),
{
    let start: u64 = if q.start >= s.start { q.start } else { s.start };
    let end: u64 = if q.end <= s.end { q.end } else { s.end };
    start..end
}

/// The collisions of `q` with the ranges of `s`.
pub fn find_collisions(q: &Range<u64>, s: &[Range<u64>]) -> (out: Vec<Range<u64>>)
    ensures
        out@ == collisions(*q, s@),
{
    let mut out: Vec<Range<u64>> = Vec::new();
    let mut i: usize = 0;
    while i < s.len()
        invariant
            i <= s.len(),
            out@ == collisions(*q, s@.take(i as int)),
        decreases s.len() - i,
    {
        let c = clip_range(q, &s[i]);
        proof {
            assert(s@.take(i + 1).drop_last() == s@.take(i as int));
            assert(s@.take(i + 1).last() == s@[i as int]);
        }
        if c.start < c.end {
            out.push(c);
        }
        i += 1;
    }
    proof {
        assert(s@.take(s.len() as int) == s@);
    }
    out
}

/// What of `q` the ranges of `c` leave free.
pub fn find_gaps(q: &Range<u64>, c: &[Range<u64>]) -> (out: Vec<Range<u64>>)
    ensures
        out@ == complement(*q, c@),
{
    let mut out: Vec<Range<u64>> = Vec::new();
    let mut from: u64 = q.start;
    let mut i: usize = 0;
    proof {
        assert(c@.skip(0) == c@);
        assert(out@ + gaps(from, q.end, c@) == gaps(from, q.end, c@));
    }
    while i < c.len()
        invariant
            i <= c.len(),
            out@ + gaps(from, q.end, c@.skip(i as int)) == complement(*q, c@),
        decreases c.len() - i,
    {
        proof {
            assert(c@.skip(i as int)[0] == c@[i as int]);
            assert(c@.skip(i as int).skip(1) == c@.skip(i + 1));
            let head = if from < c@[i as int].start {
                seq![Range { start: from, end: c@[i as int].start }]
            } else {
                Seq::empty()
            };
            assert(out@ + (head + gaps(c@[i as int].end, q.end, c@.skip(i + 1))) == (out@ + head)
                + gaps(c@[i as int].end, q.end, c@.skip(i + 1)));
        }
        if from < c[i].start {
            out.push(from..c[i].start);
        }
        from = c[i].end;
        i += 1;
    }
    if from < q.end {
        out.push(from..q.end);
    }
    proof {
        assert(c@.skip(c.len() as int).len() == 0);
    }
    out
}

} // verus!
