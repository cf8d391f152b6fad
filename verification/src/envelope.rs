//! Envelopes: boxes of longitude and latitude, and how a batch of them becomes one query.
use crate::number::{a_ratio_is_encoded, a_sum_is_rounded_past_no_number, Real, IMPLICIT};
use vstd::arithmetic::power2::*;
use vstd::prelude::*;

verus! {

/// A box of longitude and latitude, in degrees.
#[derive(Clone, Copy, Debug, PartialEq, Eq, Structural)]
pub struct Envelope {
    pub west: Real,
    pub south: Real,
    pub east: Real,
    pub north: Real,
}

/// The encoding of a millionth of a degree.
pub const MICRODEGREE: u64 = 0x3eb0_c6f7_a0b5_ed8d;

/// The encoding of five degrees.
pub const FIVE_DEGREES: u64 = 0x4014_0000_0000_0000;

/// Whether the two boxes have a point in common.
pub open spec fn overlap(a: Envelope, b: Envelope) -> bool {
    &&& a.west.is_le(b.east)
    &&& b.west.is_le(a.east)
    &&& a.south.is_le(b.north)
    &&& b.south.is_le(a.north)
}

/// The smallest box that covers both.
pub open spec fn hull(a: Envelope, b: Envelope) -> Envelope {
    Envelope {
        west: a.west.smaller(b.west),
        south: a.south.smaller(b.south),
        east: a.east.larger(b.east),
        north: a.north.larger(b.north),
    }
}

/// Whether `a` lies inside `b`.
pub open spec fn inside(a: Envelope, b: Envelope) -> bool {
    &&& b.west.is_le(a.west)
    &&& a.east.is_le(b.east)
    &&& b.south.is_le(a.south)
    &&& a.north.is_le(b.north)
}

/// Whether all four bounds are numbers.
pub open spec fn bounded(e: Envelope) -> bool {
    &&& !e.west.is_nan()
    &&& !e.south.is_nan()
    &&& !e.east.is_nan()
    &&& !e.north.is_nan()
}

/// A box with an extent in both directions: where an envelope has none, a millionth of a degree is
/// added on either side.
pub open spec fn widened(b: Envelope) -> Envelope {
    let micro = Real { bits: MICRODEGREE };
    let flat_x = b.east.is_le(b.west);
    let flat_y = b.north.is_le(b.south);
    Envelope {
        west: if flat_x {
            b.west.sum(micro.negated())
        } else {
            b.west
        },
        south: if flat_y {
            b.south.sum(micro.negated())
        } else {
            b.south
        },
        east: if flat_x {
            b.east.sum(micro)
        } else {
            b.east
        },
        north: if flat_y {
            b.north.sum(micro)
        } else {
            b.north
        },
    }
}

/// Whether a box is narrower than five degrees, as every real tile is.
pub open spec fn narrow(b: Envelope) -> bool {
    b.east.sum(b.west.negated()).is_lt(Real { bits: FIVE_DEGREES })
}

/// One pass of `cur` over the boxes, from the first to the last: it takes up each one that it
/// meets and grows by it. What remains is the grown box and the boxes it did not meet.
pub open spec fn pass(cur: Envelope, boxes: Seq<Envelope>) -> (Envelope, Seq<Envelope>)
    decreases boxes.len(),
{
    if boxes.len() == 0 {
        (cur, Seq::empty())
    } else {
        let (c, kept) = pass(cur, boxes.drop_last());
        if overlap(c, boxes.last()) {
            (hull(c, boxes.last()), kept)
        } else {
            (c, kept.push(boxes.last()))
        }
    }
}

/// The boxes with `cur` among them, after it has taken up every one that it meets, however it
/// comes to meet it.
pub open spec fn settled(cur: Envelope, boxes: Seq<Envelope>) -> Seq<Envelope>
    decreases boxes.len(),
{
    let (c, kept) = pass(cur, boxes);
    if kept.len() >= boxes.len() {
        boxes.push(cur)
    } else {
        settled(c, kept)
    }
}

/// The envelopes of `area`, with every two that meet merged into the box covering both,
/// transitively.
pub open spec fn merged(area: Seq<Envelope>) -> Seq<Envelope>
    decreases area.len(),
{
    if area.len() == 0 {
        Seq::empty()
    } else {
        settled(area.last(), merged(area.drop_last()))
    }
}

/// Whether the two boxes have a point in common.
pub fn overlaps(a: Envelope, b: Envelope) -> (r: bool)
    ensures
        r == overlap(a, b),
{
    a.west.le(b.east) && b.west.le(a.east) && a.south.le(b.north) && b.south.le(a.north)
}

/// The smallest box that covers both.
pub fn cover(a: Envelope, b: Envelope) -> (r: Envelope)
    ensures
        r == hull(a, b),
{
    Envelope {
        west: a.west.min(b.west),
        south: a.south.min(b.south),
        east: a.east.max(b.east),
        north: a.north.max(b.north),
    }
}

/// Gives a flat envelope an extent. The catalogue rejects a query without one, and a point of
/// interest has none.
pub fn widen(b: Envelope) -> (r: Envelope)
    ensures
        r == widened(b),
{
    let micro = Real { bits: MICRODEGREE };
    let mut q = b;
    if b.east.le(b.west) {
        q.west = b.west.minus(micro);
        q.east = b.east.plus(micro);
    }
    if b.north.le(b.south) {
        q.south = b.south.minus(micro);
        q.north = b.north.plus(micro);
    }
    q
}

/// The envelopes of an area, each with an extent.
pub open spec fn widened_all(area: Seq<Envelope>) -> Seq<Envelope> {
    area.map_values(|b: Envelope| widened(b))
}

/// Gives each envelope of an area an extent.
pub fn widen_all(area: &Vec<Envelope>) -> (r: Vec<Envelope>)
    ensures
        r@ == widened_all(area@),
{
    let mut q: Vec<Envelope> = Vec::new();
    for i in 0..area.len()
        invariant
            q@ =~= widened_all(area@).take(i as int),
    {
        q.push(widen(area[i]));
    }
    proof {
        assert(widened_all(area@).take(area@.len() as int) =~= widened_all(area@));
    }
    q
}

/// Whether a box is narrower than five degrees.
pub fn is_narrow(b: Envelope) -> (r: bool)
    ensures
        r == narrow(b),
{
    b.east.minus(b.west).lt(Real { bits: FIVE_DEGREES })
}

/// Merges every envelope that meets another into the box covering both, transitively. The parts
/// of a query must not overlap, and neighbouring areas overlap all the time.
pub fn disjoint(area: &Vec<Envelope>) -> (r: Vec<Envelope>)
    ensures
        r@ == merged(area@),
{
    let mut out: Vec<Envelope> = Vec::new();
    let mut i: usize = 0;
    assert(area@.take(0) =~= Seq::empty());
    while i < area.len()
        invariant
            i <= area@.len(),
            out@ == merged(area@.take(i as int)),
        decreases area@.len() - i,
    {
        let cur = area[i];
        assert(area@.take(i + 1).drop_last() =~= area@.take(i as int));
        out = settle(cur, out);
        i += 1;
    }
    assert(area@.take(area@.len() as int) =~= area@);
    out
}

/// Adds `cur` to boxes, merging it with those that it meets.
fn settle(cur: Envelope, boxes: Vec<Envelope>) -> (r: Vec<Envelope>)
    ensures
        r@ == settled(cur, boxes@),
    decreases boxes@.len(),
{
    let mut grown = cur;
    let mut keep: Vec<Envelope> = Vec::new();
    let mut j: usize = 0;
    assert(boxes@.take(0) =~= Seq::empty());
    while j < boxes.len()
        invariant
            j <= boxes@.len(),
            (grown, keep@) == pass(cur, boxes@.take(j as int)),
            keep@.len() <= j,
        decreases boxes@.len() - j,
    {
        assert(boxes@.take(j + 1).drop_last() =~= boxes@.take(j as int));
        if overlaps(grown, boxes[j]) {
            grown = cover(grown, boxes[j]);
        } else {
            keep.push(boxes[j]);
        }
        j += 1;
    }
    assert(boxes@.take(boxes@.len() as int) =~= boxes@);
    if keep.len() >= boxes.len() {
        let mut out = boxes;
        out.push(cur);
        out
    } else {
        settle(grown, keep)
    }
}

/// No two of the boxes have a point in common.
pub open spec fn apart(boxes: Seq<Envelope>) -> bool {
    forall|i: int, j: int|
        0 <= i < j < boxes.len() ==> !overlap(#[trigger] boxes[i], #[trigger] boxes[j])
}

/// `e` lies inside one of the boxes.
pub open spec fn held(e: Envelope, boxes: Seq<Envelope>) -> bool {
    exists|i: int| 0 <= i < boxes.len() && inside(e, #[trigger] boxes[i])
}

pub open spec fn all_bounded(boxes: Seq<Envelope>) -> bool {
    forall|i: int| 0 <= i < boxes.len() ==> bounded(#[trigger] boxes[i])
}

/// Every one of `some` lies inside one of `boxes`.
pub open spec fn all_held(some: Seq<Envelope>, boxes: Seq<Envelope>) -> bool {
    forall|i: int| 0 <= i < some.len() ==> held(#[trigger] some[i], boxes)
}

proof fn lemma_pass(cur: Envelope, boxes: Seq<Envelope>)
    ensures
        pass(cur, boxes).1.len() <= boxes.len(),
        forall|k: int|
            0 <= k < pass(cur, boxes).1.len() ==> boxes.contains(#[trigger] pass(cur, boxes).1[k]),
        apart(boxes) ==> apart(pass(cur, boxes).1),
        pass(cur, boxes).1.len() == boxes.len() ==> {
            &&& pass(cur, boxes) == (cur, boxes)
            &&& forall|i: int| 0 <= i < boxes.len() ==> !overlap(cur, #[trigger] boxes[i])
        },
    decreases boxes.len(),
{
    if boxes.len() > 0 {
        let front = boxes.drop_last();
        lemma_pass(cur, front);
        let kept = pass(cur, front).1;
        let all = pass(cur, boxes).1;
        assert forall|k: int| 0 <= k < all.len() implies boxes.contains(#[trigger] all[k]) by {
            if k < kept.len() {
                assert(front.contains(kept[k]));
                let i = choose|i: int| 0 <= i < front.len() && front[i] == kept[k];
                assert(boxes[i] == all[k]);
            } else {
                assert(boxes[boxes.len() - 1] == all[k]);
            }
        }
        if apart(boxes) {
            assert(apart(front));
            assert forall|i: int, j: int| 0 <= i < j < all.len() implies !overlap(
                #[trigger] all[i],
                #[trigger] all[j],
            ) by {
                if j >= kept.len() {
                    assert(front.contains(kept[i]));
                    let n = choose|n: int| 0 <= n < front.len() && front[n] == kept[i];
                    assert(!overlap(boxes[n], boxes[boxes.len() - 1]));
                }
            }
        }
        if all.len() == boxes.len() {
            assert(all =~= boxes);
            assert forall|i: int| 0 <= i < boxes.len() implies !overlap(
                cur,
                #[trigger] boxes[i],
            ) by {
                if i < front.len() {
                    assert(!overlap(cur, front[i]));
                }
            }
        }
    }
}

proof fn lemma_settled_apart(cur: Envelope, boxes: Seq<Envelope>)
    requires
        apart(boxes),
    ensures
        apart(settled(cur, boxes)),
    decreases boxes.len(),
{
    lemma_pass(cur, boxes);
    let (c, kept) = pass(cur, boxes);
    if kept.len() < boxes.len() {
        lemma_settled_apart(c, kept);
    }
}

/// However the envelopes of a batch overlap, the parts that they are merged into do not.
pub proof fn merged_parts_do_not_overlap(area: Seq<Envelope>)
    ensures
        apart(merged(area)),
    decreases area.len(),
{
    if area.len() > 0 {
        merged_parts_do_not_overlap(area.drop_last());
        lemma_settled_apart(area.last(), merged(area.drop_last()));
    }
}

proof fn lemma_pass_holds(cur: Envelope, boxes: Seq<Envelope>)
    requires
        bounded(cur),
        all_bounded(boxes),
    ensures
        bounded(pass(cur, boxes).0),
        all_bounded(pass(cur, boxes).1),
        inside(cur, pass(cur, boxes).0),
        forall|i: int|
            0 <= i < boxes.len() ==> inside(#[trigger] boxes[i], pass(cur, boxes).0) || held(
                boxes[i],
                pass(cur, boxes).1,
            ),
    decreases boxes.len(),
{
    if boxes.len() > 0 {
        let front = boxes.drop_last();
        lemma_pass_holds(cur, front);
        let (c, kept) = pass(cur, front);
        let (d, all) = pass(cur, boxes);
        assert forall|i: int| 0 <= i < boxes.len() implies inside(#[trigger] boxes[i], d) || held(
            boxes[i],
            all,
        ) by {
            if i < front.len() {
                assert(front[i] == boxes[i]);
                if !inside(front[i], c) {
                    let k = choose|k: int| 0 <= k < kept.len() && inside(front[i], #[trigger] kept[k]);
                    assert(all[k] == kept[k]);
                }
            } else if !overlap(c, boxes.last()) {
                assert(all[kept.len() as int] == boxes[i]);
                assert(inside(boxes[i], boxes[i]));
            }
        }
    }
}

proof fn lemma_settled_holds(cur: Envelope, boxes: Seq<Envelope>)
    requires
        bounded(cur),
        all_bounded(boxes),
    ensures
        all_bounded(settled(cur, boxes)),
        held(cur, settled(cur, boxes)),
        all_held(boxes, settled(cur, boxes)),
    decreases boxes.len(),
{
    lemma_pass(cur, boxes);
    lemma_pass_holds(cur, boxes);
    let (c, kept) = pass(cur, boxes);
    let all = settled(cur, boxes);
    if kept.len() >= boxes.len() {
        assert(all[boxes.len() as int] == cur);
        assert(inside(cur, cur));
        assert forall|i: int| 0 <= i < boxes.len() implies held(#[trigger] boxes[i], all) by {
            assert(all[i] == boxes[i]);
            assert(inside(boxes[i], boxes[i]));
        }
    } else {
        lemma_settled_holds(c, kept);
        let n = choose|n: int| 0 <= n < all.len() && inside(c, #[trigger] all[n]);
        assert(inside(cur, all[n]));
        assert forall|i: int| 0 <= i < boxes.len() implies held(#[trigger] boxes[i], all) by {
            if inside(boxes[i], c) {
                assert(inside(boxes[i], all[n]));
            } else {
                let k = choose|k: int| 0 <= k < kept.len() && inside(boxes[i], #[trigger] kept[k]);
                assert(held(kept[k], all));
                let m = choose|m: int| 0 <= m < all.len() && inside(kept[k], #[trigger] all[m]);
                assert(inside(boxes[i], all[m]));
            }
        }
    }
}

/// The parts ask for a superset of what the batch wanted: every envelope lies inside one of them.
pub proof fn merged_parts_cover_the_area(area: Seq<Envelope>)
    requires
        all_bounded(area),
    ensures
        all_bounded(merged(area)),
        all_held(area, merged(area)),
    decreases area.len(),
{
    if area.len() > 0 {
        let front = area.drop_last();
        let inner = merged(front);
        let all = merged(area);
        merged_parts_cover_the_area(front);
        lemma_settled_holds(area.last(), inner);
        assert forall|i: int| 0 <= i < area.len() implies held(#[trigger] area[i], all) by {
            if i < front.len() {
                assert(held(front[i], inner));
                let k = choose|k: int| 0 <= k < inner.len() && inside(front[i], #[trigger] inner[k]);
                assert(held(inner[k], all));
                let m = choose|m: int| 0 <= m < all.len() && inside(inner[k], #[trigger] all[m]);
                assert(inside(area[i], all[m]));
            }
        }
    }
}

proof fn lemma_pass_finest(cur: Envelope, boxes: Seq<Envelope>, other: Seq<Envelope>)
    requires
        bounded(cur),
        all_bounded(boxes),
        apart(other),
        held(cur, other),
        all_held(boxes, other),
    ensures
        held(pass(cur, boxes).0, other),
        all_held(pass(cur, boxes).1, other),
    decreases boxes.len(),
{
    if boxes.len() > 0 {
        let front = boxes.drop_last();
        assert forall|i: int| 0 <= i < front.len() implies held(#[trigger] front[i], other) by {
            assert(front[i] == boxes[i]);
        }
        lemma_pass_finest(cur, front, other);
        let c = pass(cur, front).0;
        let b = boxes[boxes.len() - 1];
        assert(held(b, other));
        if overlap(c, b) {
            let m = choose|m: int| 0 <= m < other.len() && inside(c, #[trigger] other[m]);
            let n = choose|n: int| 0 <= n < other.len() && inside(b, #[trigger] other[n]);
            assert(overlap(other[m], other[n]));
            assert(overlap(other[n], other[m]));
            assert(m == n);
            assert(inside(hull(c, b), other[m]));
        }
    }
}

proof fn lemma_settled_finest(cur: Envelope, boxes: Seq<Envelope>, other: Seq<Envelope>)
    requires
        bounded(cur),
        all_bounded(boxes),
        apart(other),
        held(cur, other),
        all_held(boxes, other),
    ensures
        all_held(settled(cur, boxes), other),
    decreases boxes.len(),
{
    lemma_pass(cur, boxes);
    lemma_pass_holds(cur, boxes);
    lemma_pass_finest(cur, boxes, other);
    let (c, kept) = pass(cur, boxes);
    if kept.len() < boxes.len() {
        lemma_settled_finest(c, kept, other);
    }
}

/// Nothing is merged that could stay apart: of all the ways to cover the batch by boxes that do
/// not overlap, the parts are the finest.
pub proof fn merged_parts_are_the_finest(area: Seq<Envelope>, other: Seq<Envelope>)
    requires
        all_bounded(area),
        apart(other),
        all_held(area, other),
    ensures
        all_held(merged(area), other),
    decreases area.len(),
{
    if area.len() > 0 {
        let front = area.drop_last();
        assert forall|i: int| 0 <= i < front.len() implies held(#[trigger] front[i], other) by {
            assert(front[i] == area[i]);
        }
        assert(held(area[area.len() - 1], other));
        merged_parts_are_the_finest(front, other);
        merged_parts_cover_the_area(front);
        lemma_settled_finest(area.last(), merged(front), other);
    }
}

/// Widening never loses a point: the envelope lies inside the widened one.
pub proof fn widened_holds_the_envelope(b: Envelope)
    requires
        b.west.is_finite(),
        b.south.is_finite(),
        b.east.is_finite(),
        b.north.is_finite(),
    ensures
        inside(b, widened(b)),
{
    let micro = Real { bits: MICRODEGREE };
    crate::number::sum_keeps_direction(b.west, micro.negated());
    crate::number::sum_keeps_direction(b.south, micro.negated());
    crate::number::sum_keeps_direction(b.east, micro);
    crate::number::sum_keeps_direction(b.north, micro);
}

/// The encoding of a full turn, in degrees.
pub const FULL_TURN: u64 = 0x4076_8000_0000_0000;

/// A point on the globe, taken as an envelope, is widened to a box that has an extent: the
/// catalogue accepts it, and any tile over the point meets it.
pub proof fn widened_point_has_an_extent(b: Envelope)
    requires
        b.west == b.east,
        b.south == b.north,
        b.west.mag() <= FULL_TURN,
        b.south.mag() <= FULL_TURN,
    ensures
        widened(b).west.is_lt(widened(b).east),
        widened(b).south.is_lt(widened(b).north),
        forall|tile: Envelope| inside(b, tile) ==> #[trigger] overlap(tile, widened(b)),
{
    let micro = Real { bits: MICRODEGREE };
    lemma_microdegree();
    crate::number::sum_moves(b.west, micro, 1031);
    crate::number::sum_moves(b.south, micro, 1031);
}

proof fn lemma_microdegree()
    ensures
        (Real { bits: MICRODEGREE }).units() >= pow2(1031),
{
    let m = MICRODEGREE as nat;
    assert(m / IMPLICIT as nat == 1003);
    lemma_pow2_strictly_increases(29, 1031);
    lemma_pow2_adds(29, 1002);
    lemma2_to64();
    let p = pow2(1002);
    let f = (IMPLICIT + m % IMPLICIT as nat) as nat;
    assert(f * p >= pow2(29) * p) by (nonlinear_arith)
        requires
            f >= pow2(29),
            p >= 0,
    ;
}

/// Whether a box holds a point.
pub open spec fn holds(e: Envelope, x: Real, y: Real) -> bool {
    &&& e.west.is_le(x) && x.is_le(e.east)
    &&& e.south.is_le(y) && y.is_le(e.north)
}

/// Whether a box has its west in the west and its south in the south, so that it holds a point.
pub open spec fn is_box(e: Envelope) -> bool {
    e.west.is_le(e.east) && e.south.is_le(e.north)
}

/// Two boxes overlap just where some point is in both of them.
pub proof fn boxes_overlap_where_they_share_a_point(a: Envelope, b: Envelope)
    requires
        is_box(a),
        is_box(b),
    ensures
        overlap(a, b) <==> exists|x: Real, y: Real| #[trigger] holds(a, x, y) && holds(b, x, y),
{
    let x = a.west.larger(b.west);
    let y = a.south.larger(b.south);
    if overlap(a, b) {
        assert(holds(a, x, y) && holds(b, x, y));
    }
}

/// A box lies inside another one just where all of its points do.
pub proof fn a_box_lies_inside_where_its_points_do(a: Envelope, b: Envelope)
    requires
        is_box(a),
    ensures
        inside(a, b) <==> forall|x: Real, y: Real| #[trigger] holds(a, x, y) ==> holds(b, x, y),
{
    assert(holds(a, a.west, a.south));
    assert(holds(a, a.east, a.north));
}

/// The cover of two boxes is the smallest box that holds what either of them holds.
pub proof fn a_cover_is_the_smallest_box_around_both(a: Envelope, b: Envelope, c: Envelope)
    requires
        bounded(a),
        bounded(b),
    ensures
        inside(a, hull(a, b)),
        inside(b, hull(a, b)),
        inside(a, c) && inside(b, c) ==> inside(hull(a, b), c),
        forall|x: Real, y: Real|
            holds(a, x, y) || holds(b, x, y) ==> #[trigger] holds(hull(a, b), x, y),
{
}

/// A tile is narrower than five degrees, and no box that spans five degrees is one.
pub proof fn a_tile_spans_less_than_five_degrees(b: Envelope)
    ensures
        narrow(b) <==> b.east.sum(b.west.negated()).is_lt(Real::of_count(5)),
        b.west.is_finite() && b.east.is_finite() && narrow(b) ==> b.east.units() - b.west.units()
            < Real::of_count(5).units(),
{
    lemma2_to64();
    lemma2_to64_rest();
    lemma_pow2_strictly_increases(6, 1024);
    a_ratio_is_encoded(5, 1, Real { bits: FIVE_DEGREES }, 1024, 50);
    if b.west.is_finite() && b.east.is_finite() {
        a_sum_is_rounded_past_no_number(b.east, b.west.negated(), Real { bits: FIVE_DEGREES });
    }
}

/// A box that has an extent in a direction is left alone there, and one that has none is widened by
/// a millionth of a degree on either side.
pub proof fn only_a_flat_box_is_widened(b: Envelope)
    requires
        bounded(b),
    ensures
        b.west.is_lt(b.east) ==> widened(b).west == b.west && widened(b).east == b.east,
        b.south.is_lt(b.north) ==> widened(b).south == b.south && widened(b).north == b.north,
        !b.west.is_lt(b.east) ==> {
            &&& widened(b).west == b.west.sum(Real::of_ratio(1, 1_000_000).negated())
            &&& widened(b).east == b.east.sum(Real::of_ratio(1, 1_000_000))
        },
        !b.south.is_lt(b.north) ==> {
            &&& widened(b).south == b.south.sum(Real::of_ratio(1, 1_000_000).negated())
            &&& widened(b).north == b.north.sum(Real::of_ratio(1, 1_000_000))
        },
{
    lemma2_to64();
    lemma2_to64_rest();
    lemma_pow2_adds(64, 8);
    lemma_pow2_strictly_increases(21, 1002);
    assert(pow2(72) == 0x100_0000_0000_0000_0000);
    a_ratio_is_encoded(1, 1_000_000, Real { bits: MICRODEGREE }, 1002, 72);
}

} // verus!
