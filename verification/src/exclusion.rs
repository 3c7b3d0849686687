//! Exclusion Zone computation: Obstruction outlines -> buffered, wall-clipped
//! Exclusion Zones, all in metric wall coordinates.
//!
//! An Exclusion Zone is the outline inflated by its buffer on all four sides,
//! then clipped to the confirmed Wall bounds: wall material stops at the edges
//! and at the Floor Line, so no zone can claim space outside the Wall.
//!
//! Coordinate frame: the wall plane in millimetres, y growing DOWNWARD, so the
//! Floor Line is the wall rectangle's LARGEST y (its `bottom`).
//!
//! Two Obstructions whose buffered zones overlap are returned as two separate
//! rectangles, not unioned into a polygon: a point is excluded iff it is inside
//! ANY zone, for which separate rectangles and their union are equivalent.
use vstd::prelude::*;

use crate::double;
use crate::double::Double;

verus! {

/// An axis-aligned rectangle on the wall plane, millimetres, y down.
/// `right > left` and `bottom > top` for a rectangle with area; anything else
/// is empty.
#[derive(Clone, Copy, Debug, PartialEq, Eq, Structural)]
pub struct RectMm {
    pub left: Double,
    pub top: Double,
    pub right: Double,
    pub bottom: Double,
}

impl RectMm {
    pub open spec fn has_area(self) -> bool {
        self.left.less(self.right) && self.top.less(self.bottom)
    }

    pub open spec fn finite(self) -> bool {
        self.left.finite() && self.top.finite() && self.right.finite() && self.bottom.finite()
    }

    /// Every side moved outward by `by`.
    pub open spec fn inflated(self, by: Double) -> RectMm {
        RectMm {
            left: double::difference(self.left, by),
            top: double::difference(self.top, by),
            right: double::sum(self.right, by),
            bottom: double::sum(self.bottom, by),
        }
    }

    /// What `self` and `other` have in common.
    pub open spec fn common(self, other: RectMm) -> RectMm {
        RectMm {
            left: double::larger(self.left, other.left),
            top: double::larger(self.top, other.top),
            right: double::smaller(self.right, other.right),
            bottom: double::smaller(self.bottom, other.bottom),
        }
    }

    /// Every point of `self` is a point of `other`.
    pub open spec fn within(self, other: RectMm) -> bool {
        &&& other.left.value() <= self.left.value()
        &&& other.top.value() <= self.top.value()
        &&& self.right.value() <= other.right.value()
        &&& self.bottom.value() <= other.bottom.value()
    }

    pub fn new(left: Double, top: Double, right: Double, bottom: Double) -> (r: RectMm)
        ensures
            r == (RectMm { left, top, right, bottom }),
    {
        RectMm { left, top, right, bottom }
    }

    /// True when the rectangle has no area (degenerate or inverted).
    pub fn is_empty(&self) -> (r: bool)
        ensures
            r == !self.has_area(),
    {
        !(self.left.lt(&self.right) && self.top.lt(&self.bottom))
    }

    /// All four coordinates are finite numbers.
    pub fn is_finite(&self) -> (r: bool)
        ensures
            r == self.finite(),
    {
        self.left.is_finite() && self.top.is_finite() && self.right.is_finite()
            && self.bottom.is_finite()
    }

    /// Grow (positive `by`) every side outward by `by` millimetres.
    fn inflate(&self, by: &Double) -> (r: RectMm)
        ensures
            r == self.inflated(*by),
    {
        RectMm {
            left: self.left.minus(by),
            top: self.top.minus(by),
            right: self.right.plus(by),
            bottom: self.bottom.plus(by),
        }
    }

    /// Intersection with `other`; may be empty (checked by the caller).
    fn intersect(&self, other: &RectMm) -> (r: RectMm)
        ensures
            r == self.common(*other),
    {
        RectMm {
            left: self.left.max(&other.left),
            top: self.top.max(&other.top),
            right: self.right.min(&other.right),
            bottom: self.bottom.min(&other.bottom),
        }
    }
}

/// The outline inflated by the buffer, clipped to the wall.
pub open spec fn zone_of(outline: RectMm, buffer: Double, wall: RectMm) -> RectMm {
    outline.inflated(buffer).common(wall)
}

/// One Obstruction's Exclusion Zone: the outline inflated by `buffer_mm` on
/// all four sides, clipped to the Wall bounds (`wall.bottom` is the Floor
/// Line). `None` when the inflated outline does not overlap the Wall at all.
pub fn exclusion_zone(outline: &RectMm, buffer_mm: Double, wall: &RectMm) -> (zone: Option<RectMm>)
    ensures
        zone == (if zone_of(*outline, buffer_mm, *wall).has_area() {
            Some(zone_of(*outline, buffer_mm, *wall))
        } else {
            None::<RectMm>
        }),
{
    let zone: RectMm = outline.inflate(&buffer_mm).intersect(wall);
    if zone.is_empty() {
        None
    } else {
        Some(zone)
    }
}

/// Batch form: one zone per Obstruction, same order, and all or nothing.
pub fn exclusion_zones(outlines: &[RectMm], buffers_mm: &[Double], wall: &RectMm) -> (zones: Option<
    Vec<RectMm>,
>)
    requires
        outlines@.len() == buffers_mm@.len(),
    ensures
        zones is Some <==> forall|i: int|
            0 <= i < outlines@.len() ==> (#[trigger] zone_of(
                outlines@[i],
                buffers_mm@[i],
                *wall,
            )).has_area(),
        zones matches Some(list) ==> list@ == Seq::new(
            outlines@.len(),
            |i: int| zone_of(outlines@[i], buffers_mm@[i], *wall),
        ),
{
    let mut list: Vec<RectMm> = Vec::new();
    let mut i: usize = 0;
    while i < outlines.len()
        invariant
            i <= outlines@.len(),
            outlines@.len() == buffers_mm@.len(),
            list@ == Seq::new(
                i as nat,
                |k: int| zone_of(outlines@[k], buffers_mm@[k], *wall),
            ),
            forall|k: int|
                0 <= k < i ==> (#[trigger] zone_of(
                    outlines@[k],
                    buffers_mm@[k],
                    *wall,
                )).has_area(),
        decreases outlines@.len() - i,
    {
        match exclusion_zone(&outlines[i], buffers_mm[i], wall) {
            Some(zone) => {
                list.push(zone);
            },
            None => {
                assert(!zone_of(outlines@[i as int], buffers_mm@[i as int], *wall).has_area());
                return None;
            },
        }
        i = i + 1;
        assert(list@ =~= Seq::new(
            i as nat,
            |k: int| zone_of(outlines@[k], buffers_mm@[k], *wall),
        ));
    }
    Some(list)
}

/// The rectangle in entries `4 i .. 4 i + 4` of a flat list.
pub open spec fn rect_at(flat: Seq<Double>, i: int) -> RectMm {
    RectMm {
        left: flat[4 * i],
        top: flat[4 * i + 1],
        right: flat[4 * i + 2],
        bottom: flat[4 * i + 3],
    }
}

/// One buffer and four outline values per obstruction.
pub open spec fn lengths_match(outlines_mm: Seq<Double>, buffers_mm: Seq<Double>) -> bool {
    outlines_mm.len() == 4 * buffers_mm.len()
}

pub open spec fn is_wall(wall_mm: Seq<Double>) -> bool {
    rect_at(wall_mm, 0).finite() && rect_at(wall_mm, 0).has_area()
}

pub open spec fn are_outlines(outlines_mm: Seq<Double>, n: int) -> bool {
    forall|i: int|
        0 <= i < n ==> (#[trigger] rect_at(outlines_mm, i)).finite() && rect_at(
            outlines_mm,
            i,
        ).has_area()
}

pub open spec fn is_buffer(b: Double) -> bool {
    b.finite() && b.value() >= 0
}

pub open spec fn are_buffers(buffers_mm: Seq<Double>) -> bool {
    forall|i: int| 0 <= i < buffers_mm.len() ==> is_buffer(#[trigger] buffers_mm[i])
}

/// Zone `i` of a flat request.
pub open spec fn flat_zone(
    outlines_mm: Seq<Double>,
    buffers_mm: Seq<Double>,
    wall_mm: Seq<Double>,
    i: int,
) -> RectMm {
    zone_of(rect_at(outlines_mm, i), buffers_mm[i], rect_at(wall_mm, 0))
}

pub open spec fn all_on_wall(
    outlines_mm: Seq<Double>,
    buffers_mm: Seq<Double>,
    wall_mm: Seq<Double>,
) -> bool {
    forall|i: int|
        0 <= i < buffers_mm.len() ==> (#[trigger] flat_zone(
            outlines_mm,
            buffers_mm,
            wall_mm,
            i,
        )).has_area()
}

/// Why a flat request is refused, if it is.
pub open spec fn refusal(
    outlines_mm: Seq<Double>,
    buffers_mm: Seq<Double>,
    wall_mm: Seq<Double>,
) -> Option<Seq<char>> {
    if !lengths_match(outlines_mm, buffers_mm) {
        Some("outlines_mm must hold 4 values per obstruction and match buffers_mm"@)
    } else if wall_mm.len() != 4 {
        Some("wall_mm must be [left, top, right, floor]"@)
    } else if !is_wall(wall_mm) {
        Some("wall bounds are degenerate or non-finite"@)
    } else if !are_outlines(outlines_mm, buffers_mm.len() as int) {
        Some("an obstruction outline is degenerate or non-finite"@)
    } else if !are_buffers(buffers_mm) {
        Some("buffers must be finite and non-negative"@)
    } else if !all_on_wall(outlines_mm, buffers_mm, wall_mm) {
        Some("an obstruction outline lies entirely outside the wall bounds"@)
    } else {
        None
    }
}

fn rect_from(flat: &[Double], i: usize) -> (r: RectMm)
    requires
        4 * i + 3 < flat@.len(),
    ensures
        r == rect_at(flat@, i as int),
{
    assert(flat@.len() == flat.len());
    RectMm {
        left: flat[4 * i],
        top: flat[4 * i + 1],
        right: flat[4 * i + 2],
        bottom: flat[4 * i + 3],
    }
}

/// Flat-array form behind the capture page's API: validates everything the
/// page could get wrong and errors instead of guessing.
///
/// * `outlines_mm`: 4 values per Obstruction, `[left, top, right, bottom]`.
/// * `buffers_mm`: one buffer per Obstruction, finite and non-negative.
/// * `wall_mm`: `[left, top, right, floor]`, finite, with area.
///
/// Returns 4 values per zone in the same order as the input.
pub fn exclusion_zones_flat(
    outlines_mm: &[Double],
    buffers_mm: &[Double],
    wall_mm: &[Double],
) -> (result: Result<Vec<Double>, &'static str>)
    ensures
        result matches Ok(flat) ==> {
            &&& refusal(outlines_mm@, buffers_mm@, wall_mm@) is None
            &&& flat@.len() == 4 * buffers_mm@.len()
            &&& forall|i: int|
                0 <= i < buffers_mm@.len() ==> #[trigger] rect_at(flat@, i) == flat_zone(
                    outlines_mm@,
                    buffers_mm@,
                    wall_mm@,
                    i,
                )
        },
        result matches Err(message) ==> refusal(outlines_mm@, buffers_mm@, wall_mm@) == Some(
            message@,
        ),
{
    let n: usize = buffers_mm.len();
    if outlines_mm.len() % 4 != 0 || outlines_mm.len() / 4 != n {
        return Err("outlines_mm must hold 4 values per obstruction and match buffers_mm");
    }
    if wall_mm.len() != 4 {
        return Err("wall_mm must be [left, top, right, floor]");
    }
    let wall: RectMm = rect_from(wall_mm, 0);
    if !wall.is_finite() || wall.is_empty() {
        return Err("wall bounds are degenerate or non-finite");
    }
    let mut outlines: Vec<RectMm> = Vec::new();
    let mut i: usize = 0;
    while i < n
        invariant
            i <= n,
            n == buffers_mm@.len(),
            outlines_mm@.len() == 4 * n,
            outlines@ == Seq::new(i as nat, |k: int| rect_at(outlines_mm@, k)),
        decreases n - i,
    {
        outlines.push(rect_from(outlines_mm, i));
        i = i + 1;
        assert(outlines@ =~= Seq::new(i as nat, |k: int| rect_at(outlines_mm@, k)));
    }
    i = 0;
    while i < n
        invariant
            i <= n,
            n == buffers_mm@.len(),
            lengths_match(outlines_mm@, buffers_mm@),
            wall_mm@.len() == 4,
            is_wall(wall_mm@),
            outlines@ == Seq::new(n as nat, |k: int| rect_at(outlines_mm@, k)),
            are_outlines(outlines_mm@, i as int),
        decreases n - i,
    {
        if !outlines[i].is_finite() || outlines[i].is_empty() {
            assert(outlines@[i as int] == rect_at(outlines_mm@, i as int));
            assert(!are_outlines(outlines_mm@, n as int));
            return Err("an obstruction outline is degenerate or non-finite");
        }
        i = i + 1;
    }
    i = 0;
    while i < n
        invariant
            i <= n,
            n == buffers_mm@.len(),
            lengths_match(outlines_mm@, buffers_mm@),
            wall_mm@.len() == 4,
            is_wall(wall_mm@),
            are_outlines(outlines_mm@, n as int),
            forall|k: int| 0 <= k < i ==> is_buffer(#[trigger] buffers_mm@[k]),
        decreases n - i,
    {
        let zero: Double = Double::from_bits(0);
        assert(zero.value() == 0) by {
            assert(crate::magnitude::units(0) == 0) by (nonlinear_arith);
        }
        if !buffers_mm[i].is_finite() || buffers_mm[i].lt(&zero) {
            assert(!is_buffer(buffers_mm@[i as int]));
            return Err("buffers must be finite and non-negative");
        }
        i = i + 1;
    }
    let zones: Vec<RectMm> = match exclusion_zones(outlines.as_slice(), buffers_mm, &wall) {
        Some(zones) => zones,
        None => {
            proof {
                let k = choose|k: int|
                    0 <= k < outlines@.len() && !(#[trigger] zone_of(
                        outlines@[k],
                        buffers_mm@[k],
                        wall,
                    )).has_area();
                assert(!flat_zone(outlines_mm@, buffers_mm@, wall_mm@, k).has_area());
            }
            return Err("an obstruction outline lies entirely outside the wall bounds");
        },
    };
    proof {
        assert forall|k: int| 0 <= k < n implies (#[trigger] flat_zone(
            outlines_mm@,
            buffers_mm@,
            wall_mm@,
            k,
        )).has_area() by {
            assert(zone_of(outlines@[k], buffers_mm@[k], wall).has_area());
        }
    }
    let mut flat: Vec<Double> = Vec::new();
    i = 0;
    while i < n
        invariant
            i <= n,
            n == zones@.len(),
            flat@.len() == 4 * i,
            forall|k: int| 0 <= k < i ==> #[trigger] rect_at(flat@, k) == zones@[k],
        decreases n - i,
    {
        let ghost before = flat@;
        flat.push(zones[i].left);
        flat.push(zones[i].top);
        flat.push(zones[i].right);
        flat.push(zones[i].bottom);
        proof {
            assert forall|k: int| 0 <= k < i + 1 implies #[trigger] rect_at(flat@, k)
                == zones@[k] by {
                if k < i {
                    assert(rect_at(before, k) == zones@[k]);
                }
            }
        }
        i = i + 1;
    }
    Ok(flat)
}

/// A zone never reaches outside the wall.
pub proof fn law_zone_stays_on_wall(outline: RectMm, buffer: Double, wall: RectMm)
    requires
        outline.finite(),
        buffer.finite(),
        wall.finite(),
    ensures
        zone_of(outline, buffer, wall).within(wall),
{
    double::lemma_finite_sum_is_a_number(outline.left, buffer.opposite());
    double::lemma_finite_sum_is_a_number(outline.top, buffer.opposite());
    double::lemma_finite_sum_is_a_number(outline.right, buffer);
    double::lemma_finite_sum_is_a_number(outline.bottom, buffer);
}

/// A zone covers the part of the outline that is on the wall, so an outline
/// that overlaps the wall always has a zone.
pub proof fn law_zone_covers_outline(outline: RectMm, buffer: Double, wall: RectMm)
    requires
        outline.finite(),
        is_buffer(buffer),
        wall.finite(),
    ensures
        outline.common(wall).within(zone_of(outline, buffer, wall)),
        outline.common(wall).has_area() ==> zone_of(outline, buffer, wall).has_area(),
{
    lemma_inflated_covers(outline, buffer);
}

/// Inflating by a buffer moves no side inward.
proof fn lemma_inflated_covers(outline: RectMm, buffer: Double)
    requires
        outline.finite(),
        is_buffer(buffer),
    ensures
        outline.within(outline.inflated(buffer)),
        !outline.inflated(buffer).left.nan(),
        !outline.inflated(buffer).top.nan(),
        !outline.inflated(buffer).right.nan(),
        !outline.inflated(buffer).bottom.nan(),
{
    let grown = outline.inflated(buffer);
    let back = buffer.opposite();
    double::lemma_opposite_value(buffer);
    double::lemma_sum(outline.left, back);
    double::lemma_sum(outline.top, back);
    double::lemma_sum(outline.right, buffer);
    double::lemma_sum(outline.bottom, buffer);
    double::lemma_sum_at_most(outline.left, back, grown.left, outline.left);
    double::lemma_sum_at_most(outline.top, back, grown.top, outline.top);
    double::lemma_sum_at_least(outline.right, buffer, grown.right, outline.right);
    double::lemma_sum_at_least(outline.bottom, buffer, grown.bottom, outline.bottom);
}

/// Without a buffer the zone is the outline itself, as far as it is on the
/// wall.
pub proof fn law_zero_buffer_zone_is_outline(outline: RectMm, buffer: Double, wall: RectMm)
    requires
        outline.finite(),
        buffer.finite(),
        buffer.value() == 0,
        wall.finite(),
    ensures
        zone_of(outline, buffer, wall).within(outline.common(wall)),
        outline.common(wall).within(zone_of(outline, buffer, wall)),
{
    lemma_inflated_covers(outline, buffer);
    let grown = outline.inflated(buffer);
    let back = buffer.opposite();
    double::lemma_opposite_value(buffer);
    double::lemma_sum(outline.left, back);
    double::lemma_sum(outline.top, back);
    double::lemma_sum(outline.right, buffer);
    double::lemma_sum(outline.bottom, buffer);
    double::lemma_sum_at_least(outline.left, back, grown.left, outline.left);
    double::lemma_sum_at_least(outline.top, back, grown.top, outline.top);
    double::lemma_sum_at_most(outline.right, buffer, grown.right, outline.right);
    double::lemma_sum_at_most(outline.bottom, buffer, grown.bottom, outline.bottom);
}

/// A larger buffer never gives a smaller zone.
pub proof fn law_zone_grows_with_buffer(
    outline: RectMm,
    buffer: Double,
    larger: Double,
    wall: RectMm,
)
    requires
        outline.finite(),
        buffer.finite(),
        larger.finite(),
        buffer.value() <= larger.value(),
        wall.finite(),
    ensures
        zone_of(outline, buffer, wall).within(zone_of(outline, larger, wall)),
{
    double::lemma_opposite_value(buffer);
    double::lemma_opposite_value(larger);
    double::lemma_sum_monotone(outline.left, larger.opposite(), outline.left, buffer.opposite());
    double::lemma_sum_monotone(outline.top, larger.opposite(), outline.top, buffer.opposite());
    double::lemma_sum_monotone(outline.right, buffer, outline.right, larger);
    double::lemma_sum_monotone(outline.bottom, buffer, outline.bottom, larger);
}

} // verus!
