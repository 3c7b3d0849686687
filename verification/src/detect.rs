//! Reference Marker detection.
//!
//! Pipeline: grayscale luma plane -> adaptive threshold (integral-image mean)
//! -> connected dark components -> outer contour trace -> quad fit
//! (Douglas-Peucker) -> 6x6 grid sampling -> decode against the dictionary
//! words (all 4 rotations) -> corner refinement. Non-dictionary quads are
//! rejected.
use vstd::prelude::*;

use crate::contour;
use crate::contour::find_contours;
use crate::decode;
use crate::decode::{canonical_corners, decode_grid};
use crate::dlt;
use crate::dlt::dlt;
use crate::double;
use crate::double::Double;
use crate::edge;
use crate::edge::{refine_corners, Point};
use crate::homography;
use crate::homography::Homography;
use crate::linalg;
use crate::marker::{CellGrid, CELLS_PER_SIDE};
use crate::plane;
use crate::quad;
use crate::quad::fit_quad;
use crate::sample::Luma;
use crate::threshold;
use crate::threshold::adaptive_threshold;

verus! {

/// Smallest frame side a marker can be detected in.
pub const MIN_FRAME_SIDE: usize = 32;

/// Least contrast between the darkest and the brightest cell of a printed
/// marker: the bits of 30.0.
pub const MIN_CONTRAST: u64 = 0x403e_0000_0000_0000;

/// Where the first sample of a cell is, in cells: the bits of 0.3.
pub const FIRST_SAMPLE: u64 = 0x3fd3_3333_3333_3333;

/// Spacing of the samples of a cell, in cells: the bits of 0.2.
pub const SAMPLE_SPACING: u64 = 0x3fc9_9999_9999_999a;

/// The bits of 6.0, the cells along a side.
pub const SIDE_CELLS: u64 = 0x4018_0000_0000_0000;

/// The bits of 9.0, the samples of a cell.
pub const CELL_SAMPLES: u64 = 0x4022_0000_0000_0000;

/// The bits of 0.5.
pub const ONE_HALF: u64 = 0x3fe0_0000_0000_0000;

/// The bits of positive infinity.
pub const POS_INFINITY: u64 = 0x7ff0_0000_0000_0000;

/// The bits of negative infinity.
pub const NEG_INFINITY: u64 = 0xfff0_0000_0000_0000;

/// Mean gray per cell of a sampled grid.
pub type CellMeans = [[Double; CELLS_PER_SIDE]; CELLS_PER_SIDE];

/// Corner positions in image px.
pub type Corners = [[Double; 2]; 4];

/// A decoded Reference Marker. `corners` are image px in the marker's own
/// canonical orientation: index 0 is the printed top-left corner, then
/// clockwise (top-right, bottom-right, bottom-left) as printed.
#[derive(Clone, Copy, Debug)]
pub struct DetectedMarker {
    pub id: u16,
    pub corners: Corners,
}

/// Smallest of the first `n` cells (row-major).
pub open spec fn darkest(cells: CellMeans, n: int) -> Double
    decreases n,
{
    if n <= 0 {
        Double { bits: POS_INFINITY }
    } else {
        double::smaller(darkest(cells, n - 1), cells[(n - 1) / 6][(n - 1) % 6])
    }
}

/// Largest of the first `n` cells (row-major).
pub open spec fn brightest(cells: CellMeans, n: int) -> Double
    decreases n,
{
    if n <= 0 {
        Double { bits: NEG_INFINITY }
    } else {
        double::larger(brightest(cells, n - 1), cells[(n - 1) / 6][(n - 1) % 6])
    }
}

/// The grid has enough contrast to be a printed marker.
pub open spec fn has_contrast(cells: CellMeans) -> bool {
    !double::difference(brightest(cells, 36), darkest(cells, 36)).less(
        Double { bits: MIN_CONTRAST },
    )
}

/// Gray value above which a cell is white: halfway between the extremes.
pub open spec fn white_threshold(cells: CellMeans) -> Double {
    double::product(
        double::sum(darkest(cells, 36), brightest(cells, 36)),
        Double { bits: ONE_HALF },
    )
}

/// `white` tells the white cells of a grid from the black ones.
pub open spec fn is_classified(white: CellGrid, cells: CellMeans) -> bool {
    forall|r: int, c: int|
        #![trigger white[r][c]]
        0 <= r < 6 && 0 <= c < 6 ==> white[r][c] == white_threshold(cells).less(cells[r][c])
}

/// Tell the white cells of a sampled grid from the black ones, if there is
/// enough contrast.
pub fn classify_cells(cells: &CellMeans) -> (white: Option<CellGrid>)
    ensures
        white is Some <==> has_contrast(*cells),
        white matches Some(grid) ==> is_classified(grid, *cells),
{
    let mut lo: Double = Double::from_bits(POS_INFINITY);
    let mut hi: Double = Double::from_bits(NEG_INFINITY);
    let mut i: usize = 0;
    while i < CELLS_PER_SIDE * CELLS_PER_SIDE
        invariant
            i <= 36,
            lo == darkest(*cells, i as int),
            hi == brightest(*cells, i as int),
        decreases 36 - i,
    {
        let v: Double = cells[i / CELLS_PER_SIDE][i % CELLS_PER_SIDE];
        lo = lo.min(&v);
        hi = hi.max(&v);
        i = i + 1;
    }
    if hi.minus(&lo).lt(&Double::from_bits(MIN_CONTRAST)) {
        return None;
    }
    let level: Double = lo.plus(&hi).times(&Double::from_bits(ONE_HALF));
    let mut grid: CellGrid = [[false; CELLS_PER_SIDE]; CELLS_PER_SIDE];
    i = 0;
    while i < CELLS_PER_SIDE * CELLS_PER_SIDE
        invariant
            i <= 36,
            level == white_threshold(*cells),
            forall|r: int, c: int|
                #![trigger grid[r][c]]
                0 <= r < 6 && 0 <= c < 6 && 6 * r + c < i ==> grid[r][c] == level.less(
                    cells[r][c],
                ),
        decreases 36 - i,
    {
        let r: usize = i / CELLS_PER_SIDE;
        let c: usize = i % CELLS_PER_SIDE;
        grid[r][c] = level.lt(&cells[r][c]);
        i = i + 1;
    }
    Some(grid)
}

/// Cross term of corners `i` and `i + 1`.
pub open spec fn cross_term(c: Corners, i: int) -> Double {
    let j = (i + 1) % 4;
    double::difference(
        double::product(c[i][0], c[j][1]),
        double::product(c[j][0], c[i][1]),
    )
}

/// Area of a quad (shoelace formula).
pub open spec fn area_of(c: Corners) -> Double {
    let zero = Double { bits: 0 };
    double::product(
        double::absolute(
            double::sum(
                double::sum(
                    double::sum(double::sum(zero, cross_term(c, 0)), cross_term(c, 1)),
                    cross_term(c, 2),
                ),
                cross_term(c, 3),
            ),
        ),
        Double { bits: ONE_HALF },
    )
}

fn cross_corner(c: &Corners, i: usize) -> (t: Double)
    requires
        i < 4,
    ensures
        t == cross_term(*c, i as int),
{
    let j: usize = (i + 1) % 4;
    c[i][0].times(&c[j][1]).minus(&c[j][0].times(&c[i][1]))
}

/// Area of a quad (shoelace formula).
pub fn quad_area(c: &Corners) -> (a: Double)
    ensures
        a == area_of(*c),
{
    let zero: Double = Double::from_bits(0);
    let twice: Double = zero.plus(&cross_corner(c, 0)).plus(&cross_corner(c, 1)).plus(
        &cross_corner(c, 2),
    ).plus(&cross_corner(c, 3));
    twice.abs().times(&Double::from_bits(ONE_HALF))
}

/// A marker with the area of its quad.
#[derive(Clone, Copy, Debug)]
pub struct Candidate {
    pub marker: DetectedMarker,
    pub area: Double,
}

/// First of the candidates from `k` on that has this ID, or their number.
pub open spec fn slot_of(found: Seq<Candidate>, id: u16, k: int) -> int
    decreases found.len() - k,
{
    if k >= found.len() || found[k].marker.id == id {
        k
    } else {
        slot_of(found, id, k + 1)
    }
}

/// At most one marker of each ID is kept: the largest.
pub open spec fn kept_with(found: Seq<Candidate>, new: Candidate) -> Seq<Candidate> {
    let k = slot_of(found, new.marker.id, 0);
    if k >= found.len() {
        found.push(new)
    } else if found[k].area.less(new.area) {
        found.update(k, new)
    } else {
        found
    }
}

/// Keep the largest marker of each ID.
fn keep_largest(found: &mut Vec<Candidate>, new: Candidate)
    ensures
        final(found)@ == kept_with(old(found)@, new),
{
    let mut k: usize = 0;
    while k < found.len() && found[k].marker.id != new.marker.id
        invariant
            k <= found@.len(),
            slot_of(found@, new.marker.id, 0) == slot_of(found@, new.marker.id, k as int),
        decreases found@.len() - k,
    {
        k = k + 1;
    }
    if k >= found.len() {
        found.push(new);
    } else if found[k].area.lt(&new.area) {
        found.set(k, new);
    }
}

/// No two candidates have the same ID.
pub open spec fn ids_differ(found: Seq<Candidate>) -> bool {
    forall|i: int, j: int|
        0 <= i < j < found.len() ==> (#[trigger] found[i]).marker.id != (
        #[trigger] found[j]).marker.id
}

pub proof fn lemma_slot(found: Seq<Candidate>, id: u16, k: int)
    requires
        0 <= k <= found.len(),
        forall|i: int| 0 <= i < k ==> (#[trigger] found[i]).marker.id != id,
    ensures
        k <= slot_of(found, id, k) <= found.len(),
        slot_of(found, id, k) < found.len() ==> found[slot_of(found, id, k)].marker.id == id,
        forall|i: int|
            0 <= i < slot_of(found, id, k) ==> (#[trigger] found[i]).marker.id != id,
    decreases found.len() - k,
{
    if k < found.len() && found[k].marker.id != id {
        lemma_slot(found, id, k + 1);
    }
}

/// At most one marker of each ID is kept, and what was kept of another ID is
/// left alone.
pub proof fn law_one_marker_per_id(found: Seq<Candidate>, new: Candidate)
    requires
        ids_differ(found),
    ensures
        ids_differ(kept_with(found, new)),
        exists|k: int|
            0 <= k < kept_with(found, new).len() && (#[trigger] kept_with(
                found,
                new,
            )[k]).marker.id == new.marker.id && !kept_with(found, new)[k].area.less(new.area),
        forall|i: int|
            0 <= i < found.len() && (#[trigger] found[i]).marker.id != new.marker.id
                ==> kept_with(found, new)[i] == found[i],
{
    lemma_slot(found, new.marker.id, 0);
    let k = slot_of(found, new.marker.id, 0);
    let next = kept_with(found, new);
    assert(next[k].marker.id == new.marker.id);
}

/// A frame that markers can be looked for in. One too small to show a marker always
/// is. Otherwise pixels are counted in 32 bits and indices fit in memory.
pub open spec fn is_detectable(w: int, h: int) -> bool {
    w < MIN_FRAME_SIDE || h < MIN_FRAME_SIDE || {
        &&& w * h < u32::MAX
        &&& w * h * 9 <= usize::MAX
        &&& (w + 1) * (h + 1) <= usize::MAX
        &&& contour::contour_cap(w, h) <= usize::MAX
    }
}

/// A searched frame is at most 2^27 px to a side.
pub proof fn lemma_searched_sides(w: int, h: int)
    requires
        is_detectable(w, h),
        w >= MIN_FRAME_SIDE,
        h >= MIN_FRAME_SIDE,
    ensures
        w <= 0x800_0000,
        h <= 0x800_0000,
{
    assert(w <= 0x800_0000 && h <= 0x800_0000) by (nonlinear_arith)
        requires
            w * h < 0x1_0000_0000,
            w >= 32,
            h >= 32,
    ;
}

/// Whether markers can be detected in frames of this size.
pub fn detectable(width: usize, height: usize) -> (r: bool)
    ensures
        r == is_detectable(width as int, height as int),
{
    if width < MIN_FRAME_SIDE || height < MIN_FRAME_SIDE {
        return true;
    }
    let (w, h) = (width as u64, height as u64);
    let most: u64 = u32::MAX as u64;
    if w >= most || h >= most {
        assert(w * h >= u32::MAX) by (nonlinear_arith)
            requires
                w >= u32::MAX || h >= u32::MAX,
                w >= 1,
                h >= 1,
        ;
        return false;
    }
    assert(w * h <= 0xffff_ffff * 0xffff_ffff) by (nonlinear_arith)
        requires
            0 <= w < u32::MAX,
            0 <= h < u32::MAX,
    ;
    if w * h >= most {
        return false;
    }
    assert((w + 1) * (h + 1) == w * h + w + h + 1) by (nonlinear_arith);
    let limit: u64 = usize::MAX as u64;
    w * h * 9 <= limit && (w + 1) * (h + 1) <= limit && 16 * (w + h) <= limit
}

/// Where sample `i` along a side of cell `c` is, in units of the marker side.
pub open spec fn sample_at(c: int, i: int) -> Double {
    (double::whole(c) + Double { bits: FIRST_SAMPLE } + Double { bits: SAMPLE_SPACING }
        * double::whole(i)).per(Double { bits: SIDE_CELLS })
}

/// Where sample `i` of cell (`r`, `c`) is in the image, for a marker that `h`
/// takes the unit square to.
pub open spec fn cell_point(h: Homography, r: int, c: int, i: int) -> Option<(Double, Double)> {
    homography::image_of(h.0, sample_at(c, i % 3), sample_at(r, i / 3))
}

/// Luma of the first `n` samples of a cell, summed.
pub open spec fn cell_sum(
    luma: &Luma,
    h: Homography,
    r: int,
    c: int,
    n: int,
) -> Double
    decreases n,
{
    if n <= 0 {
        Double { bits: 0 }
    } else {
        let p = cell_point(h, r, c, n - 1)->0;
        cell_sum(luma, h, r, c, n - 1) + luma.at([p.0, p.1])
    }
}

/// A sample of the grid lands on the plane at infinity.
pub open spec fn is_unsampled(h: Homography) -> bool {
    exists|r: int, c: int, i: int|
        0 <= r < 6 && 0 <= c < 6 && 0 <= i < 9 && #[trigger] cell_point(h, r, c, i) is None
}

/// `cells` holds the mean luma of each cell, sampled on a 3x3 sub-grid inside
/// it.
pub open spec fn is_sampled(
    luma: &Luma,
    h: Homography,
    cells: CellMeans,
) -> bool {
    forall|r: int, c: int|
        #![trigger cells[r][c]]
        0 <= r < 6 && 0 <= c < 6 ==> cells[r][c] == cell_sum(luma, h, r, c, 9).per(
            Double { bits: CELL_SAMPLES },
        )
}

fn sample_offset(c: usize, i: usize) -> (u: Double)
    requires
        c < 6,
        i < 3,
    ensures
        u == sample_at(c as int, i as int),
{
    (Double::from_count(c as u64) + Double::from_bits(FIRST_SAMPLE) + Double::from_bits(
        SAMPLE_SPACING,
    ) * Double::from_count(i as u64)) / Double::from_bits(SIDE_CELLS)
}

fn sample_cell(luma: &Luma, h: &Homography, r: usize, c: usize) -> (
mean: Option<Double>)
    requires
        luma.wf(),
        r < 6,
        c < 6,
    ensures
        mean is None <==> exists|i: int|
            0 <= i < 9 && #[trigger] cell_point(*h, r as int, c as int, i) is None,
        mean matches Some(v) ==> v == cell_sum(luma, *h, r as int, c as int, 9).per(
            Double { bits: CELL_SAMPLES },
        ),
{
    let mut acc: Double = Double::from_bits(0);
    let mut i: usize = 0;
    while i < 9
        invariant
            luma.wf(),
            r < 6,
            c < 6,
            i <= 9,
            forall|k: int|
                0 <= k < i ==> #[trigger] cell_point(*h, r as int, c as int, k) is Some,
            acc == cell_sum(luma, *h, r as int, c as int, i as int),
        decreases 9 - i,
    {
        let u: Double = sample_offset(c, i % 3);
        let v: Double = sample_offset(r, i / 3);
        let at: Option<(Double, Double)> = h.apply(u, v);
        assert(at == cell_point(*h, r as int, c as int, i as int));
        match at {
            None => {
                return None;
            },
            Some((x, y)) => {
                acc = acc + luma.sample(&[x, y]);
            },
        }
        i = i + 1;
    }
    Some(acc / Double::from_bits(CELL_SAMPLES))
}

/// Sample the 6x6 cell grid of a marker that `h` takes the unit square to.
pub fn sample_cells(luma: &Luma, h: &Homography) -> (cells: Option<
    CellMeans,
>)
    requires
        luma.wf(),
    ensures
        cells is None <==> is_unsampled(*h),
        cells matches Some(means) ==> is_sampled(luma, *h, means),
{
    let zero: Double = Double::from_bits(0);
    let mut cells: CellMeans = [[zero; CELLS_PER_SIDE]; CELLS_PER_SIDE];
    let mut i: usize = 0;
    while i < CELLS_PER_SIDE * CELLS_PER_SIDE
        invariant
            luma.wf(),
            i <= 36,
            forall|r: int, c: int, k: int|
                0 <= r < 6 && 0 <= c < 6 && 6 * r + c < i && 0 <= k < 9
                    ==> #[trigger] cell_point(*h, r, c, k) is Some,
            forall|r: int, c: int|
                #![trigger cells[r][c]]
                0 <= r < 6 && 0 <= c < 6 && 6 * r + c < i ==> cells[r][c] == cell_sum(
                    luma,
                    *h,
                    r,
                    c,
                    9,
                ).per(Double { bits: CELL_SAMPLES }),
        decreases 36 - i,
    {
        let r: usize = i / CELLS_PER_SIDE;
        let c: usize = i % CELLS_PER_SIDE;
        match sample_cell(luma, h, r, c) {
            None => {
                return None;
            },
            Some(mean) => {
                cells[r][c] = mean;
            },
        }
        i = i + 1;
    }
    Some(cells)
}

/// The corners of the unit square.
pub open spec fn unit_square() -> Corners {
    let (zero, one) = (Double { bits: 0 }, Double { bits: linalg::ONE });
    [[zero, zero], [one, zero], [one, one], [zero, one]]
}

/// The homography that takes the unit square to these corners.
pub open spec fn unit_transform(corners: Corners) -> Option<Homography> {
    homography::as_homography(dlt::transform_of(unit_square()@, corners@))
}

fn unit_homography(corners: &Corners) -> (h: Option<Homography>)
    ensures
        h == unit_transform(*corners),
{
    let zero: Double = Double::from_bits(0);
    let one: Double = Double::from_bits(linalg::ONE);
    let src: Vec<Point> = vec![[zero, zero], [one, zero], [one, one], [zero, one]];
    let dst: Vec<Point> = vec![corners[0], corners[1], corners[2], corners[3]];
    assert(src@ =~= unit_square()@);
    assert(dst@ =~= corners@);
    dlt(&src, &dst)
}

/// Homography from canonical marker corners (unit square) to the detected image
/// corners.
pub fn marker_unit_homography(m: &DetectedMarker) -> (h: Option<Homography>)
    ensures
        h == unit_transform(m.corners),
{
    unit_homography(&m.corners)
}

/// `ordered` is the quad from its printed top-left corner on.
pub open spec fn is_ordered(ordered: [[i32; 2]; 4], quad: [[i32; 2]; 4], turns: int) -> bool {
    forall|i: int| 0 <= i < 4 ==> #[trigger] ordered[i] == quad[(turns + i) % 4]
}

/// The pixels as points.
pub open spec fn as_points(quad: [[i32; 2]; 4]) -> Corners {
    [
        [double::whole(quad[0][0] as int), double::whole(quad[0][1] as int)],
        [double::whole(quad[1][0] as int), double::whole(quad[1][1] as int)],
        [double::whole(quad[2][0] as int), double::whole(quad[2][1] as int)],
        [double::whole(quad[3][0] as int), double::whole(quad[3][1] as int)],
    ]
}

fn corner_points(quad: &[[i32; 2]; 4]) -> (corners: Corners)
    requires
        forall|i: int| 0 <= i < 4 ==> quad::is_on_canvas(#[trigger] quad[i]),
    ensures
        corners == as_points(*quad),
{
    assert(quad::is_on_canvas(quad[0]) && quad::is_on_canvas(quad[1]) && quad::is_on_canvas(quad[2])
        && quad::is_on_canvas(quad[3]));
    [
        [Double::from_count(quad[0][0] as u64), Double::from_count(quad[0][1] as u64)],
        [Double::from_count(quad[1][0] as u64), Double::from_count(quad[1][1] as u64)],
        [Double::from_count(quad[2][0] as u64), Double::from_count(quad[2][1] as u64)],
        [Double::from_count(quad[3][0] as u64), Double::from_count(quad[3][1] as u64)],
    ]
}

/// What a quad with these cell means is read as.
pub open spec fn is_decoded(
    luma: &Luma,
    quad: [[i32; 2]; 4],
    cells: CellMeans,
    reading: Option<Candidate>,
) -> bool {
    match reading {
        Some(new) => exists|grid: CellGrid, turns: usize, ordered: [[i32; 2]; 4]|
            {
                &&& has_contrast(cells)
                &&& #[trigger] is_classified(grid, cells)
                &&& decode::decodes_to(grid, new.marker.id, turns as int)
                &&& #[trigger] is_ordered(ordered, quad, turns as int)
                &&& edge::is_refined_quad(luma, as_points(ordered), new.marker.corners)
                &&& new.area == area_of(new.marker.corners)
            },
        None => !has_contrast(cells) || exists|grid: CellGrid|
            {
                &&& #[trigger] is_classified(grid, cells)
                &&& forall|id: u16, turns: usize|
                    !#[trigger] decode::decodes_to(grid, id, turns as int)
            },
    }
}

/// What a quad is read as: nothing unless it can be sampled and its cells decode.
pub open spec fn is_read(
    luma: &Luma,
    quad: [[i32; 2]; 4],
    reading: Option<Candidate>,
) -> bool {
    match unit_transform(as_points(quad)) {
        None => reading is None,
        Some(hom) => if is_unsampled(hom) {
            reading is None
        } else {
            exists|cells: CellMeans| #[trigger]
                is_sampled(luma, hom, cells) && is_decoded(luma, quad, cells, reading)
        },
    }
}

/// What a contour is read as: nothing unless a quad fits it.
pub open spec fn is_reading(
    luma: &Luma,
    pts: Seq<(int, int)>,
    reading: Option<Candidate>,
) -> bool {
    match quad::quad_of(pts) {
        None => reading is None,
        Some(vertices) => exists|quad: [[i32; 2]; 4]|
            contour::points(quad@) == vertices && #[trigger] is_read(luma, quad, reading),
    }
}

/// Read the marker that a quad with these cell means is.
fn read_cells(luma: &Luma, quad: &[[i32; 2]; 4], cells: &CellMeans) -> (reading: Option<
    Candidate,
>)
    requires
        forall|i: int| 0 <= i < 4 ==> quad::is_on_canvas(#[trigger] quad[i]),
        luma.wf(),
    ensures
        is_decoded(luma, *quad, *cells, reading),
{
    let grid: CellGrid = match classify_cells(cells) {
        None => {
            return None;
        },
        Some(grid) => grid,
    };
    match decode_grid(&grid) {
        None => None,
        Some((id, turns)) => {
            let ordered: [[i32; 2]; 4] = canonical_corners(quad, turns);
            assert(is_ordered(ordered, *quad, turns as int));
            let corners: Corners = refine_corners(luma, &corner_points(&ordered));
            let area: Double = quad_area(&corners);
            assert(decode::decodes_to(grid, id, turns as int));
            Some(Candidate { marker: DetectedMarker { id, corners }, area })
        },
    }
}

/// The vertices of a fitted quad are on the canvas, as the contour is.
proof fn lemma_quad_on_canvas(pixels: Seq<[i32; 2]>, quad: [[i32; 2]; 4])
    requires
        quad::is_drawable(pixels),
        forall|i: int|
            0 <= i < 4 ==> contour::points(pixels).contains(#[trigger] contour::points(quad@)[i]),
    ensures
        forall|i: int| 0 <= i < 4 ==> quad::is_on_canvas(#[trigger] quad[i]),
{
    let pts = contour::points(pixels);
    let q = contour::points(quad@);
    assert forall|i: int| 0 <= i < 4 implies quad::is_on_canvas(#[trigger] quad[i]) by {
        assert(pts.contains(q[i]));
        let k = choose|k: int| 0 <= k < pts.len() && pts[k] == q[i];
        assert(quad::is_on_canvas(pixels[k]));
        assert(q[i] == (quad[i][0] as int, quad[i][1] as int));
    }
}

/// Read the marker that a contour outlines, if it outlines one.
fn read_marker(luma: &Luma, pixels: &[[i32; 2]]) -> (reading: Option<Candidate>)
    requires
        quad::is_drawable(pixels@),
        luma.wf(),
    ensures
        is_reading(luma, contour::points(pixels@), reading),
{
    let quad: [[i32; 2]; 4] = match fit_quad(pixels) {
        None => {
            return None;
        },
        Some(quad) => quad,
    };
    proof {
        lemma_quad_on_canvas(pixels@, quad);
    }
    let reading: Option<Candidate> = match unit_homography(&corner_points(&quad)) {
        None => None,
        Some(hom) => match sample_cells(luma, &hom) {
            None => None,
            Some(cells) => read_cells(luma, &quad, &cells),
        },
    };
    assert(is_read(luma, quad, reading));
    reading
}

/// What is kept of a list of readings.
pub open spec fn kept(readings: Seq<Option<Candidate>>) -> Seq<Candidate>
    decreases readings.len(),
{
    if readings.len() == 0 {
        Seq::empty()
    } else {
        match readings.last() {
            None => kept(readings.drop_last()),
            Some(new) => kept_with(kept(readings.drop_last()), new),
        }
    }
}

/// `mask` is the thresholded luma plane.
pub open spec fn is_mask(mask: Seq<u8>, gray: Seq<u8>, w: int, h: int) -> bool {
    &&& mask.len() == w * h
    &&& forall|x: int, y: int|
        #![trigger mask[plane::index_of(w, x, y)]]
        plane::in_plane(w, h, x, y) ==> mask[plane::index_of(w, x, y)] == (
        if threshold::is_below_mean(gray, w, h, x, y) {
            1u8
        } else {
            0u8
        })
}

/// The markers that the contours of a mask are read as.
pub open spec fn are_markers_of(
    luma: &Luma,
    mask: Seq<u8>,
    readings: Seq<Option<Candidate>>,
) -> bool {
    let outlines = contour::candidates_before(
        mask,
        luma.width as int,
        luma.height as int,
        luma.width * luma.height,
    );
    &&& readings.len() == outlines.len()
    &&& forall|i: int|
        0 <= i < readings.len() ==> #[trigger] is_reading(luma, outlines[i], readings[i])
}

/// `markers` are all that the contours of a luma plane are read as: one for each
/// ID at most, the largest; none in a frame that is too small for any.
pub open spec fn are_detected(luma: &Luma, markers: Seq<DetectedMarker>) -> bool {
    let (w, h) = (luma.width as int, luma.height as int);
    if w < MIN_FRAME_SIDE || h < MIN_FRAME_SIDE {
        markers.len() == 0
    } else {
        exists|mask: Seq<u8>, readings: Seq<Option<Candidate>>|
            {
                &&& is_mask(mask, luma.gray@, w, h)
                &&& #[trigger] are_markers_of(luma, mask, readings)
                &&& markers == kept(readings).map_values(|c: Candidate| c.marker)
            }
    }
}

/// Detect all Reference Markers (IDs 0/1) in a luma plane. At most one of each
/// ID is returned: duplicates keep the largest quad.
pub fn detect_markers(gray: &[u8], width: usize, height: usize) -> (markers: Vec<DetectedMarker>)
    requires
        gray@.len() == width * height,
        is_detectable(width as int, height as int),
    ensures
        are_detected(&(Luma { gray, width, height }), markers@),
        forall|i: int, j: int|
            0 <= i < j < markers@.len() ==> (#[trigger] markers@[i]).id != (
            #[trigger] markers@[j]).id,
{
    let mut markers: Vec<DetectedMarker> = Vec::new();
    if width < MIN_FRAME_SIDE || height < MIN_FRAME_SIDE {
        return markers;
    }
    let luma: Luma = Luma { gray, width, height };
    let ghost w = width as int;
    let ghost h = height as int;
    proof {
        assert(w * h * 510 <= u64::MAX) by (nonlinear_arith)
            requires
                w * h < 0x1_0000_0000,
        ;
        lemma_searched_sides(w, h);
    }
    let mask: Vec<u8> = adaptive_threshold(gray, width, height);
    let outlines: Vec<Vec<[i32; 2]>> = find_contours(mask.as_slice(), width, height);
    let ghost expected = contour::candidates_before(mask@, w, h, w * h);
    let mut found: Vec<Candidate> = Vec::new();
    let ghost mut readings: Seq<Option<Candidate>> = Seq::empty();
    let mut i: usize = 0;
    while i < outlines.len()
        invariant
            i <= outlines@.len(),
            width >= MIN_FRAME_SIDE,
            height >= MIN_FRAME_SIDE,
            w == width,
            h == height,
            is_detectable(w, h),
            luma.wf(),
            expected == contour::contours(outlines@),
            forall|k: int, l: int|
                #![trigger outlines@[k]@[l]]
                0 <= k < outlines@.len() && 0 <= l < outlines@[k]@.len() ==> 0
                    <= outlines@[k]@[l][0] < width && 0 <= outlines@[k]@[l][1] < height,
            readings.len() == i,
            forall|k: int|
                0 <= k < i ==> #[trigger] is_reading(&luma, expected[k], readings[k]),
            found@ == kept(readings),
            ids_differ(found@),
        decreases outlines@.len() - i,
    {
        let pixels: &Vec<[i32; 2]> = &outlines[i];
        assert(quad::is_drawable(pixels@));
        let reading: Option<Candidate> = read_marker(&luma, pixels.as_slice());
        let ghost before = readings;
        proof {
            readings = readings.push(reading);
            assert(readings.drop_last() =~= before);
            assert(expected[i as int] == contour::points(pixels@));
        }
        if let Some(new) = reading {
            proof {
                law_one_marker_per_id(found@, new);
            }
            keep_largest(&mut found, new);
        }
        i = i + 1;
    }
    let mut k: usize = 0;
    while k < found.len()
        invariant
            k <= found@.len(),
            ids_differ(found@),
            markers@.len() == k,
            forall|m: int| 0 <= m < k ==> #[trigger] markers@[m] == found@[m].marker,
        decreases found@.len() - k,
    {
        markers.push(found[k].marker);
        k = k + 1;
    }
    proof {
        assert(markers@ =~= kept(readings).map_values(|c: Candidate| c.marker));
        assert(is_mask(mask@, gray@, w, h));
        assert(are_markers_of(&luma, mask@, readings));
        assert forall|i: int, j: int| 0 <= i < j < markers@.len() implies (
        #[trigger] markers@[i]).id != (#[trigger] markers@[j]).id by {
            assert(found@[i].marker.id != found@[j].marker.id);
        }
    }
    markers
}

} // verus!
