//! What marker detection promises whatever the light, the print and the pose.
use vstd::arithmetic::power2;
use vstd::prelude::*;

use crate::decode;
use crate::detect;
use crate::detect::{Candidate, CellMeans};
use crate::double;
use crate::double::Double;
use crate::edge;
use crate::magnitude;
use crate::marker;
use crate::marker::CellGrid;
use crate::ordinary;
use crate::rounding;
use crate::sample::Luma;
use crate::significand;

verus! {

/// Cell means that a camera can give: finite, and of no more than 2^40.
pub open spec fn are_levels(cells: CellMeans) -> bool {
    forall|r: int, c: int|
        #![trigger cells[r][c]]
        0 <= r < 6 && 0 <= c < 6 ==> cells[r][c].finite() && rounding::size(
            rounding::real_of(cells[r][c]),
        ) <= 1099511627776real
}

/// The exact mean of a cell.
pub open spec fn level(cells: CellMeans, r: int, c: int) -> real {
    rounding::real_of(cells[r][c])
}

/// The extremes of the first cells are cells, and bound them.
proof fn lemma_extremes(cells: CellMeans, n: int)
    requires
        are_levels(cells),
        0 < n <= 36,
    ensures
        exists|r: int, c: int|
            0 <= r < 6 && 0 <= c < 6 && detect::darkest(cells, n) == #[trigger] cells[r][c],
        exists|r: int, c: int|
            0 <= r < 6 && 0 <= c < 6 && detect::brightest(cells, n) == #[trigger] cells[r][c],
        forall|r: int, c: int|
            #![trigger cells[r][c]]
            0 <= r < 6 && 0 <= c < 6 && 6 * r + c < n ==> rounding::real_of(
                detect::darkest(cells, n),
            ) <= level(cells, r, c) <= rounding::real_of(detect::brightest(cells, n)),
    decreases n,
{
    let (r0, c0) = ((n - 1) / 6, (n - 1) % 6);
    let v = cells[r0][c0];
    assert(v.finite());
    if n == 1 {
        let (lo, hi) = (
            Double { bits: detect::POS_INFINITY },
            Double { bits: detect::NEG_INFINITY },
        );
        assert(detect::darkest(cells, 0) == lo && detect::brightest(cells, 0) == hi);
        magnitude::lemma_units_increase(v.magnitude(), lo.magnitude());
        magnitude::lemma_units_nonnegative(v.magnitude());
        assert(detect::darkest(cells, 1) == v && detect::brightest(cells, 1) == v);
    } else {
        lemma_extremes(cells, n - 1);
        let (lo, hi) = (detect::darkest(cells, n - 1), detect::brightest(cells, n - 1));
        let (r1, c1) = choose|r: int, c: int|
            0 <= r < 6 && 0 <= c < 6 && lo == #[trigger] cells[r][c];
        let (r2, c2) = choose|r: int, c: int|
            0 <= r < 6 && 0 <= c < 6 && hi == #[trigger] cells[r][c];
        assert(cells[r1][c1].finite() && cells[r2][c2].finite());
        rounding::lemma_order(v, lo);
        rounding::lemma_order(hi, v);
        assert forall|r: int, c: int|
            #![trigger cells[r][c]]
            0 <= r < 6 && 0 <= c < 6 && 6 * r + c < n implies rounding::real_of(
            detect::darkest(cells, n),
        ) <= level(cells, r, c) <= rounding::real_of(detect::brightest(cells, n)) by {
            if 6 * r + c == n - 1 {
                assert(r == r0 && c == c0);
            }
        }
        if detect::darkest(cells, n) == v {
            assert(detect::darkest(cells, n) == cells[r0][c0]);
        } else {
            assert(detect::darkest(cells, n) == cells[r1][c1]);
        }
        if detect::brightest(cells, n) == v {
            assert(detect::brightest(cells, n) == cells[r0][c0]);
        } else {
            assert(detect::brightest(cells, n) == cells[r2][c2]);
        }
    }
}

/// The bits of 30.0 and of 0.5.
proof fn lemma_levels()
    ensures
        rounding::real_of(Double { bits: detect::MIN_CONTRAST }) == 30real,
        rounding::real_of(Double { bits: detect::ONE_HALF }) * 2real == 1real,
        (Double { bits: detect::ONE_HALF }).finite(),
{
    power2::lemma2_to64();
    power2::lemma2_to64_rest();
    significand::lemma_bits_are(
        Double { bits: detect::MIN_CONTRAST },
        48,
        0x1_0000_0000_0000,
        0x1e_0000_0000_0000,
    );
    significand::lemma_bits_are(
        Double { bits: detect::ONE_HALF },
        53,
        0x20_0000_0000_0000,
        0x10_0000_0000_0000,
    );
}

/// A small part of a number of no more than 2^42.
proof fn lemma_part(x: real)
    requires
        0real <= x <= 4398046511104real,
    ensures
        0real <= rounding::unit() * x,
        1000real * (rounding::unit() * x) <= 1real,
        1000real * (rounding::unit() * x) <= x,
{
    rounding::lemma_units_are_small();
    let u = rounding::unit();
    assert(0real <= u * x && 1000real * (u * x) <= 1real && 1000real * (u * x) <= x)
        by (nonlinear_arith)
        requires
            0real <= x <= 4398046511104real,
            u * 4503599627370496real == 1real,
            u > 0real,
    ;
}

/// A grid has contrast where two of its cells differ by 30 levels, and none where all
/// differ by less than 29.9.
pub proof fn law_contrast_is_the_spread_of_the_cells(cells: CellMeans)
    requires
        are_levels(cells),
    ensures
        (exists|r: int, c: int, s: int, d: int|
            #![trigger cells[r][c], cells[s][d]]
            0 <= r < 6 && 0 <= c < 6 && 0 <= s < 6 && 0 <= d < 6 && level(cells, r, c) - level(
                cells,
                s,
                d,
            ) >= 30real) ==> detect::has_contrast(cells),
        (forall|r: int, c: int, s: int, d: int|
            #![trigger cells[r][c], cells[s][d]]
            0 <= r < 6 && 0 <= c < 6 && 0 <= s < 6 && 0 <= d < 6 ==> 10real * (level(cells, r, c)
                - level(cells, s, d)) < 299real) ==> !detect::has_contrast(cells),
{
    lemma_extremes(cells, 36);
    lemma_levels();
    rounding::lemma_scales();
    let (lo, hi) = (detect::darkest(cells, 36), detect::brightest(cells, 36));
    let least = Double { bits: detect::MIN_CONTRAST };
    let (r1, c1) = choose|r: int, c: int|
        0 <= r < 6 && 0 <= c < 6 && lo == #[trigger] cells[r][c];
    let (r2, c2) = choose|r: int, c: int|
        0 <= r < 6 && 0 <= c < 6 && hi == #[trigger] cells[r][c];
    assert(cells[r1][c1].finite() && cells[r2][c2].finite());
    let d = double::difference(hi, lo);
    rounding::lemma_difference(hi, lo);
    let x = rounding::real_of(hi) - rounding::real_of(lo);
    lemma_part(rounding::size(x));
    rounding::lemma_order(d, least);
    if exists|r: int, c: int, s: int, d: int|
        #![trigger cells[r][c], cells[s][d]]
        0 <= r < 6 && 0 <= c < 6 && 0 <= s < 6 && 0 <= d < 6 && level(cells, r, c) - level(
            cells,
            s,
            d,
        ) >= 30real {
        double::lemma_opposite_value(lo);
        double::lemma_sum(hi, lo.opposite());
        rounding::lemma_parts(hi);
        rounding::lemma_parts(lo);
        rounding::lemma_parts(least);
        let (a, b, m, p) = (
            rounding::real_of(hi),
            rounding::real_of(lo),
            rounding::real_of(least),
            rounding::unit_count(),
        );
        assert(a * p - b * p >= m * p) by (nonlinear_arith)
            requires
                a - b >= m,
                p > 0real,
        ;
        double::lemma_sum_at_least(hi, lo.opposite(), d, least);
    }
}

/// Telling white from black adapts to the light. With enough contrast the darkest cell is
/// black and the brightest is white, whatever their levels; so is every cell that is no
/// more than 14 levels away from the darkest, or from the brightest. A cell that is
/// brighter than a white one is white.
pub proof fn law_classification_adapts_to_the_light(white: CellGrid, cells: CellMeans)
    requires
        are_levels(cells),
        detect::has_contrast(cells),
        detect::is_classified(white, cells),
    ensures
        forall|r: int, c: int|
            #![trigger white[r][c]]
            0 <= r < 6 && 0 <= c < 6 && (exists|s: int, d: int|
                #![trigger cells[s][d]]
                0 <= s < 6 && 0 <= d < 6 && is_darkest(cells, s, d) && level(cells, r, c) - level(
                    cells,
                    s,
                    d,
                ) <= 14real) ==> !white[r][c],
        forall|r: int, c: int|
            #![trigger white[r][c]]
            0 <= r < 6 && 0 <= c < 6 && (exists|s: int, d: int|
                #![trigger cells[s][d]]
                0 <= s < 6 && 0 <= d < 6 && is_brightest(cells, s, d) && level(cells, s, d) - level(
                    cells,
                    r,
                    c,
                ) <= 14real) ==> white[r][c],
        forall|r: int, c: int, s: int, d: int|
            #![trigger white[r][c], white[s][d]]
            0 <= r < 6 && 0 <= c < 6 && 0 <= s < 6 && 0 <= d < 6 && level(cells, r, c) <= level(
                cells,
                s,
                d,
            ) && white[r][c] ==> white[s][d],
{
    lemma_extremes(cells, 36);
    lemma_levels();
    rounding::lemma_scales();
    rounding::lemma_units_are_small();
    let (lo, hi) = (detect::darkest(cells, 36), detect::brightest(cells, 36));
    let (r1, c1) = choose|r: int, c: int|
        0 <= r < 6 && 0 <= c < 6 && lo == #[trigger] cells[r][c];
    let (r2, c2) = choose|r: int, c: int|
        0 <= r < 6 && 0 <= c < 6 && hi == #[trigger] cells[r][c];
    assert(cells[r1][c1].finite() && cells[r2][c2].finite());
    let (a, b) = (rounding::real_of(lo), rounding::real_of(hi));
    // The contrast.
    let least = Double { bits: detect::MIN_CONTRAST };
    let spread = double::difference(hi, lo);
    rounding::lemma_difference(hi, lo);
    lemma_part(rounding::size(b - a));
    rounding::lemma_order(spread, least);
    assert(10real * (b - a) >= 299real);
    // The level halfway.
    let half = Double { bits: detect::ONE_HALF };
    let s = double::sum(lo, hi);
    rounding::lemma_sum(lo, hi);
    lemma_part(rounding::size(a + b));
    let (x, y) = (rounding::real_of(s), rounding::real_of(half));
    assert(2real * (x * y) == x) by (nonlinear_arith)
        requires
            y * 2real == 1real,
    ;
    rounding::lemma_product(s, half);
    lemma_part(rounding::size(x * y));
    let level_of = detect::white_threshold(cells);
    assert(level_of == double::product(s, half));
    let t = rounding::real_of(level_of);
    assert(rounding::within(2real * t, a + b, 1real));
    assert forall|r: int, c: int|
        #![trigger white[r][c]]
        0 <= r < 6 && 0 <= c < 6 implies white[r][c] == (t < level(cells, r, c)) by {
        assert(cells[r][c].finite());
        rounding::lemma_order(level_of, cells[r][c]);
    }
    assert(level(cells, r1, c1) == a && level(cells, r2, c2) == b);
}

/// No cell is darker.
pub open spec fn is_darkest(cells: CellMeans, r: int, c: int) -> bool {
    forall|s: int, d: int|
        #![trigger cells[s][d]]
        0 <= s < 6 && 0 <= d < 6 ==> level(cells, r, c) <= level(cells, s, d)
}

/// No cell is brighter.
pub open spec fn is_brightest(cells: CellMeans, r: int, c: int) -> bool {
    forall|s: int, d: int|
        #![trigger cells[s][d]]
        0 <= s < 6 && 0 <= d < 6 ==> level(cells, s, d) <= level(cells, r, c)
}

/// A grid of two levels at least 30 apart has exactly its brighter cells white, whatever
/// the levels are.
pub proof fn law_two_levels_are_black_and_white(
    white: CellGrid,
    cells: CellMeans,
    lo: real,
    hi: real,
)
    requires
        are_levels(cells),
        detect::is_classified(white, cells),
        hi - lo >= 30real,
        forall|r: int, c: int|
            #![trigger cells[r][c]]
            0 <= r < 6 && 0 <= c < 6 ==> level(cells, r, c) == lo || level(cells, r, c) == hi,
        exists|r: int, c: int| 0 <= r < 6 && 0 <= c < 6 && #[trigger] level(cells, r, c) == lo,
        exists|r: int, c: int| 0 <= r < 6 && 0 <= c < 6 && #[trigger] level(cells, r, c) == hi,
    ensures
        detect::has_contrast(cells),
        forall|r: int, c: int|
            #![trigger white[r][c]]
            0 <= r < 6 && 0 <= c < 6 ==> white[r][c] == (level(cells, r, c) == hi),
{
    let (r1, c1) = choose|r: int, c: int|
        0 <= r < 6 && 0 <= c < 6 && #[trigger] level(cells, r, c) == lo;
    let (r2, c2) = choose|r: int, c: int|
        0 <= r < 6 && 0 <= c < 6 && #[trigger] level(cells, r, c) == hi;
    let (dark, bright) = (cells[r1][c1], cells[r2][c2]);
    law_contrast_is_the_spread_of_the_cells(cells);
    law_classification_adapts_to_the_light(white, cells);
    assert(is_darkest(cells, r1, c1) && is_brightest(cells, r2, c2));
    assert forall|r: int, c: int|
        #![trigger white[r][c]]
        0 <= r < 6 && 0 <= c < 6 implies white[r][c] == (level(cells, r, c) == hi) by {
        let v = cells[r][c];
        assert(cells[r1][c1].finite() && cells[r2][c2].finite());
    }
}

proof fn lemma_sample_constants()
    ensures
        rounding::within(
            rounding::real_of(Double { bits: detect::FIRST_SAMPLE }),
            3real / 10real,
            1real / 1000000000real,
        ),
        rounding::within(
            rounding::real_of(Double { bits: detect::SAMPLE_SPACING }),
            2real / 10real,
            1real / 1000000000real,
        ),
        rounding::real_of(Double { bits: detect::SIDE_CELLS }) == 6real,
{
    power2::lemma2_to64();
    power2::lemma2_to64_rest();
    significand::lemma_bits_are(
        Double { bits: detect::FIRST_SAMPLE },
        54,
        0x40_0000_0000_0000,
        0x13_3333_3333_3333,
    );
    significand::lemma_bits_are(
        Double { bits: detect::SAMPLE_SPACING },
        55,
        0x80_0000_0000_0000,
        0x19_9999_9999_999a,
    );
    significand::lemma_bits_are(
        Double { bits: detect::SIDE_CELLS },
        50,
        0x4_0000_0000_0000,
        0x18_0000_0000_0000,
    );
}

/// A rounding of a number of no more than 1000.
proof fn lemma_small(x: real)
    requires
        0real <= x <= 1000real,
    ensures
        0real <= rounding::unit() * x,
        1000000000real * (rounding::unit() * x) <= 1real,
        1000000000real * rounding::tiny() <= 1real,
{
    rounding::lemma_units_are_small();
    let u = rounding::unit();
    assert(0real <= u * x && u * x <= 1000real * u) by (nonlinear_arith)
        requires
            0real <= x <= 1000real,
            u > 0real,
    ;
}

/// The samples of a cell lie inside it, at three, five and seven tenths of its side.
pub proof fn law_samples_lie_inside_their_cell(c: int, i: int)
    requires
        0 <= c < 6,
        0 <= i < 3,
    ensures
        detect::sample_at(c, i).finite(),
        rounding::within(
            6real * rounding::real_of(detect::sample_at(c, i)),
            c as real + 3real / 10real + 2real * (i as real) / 10real,
            1real / 1000000real,
        ),
{
    lemma_sample_constants();
    rounding::lemma_scales();
    double::lemma_whole(c);
    double::lemma_whole(i);
    rounding::lemma_whole_real(double::whole(c), c);
    rounding::lemma_whole_real(double::whole(i), i);
    let (first, spacing, side) = (
        Double { bits: detect::FIRST_SAMPLE },
        Double { bits: detect::SAMPLE_SPACING },
        Double { bits: detect::SIDE_CELLS },
    );
    let (x, n, s) = (c as real, i as real, rounding::real_of(spacing));
    rounding::lemma_sum(double::whole(c), first);
    lemma_small(rounding::size(x + rounding::real_of(first)));
    let a = double::sum(double::whole(c), first);
    let e = s - 2real / 10real;
    assert(s * n == 2real * n / 10real + e * n) by (nonlinear_arith)
        requires
            e == s - 2real / 10real,
    ;
    crate::fit_error::lemma_product_bound(e, n, 1real / 1000000000real, 2real);
    rounding::lemma_product(spacing, double::whole(i));
    lemma_small(rounding::size(s * n));
    let p = double::product(spacing, double::whole(i));
    rounding::lemma_sum(a, p);
    lemma_small(rounding::size(rounding::real_of(a) + rounding::real_of(p)));
    let t = double::sum(a, p);
    let (v, d) = (rounding::real_of(t), rounding::real_of(side));
    rounding::lemma_ratio(v, d);
    let q = v / d;
    assert(6real * q == v) by (nonlinear_arith)
        requires
            q * d == v,
            d == 6real,
    ;
    rounding::lemma_quotient(t, side);
    lemma_small(rounding::size(q));
}

/// A cell is sampled at points of its own column and its own row: columns run along x and
/// rows along y of the marker.
pub proof fn law_cell_is_sampled_where_it_lies(
    h: crate::homography::Homography,
    r: int,
    c: int,
    i: int,
) -> (at: (Double, Double))
    requires
        0 <= r < 6,
        0 <= c < 6,
        0 <= i < 9,
    ensures
        detect::cell_point(h, r, c, i) == crate::homography::image_of(h.0, at.0, at.1),
        c as real + 29real / 100real <= 6real * rounding::real_of(at.0) <= c as real + 71real
            / 100real,
        r as real + 29real / 100real <= 6real * rounding::real_of(at.1) <= r as real + 71real
            / 100real,
{
    law_samples_lie_inside_their_cell(c, i % 3);
    law_samples_lie_inside_their_cell(r, i / 3);
    (detect::sample_at(c, i % 3), detect::sample_at(r, i / 3))
}

/// Row and column of the cell in corner `k` of the grid, clockwise from the top left.
pub open spec fn corner_cell(k: int) -> (int, int) {
    if k == 0 {
        (0, 0)
    } else if k == 1 {
        (0, 5)
    } else if k == 2 {
        (5, 5)
    } else {
        (5, 0)
    }
}

/// The corners of a reading are those of the print, whichever way up it was taped: corner
/// `i` of the reading is the vertex of the quad in whose corner cell the camera sampled
/// the corner cell `i` of the print.
pub proof fn law_corners_follow_the_print(
    ordered: [[i32; 2]; 4],
    quad: [[i32; 2]; 4],
    j: int,
    i: int,
) -> (k: int)
    requires
        0 <= j < 4,
        0 <= i < 4,
        detect::is_ordered(ordered, quad, j),
    ensures
        0 <= k < 4,
        ordered[i] == quad[k],
        decode::grid_turned_from(j, corner_cell(i).0, corner_cell(i).1) == corner_cell(k),
{
    let k = (j + i) % 4;
    assert(ordered[i] == quad[k]);
    k
}

/// A grid that decodes is what a camera samples of the print of that marker, turned as
/// the decoded turn count says: decoding never misreads a cell.
pub proof fn law_decoded_grid_is_the_print(
    white: CellGrid,
    cells: CellGrid,
    id: u16,
    j: int,
)
    requires
        decode::decodes_to(white, id, j),
        marker::prints_word(cells, marker::word_of(id)->0),
    ensures
        decode::samples(white, cells, j),
{
    assert forall|r: int, c: int|
        #![trigger cells[r][c]]
        0 <= r < 6 && 0 <= c < 6 implies white[decode::grid_turned_from(j, r, c).0][
        decode::grid_turned_from(j, r, c).1] == !cells[r][c] by {
        let to = decode::grid_turned_from(j, r, c);
        if marker::is_border_cell(r, c) {
            assert(marker::is_border_cell(to.0, to.1));
            assert(!white[to.0][to.1]);
        } else {
            assert(decode::cell_agrees(white, id, j, r - 1, c - 1));
            assert(marker::white_at(marker::word_of(id)->0, r - 1, c - 1) == !cells[r - 1 + 1][c
                - 1 + 1]);
        }
    }
}

/// A quad whose cells show a marker is read as that marker, with the corners in the order
/// of its print: nothing readable is passed over.
pub proof fn law_readable_marker_is_read(
    luma: &Luma,
    quad: [[i32; 2]; 4],
    cells: CellMeans,
    grid: CellGrid,
    id: u16,
    turns: usize,
    reading: Option<Candidate>,
)
    requires
        detect::is_decoded(luma, quad, cells, reading),
        detect::has_contrast(cells),
        detect::is_classified(grid, cells),
        decode::decodes_to(grid, id, turns as int),
    ensures
        reading matches Some(new) && new.marker.id == id && exists|ordered: [[i32; 2]; 4]| #[trigger]
            detect::is_ordered(ordered, quad, turns as int) && edge::is_refined_quad(
                luma,
                detect::as_points(ordered),
                new.marker.corners,
            ),
{
    match reading {
        Some(new) => {
            let (g, t, ordered) = choose|g: CellGrid, t: usize, ordered: [[i32; 2]; 4]|
                {
                    &&& detect::has_contrast(cells)
                    &&& #[trigger] detect::is_classified(g, cells)
                    &&& decode::decodes_to(g, new.marker.id, t as int)
                    &&& #[trigger] detect::is_ordered(ordered, quad, t as int)
                    &&& edge::is_refined_quad(luma, detect::as_points(ordered), new.marker.corners)
                    &&& new.area == detect::area_of(new.marker.corners)
                };
            lemma_same_marker(g, grid, cells, new.marker.id, t as int);
            decode::law_decoding_is_unique(grid, id, turns as int, new.marker.id, t as int);
            assert(detect::is_ordered(ordered, quad, turns as int));
        },
        None => {
            let g = choose|g: CellGrid|
                {
                    &&& #[trigger] detect::is_classified(g, cells)
                    &&& forall|id: u16, t: usize|
                        !#[trigger] decode::decodes_to(g, id, t as int)
                };
            lemma_same_marker(grid, g, cells, id, turns as int);
            assert(decode::decodes_to(g, id, turns as int));
        },
    }
}

/// Two classifications of the same cells show the same marker.
proof fn lemma_same_marker(a: CellGrid, b: CellGrid, cells: CellMeans, id: u16, j: int)
    requires
        detect::is_classified(a, cells),
        detect::is_classified(b, cells),
        decode::decodes_to(a, id, j),
    ensures
        decode::decodes_to(b, id, j),
{
    assert forall|r: int, c: int|
        #![trigger b[r][c]]
        marker::is_border_cell(r, c) implies !b[r][c] by {
        assert(a[r][c] == detect::white_threshold(cells).less(cells[r][c]));
    }
    assert forall|r: int, c: int| marker::is_data_cell(r, c) implies #[trigger] decode::cell_agrees(
        b,
        id,
        j,
        r,
        c,
    ) by {
        assert(decode::cell_agrees(a, id, j, r, c));
        let to = decode::turned_from(j, r, c);
        assert(a[to.0 + 1][to.1 + 1] == b[to.0 + 1][to.1 + 1]);
    }
}

/// Of all readings of an ID the largest is kept: every reading has one of its ID among the
/// kept ones that is no smaller, and every kept one is a reading.
pub proof fn law_largest_reading_is_kept(readings: Seq<Option<Candidate>>)
    requires
        forall|i: int|
            0 <= i < readings.len() ==> (#[trigger] readings[i] matches Some(c)
                ==> !c.area.nan()),
    ensures
        forall|i: int|
            0 <= i < readings.len() && (#[trigger] readings[i]) is Some ==> is_kept_as_large(
                detect::kept(readings),
                readings[i]->0,
            ),
        forall|k: int|
            0 <= k < detect::kept(readings).len() ==> exists|i: int|
                0 <= i < readings.len() && #[trigger] readings[i] == Some(
                    #[trigger] detect::kept(readings)[k],
                ),
        detect::ids_differ(detect::kept(readings)),
    decreases readings.len(),
{
    if readings.len() > 0 {
        let rest = readings.drop_last();
        assert forall|i: int| 0 <= i < rest.len() implies (#[trigger] rest[i] matches Some(c)
            ==> !c.area.nan()) by {
            assert(readings[i] == rest[i]);
        }
        law_largest_reading_is_kept(rest);
        let (before, after) = (detect::kept(rest), detect::kept(readings));
        let last = readings.len() - 1;
        assert forall|k: int| 0 <= k < after.len() implies exists|i: int|
            0 <= i < readings.len() && #[trigger] readings[i] == Some(#[trigger] after[k]) by {
            if readings.last() is Some {
                detect::lemma_slot(before, (readings.last()->0).marker.id, 0);
            }
            if readings.last() is Some && after[k] == readings.last()->0 {
                assert(readings[last] == Some(after[k]));
            } else {
                assert(k < before.len() && after[k] == before[k]);
                let i = choose|i: int|
                    0 <= i < rest.len() && #[trigger] rest[i] == Some(#[trigger] before[k]);
                assert(readings[i] == rest[i]);
            }
        }
        assert forall|i: int|
            0 <= i < readings.len() && (#[trigger] readings[i])
                is Some implies is_kept_as_large(after, readings[i]->0) by {
            if i < last {
                assert(rest[i] == readings[i]);
                assert(is_kept_as_large(before, rest[i]->0));
            }
            if readings.last() is Some {
                lemma_stays_kept(rest, readings.last()->0, readings[i]->0);
            }
        }
        if readings.last() is Some {
            detect::law_one_marker_per_id(before, readings.last()->0);
        }
    }
}

/// What is kept as large stays so with one more reading, which is kept as large itself.
proof fn lemma_stays_kept(rest: Seq<Option<Candidate>>, new: Candidate, c: Candidate)
    requires
        detect::ids_differ(detect::kept(rest)),
        forall|i: int|
            0 <= i < rest.len() ==> (#[trigger] rest[i] matches Some(c) ==> !c.area.nan()),
        forall|k: int|
            0 <= k < detect::kept(rest).len() ==> exists|i: int|
                0 <= i < rest.len() && #[trigger] rest[i] == Some(
                    #[trigger] detect::kept(rest)[k],
                ),
        !new.area.nan(),
        c == new || (is_kept_as_large(detect::kept(rest), c) && !c.area.nan()),
    ensures
        is_kept_as_large(detect::kept_with(detect::kept(rest), new), c),
{
    let before = detect::kept(rest);
    let after = detect::kept_with(before, new);
    detect::lemma_slot(before, new.marker.id, 0);
    let s = detect::slot_of(before, new.marker.id, 0);
    assert(0 <= s < after.len() && after[s].marker.id == new.marker.id);
    if c != new {
        let k = choose|k: int|
            0 <= k < before.len() && (#[trigger] before[k]).marker.id == c.marker.id
                && !before[k].area.less(c.area);
        let i = choose|i: int|
            0 <= i < rest.len() && #[trigger] rest[i] == Some(#[trigger] before[k]);
        assert(!before[k].area.nan());
        if k == s {
            assert(after[k].marker.id == c.marker.id && !after[k].area.less(c.area));
        } else {
            assert(after[k] == before[k]);
        }
    } else {
        assert(!after[s].area.less(new.area));
    }
}

/// One of the kept readings has the ID of `c` and is no smaller.
pub open spec fn is_kept_as_large(found: Seq<Candidate>, c: Candidate) -> bool {
    exists|k: int|
        0 <= k < found.len() && (#[trigger] found[k]).marker.id == c.marker.id
            && !found[k].area.less(c.area)
}

/// The number of a bit.
pub open spec fn bit(b: bool) -> int {
    if b {
        1
    } else {
        0
    }
}

/// A word is printed row by row from the top, each row from the left: its leading bit is
/// the top left cell, and each row is four bits of it.
pub proof fn law_word_is_printed_row_by_row(word: u16)
    ensures
        ({
            let row = |r: int|
                8 * bit(marker::white_at(word, r, 0)) + 4 * bit(marker::white_at(word, r, 1)) + 2
                    * bit(marker::white_at(word, r, 2)) + bit(marker::white_at(word, r, 3));
            word == 4096 * row(0) + 256 * row(1) + 16 * row(2) + row(3)
        }),
{
    assert(word == 4096 * (8 * ((word >> 15) & 1) + 4 * ((word >> 14) & 1) + 2 * ((word >> 13) & 1)
        + ((word >> 12) & 1)) + 256 * (8 * ((word >> 11) & 1) + 4 * ((word >> 10) & 1) + 2 * ((word
        >> 9) & 1) + ((word >> 8) & 1)) + 16 * (8 * ((word >> 7) & 1) + 4 * ((word >> 6) & 1) + 2
        * ((word >> 5) & 1) + ((word >> 4) & 1)) + (8 * ((word >> 3) & 1) + 4 * ((word >> 2) & 1)
        + 2 * ((word >> 1) & 1) + ((word >> 0) & 1))) by (bit_vector);
    assert(forall|i: u16| i < 16 ==> #[trigger] ((word >> i) & 1) <= 1) by (bit_vector);
}

/// A corner in a frame of no more than 10000 px.
pub open spec fn is_corner(p: edge::Point) -> bool {
    &&& p[0].finite() && rounding::size(rounding::real_of(p[0])) <= 10000real
    &&& p[1].finite() && rounding::size(rounding::real_of(p[1])) <= 10000real
}

proof fn lemma_cross_term(p: edge::Point, q: edge::Point)
    requires
        is_corner(p),
        is_corner(q),
    ensures
        ({
            let t = double::difference(double::product(p[0], q[1]), double::product(q[0], p[1]));
            let e = rounding::real_of(p[0]) * rounding::real_of(q[1]) - rounding::real_of(q[0])
                * rounding::real_of(p[1]);
            &&& t.finite()
            &&& rounding::size(e) <= 200000000real
            &&& rounding::within(rounding::real_of(t), e, 1real / 100000real)
        }),
{
    let m = 10000real;
    crate::fit_error::lemma_product_bound(
        rounding::real_of(p[0]),
        rounding::real_of(q[1]),
        m,
        m,
    );
    crate::fit_error::lemma_product_bound(
        rounding::real_of(q[0]),
        rounding::real_of(p[1]),
        m,
        m,
    );
    ordinary::lemma_times(p[0], q[1]);
    ordinary::lemma_times(q[0], p[1]);
    ordinary::lemma_minus(double::product(p[0], q[1]), double::product(q[0], p[1]));
}

/// The product of two differences.
proof fn lemma_differences(a: real, b: real, c: real, d: real)
    ensures
        (a - b) * (c - d) == a * c - a * d - b * c + b * d,
{
    assert((a - b) * (c - d) == a * (c - d) - b * (c - d)) by (nonlinear_arith);
    assert(a * (c - d) == a * c - a * d) by (nonlinear_arith);
    assert(b * (c - d) == b * c - b * d) by (nonlinear_arith);
}

/// The area of a quad is half the product of its diagonals, taken across each other: the
/// same whichever corner it starts at, and whichever way round it goes.
pub proof fn law_area_is_half_the_product_of_the_diagonals(c: [edge::Point; 4])
    requires
        forall|k: int| 0 <= k < 4 ==> is_corner(#[trigger] c[k]),
    ensures
        ({
            let (x, y) = (
                |k: int| rounding::real_of(c[k][0]),
                |k: int| rounding::real_of(c[k][1]),
            );
            let d = (x(2) - x(0)) * (y(3) - y(1)) - (x(3) - x(1)) * (y(2) - y(0));
            &&& detect::area_of(c).finite()
            &&& rounding::within(
                2real * rounding::real_of(detect::area_of(c)),
                rounding::size(d),
                1real / 1000real,
            )
        }),
{
    assert(is_corner(c[0]) && is_corner(c[1]) && is_corner(c[2]) && is_corner(c[3]));
    let (x0, x1, x2, x3) = (
        rounding::real_of(c[0][0]),
        rounding::real_of(c[1][0]),
        rounding::real_of(c[2][0]),
        rounding::real_of(c[3][0]),
    );
    let (y0, y1, y2, y3) = (
        rounding::real_of(c[0][1]),
        rounding::real_of(c[1][1]),
        rounding::real_of(c[2][1]),
        rounding::real_of(c[3][1]),
    );
    lemma_cross_term(c[0], c[1]);
    lemma_cross_term(c[1], c[2]);
    lemma_cross_term(c[2], c[3]);
    lemma_cross_term(c[3], c[0]);
    let zero = Double { bits: 0 };
    rounding::lemma_constants();
    let s0 = double::sum(zero, detect::cross_term(c, 0));
    ordinary::lemma_plus(zero, detect::cross_term(c, 0));
    let s1 = double::sum(s0, detect::cross_term(c, 1));
    ordinary::lemma_plus(s0, detect::cross_term(c, 1));
    let s2 = double::sum(s1, detect::cross_term(c, 2));
    ordinary::lemma_plus(s1, detect::cross_term(c, 2));
    let s3 = double::sum(s2, detect::cross_term(c, 3));
    ordinary::lemma_plus(s2, detect::cross_term(c, 3));
    lemma_differences(x2, x0, y3, y1);
    lemma_differences(x3, x1, y2, y0);
    rounding::lemma_absolute(s3);
    let a = double::absolute(s3);
    let half = Double { bits: detect::ONE_HALF };
    power2::lemma2_to64();
    power2::lemma2_to64_rest();
    significand::lemma_bits_are(half, 53, 0x20_0000_0000_0000, 0x10_0000_0000_0000);
    let (v, h) = (rounding::real_of(a), rounding::real_of(half));
    assert(v * h == v / 2real) by (nonlinear_arith)
        requires
            h == 1real / 2real,
    ;
    ordinary::lemma_times(a, half);
}

} // verus!
