//! Direct Linear Transform: a homography from four or more correspondences.
use vstd::prelude::*;

use crate::chain;
use crate::double;
use crate::double::Double;
use crate::edge;
use crate::edge::Point;
use crate::eigen;
use crate::eigen::smallest_eigenpair_sym;
use crate::homography;
use crate::homography::Homography;
use crate::linalg;
use crate::linalg::{mat3_inv, mat3_mul, Mat3};
use crate::solve;
use crate::solve::Matrix;

verus! {

/// Mean distance at which points coincide: the bits of 1e-12.
pub const COINCIDENT: u64 = 0x3d71_9799_812d_ea11;

/// Mean distance of normalized points from their centroid: the bits of the square
/// root of 2.
pub const SQRT_2: u64 = 0x3ff6_a09e_667f_3bcd;

/// Second-smallest eigenvalue, relative to the trace, at which a set of
/// correspondences is degenerate: the bits of 1e-12.
pub const DEGENERATE: u64 = 0x3d71_9799_812d_ea11;

/// The smallest normal double: the bits of 2^-1022.
pub const MIN_POSITIVE: u64 = 0x0010_0000_0000_0000;

/// Smallest squared norm of a homography: the bits of 1e-300.
pub const LEAST_NORM: u64 = 0x01a5_6e1f_c2f8_f359;

/// The bits of 1.0.
pub const ONE: u64 = 0x3ff0_0000_0000_0000;

/// The bits of -1.0.
pub const MINUS_ONE: u64 = 0xbff0_0000_0000_0000;

/// The bits of infinity.
pub const POS_INFINITY: u64 = 0x7ff0_0000_0000_0000;

/// Distances of the first `n` points from `centre`, summed.
pub open spec fn distance_sum(pts: Seq<Point>, centre: Point, n: int) -> Double
    decreases n,
{
    if n <= 0 {
        Double { bits: 0 }
    } else {
        distance_sum(pts, centre, n - 1) + chain::gap(pts[n - 1], centre)
    }
}

/// Mean distance of points from their centroid.
pub open spec fn spread(pts: Seq<Point>) -> Double {
    distance_sum(
        pts,
        [edge::mean_of(pts, 0), edge::mean_of(pts, 1)],
        pts.len() as int,
    ).per(double::whole(pts.len() as int))
}

/// Hartley normalization: the transform that moves the centroid to the origin and
/// scales the mean distance from it to the square root of 2.
pub open spec fn normalizer(pts: Seq<Point>) -> Option<Mat3> {
    let zero = Double { bits: 0 };
    let s = Double { bits: SQRT_2 }.per(spread(pts));
    if spread(pts).less(Double { bits: COINCIDENT }) {
        None
    } else {
        Some(
            [
                s,
                zero,
                s.opposite() * edge::mean_of(pts, 0),
                zero,
                s,
                s.opposite() * edge::mean_of(pts, 1),
                zero,
                zero,
                Double { bits: ONE },
            ],
        )
    }
}

/// A point under a normalizing transform.
pub open spec fn normalized(t: Mat3, p: Point) -> Point {
    [t[0] * p[0] + t[1] * p[1] + t[2], t[4] * p[1] + t[3] * p[0] + t[5]]
}

/// The equation that a correspondence gives for the first target coordinate.
pub open spec fn first_equation(s: Point, e: Point) -> Seq<Double> {
    let zero = Double { bits: 0 };
    seq![
        s[0].opposite(),
        s[1].opposite(),
        Double { bits: MINUS_ONE },
        zero,
        zero,
        zero,
        e[0] * s[0],
        e[0] * s[1],
        e[0],
    ]
}

/// The equation that a correspondence gives for the second target coordinate.
pub open spec fn second_equation(s: Point, e: Point) -> Seq<Double> {
    let zero = Double { bits: 0 };
    seq![
        zero,
        zero,
        zero,
        s[0].opposite(),
        s[1].opposite(),
        Double { bits: MINUS_ONE },
        e[1] * s[0],
        e[1] * s[1],
        e[1],
    ]
}

/// A row of the normal matrix with an equation added that has `weight` there.
pub open spec fn added_row(row: Seq<Double>, eq: Seq<Double>, weight: Double) -> Seq<Double> {
    if weight.same(Double { bits: 0 }) {
        row
    } else {
        Seq::new(row.len(), |j: int| row[j] + weight * eq[j])
    }
}

/// The normal matrix with an equation added, up to before row `end`.
pub open spec fn added(ata: Seq<Seq<Double>>, eq: Seq<Double>, end: int) -> Seq<Seq<Double>> {
    Seq::new(
        ata.len(),
        |i: int|
            if i < end {
                added_row(ata[i], eq, eq[i])
            } else {
                ata[i]
            },
    )
}

/// The zero matrix.
pub open spec fn zeros(n: int) -> Seq<Seq<Double>> {
    Seq::new(n as nat, |r: int| Seq::new(n as nat, |c: int| Double { bits: 0 }))
}

/// The normal matrix of the first `n` correspondences.
pub open spec fn normal_matrix(
    t_src: Mat3,
    t_dst: Mat3,
    src: Seq<Point>,
    dst: Seq<Point>,
    n: int,
) -> Seq<Seq<Double>>
    decreases n,
{
    if n <= 0 {
        zeros(9)
    } else {
        let s = normalized(t_src, src[n - 1]);
        let e = normalized(t_dst, dst[n - 1]);
        added(
            added(normal_matrix(t_src, t_dst, src, dst, n - 1), first_equation(s, e), 9),
            second_equation(s, e),
            9,
        )
    }
}

/// Sum of the first `n` diagonal entries.
pub open spec fn trace(a: Seq<Seq<Double>>, n: int) -> Double
    decreases n,
{
    if n <= 0 {
        Double { bits: 0 }
    } else {
        trace(a, n - 1) + a[n - 1][n - 1]
    }
}

/// Sum of the squares of the first `n` entries.
pub open spec fn squares(h: Mat3, n: int) -> Double
    decreases n,
{
    if n <= 0 {
        Double { bits: 0 }
    } else {
        squares(h, n - 1) + h[n - 1] * h[n - 1]
    }
}

/// A matrix, every entry times `k`.
pub open spec fn scaled(h: Mat3, k: Double) -> Mat3 {
    [
        h[0] * k,
        h[1] * k,
        h[2] * k,
        h[3] * k,
        h[4] * k,
        h[5] * k,
        h[6] * k,
        h[7] * k,
        h[8] * k,
    ]
}

/// A homography scaled to unit Frobenius norm, unless it vanishes.
pub open spec fn to_unit_norm(h: Mat3) -> Option<Mat3> {
    let n2 = squares(h, 9);
    if n2.less(Double { bits: LEAST_NORM }) {
        None
    } else {
        Some(scaled(h, Double { bits: ONE }.per(n2.root())))
    }
}

/// A matrix of these entries.
pub open spec fn as_matrix(v: Seq<Double>) -> Mat3 {
    [v[0], v[1], v[2], v[3], v[4], v[5], v[6], v[7], v[8]]
}

/// The homography between normalized points, where the correspondences determine
/// one: degenerate sets leave a second eigenvalue that vanishes relative to the
/// matrix scale, and an eigenvector that means nothing.
pub open spec fn null_vector(ata: Seq<Seq<Double>>) -> Option<Mat3> {
    let (v, _, second) = eigen::eigenpair(ata);
    if second.less(
        Double { bits: DEGENERATE } * double::larger(
            trace(ata, 9),
            Double { bits: MIN_POSITIVE },
        ),
    ) {
        None
    } else {
        Some(as_matrix(v))
    }
}

/// The homography that correspondences determine; none for a degenerate set.
pub open spec fn transform_of(src: Seq<Point>, dst: Seq<Point>) -> Option<Mat3> {
    if src.len() < 4 || dst.len() != src.len() {
        None
    } else {
        match (normalizer(src), normalizer(dst)) {
            (Some(t_src), Some(t_dst)) => match (
                null_vector(normal_matrix(t_src, t_dst, src, dst, src.len() as int)),
                linalg::inverse_of(t_dst),
            ) {
                (Some(hn), Some(inv)) => to_unit_norm(
                    linalg::mat_product(linalg::mat_product(inv, hn), t_src),
                ),
                _ => None,
            },
            _ => None,
        }
    }
}

fn normalizing_transform(pts: &Vec<Point>) -> (t: Option<Mat3>)
    requires
        pts@.len() < 0x20_0000_0000_0000,
    ensures
        t == normalizer(pts@),
{
    let cx: Double = edge::mean_coordinate(pts, 0);
    let cy: Double = edge::mean_coordinate(pts, 1);
    let centre: Point = [cx, cy];
    assert(centre == [edge::mean_of(pts@, 0), edge::mean_of(pts@, 1)]);
    let mut total: Double = Double::from_bits(0);
    let mut i: usize = 0;
    while i < pts.len()
        invariant
            i <= pts@.len(),
            total == distance_sum(pts@, centre, i as int),
        decreases pts@.len() - i,
    {
        total = total + chain::distance(&pts[i], &centre);
        i = i + 1;
    }
    let mean: Double = total / Double::from_count(pts.len() as u64);
    if mean.lt(&Double::from_bits(COINCIDENT)) {
        return None;
    }
    let s: Double = Double::from_bits(SQRT_2) / mean;
    let zero: Double = Double::from_bits(0);
    Some([s, zero, s.negate() * cx, zero, s, s.negate() * cy, zero, zero, Double::from_bits(ONE)])
}

fn normalize(t: &Mat3, p: &Point) -> (q: Point)
    ensures
        q == normalized(*t, *p),
{
    [t[0] * p[0] + t[1] * p[1] + t[2], t[4] * p[1] + t[3] * p[0] + t[5]]
}

fn add_equation(ata: &mut Matrix, eq: &Vec<Double>)
    requires
        solve::is_shaped(solve::entries(old(ata)@), 9, 9),
        eq@.len() == 9,
    ensures
        solve::entries(final(ata)@) == added(solve::entries(old(ata)@), eq@, 9),
        solve::is_shaped(solve::entries(final(ata)@), 9, 9),
{
    let ghost g = solve::entries(ata@);
    let zero: Double = Double::from_bits(0);
    let mut i: usize = 0;
    assert(solve::entries(ata@) =~= added(g, eq@, 0));
    while i < 9
        invariant
            i <= 9,
            eq@.len() == 9,
            zero == (Double { bits: 0 }),
            ata@.len() == 9,
            g.len() == 9,
            solve::is_shaped(g, 9, 9),
            solve::entries(ata@) == added(g, eq@, i as int),
        decreases 9 - i,
    {
        let ghost before = solve::entries(ata@);
        assert(ata@[i as int]@ == before[i as int]);
        if !eq[i].equals(&zero) {
            let mut row: Vec<Double> = Vec::new();
            let mut j: usize = 0;
            while j < 9
                invariant
                    i < 9,
                    j <= 9,
                    eq@.len() == 9,
                    ata@.len() == 9,
                    ata@[i as int]@ == g[i as int],
                    g[i as int].len() == 9,
                    row@.len() == j,
                    forall|k: int|
                        0 <= k < j ==> #[trigger] row@[k] == g[i as int][k] + eq@[i as int]
                            * eq@[k],
                decreases 9 - j,
            {
                row.push(ata[i][j] + eq[i] * eq[j]);
                j = j + 1;
            }
            assert(row@ =~= added_row(g[i as int], eq@, eq@[i as int]));
            ata.set(i, row);
        }
        proof {
            let after = added(g, eq@, i + 1);
            assert forall|k: int| 0 <= k < 9 implies solve::entries(ata@)[k]
                == #[trigger] after[k] by {
                assert(before[k] == added(g, eq@, i as int)[k]);
            }
            assert(solve::entries(ata@) =~= after);
        }
        i = i + 1;
    }
    proof {
        let out = added(g, eq@, 9);
        assert forall|k: int| 0 <= k < 9 implies (#[trigger] out[k]).len() == 9 by {
            assert(g[k].len() == 9);
        }
    }
}

fn zero_matrix() -> (m: Matrix)
    ensures
        solve::entries(m@) == zeros(9),
{
    let mut m: Matrix = Vec::new();
    let mut r: usize = 0;
    while r < 9
        invariant
            r <= 9,
            m@.len() == r,
            forall|i: int| 0 <= i < r ==> (#[trigger] m@[i])@ == zeros(9)[i],
        decreases 9 - r,
    {
        let mut row: Vec<Double> = Vec::new();
        let mut c: usize = 0;
        while c < 9
            invariant
                c <= 9,
                r < 9,
                row@.len() == c,
                forall|j: int| 0 <= j < c ==> #[trigger] row@[j] == zeros(9)[r as int][j],
            decreases 9 - c,
        {
            row.push(Double::from_bits(0));
            c = c + 1;
        }
        assert(row@ =~= zeros(9)[r as int]);
        m.push(row);
        r = r + 1;
    }
    assert(solve::entries(m@) =~= zeros(9));
    m
}

/// Accumulate the normal matrix of correspondences.
fn accumulate(t_src: &Mat3, t_dst: &Mat3, src: &Vec<Point>, dst: &Vec<Point>) -> (ata: Matrix)
    requires
        dst@.len() == src@.len(),
    ensures
        solve::entries(ata@) == normal_matrix(*t_src, *t_dst, src@, dst@, src@.len() as int),
        solve::is_shaped(solve::entries(ata@), 9, 9),
{
    let zero: Double = Double::from_bits(0);
    let minus: Double = Double::from_bits(MINUS_ONE);
    let mut ata: Matrix = zero_matrix();
    let mut i: usize = 0;
    while i < src.len()
        invariant
            i <= src@.len(),
            dst@.len() == src@.len(),
            zero == (Double { bits: 0 }),
            minus == (Double { bits: MINUS_ONE }),
            solve::is_shaped(solve::entries(ata@), 9, 9),
            solve::entries(ata@) == normal_matrix(*t_src, *t_dst, src@, dst@, i as int),
        decreases src@.len() - i,
    {
        let s: Point = normalize(t_src, &src[i]);
        let e: Point = normalize(t_dst, &dst[i]);
        let first: Vec<Double> = vec![
            s[0].negate(),
            s[1].negate(),
            minus,
            zero,
            zero,
            zero,
            e[0] * s[0],
            e[0] * s[1],
            e[0],
        ];
        let second: Vec<Double> = vec![
            zero,
            zero,
            zero,
            s[0].negate(),
            s[1].negate(),
            minus,
            e[1] * s[0],
            e[1] * s[1],
            e[1],
        ];
        assert(first@ =~= first_equation(s, e));
        assert(second@ =~= second_equation(s, e));
        add_equation(&mut ata, &first);
        add_equation(&mut ata, &second);
        i = i + 1;
    }
    ata
}

fn trace_of(a: &Matrix) -> (t: Double)
    requires
        solve::is_shaped(solve::entries(a@), 9, 9),
    ensures
        t == trace(solve::entries(a@), 9),
{
    let ghost g = solve::entries(a@);
    let mut t: Double = Double::from_bits(0);
    let mut i: usize = 0;
    while i < 9
        invariant
            i <= 9,
            g == solve::entries(a@),
            solve::is_shaped(g, 9, 9),
            t == trace(g, i as int),
        decreases 9 - i,
    {
        assert(g[i as int] == a@[i as int]@);
        t = t + a[i][i];
        i = i + 1;
    }
    t
}

proof fn lemma_eigenvector_length(a: Seq<Seq<Double>>, n: int, sweeps: nat, v: Seq<Seq<Double>>)
    requires
        v.len() == n,
    ensures
        eigen::diagonalized(a, v, n, sweeps).1.len() == n,
    decreases sweeps,
{
    if sweeps > 0 {
        lemma_swept_length(a, v, n, n);
        let (b, w) = eigen::swept(a, v, n, n);
        lemma_eigenvector_length(b, n, (sweeps - 1) as nat, w);
    }
}

proof fn lemma_swept_length(a: Seq<Seq<Double>>, v: Seq<Seq<Double>>, n: int, rows: int)
    ensures
        eigen::swept(a, v, n, rows).1.len() == v.len(),
    decreases rows,
{
    if rows > 0 {
        lemma_swept_length(a, v, n, rows - 1);
        let (b, w) = eigen::swept(a, v, n, rows - 1);
        lemma_swept_row_length(b, w, rows - 1, n);
    }
}

proof fn lemma_swept_row_length(a: Seq<Seq<Double>>, v: Seq<Seq<Double>>, p: int, end: int)
    ensures
        eigen::swept_row(a, v, p, end).1.len() == v.len(),
    decreases end - p,
{
    if end > p + 1 {
        lemma_swept_row_length(a, v, p, end - 1);
    }
}

fn find_null_vector(ata: &mut Matrix) -> (hn: Option<Mat3>)
    requires
        solve::is_shaped(solve::entries(old(ata)@), 9, 9),
    ensures
        hn == null_vector(solve::entries(old(ata)@)),
{
    let t: Double = trace_of(ata);
    proof {
        lemma_eigenvector_length(solve::entries(ata@), 9, eigen::SWEEPS as nat, eigen::unit(9));
    }
    let (v, _, second) = smallest_eigenpair_sym(ata);
    if second.lt(&(Double::from_bits(DEGENERATE) * t.max(&Double::from_bits(MIN_POSITIVE)))) {
        return None;
    }
    Some([v[0], v[1], v[2], v[3], v[4], v[5], v[6], v[7], v[8]])
}

fn unit_norm(h: &Mat3) -> (u: Option<Mat3>)
    ensures
        u == to_unit_norm(*h),
{
    let mut n2: Double = Double::from_bits(0);
    let mut i: usize = 0;
    while i < 9
        invariant
            i <= 9,
            n2 == squares(*h, i as int),
        decreases 9 - i,
    {
        n2 = n2 + h[i] * h[i];
        i = i + 1;
    }
    if n2.lt(&Double::from_bits(LEAST_NORM)) {
        return None;
    }
    let k: Double = Double::from_bits(ONE) / n2.sqrt();
    Some(
        [
            h[0] * k,
            h[1] * k,
            h[2] * k,
            h[3] * k,
            h[4] * k,
            h[5] * k,
            h[6] * k,
            h[7] * k,
            h[8] * k,
        ],
    )
}

/// Direct Linear Transform with Hartley normalization. Needs four or more
/// correspondences `src[i]` -> `dst[i]`; returns the homography with unit
/// Frobenius norm, or `None` on degenerate input.
pub fn dlt(src: &Vec<Point>, dst: &Vec<Point>) -> (h: Option<Homography>)
    requires
        src@.len() < 0x20_0000_0000_0000,
    ensures
        h is Some <==> transform_of(src@, dst@) is Some,
        h matches Some(m) ==> transform_of(src@, dst@) == Some(m.0),
{
    if src.len() < 4 || dst.len() != src.len() {
        return None;
    }
    let t_src: Mat3 = match normalizing_transform(src) {
        None => {
            return None;
        },
        Some(t) => t,
    };
    let t_dst: Mat3 = match normalizing_transform(dst) {
        None => {
            return None;
        },
        Some(t) => t,
    };
    let mut ata: Matrix = accumulate(&t_src, &t_dst, src, dst);
    let hn: Mat3 = match find_null_vector(&mut ata) {
        None => {
            return None;
        },
        Some(hn) => hn,
    };
    let inv: Mat3 = match mat3_inv(&t_dst) {
        None => {
            return None;
        },
        Some(inv) => inv,
    };
    match unit_norm(&mat3_mul(&mat3_mul(&inv, &hn), &t_src)) {
        None => None,
        Some(h) => Some(Homography(h)),
    }
}

/// How far a homography puts a point from its target.
pub open spec fn miss(h: Mat3, s: Point, e: Point) -> Double {
    match homography::image_of(h, s[0], s[1]) {
        Some((u, v)) => chain::gap([u, v], e),
        None => Double { bits: POS_INFINITY },
    }
}

/// How far a homography puts each point from its target.
pub open spec fn misses(h: Mat3, src: Seq<Point>, dst: Seq<Point>) -> Seq<Double> {
    Seq::new(
        if src.len() <= dst.len() {
            src.len()
        } else {
            dst.len()
        },
        |i: int| miss(h, src[i], dst[i]),
    )
}

/// Per-point reprojection errors |H src - dst|.
pub fn reprojection_errors(h: &Homography, src: &Vec<Point>, dst: &Vec<Point>) -> (errors: Vec<
    Double,
>)
    ensures
        errors@ == misses(h.0, src@, dst@),
{
    let mut errors: Vec<Double> = Vec::new();
    let mut i: usize = 0;
    while i < src.len() && i < dst.len()
        invariant
            i <= src@.len(),
            i <= dst@.len(),
            errors@.len() == i,
            forall|k: int| 0 <= k < i ==> #[trigger] errors@[k] == miss(h.0, src@[k], dst@[k]),
        decreases src@.len() - i,
    {
        let off: Double = match h.apply(src[i][0], src[i][1]) {
            Some((u, v)) => chain::distance(&[u, v], &dst[i]),
            None => Double::from_bits(POS_INFINITY),
        };
        errors.push(off);
        i = i + 1;
    }
    assert(errors@ =~= misses(h.0, src@, dst@));
    errors
}

} // verus!
