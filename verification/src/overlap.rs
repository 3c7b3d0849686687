//! Frame-to-frame shift of two thumbnails by zero-mean normalized correlation of
//! where they overlap.
use vstd::prelude::*;

use crate::coach::Thumb;
use crate::double;
use crate::double::Double;
use crate::ncc;
use crate::plane;
use crate::shift;
use crate::shift::{ncc_shift_local, Shift, Surface, NO_SCORE};
use crate::single;

verus! {

/// An overlap is wider and higher than this (thumb px).
pub const MIN_OVERLAP: usize = 4;

/// Sum of squared deviations below which an overlap is flat: the bits of 1e-6.
pub const FLAT_OVERLAP: u64 = 0x3eb0_c6f7_a0b5_ed8d;

/// Offset that is larger than any thumbnail.
pub const BEYOND: i64 = 0x100_0000_0000;

/// Mean luma of a thumbnail pixel, in single precision.
pub open spec fn thumb_value(sum: u32, area: u32) -> Double {
    single::nearest_single(double::whole(sum as int).per(double::whole(area as int)))
}

/// The `nw` x `nh` values of a thumbnail from (`x0`, `y0`) on, row by row.
pub open spec fn cutout(
    sums: Seq<u32>,
    area: u32,
    tw: int,
    x0: int,
    y0: int,
    nw: int,
    nh: int,
) -> Seq<Double> {
    Seq::new(
        (nw * nh) as nat,
        |k: int| thumb_value(sums[plane::index_of(tw, x0 + k % nw, y0 + k / nw)], area),
    )
}

/// Sum of the first `n` values.
pub open spec fn total(u: Seq<Double>, n: int) -> Double
    decreases n,
{
    if n <= 0 {
        Double { bits: 0 }
    } else {
        total(u, n - 1) + u[n - 1]
    }
}

/// How far each value is from the mean of all.
pub open spec fn centred(u: Seq<Double>) -> Seq<Double> {
    let mean = total(u, u.len() as int).per(double::whole(u.len() as int));
    u.map_values(|v: Double| v - mean)
}

/// Correlation of two overlaps, given their deviations from the mean.
pub open spec fn overlap_correlation(u: Seq<Double>, v: Seq<Double>) -> Double {
    let n = u.len() as int;
    let du = ncc::covariance(u, u, n);
    let dv = ncc::covariance(v, v, n);
    let flat = Double { bits: FLAT_OVERLAP };
    if du.less(flat) || dv.less(flat) {
        Double { bits: NO_SCORE }
    } else {
        ncc::covariance(u, v, n).per((du * dv).root())
    }
}

/// Where an overlap starts in the earlier thumbnail.
pub open spec fn first_of(d: int) -> int {
    if d < 0 {
        -d
    } else {
        0
    }
}

/// How many of `n` columns or rows overlap under a shift.
pub open spec fn shared(n: int, d: int) -> int {
    if d < 0 {
        n + d
    } else {
        n - d
    }
}

/// The score of each shift of the earlier thumbnail `a` against `b`: none where
/// the overlap is too small or flat.
pub open spec fn shift_surface(a: Thumb, b: Thumb, tw: int, th: int) -> Surface {
    |dx: int, dy: int|
        {
            let (nw, nh) = (shared(tw, dx), shared(th, dy));
            if nw <= MIN_OVERLAP || nh <= MIN_OVERLAP {
                Double { bits: NO_SCORE }
            } else {
                let (x0, y0) = (first_of(dx), first_of(dy));
                overlap_correlation(
                    centred(cutout(a.sums@, a.area, tw, x0, y0, nw, nh)),
                    centred(cutout(b.sums@, b.area, tw, x0 + dx, y0 + dy, nw, nh)),
                )
            }
        }
}

fn cut(t: &Thumb, tw: usize, th: usize, x0: usize, y0: usize, nw: usize, nh: usize) -> (u: Vec<
    Double,
>)
    requires
        t.sums@.len() == tw * th,
        0 < nw,
        x0 + nw <= tw,
        y0 + nh <= th,
        nw * nh <= usize::MAX,
    ensures
        u@ == cutout(t.sums@, t.area, tw as int, x0 as int, y0 as int, nw as int, nh as int),
{
    let n: usize = nw * nh;
    let area: Double = Double::from_count(t.area as u64);
    let mut u: Vec<Double> = Vec::new();
    let mut k: usize = 0;
    while k < n
        invariant
            t.sums@.len() == tw * th,
            0 < nw,
            x0 + nw <= tw,
            y0 + nh <= th,
            n == nw * nh,
            area == double::whole(t.area as int),
            k <= n,
            u@.len() == k,
            forall|j: int|
                0 <= j < k ==> #[trigger] u@[j] == thumb_value(
                    t.sums@[plane::index_of(
                        tw as int,
                        x0 + j % (nw as int),
                        y0 + j / (nw as int),
                    )],
                    t.area,
                ),
        decreases n - k,
    {
        proof {
            plane::lemma_index_unsplit(nw as int, nh as int, k as int);
            plane::lemma_index_bounds(
                tw as int,
                th as int,
                x0 + k as int % nw as int,
                y0 + k as int / nw as int,
            );
            assert(t.sums@.len() == t.sums.len());
        }
        let x: usize = x0 + k % nw;
        let y: usize = y0 + k / nw;
        let v: Double = Double::from_count(t.sums[y * tw + x] as u64) / area;
        u.push(v.to_single());
        k = k + 1;
    }
    assert(u@ =~= cutout(t.sums@, t.area, tw as int, x0 as int, y0 as int, nw as int, nh as int));
    u
}

/// The values of a thumbnail.
pub open spec fn thumb_values(t: Thumb) -> Seq<Double> {
    t.sums@.map_values(|s: u32| thumb_value(s, t.area))
}

/// Mean luma of a thumbnail; 0, if it has no pixels.
pub open spec fn mean_of(t: Thumb) -> Double {
    total(thumb_values(t), t.sums@.len() as int).per(
        double::whole(
            if t.sums@.len() == 0 {
                1
            } else {
                t.sums@.len() as int
            },
        ),
    )
}

/// Mean luma of a thumbnail; 0, if it has no pixels.
pub fn mean_luma(t: &Thumb) -> (m: Double)
    requires
        t.sums@.len() < 0x20_0000_0000_0000,
    ensures
        m == mean_of(*t),
{
    let area: Double = Double::from_count(t.area as u64);
    let n: usize = t.sums.len();
    let mut sum: Double = Double::from_bits(0);
    let mut i: usize = 0;
    while i < n
        invariant
            n == t.sums@.len(),
            area == double::whole(t.area as int),
            i <= n,
            sum == total(thumb_values(*t), i as int),
        decreases n - i,
    {
        sum = sum + (Double::from_count(t.sums[i] as u64) / area).to_single();
        i = i + 1;
    }
    let count: usize = if n == 0 {
        1
    } else {
        n
    };
    sum / Double::from_count(count as u64)
}

fn centre(u: &Vec<Double>) -> (out: Vec<Double>)
    requires
        u@.len() < 0x20_0000_0000_0000,
    ensures
        out@ == centred(u@),
{
    let mut sum: Double = Double::from_bits(0);
    let mut i: usize = 0;
    while i < u.len()
        invariant
            i <= u@.len(),
            sum == total(u@, i as int),
        decreases u@.len() - i,
    {
        sum = sum + u[i];
        i = i + 1;
    }
    let mean: Double = sum / Double::from_count(u.len() as u64);
    let mut out: Vec<Double> = Vec::new();
    let mut k: usize = 0;
    while k < u.len()
        invariant
            k <= u@.len(),
            out@.len() == k,
            forall|j: int| 0 <= j < k ==> #[trigger] out@[j] == u@[j] - mean,
        decreases u@.len() - k,
    {
        out.push(u[k] - mean);
        k = k + 1;
    }
    assert(out@ =~= centred(u@));
    out
}

fn covary(u: &Vec<Double>, v: &Vec<Double>) -> (c: Double)
    requires
        u@.len() == v@.len(),
    ensures
        c == ncc::covariance(u@, v@, u@.len() as int),
{
    let mut c: Double = Double::from_bits(0);
    let mut k: usize = 0;
    while k < u.len()
        invariant
            u@.len() == v@.len(),
            k <= u@.len(),
            c == ncc::covariance(u@, v@, k as int),
        decreases u@.len() - k,
    {
        c = c + u[k] * v[k];
        k = k + 1;
    }
    c
}

fn correlate(u: &Vec<Double>, v: &Vec<Double>) -> (s: Double)
    requires
        u@.len() == v@.len(),
    ensures
        s == overlap_correlation(u@, v@),
{
    let du: Double = covary(u, u);
    let dv: Double = covary(v, v);
    let flat: Double = Double::from_bits(FLAT_OVERLAP);
    if du.lt(&flat) || dv.lt(&flat) {
        return Double::from_bits(NO_SCORE);
    }
    covary(u, v) / (du * dv).sqrt()
}

/// How many of `n` columns or rows overlap under a shift, if enough.
fn overlap_side(n: usize, d: i64) -> (m: Option<usize>)
    requires
        n <= i32::MAX,
        -BEYOND < d < BEYOND,
    ensures
        m is None <==> shared(n as int, d as int) <= MIN_OVERLAP,
        m matches Some(m) ==> m == shared(n as int, d as int),
{
    let m: i64 = if d < 0 {
        n as i64 + d
    } else {
        n as i64 - d
    };
    if m <= MIN_OVERLAP as i64 {
        None
    } else {
        Some(m as usize)
    }
}

fn score_shift(a: &Thumb, b: &Thumb, tw: usize, th: usize, dx: i64, dy: i64) -> (s: Double)
    requires
        a.sums@.len() == tw * th,
        b.sums@.len() == tw * th,
        tw <= i32::MAX,
        th <= i32::MAX,
        tw * th < 0x20_0000_0000_0000,
    ensures
        s == shift_surface(*a, *b, tw as int, th as int)(dx as int, dy as int),
{
    if dx <= -BEYOND || dx >= BEYOND || dy <= -BEYOND || dy >= BEYOND {
        return Double::from_bits(NO_SCORE);
    }
    match (overlap_side(tw, dx), overlap_side(th, dy)) {
        (Some(nw), Some(nh)) => {
            let (x0, bx): (usize, usize) = if dx < 0 {
                ((-dx) as usize, 0)
            } else {
                (0, dx as usize)
            };
            let (y0, by): (usize, usize) = if dy < 0 {
                ((-dy) as usize, 0)
            } else {
                (0, dy as usize)
            };
            proof {
                assert(nw * nh <= tw * th) by (nonlinear_arith)
                    requires
                        0 <= nw <= tw,
                        0 <= nh <= th,
                ;
                assert(a.sums@.len() == a.sums.len());
            }
            let u: Vec<Double> = cut(a, tw, th, x0, y0, nw, nh);
            let v: Vec<Double> = cut(b, tw, th, bx, by, nw, nh);
            correlate(&centre(&u), &centre(&v))
        },
        _ => Double::from_bits(NO_SCORE),
    }
}

/// Incremental translation between two consecutive thumbnails by zero-mean NCC
/// over a small window, with parabolic sub-pixel refinement, in thumb px.
pub fn thumb_shift(a: &Thumb, b: &Thumb, tw: usize, th: usize) -> (shift: Option<Shift>)
    requires
        a.sums@.len() == tw * th,
        b.sums@.len() == tw * th,
        tw <= i32::MAX,
        th <= i32::MAX,
        tw * th < 0x20_0000_0000_0000,
    ensures
        shift::is_shift(shift_surface(*a, *b, tw as int, th as int), shift),
{
    let score = |dx: i64, dy: i64| -> (s: Double)
        ensures
            s == shift_surface(*a, *b, tw as int, th as int)(dx as int, dy as int),
        { score_shift(a, b, tw, th, dx, dy) };
    assert(shift::scores(&score, shift_surface(*a, *b, tw as int, th as int)));
    ncc_shift_local(&score)
}

} // verus!
