//! Feature matching by zero-mean normalized correlation of 13x13 patches.
use vstd::prelude::*;

use crate::double;
use crate::double::Double;
use crate::edge::Point;
use crate::features;
use crate::integral;
use crate::plane;
use crate::shift;
use crate::shift::{match_by, patch_fits, Match, Surface, NO_SCORE};

verus! {

/// Pixels of a patch.
pub const PATCH: usize = 169;

/// The bits of 169.0.
pub const PATCH_COUNT: u64 = 0x4065_2000_0000_0000;

/// Sum of squared deviations below which a patch is flat: the bits of 1e-3.
pub const FLAT_PATCH: u64 = 0x3f50_624d_d2f1_a9fc;

/// Luma of pixel `k` of the patch around (`x`, `y`), row by row.
pub open spec fn patch_luma(gray: Seq<u8>, w: int, x: int, y: int, k: int) -> Double {
    double::whole(features::luma(gray, w, x - 6 + k % 13, y - 6 + k / 13))
}

/// Sum of the first `n` pixels of a patch.
pub open spec fn patch_sum(gray: Seq<u8>, w: int, x: int, y: int, n: int) -> Double
    decreases n,
{
    if n <= 0 {
        Double { bits: 0 }
    } else {
        patch_sum(gray, w, x, y, n - 1) + patch_luma(gray, w, x, y, n - 1)
    }
}

/// Mean of a patch.
pub open spec fn patch_mean(gray: Seq<u8>, w: int, x: int, y: int) -> Double {
    patch_sum(gray, w, x, y, PATCH as int).per(Double { bits: PATCH_COUNT })
}

/// How far each pixel of a patch is from its mean.
pub open spec fn deviations(gray: Seq<u8>, w: int, x: int, y: int) -> Seq<Double> {
    Seq::new(
        PATCH as nat,
        |k: int| patch_luma(gray, w, x, y, k) - patch_mean(gray, w, x, y),
    )
}

/// Sum of the first `n` products of deviations.
pub open spec fn covariance(u: Seq<Double>, v: Seq<Double>, n: int) -> Double
    decreases n,
{
    if n <= 0 {
        Double { bits: 0 }
    } else {
        covariance(u, v, n - 1) + u[n - 1] * v[n - 1]
    }
}

/// Sum of squared deviations.
pub open spec fn spread(u: Seq<Double>) -> Double {
    covariance(u, u, PATCH as int)
}

/// Correlation of two patches, given their deviations.
pub open spec fn correlation(u: Seq<Double>, v: Seq<Double>) -> Double {
    if spread(v).less(Double { bits: FLAT_PATCH }) {
        Double { bits: NO_SCORE }
    } else {
        covariance(u, v, PATCH as int).per((spread(u) * spread(v)).root())
    }
}

/// The score of each offset from (`cx`, `cy`) for a patch with deviations `u`:
/// none where the patch there is flat or not in the frame.
pub open spec fn match_surface(
    u: Seq<Double>,
    b: Seq<u8>,
    w: int,
    h: int,
    cx: int,
    cy: int,
) -> Surface {
    |dx: int, dy: int|
        if shift::is_patch(w, h, cx + dx, cy + dy) {
            correlation(u, deviations(b, w, cx + dx, cy + dy))
        } else {
            Double { bits: NO_SCORE }
        }
}

/// `found` is where the feature at `p` of plane `a` is in plane `b`, searched
/// around `predicted`: nowhere, if its patch is flat or not in the frame.
pub open spec fn is_found(
    a: Seq<u8>,
    b: Seq<u8>,
    w: int,
    h: int,
    p: Point,
    predicted: Point,
    found: Option<Match>,
) -> bool {
    let (px, py) = (integral::rounded(p[0]), integral::rounded(p[1]));
    let (cx, cy) = (integral::rounded(predicted[0]), integral::rounded(predicted[1]));
    let u = deviations(a, w, px, py);
    if !shift::is_patch(w, h, px, py) || spread(u).less(Double { bits: FLAT_PATCH }) {
        found is None
    } else {
        shift::is_match(match_surface(u, b, w, h, cx, cy), cx, cy, found)
    }
}

/// Two planes determine where a feature is found.
pub proof fn lemma_found_is_unique(
    a: Seq<u8>,
    b: Seq<u8>,
    w: int,
    h: int,
    p: Point,
    predicted: Point,
    one: Option<Match>,
    other: Option<Match>,
)
    requires
        is_found(a, b, w, h, p, predicted, one),
        is_found(a, b, w, h, p, predicted, other),
    ensures
        one == other,
{
    let (px, py) = (integral::rounded(p[0]), integral::rounded(p[1]));
    let (cx, cy) = (integral::rounded(predicted[0]), integral::rounded(predicted[1]));
    let u = deviations(a, w, px, py);
    if shift::is_patch(w, h, px, py) && !spread(u).less(Double { bits: FLAT_PATCH }) {
        shift::law_match_is_unique(match_surface(u, b, w, h, cx, cy), cx, cy, one, other);
    }
}

fn patch_pixel(gray: &[u8], w: usize, h: usize, x: i64, y: i64, k: usize) -> (v: Double)
    requires
        gray@.len() == w * h,
        w <= i32::MAX,
        h <= i32::MAX,
        shift::is_patch(w as int, h as int, x as int, y as int),
        k < PATCH,
    ensures
        v == patch_luma(gray@, w as int, x as int, y as int, k as int),
{
    let qx: usize = (x - 6 + (k % 13) as i64) as usize;
    let qy: usize = (y - 6 + (k / 13) as i64) as usize;
    proof {
        assert(gray@.len() == gray.len());
        plane::lemma_index_bounds(w as int, h as int, qx as int, qy as int);
    }
    Double::from_count(gray[qy * w + qx] as u64)
}

fn patch_deviations(gray: &[u8], w: usize, h: usize, x: i64, y: i64) -> (u: Vec<Double>)
    requires
        gray@.len() == w * h,
        w <= i32::MAX,
        h <= i32::MAX,
        shift::is_patch(w as int, h as int, x as int, y as int),
    ensures
        u@ == deviations(gray@, w as int, x as int, y as int),
{
    let ghost (wi, xi, yi) = (w as int, x as int, y as int);
    let mut sum: Double = Double::from_bits(0);
    let mut k: usize = 0;
    while k < PATCH
        invariant
            gray@.len() == w * h,
            w <= i32::MAX,
            h <= i32::MAX,
            wi == w,
            xi == x,
            yi == y,
            shift::is_patch(wi, h as int, xi, yi),
            k <= PATCH,
            sum == patch_sum(gray@, wi, xi, yi, k as int),
        decreases PATCH - k,
    {
        sum = sum + patch_pixel(gray, w, h, x, y, k);
        k = k + 1;
    }
    let mean: Double = sum / Double::from_bits(PATCH_COUNT);
    let mut u: Vec<Double> = Vec::new();
    let mut i: usize = 0;
    while i < PATCH
        invariant
            gray@.len() == w * h,
            w <= i32::MAX,
            h <= i32::MAX,
            wi == w,
            xi == x,
            yi == y,
            shift::is_patch(wi, h as int, xi, yi),
            mean == patch_mean(gray@, wi, xi, yi),
            i <= PATCH,
            u@.len() == i,
            forall|j: int|
                0 <= j < i ==> #[trigger] u@[j] == patch_luma(gray@, wi, xi, yi, j) - mean,
        decreases PATCH - i,
    {
        u.push(patch_pixel(gray, w, h, x, y, i) - mean);
        i = i + 1;
    }
    assert(u@ =~= deviations(gray@, wi, xi, yi));
    u
}

fn covary(u: &Vec<Double>, v: &Vec<Double>) -> (c: Double)
    requires
        u@.len() == PATCH,
        v@.len() == PATCH,
    ensures
        c == covariance(u@, v@, PATCH as int),
{
    let mut c: Double = Double::from_bits(0);
    let mut k: usize = 0;
    while k < PATCH
        invariant
            u@.len() == PATCH,
            v@.len() == PATCH,
            k <= PATCH,
            c == covariance(u@, v@, k as int),
        decreases PATCH - k,
    {
        c = c + u[k] * v[k];
        k = k + 1;
    }
    c
}

fn correlate(u: &Vec<Double>, spread_u: &Double, v: &Vec<Double>) -> (s: Double)
    requires
        u@.len() == PATCH,
        v@.len() == PATCH,
        *spread_u == spread(u@),
    ensures
        s == correlation(u@, v@),
{
    let spread_v: Double = covary(v, v);
    if spread_v.lt(&Double::from_bits(FLAT_PATCH)) {
        return Double::from_bits(NO_SCORE);
    }
    covary(u, v) / (*spread_u * spread_v).sqrt()
}

/// Position that is too far away for any patch in reach to be in a frame.
pub const FAR: i64 = 0x1_0000_0000;

/// Offset that is too large to lead to a frame from a position that is not
/// [`FAR`].
pub const BEYOND: i64 = 0x100_0000_0000;

fn exceeds(c: i64, limit: i64) -> (r: bool)
    requires
        0 < limit,
    ensures
        r == !(-limit < c < limit),
{
    c <= -limit || c >= limit
}

proof fn lemma_far_is_flat(u: Seq<Double>, b: Seq<u8>, w: int, h: int, cx: int, cy: int)
    requires
        w <= i32::MAX,
        h <= i32::MAX,
        !(-FAR < cx < FAR) || !(-FAR < cy < FAR),
    ensures
        shift::is_match(match_surface(u, b, w, h, cx, cy), cx, cy, None),
{
    let f = match_surface(u, b, w, h, cx, cy);
    let r = shift::SEARCH_RADIUS as int;
    assert forall|j: int| 0 <= j < shift::window(r) implies !(Double { bits: NO_SCORE }).less(
        #[trigger] shift::nth_score(f, r, j),
    ) by {
        let (dx, dy) = shift::nth_shift(r, j);
        vstd::arithmetic::div_mod::lemma_mod_bound(j, 37);
        assert(j / 37 <= 37) by (nonlinear_arith)
            requires
                0 <= j < 37 * 37,
        ;
        assert(-18 <= dx <= 18 && -18 <= dy <= 19);
        assert(!shift::is_patch(w, h, cx + dx, cy + dy));
    }
}

/// Match a feature from `a` into `b` by zero-mean NCC over a search window
/// around `predicted`, with parabolic sub-pixel refinement.
pub fn ncc_match(a: &[u8], b: &[u8], w: usize, h: usize, p: &Point, predicted: &Point) -> (found:
    Option<Match>)
    requires
        a@.len() == w * h,
        b@.len() == w * h,
        w <= i32::MAX,
        h <= i32::MAX,
    ensures
        is_found(a@, b@, w as int, h as int, *p, *predicted, found),
{
    let px: i64 = p[0].round();
    let py: i64 = p[1].round();
    if !patch_fits(w, h, px, py) {
        return None;
    }
    let u: Vec<Double> = patch_deviations(a, w, h, px, py);
    let spread_u: Double = covary(&u, &u);
    if spread_u.lt(&Double::from_bits(FLAT_PATCH)) {
        return None;
    }
    let cx: i64 = predicted[0].round();
    let cy: i64 = predicted[1].round();
    if exceeds(cx, FAR) || exceeds(cy, FAR) {
        proof {
            lemma_far_is_flat(u@, b@, w as int, h as int, cx as int, cy as int);
        }
        return None;
    }
    let score = |dx: i64, dy: i64| -> (s: Double)
        ensures
            s == match_surface(u@, b@, w as int, h as int, cx as int, cy as int)(
                dx as int,
                dy as int,
            ),
        {
            if exceeds(dx, BEYOND) || exceeds(dy, BEYOND) || !patch_fits(w, h, cx + dx, cy + dy) {
                Double::from_bits(NO_SCORE)
            } else {
                correlate(&u, &spread_u, &patch_deviations(b, w, h, cx + dx, cy + dy))
            }
        };
    assert(shift::scores(
        &score,
        match_surface(u@, b@, w as int, h as int, cx as int, cy as int),
    ));
    match_by(&score, cx, cy)
}

} // verus!
