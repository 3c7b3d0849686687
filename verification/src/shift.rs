//! Frame-to-frame shift: the peak of a correlation score over a small window,
//! with parabolic sub-pixel refinement.
use vstd::prelude::*;

use crate::double;
use crate::double::Double;

verus! {

/// Frame-to-frame shift search radius in thumb px (consecutive video frames
/// move little; a small window also cannot alias on periodic wall texture).
pub const SHIFT_RADIUS: i64 = 8;

/// Score of a shift whose correlation is undefined: the bits of -2.0.
pub const NO_SCORE: u64 = 0xc000_0000_0000_0000;

/// The bits of 0.5.
pub const ONE_HALF: u64 = 0x3fe0_0000_0000_0000;

/// The bits of -0.5.
pub const MINUS_HALF: u64 = 0xbfe0_0000_0000_0000;

/// The bits of 2.0.
pub const TWO: u64 = 0x4000_0000_0000_0000;

/// Curvature below which a score surface counts as flat: the bits of 1e-12.
pub const FLAT_SHIFT: u64 = 0x3d71_9799_812d_ea11;

/// A translation between two frames and its score.
#[derive(Clone, Copy, Debug)]
pub struct Shift {
    pub dx: Double,
    pub dy: Double,
    pub score: Double,
}

/// A translation in whole px and its score.
pub struct Peak {
    pub dx: i64,
    pub dy: i64,
    pub score: Double,
}

/// The score of each shift, as a function of it.
pub type Surface = spec_fn(int, int) -> Double;

/// `score` answers for every shift.
pub open spec fn is_total<F: Fn(i64, i64) -> Double>(score: &F) -> bool {
    forall|dx: i64, dy: i64| call_requires(score, (dx, dy))
}

/// `score` computes `f`.
pub open spec fn scores<F: Fn(i64, i64) -> Double>(score: &F, f: Surface) -> bool {
    forall|dx: i64, dy: i64, s: Double| #[trigger]
        call_ensures(score, (dx, dy), s) ==> s == f(dx as int, dy as int)
}

/// Shift number `k` of a window of this radius, row by row.
pub open spec fn nth_shift(radius: int, k: int) -> (int, int) {
    (k % (2 * radius + 1) - radius, k / (2 * radius + 1) - radius)
}

/// Score of shift number `k`.
pub open spec fn nth_score(f: Surface, radius: int, k: int) -> Double {
    f(nth_shift(radius, k).0, nth_shift(radius, k).1)
}

/// Shift number `k` is the first of the first `n` with the highest score, and
/// that score is above that of an undefined correlation.
pub open spec fn is_first_peak(f: Surface, radius: int, n: int, k: int) -> bool {
    &&& 0 <= k < n
    &&& (Double { bits: NO_SCORE }).less(nth_score(f, radius, k))
    &&& forall|j: int|
        0 <= j < n ==> !nth_score(f, radius, k).less(#[trigger] nth_score(f, radius, j))
    &&& forall|j: int| 0 <= j < k ==> (#[trigger] nth_score(f, radius, j)).less(
        nth_score(f, radius, k),
    ) || nth_score(f, radius, j).nan()
}

/// No shift among the first `n` has a score above that of an undefined
/// correlation.
pub open spec fn is_flat(f: Surface, radius: int, n: int) -> bool {
    forall|j: int|
        0 <= j < n ==> !(Double { bits: NO_SCORE }).less(#[trigger] nth_score(f, radius, j))
}

/// Number of shifts in a window.
pub open spec fn window(radius: int) -> int {
    (2 * radius + 1) * (2 * radius + 1)
}

/// `peak` is the highest-scoring shift of a window, the first in row order among
/// equals, if any has a score.
pub open spec fn is_peak(f: Surface, radius: int, peak: Option<Peak>) -> bool {
    match peak {
        None => is_flat(f, radius, window(radius)),
        Some(p) => p.score == f(p.dx as int, p.dy as int) && exists|k: int| #[trigger]
            is_first_peak(f, radius, window(radius), k) && nth_shift(radius, k) == (
                p.dx as int,
                p.dy as int,
            ),
    }
}

/// The best of the first `n` shifts is number `k`.
spec fn is_best_so_far(f: Surface, radius: int, n: int, k: int, best: Option<Peak>) -> bool {
    match best {
        None => is_flat(f, radius, n),
        Some(p) => {
            &&& is_first_peak(f, radius, n, k)
            &&& nth_shift(radius, k) == (p.dx as int, p.dy as int)
            &&& p.score == f(p.dx as int, p.dy as int)
        },
    }
}

/// Highest-scoring shift of a window, the first in row order among equals.
pub fn find_peak<F: Fn(i64, i64) -> Double>(score: &F, radius: i64) -> (peak: Option<Peak>)
    requires
        is_total(score),
        0 <= radius <= 1000,
    ensures
        peak matches Some(p) ==> -radius <= p.dx <= radius && -radius <= p.dy <= radius,
        forall|f: Surface| #[trigger] scores(score, f) ==> is_peak(f, radius as int, peak),
{
    let ghost r = radius as int;
    let side: i64 = 2 * radius + 1;
    let mut best: Option<Peak> = None;
    let mut best_score: Double = Double::from_bits(NO_SCORE);
    let ghost mut best_k: int = 0;
    let ghost mut k: int = 0;
    let mut dy: i64 = -radius;
    proof {
        assert(side * 0 == 0);
    }
    while dy <= radius
        invariant
            is_total(score),
            0 <= radius <= 1000,
            r == radius,
            side == 2 * r + 1,
            -radius <= dy <= radius + 1,
            k == (dy + r) * side,
            !best_score.nan(),
            best is None ==> best_score == (Double { bits: NO_SCORE }),
            best matches Some(p) ==> {
                &&& p.score == best_score
                &&& -radius <= p.dx <= radius
                &&& -radius <= p.dy <= radius
            },
            forall|f: Surface| #[trigger]
                scores(score, f) ==> is_best_so_far(f, r, k, best_k, best),
        decreases radius + 1 - dy,
    {
        let mut dx: i64 = -radius;
        while dx <= radius
            invariant
                is_total(score),
                0 <= radius <= 1000,
                r == radius,
                side == 2 * r + 1,
                -radius <= dy <= radius,
                -radius <= dx <= radius + 1,
                k == (dy + r) * side + (dx + r),
                !best_score.nan(),
                best is None ==> best_score == (Double { bits: NO_SCORE }),
                best matches Some(p) ==> {
                    &&& p.score == best_score
                    &&& -radius <= p.dx <= radius
                    &&& -radius <= p.dy <= radius
                },
                forall|f: Surface| #[trigger]
                    scores(score, f) ==> is_best_so_far(f, r, k, best_k, best),
            decreases radius + 1 - dx,
        {
            let s: Double = score(dx, dy);
            proof {
                vstd::arithmetic::div_mod::lemma_fundamental_div_mod_converse(
                    k,
                    side as int,
                    dy + r,
                    dx + r,
                );
                assert(nth_shift(r, k) == (dx as int, dy as int));
                assert(call_ensures(score, (dx, dy), s));
                assert(k >= 0) by (nonlinear_arith)
                    requires
                        k == (dy + r) * side + (dx + r),
                        dy + r >= 0,
                        dx + r >= 0,
                        side >= 1,
                ;
            }
            if best_score.lt(&s) {
                proof {
                    assert forall|f: Surface| #[trigger] scores(score, f) implies is_first_peak(
                        f,
                        r,
                        k + 1,
                        k,
                    ) by {
                        assert(nth_score(f, r, k) == s);
                        assert(is_best_so_far(f, r, k, best_k, best));
                        if best is Some {
                            assert(nth_score(f, r, best_k) == best_score);
                        }
                    }
                    best_k = k;
                }
                best = Some(Peak { dx, dy, score: s });
                best_score = s;
            } else {
                proof {
                    assert forall|f: Surface| #[trigger] scores(score, f) implies is_best_so_far(
                        f,
                        r,
                        k + 1,
                        best_k,
                        best,
                    ) by {
                        assert(nth_score(f, r, k) == s);
                        assert(is_best_so_far(f, r, k, best_k, best));
                        if best is Some {
                            assert(nth_score(f, r, best_k) == best_score);
                        }
                    }
                }
            }
            dx = dx + 1;
            proof {
                k = k + 1;
            }
        }
        dy = dy + 1;
        proof {
            assert(k == (dy + r) * side) by (nonlinear_arith)
                requires
                    k == (dy - 1 + r) * side + (dx + r),
                    dx + r == side,
            ;
        }
    }
    proof {
        assert(k == window(r)) by {
            assert((radius + 1 + r) * side == (2 * r + 1) * (2 * r + 1)) by (nonlinear_arith)
                requires
                    radius == r,
                    side == 2 * r + 1,
            ;
        }
        assert forall|f: Surface| #[trigger] scores(score, f) implies is_peak(f, r, best) by {
            assert(is_best_so_far(f, r, window(r), best_k, best));
        }
    }
    best
}

/// Offset of the vertex of the parabola through three neighbouring scores,
/// clamped to half a pixel; none on a flat or undefined surface.
pub open spec fn vertex(flat: u64, m: Double, l: Double, r: Double) -> Double {
    let denom = double::sum(
        double::difference(l, double::product(Double { bits: TWO }, m)),
        r,
    );
    if double::absolute(denom).less(Double { bits: flat }) || l.at_most(Double { bits: NO_SCORE })
        || r.at_most(Double { bits: NO_SCORE }) {
        Double { bits: 0 }
    } else {
        let offset = double::quotient(
            double::product(Double { bits: ONE_HALF }, double::difference(l, r)),
            denom,
        );
        if offset.less(Double { bits: MINUS_HALF }) {
            Double { bits: MINUS_HALF }
        } else if (Double { bits: ONE_HALF }).less(offset) {
            Double { bits: ONE_HALF }
        } else {
            offset
        }
    }
}

/// Parabolic sub-pixel refinement, see [`vertex`].
pub fn refine(flat: u64, m: &Double, l: &Double, r: &Double) -> (offset: Double)
    ensures
        offset == vertex(flat, *m, *l, *r),
{
    let denom: Double = l.minus(&Double::from_bits(TWO).times(m)).plus(r);
    let none: Double = Double::from_bits(NO_SCORE);
    if denom.abs().lt(&Double::from_bits(flat)) || l.le(&none) || r.le(&none) {
        return Double::from_bits(0);
    }
    let offset: Double = Double::from_bits(ONE_HALF).times(&l.minus(r)).over(&denom);
    if offset.lt(&Double::from_bits(MINUS_HALF)) {
        Double::from_bits(MINUS_HALF)
    } else if Double::from_bits(ONE_HALF).lt(&offset) {
        Double::from_bits(ONE_HALF)
    } else {
        offset
    }
}

/// The double that is the whole number `n`, negative ones too.
pub open spec fn signed_whole(n: int) -> Double {
    if n < 0 {
        double::whole(-n).opposite()
    } else {
        double::whole(n)
    }
}

/// A small whole number as a double.
pub fn from_signed(n: i64) -> (d: Double)
    requires
        -0x20_0000_0000_0000 < n < 0x20_0000_0000_0000,
    ensures
        d == signed_whole(n as int),
{
    if n < 0 {
        Double::from_count((-n) as u64).negate()
    } else {
        Double::from_count(n as u64)
    }
}

/// The refined shift of a peak.
pub open spec fn refined(f: Surface, dx: int, dy: int) -> Shift {
    let m = f(dx, dy);
    Shift {
        dx: signed_whole(dx) + vertex(FLAT_SHIFT, m, f(dx - 1, dy), f(dx + 1, dy)),
        dy: signed_whole(dy) + vertex(FLAT_SHIFT, m, f(dx, dy - 1), f(dx, dy + 1)),
        score: m,
    }
}

/// `shift` is the refined peak of a surface, if it has one.
pub open spec fn is_shift(f: Surface, shift: Option<Shift>) -> bool {
    let r = SHIFT_RADIUS as int;
    match shift {
        None => is_flat(f, r, window(r)),
        Some(s) => exists|k: int| #[trigger]
            is_first_peak(f, r, window(r), k)
                && s == refined(f, nth_shift(r, k).0, nth_shift(r, k).1),
    }
}

/// One call of the score.
fn ask<F: Fn(i64, i64) -> Double>(score: &F, dx: i64, dy: i64) -> (s: Double)
    requires
        is_total(score),
    ensures
        forall|f: Surface| #[trigger] scores(score, f) ==> s == f(dx as int, dy as int),
{
    let s: Double = score(dx, dy);
    assert(call_ensures(score, (dx, dy), s));
    s
}

/// Incremental translation between two consecutive-frame thumbnails: the peak
/// of `score` over a small window, with parabolic sub-pixel refinement, in
/// thumb px. `score(dx, dy)` is the zero-mean correlation of the overlap when
/// the earlier frame is shifted by (dx, dy), and -2 where that is undefined.
pub fn ncc_shift_local<F: Fn(i64, i64) -> Double>(score: &F) -> (shift: Option<Shift>)
    requires
        is_total(score),
    ensures
        forall|f: Surface| #[trigger] scores(score, f) ==> is_shift(f, shift),
{
    match find_peak(score, SHIFT_RADIUS) {
        None => None,
        Some(p) => {
            let w: Double = ask(score, p.dx - 1, p.dy);
            let e: Double = ask(score, p.dx + 1, p.dy);
            let n: Double = ask(score, p.dx, p.dy - 1);
            let s: Double = ask(score, p.dx, p.dy + 1);
            let ox: Double = refine(FLAT_SHIFT, &p.score, &w, &e);
            let oy: Double = refine(FLAT_SHIFT, &p.score, &n, &s);
            let shift: Shift = Shift {
                dx: from_signed(p.dx) + ox,
                dy: from_signed(p.dy) + oy,
                score: p.score,
            };
            proof {
                assert forall|f: Surface| #[trigger] scores(score, f) implies is_shift(
                    f,
                    Some(shift),
                ) by {
                    assert(is_peak(f, SHIFT_RADIUS as int, Some(p)));
                    assert(shift == refined(f, p.dx as int, p.dy as int));
                    let k = choose|k: int| #[trigger]
                        is_first_peak(f, SHIFT_RADIUS as int, window(SHIFT_RADIUS as int), k)
                            && nth_shift(SHIFT_RADIUS as int, k) == (p.dx as int, p.dy as int);
                    assert(is_first_peak(f, SHIFT_RADIUS as int, window(SHIFT_RADIUS as int), k));
                }
            }
            Some(shift)
        },
    }
}

/// Patch radius of feature matching: 13x13.
pub const PATCH_RADIUS: i64 = 6;

/// Search radius of feature matching: covers accumulated shift error plus
/// hand-wobble rotation at the frame edges.
pub const SEARCH_RADIUS: i64 = 18;

/// Minimum peak for a full-resolution patch match: the bits of 0.55.
pub const MIN_MATCH_NCC: u64 = 0x3fe1_9999_9999_999a;

/// Curvature below which a match surface counts as flat: the bits of 1e-9.
pub const FLAT_MATCH: u64 = 0x3e11_2e0b_e826_d695;

/// A patch around (x, y) lies inside the frame.
pub open spec fn is_patch(w: int, h: int, x: int, y: int) -> bool {
    PATCH_RADIUS <= x < w - PATCH_RADIUS && PATCH_RADIUS <= y < h - PATCH_RADIUS
}

/// Whether a patch around (x, y) lies inside the frame.
pub fn patch_fits(width: usize, height: usize, x: i64, y: i64) -> (r: bool)
    requires
        width <= i64::MAX,
        height <= i64::MAX,
    ensures
        r == is_patch(width as int, height as int, x as int, y as int),
{
    x >= PATCH_RADIUS && y >= PATCH_RADIUS && x < width as i64 - PATCH_RADIUS && y < height as i64
        - PATCH_RADIUS
}

/// The score of a match offset; offsets beyond the search window have none.
pub open spec fn match_at(f: Surface, dx: int, dy: int) -> Double {
    if -SEARCH_RADIUS <= dx <= SEARCH_RADIUS && -SEARCH_RADIUS <= dy <= SEARCH_RADIUS {
        f(dx, dy)
    } else {
        Double { bits: NO_SCORE }
    }
}

/// The refined match of a peak around the predicted position.
pub open spec fn matched(f: Surface, cx: int, cy: int, dx: int, dy: int) -> Match {
    let m = f(dx, dy);
    Match {
        x: signed_whole(cx + dx) + vertex(
            FLAT_MATCH,
            m,
            match_at(f, dx - 1, dy),
            match_at(f, dx + 1, dy),
        ),
        y: signed_whole(cy + dy) + vertex(
            FLAT_MATCH,
            m,
            match_at(f, dx, dy - 1),
            match_at(f, dx, dy + 1),
        ),
        score: m,
    }
}

/// A feature's sub-pixel match position and its score.
#[derive(Clone, Copy, Debug)]
pub struct Match {
    pub x: Double,
    pub y: Double,
    pub score: Double,
}

/// `found` is the refined peak of a match surface around (`cx`, `cy`), if it has
/// one that is a credible match.
pub open spec fn is_match(f: Surface, cx: int, cy: int, found: Option<Match>) -> bool {
    let r = SEARCH_RADIUS as int;
    match found {
        None => is_flat(f, r, window(r)) || exists|k: int| #[trigger]
            is_first_peak(f, r, window(r), k)
                && nth_score(f, r, k).less(Double { bits: MIN_MATCH_NCC }),
        Some(m) => !m.score.less(Double { bits: MIN_MATCH_NCC }) && exists|k: int| #[trigger]
            is_first_peak(f, r, window(r), k) && m == matched(
                f,
                cx,
                cy,
                nth_shift(r, k).0,
                nth_shift(r, k).1,
            ),
    }
}

/// A window has one first peak at most.
proof fn lemma_one_first_peak(f: Surface, radius: int, n: int, i: int, j: int)
    requires
        is_first_peak(f, radius, n, i),
        is_first_peak(f, radius, n, j),
    ensures
        i == j,
{
    let (a, b) = (nth_score(f, radius, i), nth_score(f, radius, j));
    assert(!a.less(b) && !b.less(a));
    assert(!a.nan() && !b.nan());
}

/// A score surface determines the match: two searches of it find the same.
pub proof fn law_match_is_unique(
    f: Surface,
    cx: int,
    cy: int,
    one: Option<Match>,
    other: Option<Match>,
)
    requires
        is_match(f, cx, cy, one),
        is_match(f, cx, cy, other),
    ensures
        one == other,
{
    let r = SEARCH_RADIUS as int;
    let n = window(r);
    assert forall|i: int, j: int| #[trigger]
        is_first_peak(f, r, n, i) && #[trigger] is_first_peak(f, r, n, j) implies i == j by {
        lemma_one_first_peak(f, r, n, i, j);
    }
}

fn ask_match<F: Fn(i64, i64) -> Double>(score: &F, dx: i64, dy: i64) -> (s: Double)
    requires
        is_total(score),
    ensures
        forall|f: Surface| #[trigger] scores(score, f) ==> s == match_at(f, dx as int, dy as int),
{
    if dx < -SEARCH_RADIUS || dx > SEARCH_RADIUS || dy < -SEARCH_RADIUS || dy > SEARCH_RADIUS {
        Double::from_bits(NO_SCORE)
    } else {
        ask(score, dx, dy)
    }
}

/// Match a feature around its predicted position (cx, cy): the peak of `score`
/// over the search window, if it is a credible match, refined to sub-pixel.
/// `score(dx, dy)` is the zero-mean correlation of the feature's patch with
/// the patch around (cx + dx, cy + dy), and -2 where that is undefined.
pub fn match_by<F: Fn(i64, i64) -> Double>(score: &F, cx: i64, cy: i64) -> (found: Option<Match>)
    requires
        is_total(score),
        -0x1_0000_0000_0000 < cx < 0x1_0000_0000_0000,
        -0x1_0000_0000_0000 < cy < 0x1_0000_0000_0000,
    ensures
        forall|f: Surface| #[trigger] scores(score, f) ==> is_match(f, cx as int, cy as int, found),
{
    match find_peak(score, SEARCH_RADIUS) {
        None => None,
        Some(p) => {
            if p.score.lt(&Double::from_bits(MIN_MATCH_NCC)) {
                proof {
                    assert forall|f: Surface| #[trigger] scores(score, f) implies is_match(
                        f,
                        cx as int,
                        cy as int,
                        None,
                    ) by {
                        assert(is_peak(f, SEARCH_RADIUS as int, Some(p)));
                    }
                }
                return None;
            }
            let w: Double = ask_match(score, p.dx - 1, p.dy);
            let e: Double = ask_match(score, p.dx + 1, p.dy);
            let n: Double = ask_match(score, p.dx, p.dy - 1);
            let s: Double = ask_match(score, p.dx, p.dy + 1);
            let ox: Double = refine(FLAT_MATCH, &p.score, &w, &e);
            let oy: Double = refine(FLAT_MATCH, &p.score, &n, &s);
            let found: Match = Match {
                x: from_signed(cx + p.dx) + ox,
                y: from_signed(cy + p.dy) + oy,
                score: p.score,
            };
            proof {
                assert forall|f: Surface| #[trigger] scores(score, f) implies is_match(
                    f,
                    cx as int,
                    cy as int,
                    Some(found),
                ) by {
                    assert(is_peak(f, SEARCH_RADIUS as int, Some(p)));
                    assert(found == matched(f, cx as int, cy as int, p.dx as int, p.dy as int));
                    let k = choose|k: int| #[trigger]
                        is_first_peak(f, SEARCH_RADIUS as int, window(SEARCH_RADIUS as int), k)
                            && nth_shift(SEARCH_RADIUS as int, k) == (p.dx as int, p.dy as int);
                    assert(is_first_peak(f, SEARCH_RADIUS as int, window(SEARCH_RADIUS as int), k));
                }
            }
            Some(found)
        },
    }
}

} // verus!
