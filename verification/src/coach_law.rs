//! What coaching tells of a whole recording.
use vstd::arithmetic::power2;
use vstd::prelude::*;

use crate::coach;
use crate::coach::{CoachMotion, CoachState, CoachStatus, Thumb};
use crate::double;
use crate::double::Double;
use crate::fit_error;
use crate::rounding;
use crate::significand;

verus! {

/// A coached recording: the states before and after each frame, and what each frame
/// brought.
pub struct Recording {
    pub states: Seq<CoachState>,
    pub thumbs: Seq<Thumb>,
    pub lumas: Seq<Double>,
    pub sighted: Seq<Seq<u16>>,
    pub motions: Seq<CoachMotion>,
}

impl Recording {
    /// Each state comes from the one before it and what the frame brought.
    pub open spec fn is_coached(self, width: int, height: int) -> bool {
        &&& self.states.len() == self.motions.len() + 1
        &&& self.states[0] == coach::unobserved()
        &&& forall|k: int| 0 <= k < self.motions.len() ==> #[trigger] self.is_step(k, width, height)
    }

    pub open spec fn is_step(self, k: int, width: int, height: int) -> bool {
        coach::is_observed(
            self.states[k],
            self.states[k + 1],
            self.thumbs[k],
            self.lumas[k],
            width,
            height,
            self.sighted[k],
            self.motions[k],
        )
    }

    /// Tracked shifts are lengths that a thumbnail can have.
    pub open spec fn is_tracked(self) -> bool {
        forall|k: int|
            0 <= k < self.motions.len() ==> (#[trigger] self.motions[k] matches CoachMotion::Moved {
                thumb_px,
            } ==> thumb_px.finite() && 0real <= rounding::real_of(thumb_px) <= 1048576real)
    }
}

/// How many of the first `n` whole numbers a property holds of.
pub open spec fn tally(holds: spec_fn(int) -> bool, n: int) -> int
    decreases n,
{
    if n <= 0 {
        0
    } else if holds(n - 1) {
        tally(holds, n - 1) + 1
    } else {
        tally(holds, n - 1)
    }
}

/// The frame could not be tracked.
pub open spec fn is_untracked(m: CoachMotion) -> bool {
    m is Untracked
}

/// The frame was tracked, over more than this many thousandths of a thumbnail pixel.
pub open spec fn moved_over(m: CoachMotion, thousandths: int) -> bool {
    m matches CoachMotion::Moved { thumb_px } && 1000real * rounding::real_of(thumb_px)
        > thousandths as real
}

/// The frame was tracked, over more than this many ten-thousandths of the frame width; a
/// thumbnail pixel is eight pixels of the frame.
pub open spec fn outran(m: CoachMotion, width: int, share: int) -> bool {
    m matches CoachMotion::Moved { thumb_px } && 10000real * (8real * rounding::real_of(thumb_px))
        > share as real * width as real
}

proof fn lemma_limits()
    ensures
        rounding::within(
            1000000real * rounding::real_of(
                Double { bits: coach::COACH_BLUR_MIN_MOTION_THUMB_PX },
            ),
            200000real,
            1real,
        ),
        rounding::within(
            1000000real * rounding::real_of(Double { bits: coach::COACH_SPEED_HI_FRAC }),
            28000real,
            1real,
        ),
        rounding::within(
            1000000real * rounding::real_of(Double { bits: coach::COACH_SPEED_LO_FRAC }),
            18000real,
            1real,
        ),
        rounding::within(
            1000000real * rounding::real_of(Double { bits: coach::COACH_SPEED_ALPHA }),
            400000real,
            1real,
        ),
        rounding::within(
            1000000real * rounding::real_of(Double { bits: coach::COACH_SPEED_KEEP }),
            600000real,
            1real,
        ),
        rounding::real_of(Double { bits: coach::THUMB_DIV_BITS }) == 8real,
{
    power2::lemma2_to64();
    power2::lemma2_to64_rest();
    significand::lemma_bits_are(
        Double { bits: coach::COACH_BLUR_MIN_MOTION_THUMB_PX },
        55,
        0x80_0000_0000_0000,
        0x19_9999_9999_999a,
    );
    significand::lemma_bits_are(
        Double { bits: coach::COACH_SPEED_HI_FRAC },
        58,
        0x400_0000_0000_0000,
        0x1c_ac08_3126_e979,
    );
    significand::lemma_bits_are(
        Double { bits: coach::COACH_SPEED_LO_FRAC },
        58,
        0x400_0000_0000_0000,
        0x12_6e97_8d4f_df3b,
    );
    significand::lemma_bits_are(
        Double { bits: coach::COACH_SPEED_ALPHA },
        54,
        0x40_0000_0000_0000,
        0x19_9999_9999_999a,
    );
    significand::lemma_bits_are(
        Double { bits: coach::COACH_SPEED_KEEP },
        53,
        0x20_0000_0000_0000,
        0x13_3333_3333_3333,
    );
    significand::lemma_bits_are(
        Double { bits: coach::THUMB_DIV_BITS },
        49,
        0x2_0000_0000_0000,
        0x10_0000_0000_0000,
    );
}

/// A rounding of a number of no more than 2^40.
proof fn lemma_part(x: real)
    requires
        0real <= x <= 1099511627776real,
    ensures
        0real <= rounding::unit() * x,
        1000000000real * (rounding::unit() * x) <= x,
        1000real * rounding::tiny() <= 1real / 1000000000real,
{
    rounding::lemma_units_are_small();
    let u = rounding::unit();
    assert(0real <= u * x && 1000000000real * (u * x) <= x) by (nonlinear_arith)
        requires
            0real <= x,
            u * 4503599627370496real == 1real,
            u > 0real,
    ;
}

/// A share of the frame width, in doubles.
proof fn lemma_share(share: Double, width: int, millionths: real)
    requires
        share.finite(),
        rounding::within(1000000real * rounding::real_of(share), millionths, 1real),
        10000real <= millionths <= 100000real,
        0 < width <= 0x4000_0000,
    ensures
        ({
            let d = double::product(share, double::whole(width));
            &&& d.finite()
            &&& rounding::within(
                1000000real * rounding::real_of(d),
                millionths * width as real,
                2real * width as real,
            )
        }),
{
    double::lemma_whole(width);
    rounding::lemma_whole_real(double::whole(width), width);
    rounding::lemma_scales();
    let (r, w) = (rounding::real_of(share), width as real);
    let d = 1000000real * r - millionths;
    fit_error::lemma_product_bound(d, w, 1real, w);
    fit_error::lemma_product_bound(r, w, 1real, w);
    assert(d * w == 1000000real * (r * w) - millionths * w) by (nonlinear_arith)
        requires
            d == 1000000real * r - millionths,
    ;
    assert(1real * w == w);
    rounding::lemma_product(share, double::whole(width));
    lemma_part(rounding::size(r * w));
}

/// A thumbnail shift in pixels of the frame.
proof fn lemma_full_res(thumb_px: Double)
    requires
        thumb_px.finite(),
        0real <= rounding::real_of(thumb_px) <= 1048576real,
    ensures
        coach::full_res(thumb_px).finite(),
        rounding::within(
            rounding::real_of(coach::full_res(thumb_px)),
            8real * rounding::real_of(thumb_px),
            8real * rounding::real_of(thumb_px) / 1000000000real + 1real / 1000000000real,
        ),
{
    lemma_limits();
    rounding::lemma_scales();
    let eight = Double { bits: coach::THUMB_DIV_BITS };
    let (x, y) = (rounding::real_of(thumb_px), rounding::real_of(eight));
    assert(x * y == 8real * x) by (nonlinear_arith)
        requires
            y == 8real,
    ;
    rounding::lemma_product(thumb_px, eight);
    lemma_part(8real * x);
}

/// What one frame adds to the two counts of a recording.
proof fn lemma_step(
    before: CoachState,
    after: CoachState,
    thumb: Thumb,
    mean_luma: Double,
    width: int,
    height: int,
    sighted: Seq<u16>,
    motion: CoachMotion,
)
    requires
        coach::is_observed(before, after, thumb, mean_luma, width, height, sighted, motion),
        0 < width <= 0x4000_0000,
        motion matches CoachMotion::Moved { thumb_px } ==> thumb_px.finite() && 0real
            <= rounding::real_of(thumb_px) <= 1048576real,
    ensures
        ({
            let (m, f) = (
                after.motion_frames - before.motion_frames,
                after.fast_frames - before.fast_frames,
            );
            &&& 0 <= f <= m <= 1
            &&& is_untracked(motion) ==> f == 1
            &&& !is_untracked(motion) && !moved_over(motion, 199) ==> m == 0
            &&& moved_over(motion, 201) ==> m == 1
            &&& moved_over(motion, 201) && outran(motion, width, 281) ==> f == 1
            &&& !is_untracked(motion) && !outran(motion, width, 279) ==> f == 0
        }),
{
    if let CoachMotion::Moved { thumb_px } = motion {
        lemma_limits();
        let least = Double { bits: coach::COACH_BLUR_MIN_MOTION_THUMB_PX };
        rounding::lemma_order(thumb_px, least);
        lemma_share(Double { bits: coach::COACH_SPEED_HI_FRAC }, width, 28000real);
        lemma_full_res(thumb_px);
        let (hi, px) = (coach::speed_hi(width), coach::full_res(thumb_px));
        rounding::lemma_order(hi, px);
        let (x, w) = (rounding::real_of(thumb_px), width as real);
        assert(outran(motion, width, 281) == (80000real * x > 281real * w));
        assert(outran(motion, width, 279) == (80000real * x > 279real * w));
        assert(moved_over(motion, 199) == (1000real * x > 199real));
        assert(moved_over(motion, 201) == (1000real * x > 201real));
        let (h, y) = (rounding::real_of(hi), rounding::real_of(px));
        assert(27998real * w <= 1000000real * h <= 28002real * w);
        assert(80000real * x > 281real * w ==> h < y);
        assert(80000real * x <= 279real * w ==> y <= h);
    }
}

/// `blur_fraction` is the share of blurred frames among those that moved, over the whole
/// recording. A frame that could not be tracked counts as blurred and as moved; one that
/// was tracked counts as moved from 0.2 thumbnail pixels on, and as blurred over 2.8% of
/// the frame width; all others, the first frame and repeats among them, count nowhere.
pub proof fn law_blur_fraction_counts_the_recording(
    rec: Recording,
    width: int,
    height: int,
    status: CoachStatus,
    n: int,
)
    requires
        rec.is_coached(width, height),
        rec.is_tracked(),
        0 < width <= 0x4000_0000,
        0 <= n <= rec.motions.len(),
        coach::is_status(rec.states[n], status),
    ensures
        ({
            let lost = tally(|k: int| is_untracked(rec.motions[k]), n);
            let (moved, blurred) = (
                rec.states[n].motion_frames as int,
                rec.states[n].fast_frames as int,
            );
            let most = if moved > 1 {
                moved
            } else {
                1
            };
            &&& lost + tally(|k: int| moved_over(rec.motions[k], 201), n) <= moved <= lost + tally(
                |k: int| moved_over(rec.motions[k], 199),
                n,
            )
            &&& lost + tally(
                |k: int| moved_over(rec.motions[k], 201) && outran(rec.motions[k], width, 281),
                n,
            ) <= blurred <= lost + tally(|k: int| outran(rec.motions[k], width, 279), n)
            &&& blurred <= moved <= n
            &&& n <= u32::MAX ==> rounding::within(
                rounding::real_of(status.blur_fraction),
                blurred as real / most as real,
                1real / 1000000real,
            )
        }),
{
    lemma_counts(rec, width, height, n);
    let (moved, blurred) = (rec.states[n].motion_frames as int, rec.states[n].fast_frames as int);
    let most = if moved > 1 {
        moved
    } else {
        1
    };
    lemma_fraction(blurred, most);
}

proof fn lemma_counts(rec: Recording, width: int, height: int, n: int)
    requires
        rec.is_coached(width, height),
        rec.is_tracked(),
        0 < width <= 0x4000_0000,
        0 <= n <= rec.motions.len(),
    ensures
        ({
            let lost = tally(|k: int| is_untracked(rec.motions[k]), n);
            let (moved, blurred) = (
                rec.states[n].motion_frames as int,
                rec.states[n].fast_frames as int,
            );
            &&& lost + tally(|k: int| moved_over(rec.motions[k], 201), n) <= moved <= lost + tally(
                |k: int| moved_over(rec.motions[k], 199),
                n,
            )
            &&& lost + tally(
                |k: int| moved_over(rec.motions[k], 201) && outran(rec.motions[k], width, 281),
                n,
            ) <= blurred <= lost + tally(|k: int| outran(rec.motions[k], width, 279), n)
            &&& blurred <= moved <= n
        }),
    decreases n,
{
    if n > 0 {
        lemma_counts(rec, width, height, n - 1);
        let k = n - 1;
        assert(rec.is_step(k, width, height));
        let m = rec.motions[k];
        lemma_step(
            rec.states[k],
            rec.states[k + 1],
            rec.thumbs[k],
            rec.lumas[k],
            width,
            height,
            rec.sighted[k],
            m,
        );
    }
}

proof fn lemma_fraction(a: int, b: int)
    requires
        0 <= a <= b + 1,
        0 < b,
        a <= u64::MAX,
        b <= u64::MAX,
    ensures
        double::quotient(double::whole(a), double::whole(b)).finite() || b > u32::MAX,
        b <= u32::MAX && a <= b ==> rounding::within(
            rounding::real_of(double::quotient(double::whole(a), double::whole(b))),
            a as real / b as real,
            1real / 1000000real,
        ),
{
    if b <= u32::MAX {
        double::lemma_whole(a);
        double::lemma_whole(b);
        rounding::lemma_whole_real(double::whole(a), a);
        rounding::lemma_whole_real(double::whole(b), b);
        rounding::lemma_scales();
        let (x, y) = (a as real, b as real);
        let q = x / y;
        rounding::lemma_ratio(x, y);
        assert(0real <= q && q <= 2real) by (nonlinear_arith)
            requires
                q * y == x,
                0real <= x <= y + 1real,
                1real <= y,
        ;
        rounding::lemma_quotient(double::whole(a), double::whole(b));
        lemma_part(q);
    }
}

/// The smoothed speed moves four tenths of the way to the speed of each tracked frame,
/// and stays where it is on any other. The recording is too fast once the smoothed speed
/// is over 2.8% of the frame width, no longer once it is under 1.8%, and as before in
/// between.
pub proof fn law_speed_is_smoothed(
    before: CoachState,
    after: CoachState,
    thumb: Thumb,
    mean_luma: Double,
    width: int,
    height: int,
    sighted: Seq<u16>,
    motion: CoachMotion,
)
    requires
        coach::is_observed(before, after, thumb, mean_luma, width, height, sighted, motion),
        0 < width <= 0x4000_0000,
        motion matches CoachMotion::Moved { thumb_px } ==> thumb_px.finite() && 0real
            <= rounding::real_of(thumb_px) <= 1048576real,
        before.speed_ema_px.finite(),
        0real <= rounding::real_of(before.speed_ema_px) <= 16777216real,
    ensures
        ({
            let (old_speed, new_speed, w) = (
                rounding::real_of(before.speed_ema_px),
                rounding::real_of(after.speed_ema_px),
                width as real,
            );
            match motion {
                CoachMotion::Moved { thumb_px } => {
                    let seen = 8real * rounding::real_of(thumb_px);
                    &&& after.speed_ema_px.finite()
                    &&& rounding::within(
                        10real * new_speed,
                        4real * seen + 6real * old_speed,
                        (seen + old_speed + 1real) / 10000real,
                    )
                    &&& 10000real * new_speed > 281real * w ==> after.too_fast
                    &&& 10000real * new_speed < 179real * w ==> !after.too_fast
                    &&& 181real * w < 10000real * new_speed && 10000real * new_speed < 279real * w
                        ==> after.too_fast == before.too_fast
                },
                _ => after.speed_ema_px == before.speed_ema_px && after.too_fast == before.too_fast,
            }
        }),
{
    if let CoachMotion::Moved { thumb_px } = motion {
        lemma_limits();
        lemma_full_res(thumb_px);
        rounding::lemma_scales();
        let px = coach::full_res(thumb_px);
        let (alpha, keep) = (
            Double { bits: coach::COACH_SPEED_ALPHA },
            Double { bits: coach::COACH_SPEED_KEEP },
        );
        lemma_weighted(alpha, px, 400000real);
        lemma_weighted(keep, before.speed_ema_px, 600000real);
        let (f, g) = (double::product(alpha, px), double::product(keep, before.speed_ema_px));
        rounding::lemma_sum(f, g);
        lemma_part(rounding::size(rounding::real_of(f) + rounding::real_of(g)));
        let w = width as real;
        lemma_share(Double { bits: coach::COACH_SPEED_HI_FRAC }, width, 28000real);
        lemma_share(Double { bits: coach::COACH_SPEED_LO_FRAC }, width, 18000real);
        let (hi, lo, ema) = (coach::speed_hi(width), coach::speed_lo(width), after.speed_ema_px);
        rounding::lemma_order(hi, ema);
        rounding::lemma_order(ema, lo);
        let (h, l) = (rounding::real_of(hi), rounding::real_of(lo));
        assert(27998real * w <= 1000000real * h <= 28002real * w);
        assert(17998real * w <= 1000000real * l <= 18002real * w);
    }
}

/// A share of a speed.
proof fn lemma_weighted(share: Double, v: Double, millionths: real)
    requires
        share.finite(),
        v.finite(),
        rounding::within(1000000real * rounding::real_of(share), millionths, 1real),
        0real <= millionths <= 1000000real,
        rounding::size(rounding::real_of(v)) <= 33554432real,
    ensures
        double::product(share, v).finite(),
        rounding::within(
            1000000real * rounding::real_of(double::product(share, v)),
            millionths * rounding::real_of(v),
            2real * rounding::size(rounding::real_of(v)) + 1real / 1000real,
        ),
{
    rounding::lemma_scales();
    let (r, w) = (rounding::real_of(share), rounding::real_of(v));
    let d = 1000000real * r - millionths;
    let s = rounding::size(w);
    fit_error::lemma_product_bound(d, w, 1real, s);
    fit_error::lemma_product_bound(r, w, 2real, s);
    assert(d * w == 1000000real * (r * w) - millionths * w) by (nonlinear_arith)
        requires
            d == 1000000real * r - millionths,
    ;
    rounding::lemma_product(share, v);
    lemma_part(rounding::size(r * w));
}

/// Frame `k` is one that markers are looked for in, and shows the marker `id`.
pub open spec fn shows(rec: Recording, width: int, height: int, k: int, id: u16) -> bool {
    k % 10 == 0 && width >= 32 && height >= 32 && rec.sighted[k].contains(id)
}

/// Frame `k` is one that markers are looked for in, and shows any.
pub open spec fn shows_any(rec: Recording, width: int, height: int, k: int) -> bool {
    k % 10 == 0 && width >= 32 && height >= 32 && rec.sighted[k].len() > 0
}

/// Marker A (ID 0) and Marker B (ID 1) are seen once any frame that markers are looked
/// for in, every tenth from the first on, has shown them. While none has shown any, the
/// page says so (1); once one has, it says that the marker is lost (2) from 241 frames
/// later on until another shows one.
pub proof fn law_markers_are_reported(
    rec: Recording,
    width: int,
    height: int,
    status: CoachStatus,
    n: int,
)
    requires
        rec.is_coached(width, height),
        0 <= n <= rec.motions.len(),
        n <= u32::MAX,
        coach::is_status(rec.states[n], status),
    ensures
        status.marker_a_seen == exists|k: int|
            0 <= k < n && #[trigger] shows(rec, width, height, k, 0),
        status.marker_b_seen == exists|k: int|
            0 <= k < n && #[trigger] shows(rec, width, height, k, 1),
        (forall|k: int| 0 <= k < n ==> !#[trigger] shows_any(rec, width, height, k)) ==> (
        status.flags & 1 != 0) == (n > 0) && status.flags & 2 == 0,
        forall|k: int|
            0 <= k < n && #[trigger] shows_any(rec, width, height, k) && (forall|l: int|
                k < l < n ==> !#[trigger] shows_any(rec, width, height, l)) ==> status.flags & 1 == 0
                && (status.flags & 2 != 0) == (n - k > 240),
{
    lemma_sightings(rec, width, height, n);
    assert(coach::is_set(status.flags, 1) == rec.states[n].no_marker());
    assert(coach::is_set(status.flags, 2) == rec.states[n].marker_lost());
}

proof fn lemma_sightings(rec: Recording, width: int, height: int, n: int)
    requires
        rec.is_coached(width, height),
        0 <= n <= rec.motions.len(),
        n <= u32::MAX,
    ensures
        rec.states[n].frame_idx == n,
        rec.states[n].seen_a == exists|k: int|
            0 <= k < n && #[trigger] shows(rec, width, height, k, 0),
        rec.states[n].seen_b == exists|k: int|
            0 <= k < n && #[trigger] shows(rec, width, height, k, 1),
        match rec.states[n].last_marker_frame {
            None => forall|k: int| 0 <= k < n ==> !#[trigger] shows_any(rec, width, height, k),
            Some(f) => f < n && shows_any(rec, width, height, f as int) && forall|l: int|
                f < l < n ==> !#[trigger] shows_any(rec, width, height, l),
        },
    decreases n,
{
    if n > 0 {
        lemma_sightings(rec, width, height, n - 1);
        let k = n - 1;
        assert(rec.is_step(k, width, height));
        let due = coach::is_due(rec.states[k].frame_idx, width, height);
        assert(due == (k % 10 == 0 && width >= 32 && height >= 32));
        if rec.states[n].seen_a {
            if rec.states[k].seen_a {
                let j = choose|j: int| 0 <= j < k && #[trigger] shows(rec, width, height, j, 0);
                assert(0 <= j < n && shows(rec, width, height, j, 0));
            } else {
                assert(shows(rec, width, height, k, 0));
            }
        }
        if rec.states[n].seen_b {
            if rec.states[k].seen_b {
                let j = choose|j: int| 0 <= j < k && #[trigger] shows(rec, width, height, j, 1);
                assert(0 <= j < n && shows(rec, width, height, j, 1));
            } else {
                assert(shows(rec, width, height, k, 1));
            }
        }
        assert(shows_any(rec, width, height, k) == (due && rec.sighted[k].len() > 0));
        assert(shows(rec, width, height, k, 0) == (due && rec.sighted[k].contains(0)));
        assert(shows(rec, width, height, k, 1) == (due && rec.sighted[k].contains(1)));
    }
}

/// More than seven in ten thumbnail pixels have a mean luma below 40.
pub open spec fn is_dim(thumb: Thumb) -> bool {
    10 * tally(|i: int| thumb.sums@[i] < 40 * thumb.area, thumb.sums@.len() as int) > 7
        * thumb.sums@.len()
}

/// More than half of the thumbnail pixels have a mean luma above 240.
pub open spec fn is_glaring(thumb: Thumb) -> bool {
    2 * tally(|i: int| thumb.sums@[i] > 240 * thumb.area, thumb.sums@.len() as int)
        > thumb.sums@.len()
}

/// The page asks for more light (8) after four dim frames in a row, and for less (16)
/// after four glaring ones; after four in a row that are not, it no longer does.
pub proof fn law_exposure_is_reported(
    rec: Recording,
    width: int,
    height: int,
    status: CoachStatus,
    n: int,
)
    requires
        rec.is_coached(width, height),
        4 <= n <= rec.motions.len(),
        n < u32::MAX,
        coach::is_status(rec.states[n], status),
    ensures
        (forall|k: int| n - 4 <= k < n ==> is_dim(#[trigger] rec.thumbs[k])) ==> status.flags & 8
            != 0,
        (forall|k: int| n - 4 <= k < n ==> !is_dim(#[trigger] rec.thumbs[k])) ==> status.flags & 8
            == 0,
        (forall|k: int| n - 4 <= k < n ==> is_glaring(#[trigger] rec.thumbs[k])) ==> status.flags
            & 16 != 0,
        (forall|k: int| n - 4 <= k < n ==> !is_glaring(#[trigger] rec.thumbs[k]))
            ==> status.flags & 16 == 0,
{
    lemma_runs(rec, width, height, n - 4);
    lemma_runs(rec, width, height, n - 3);
    lemma_runs(rec, width, height, n - 2);
    lemma_runs(rec, width, height, n - 1);
    assert(rec.is_step(n - 4, width, height) && rec.is_step(n - 3, width, height) && rec.is_step(
        n - 2,
        width,
        height,
    ) && rec.is_step(n - 1, width, height));
    lemma_light(rec.thumbs[n - 4]);
    lemma_light(rec.thumbs[n - 3]);
    lemma_light(rec.thumbs[n - 2]);
    lemma_light(rec.thumbs[n - 1]);
    assert(coach::is_set(status.flags, 8) == rec.states[n].dark.tripped);
    assert(coach::is_set(status.flags, 16) == rec.states[n].bright.tripped);
}

proof fn lemma_light(thumb: Thumb)
    ensures
        coach::is_dark_frame(thumb) == is_dim(thumb),
        coach::is_bright_frame(thumb) == is_glaring(thumb),
{
    let n = thumb.sums@.len() as int;
    lemma_dark(thumb, n);
    lemma_bright(thumb, n);
}

proof fn lemma_dark(thumb: Thumb, n: int)
    ensures
        coach::dark_count(thumb.sums@, thumb.area, n) == tally(
            |i: int| thumb.sums@[i] < 40 * thumb.area,
            n,
        ),
    decreases n,
{
    if n > 0 {
        lemma_dark(thumb, n - 1);
    }
}

proof fn lemma_bright(thumb: Thumb, n: int)
    ensures
        coach::bright_count(thumb.sums@, thumb.area, n) == tally(
            |i: int| thumb.sums@[i] > 240 * thumb.area,
            n,
        ),
    decreases n,
{
    if n > 0 {
        lemma_bright(thumb, n - 1);
    }
}

/// No run is longer than the recording.
proof fn lemma_runs(rec: Recording, width: int, height: int, n: int)
    requires
        rec.is_coached(width, height),
        0 <= n <= rec.motions.len(),
        n < u32::MAX,
    ensures
        rec.states[n].dark.on <= n,
        rec.states[n].dark.off <= n,
        rec.states[n].bright.on <= n,
        rec.states[n].bright.off <= n,
    decreases n,
{
    if n > 0 {
        lemma_runs(rec, width, height, n - 1);
        assert(rec.is_step(n - 1, width, height));
    }
}

} // verus!
