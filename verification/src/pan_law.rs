//! What recording a pan promises: which frames are kept, whichever way the camera moves.
use vstd::arithmetic::power2;
use vstd::prelude::*;

use crate::double;
use crate::double::Double;
use crate::fit_error;
use crate::pan;
use crate::pan::{FrameDisposition, Kept, Selection};
use crate::rounding;
use crate::shift::Shift;
use crate::significand;

verus! {

/// A thumbnail shift that a recording can add up to.
pub open spec fn is_shift(acc: (Double, Double)) -> bool {
    &&& acc.0.finite() && rounding::size(rounding::real_of(acc.0)) <= 1048576real
    &&& acc.1.finite() && rounding::size(rounding::real_of(acc.1)) <= 1048576real
}

/// More than this many thousandths of the frame have moved out of view, along one side or
/// the other, whichever way. A thumbnail pixel is eight pixels of the frame.
pub open spec fn has_left(acc: (Double, Double), w: int, h: int, thousandths: real) -> bool {
    ||| 8000real * rounding::size(rounding::real_of(acc.0)) > thousandths * w as real
    ||| 8000real * rounding::size(rounding::real_of(acc.1)) > thousandths * h as real
}

proof fn lemma_limits()
    ensures
        rounding::within(
            1000000real * rounding::real_of(Double { bits: pan::KEEP_OVERLAP }),
            600000real,
            1real,
        ),
        rounding::within(
            1000000real * rounding::real_of(Double { bits: pan::CANDIDATE_OVERLAP }),
            850000real,
            1real,
        ),
        rounding::within(
            1000000real * rounding::real_of(Double { bits: pan::MIN_SHIFT_SCORE }),
            350000real,
            1real,
        ),
        rounding::real_of(Double { bits: pan::THUMB_DIV }) == 8real,
        rounding::real_of(Double { bits: pan::ONE }) == 1real,
{
    power2::lemma2_to64();
    power2::lemma2_to64_rest();
    rounding::lemma_constants();
    significand::lemma_bits_are(
        Double { bits: pan::KEEP_OVERLAP },
        53,
        0x20_0000_0000_0000,
        0x13_3333_3333_3333,
    );
    significand::lemma_bits_are(
        Double { bits: pan::CANDIDATE_OVERLAP },
        53,
        0x20_0000_0000_0000,
        0x1b_3333_3333_3333,
    );
    significand::lemma_bits_are(
        Double { bits: pan::MIN_SHIFT_SCORE },
        54,
        0x40_0000_0000_0000,
        0x16_6666_6666_6666,
    );
    significand::lemma_bits_are(
        Double { bits: pan::THUMB_DIV },
        49,
        0x2_0000_0000_0000,
        0x10_0000_0000_0000,
    );
}

/// A rounding of a number of no more than 2^40.
proof fn lemma_part(x: real)
    requires
        0real <= x <= 1099511627776real,
    ensures
        0real <= rounding::unit() * x,
        1000000000real * (rounding::unit() * x) <= x,
        1000real * rounding::tiny() <= 1real / 1000000000real,
{
    rounding::lemma_units_are_small();
    let u = rounding::unit();
    assert(0real <= u * x && 1000000000real * (u * x) <= x) by (nonlinear_arith)
        requires
            0real <= x,
            u * 4503599627370496real == 1real,
            u > 0real,
    ;
}

/// The share of a side that a shift has moved out of view.
proof fn lemma_moved_out(acc: Double, side: int)
    requires
        acc.finite(),
        rounding::size(rounding::real_of(acc)) <= 1048576real,
        0 < side <= 0x4000_0000,
    ensures
        ({
            let m = pan::moved_out(acc, side);
            let share = 8real * rounding::size(rounding::real_of(acc)) / side as real;
            &&& m.finite()
            &&& 0real <= share <= 8388608real
            &&& rounding::within(rounding::real_of(m), share, share / 1000000real + 1real / 1000000real)
        }),
{
    lemma_limits();
    rounding::lemma_scales();
    rounding::lemma_absolute(acc);
    double::lemma_whole(side);
    rounding::lemma_whole_real(double::whole(side), side);
    let eight = Double { bits: pan::THUMB_DIV };
    let a = double::absolute(acc);
    let (x, y) = (rounding::real_of(a), rounding::real_of(eight));
    assert(x * y == 8real * x) by (nonlinear_arith)
        requires
            y == 8real,
    ;
    rounding::lemma_product(a, eight);
    lemma_part(8real * x);
    let p = double::product(a, eight);
    let (n, s) = (rounding::real_of(p), side as real);
    let (q, e) = (n / s, 8real * x / s);
    rounding::lemma_ratio(n, s);
    rounding::lemma_ratio(8real * x, s);
    let d = q - e;
    assert(d * s == n - 8real * x) by (nonlinear_arith)
        requires
            d == q - e,
            q * s == n,
            e * s == 8real * x,
    ;
    assert(0real <= e && e <= 8388608real) by (nonlinear_arith)
        requires
            e * s == 8real * x,
            0real <= x <= 1048576real,
            s >= 1real,
    ;
    let b = e / 100000000real + 1real / 100000000real;
    let sd = rounding::size(d);
    fit_error::lemma_size_product(d, s);
    let es = e * s;
    assert(b * s == es / 100000000real + s / 100000000real) by (nonlinear_arith)
        requires
            b == e / 100000000real + 1real / 100000000real,
            es == e * s,
    ;
    assert(sd * s <= b * s);
    fit_error::lemma_cancel(sd, b, s);
    rounding::lemma_quotient(p, double::whole(side));
    lemma_part(rounding::size(q));
}

/// The overlap with the last keyframe is what neither side has moved out of view. It is
/// the same for a shift to the left as for one to the right, and for one up as for one
/// down.
pub proof fn law_overlap_is_what_is_still_in_view(acc: (Double, Double), w: int, h: int)
    requires
        is_shift(acc),
        0 < w <= 0x4000_0000,
        0 < h <= 0x4000_0000,
    ensures
        ({
            let o = pan::overlap(acc, w, h);
            let (x, y) = (
                8real * rounding::size(rounding::real_of(acc.0)) / w as real,
                8real * rounding::size(rounding::real_of(acc.1)) / h as real,
            );
            let left = if x < y {
                y
            } else {
                x
            };
            &&& o.finite()
            &&& rounding::within(
                rounding::real_of(o),
                1real - left,
                left / 100000real + 1real / 100000real,
            )
        }),
        pan::overlap((acc.0.opposite(), acc.1), w, h) == pan::overlap(acc, w, h),
        pan::overlap((acc.0, acc.1.opposite()), w, h) == pan::overlap(acc, w, h),
{
    lemma_limits();
    rounding::lemma_scales();
    lemma_moved_out(acc.0, w);
    lemma_moved_out(acc.1, h);
    let (a, b) = (pan::moved_out(acc.0, w), pan::moved_out(acc.1, h));
    rounding::lemma_order(a, b);
    let m = double::larger(a, b);
    let one = Double { bits: pan::ONE };
    rounding::lemma_difference(one, m);
    lemma_part(rounding::size(1real - rounding::real_of(m)));
    double::lemma_opposite_value(acc.0);
    double::lemma_opposite_value(acc.1);
    assert(double::absolute(acc.0.opposite()) == double::absolute(acc.0));
    assert(double::absolute(acc.1.opposite()) == double::absolute(acc.1));
}

/// The overlap, against the two limits.
proof fn lemma_overlap(acc: (Double, Double), w: int, h: int)
    requires
        is_shift(acc),
        0 < w <= 0x4000_0000,
        0 < h <= 0x4000_0000,
    ensures
        has_left(acc, w, h, 401real) ==> pan::overlap(acc, w, h).less(
            Double { bits: pan::KEEP_OVERLAP },
        ),
        !has_left(acc, w, h, 399real) ==> !pan::overlap(acc, w, h).less(
            Double { bits: pan::KEEP_OVERLAP },
        ),
        has_left(acc, w, h, 151real) ==> pan::overlap(acc, w, h).less(
            Double { bits: pan::CANDIDATE_OVERLAP },
        ),
        !has_left(acc, w, h, 149real) ==> !pan::overlap(acc, w, h).less(
            Double { bits: pan::CANDIDATE_OVERLAP },
        ),
{
    lemma_limits();
    law_overlap_is_what_is_still_in_view(acc, w, h);
    let o = pan::overlap(acc, w, h);
    rounding::lemma_order(o, Double { bits: pan::KEEP_OVERLAP });
    rounding::lemma_order(o, Double { bits: pan::CANDIDATE_OVERLAP });
    lemma_against(rounding::size(rounding::real_of(acc.0)), w as real);
    lemma_against(rounding::size(rounding::real_of(acc.1)), h as real);
}

proof fn lemma_against(x: real, w: real)
    requires
        0real <= x,
        1real <= w,
    ensures
        (8000real * x > 401real * w) == (1000real * (8real * x / w) > 401real),
        (8000real * x > 399real * w) == (1000real * (8real * x / w) > 399real),
        (8000real * x > 151real * w) == (1000real * (8real * x / w) > 151real),
        (8000real * x > 149real * w) == (1000real * (8real * x / w) > 149real),
{
    let e = 8real * x / w;
    rounding::lemma_ratio(8real * x, w);
    lemma_limit_of(e, x, w, 401real);
    lemma_limit_of(e, x, w, 399real);
    lemma_limit_of(e, x, w, 151real);
    lemma_limit_of(e, x, w, 149real);
}

proof fn lemma_limit_of(e: real, x: real, w: real, k: real)
    requires
        e * w == 8real * x,
        1real <= w,
    ensures
        (8000real * x > k * w) == (1000real * e > k),
{
    if 1000real * e > k {
        assert(1000real * (e * w) > k * w) by (nonlinear_arith)
            requires
                1000real * e > k,
                1real <= w,
        ;
    } else {
        assert(1000real * (e * w) <= k * w) by (nonlinear_arith)
            requires
                1000real * e <= k,
                1real <= w,
        ;
    }
}

/// A frame that could be tracked: its shift scores 0.35 or more.
pub open spec fn is_followed(shift: Option<Shift>) -> bool {
    shift matches Some(s) && s.score.finite() && 1000real * rounding::real_of(s.score) >= 351real
}

/// What becomes of a tracked frame depends on how much of the last keyframe has left the
/// view, along either side and whichever way the camera moves. Under 15% it is skipped;
/// between 15% and 40% it is buffered, unless a sharper frame is; over 40% a keyframe is
/// kept, or the recording is truncated at 30.
pub proof fn law_frames_are_kept_by_overlap(
    sel: Selection,
    w: int,
    h: int,
    frame: Kept,
    shift: Option<Shift>,
    acc: (Double, Double),
)
    requires
        sel.wf(),
        sel.keyframes.len() > 0,
        0 < w <= 0x4000_0000,
        0 < h <= 0x4000_0000,
        is_followed(shift),
        acc == (double::sum(sel.acc.0, shift->0.dx), double::sum(sel.acc.1, shift->0.dy)),
        is_shift(acc),
    ensures
        ({
            let (next, disposition) = sel.recorded(w, h, frame, shift);
            &&& next.lost_streak == 0
            &&& !has_left(acc, w, h, 149real) ==> disposition == FrameDisposition::Skipped
                && next.keyframes == sel.keyframes && next.candidate == sel.candidate && next.acc
                == acc
            &&& has_left(acc, w, h, 151real) && !has_left(acc, w, h, 399real) ==> {
                &&& next.keyframes == sel.keyframes
                &&& next.acc == acc
                &&& next.candidate is Some
                &&& match sel.candidate {
                    Some((old, _)) => if old.sharpness.less(frame.sharpness) {
                        disposition == FrameDisposition::Candidate && (next.candidate->0).0.rgba
                            == frame.rgba && (next.candidate->0).1 == acc
                    } else {
                        disposition == FrameDisposition::Skipped && next.candidate == sel.candidate
                    },
                    None => disposition == FrameDisposition::Candidate
                        && (next.candidate->0).0.rgba == frame.rgba && (next.candidate->0).1 == acc,
                }
            }
            &&& has_left(acc, w, h, 401real) && sel.keyframes.len() < 30 ==> disposition
                == FrameDisposition::Kept && next.keyframes.len() == sel.keyframes.len() + 1
                && next.keyframes.last().rgba == (match sel.candidate {
                Some((old, _)) => old.rgba,
                None => frame.rgba,
            })
            &&& has_left(acc, w, h, 401real) && sel.keyframes.len() == 30 ==> disposition
                == FrameDisposition::CapReached && next.keyframes == sel.keyframes && next.truncated
        }),
{
    lemma_limits();
    let s = shift->0;
    rounding::lemma_order(s.score, Double { bits: pan::MIN_SHIFT_SCORE });
    lemma_overlap(acc, w, h);
}

/// The buffered frame is the sharpest of those that could have been: neither the frame
/// that was buffered nor the new one is sharper.
pub proof fn law_buffered_frame_is_the_sharpest(sel: Selection, frame: Kept)
    requires
        !frame.sharpness.nan(),
        sel.candidate matches Some((old, _)) ==> !old.sharpness.nan(),
    ensures
        ({
            let next = sel.after_candidate(frame);
            &&& next.candidate matches Some((c, _)) && !c.sharpness.less(frame.sharpness) && (
            sel.candidate matches Some((old, _)) ==> !c.sharpness.less(old.sharpness))
            &&& next.keyframes == sel.keyframes
        }),
{
}

/// A kept frame remembers how far it is from the keyframe before it, in pixels of the
/// frame: eight times the thumbnail shift. What is left of the shift counts from the kept
/// frame on: both together are the whole shift, but for rounding.
pub proof fn law_shifts_add_up(sel: Selection, frame: Kept)
    requires
        is_shift(sel.acc),
        sel.candidate matches Some((c, a)) ==> is_shift(a) && is_eightfold(c.shift, a),
    ensures
        ({
            let next = sel.after_commit(frame);
            let kept = next.keyframes.last();
            &&& next.keyframes.len() == sel.keyframes.len() + 1
            &&& match sel.candidate {
                Some((c, a)) => {
                    &&& is_eightfold(kept.shift, a)
                    &&& is_rest(next.acc.0, sel.acc.0, a.0)
                    &&& is_rest(next.acc.1, sel.acc.1, a.1)
                    &&& next.candidate matches Some((n, b)) && n.rgba == frame.rgba && b == next.acc
                },
                None => {
                    &&& is_eightfold(kept.shift, sel.acc)
                    &&& rounding::real_of(next.acc.0) == 0real
                    &&& rounding::real_of(next.acc.1) == 0real
                },
            }
        }),
{
    rounding::lemma_constants();
    rounding::lemma_scales();
    match sel.candidate {
        Some((c, a)) => {
            rounding::lemma_difference(sel.acc.0, a.0);
            rounding::lemma_difference(sel.acc.1, a.1);
            lemma_part(rounding::size(rounding::real_of(sel.acc.0) - rounding::real_of(a.0)));
            lemma_part(rounding::size(rounding::real_of(sel.acc.1) - rounding::real_of(a.1)));
        },
        None => {
            lemma_eightfold(sel.acc.0);
            lemma_eightfold(sel.acc.1);
        },
    }
}

/// `rest` is what is left of `all` beyond `part`, but for rounding.
pub open spec fn is_rest(rest: Double, all: Double, part: Double) -> bool {
    rest.finite() && rounding::within(
        rounding::real_of(rest),
        rounding::real_of(all) - rounding::real_of(part),
        1real / 100real,
    )
}

/// A shift in pixels of the frame is eight times the thumbnail shift, but for rounding.
pub open spec fn is_eightfold(px: (Double, Double), thumb: (Double, Double)) -> bool {
    &&& px.0.finite() && rounding::within(
        rounding::real_of(px.0),
        8real * rounding::real_of(thumb.0),
        1real / 100real,
    )
    &&& px.1.finite() && rounding::within(
        rounding::real_of(px.1),
        8real * rounding::real_of(thumb.1),
        1real / 100real,
    )
}

proof fn lemma_eightfold(a: Double)
    requires
        a.finite(),
        rounding::size(rounding::real_of(a)) <= 1048576real,
    ensures
        ({
            let p = double::product(a, Double { bits: pan::THUMB_DIV });
            p.finite() && rounding::within(
                rounding::real_of(p),
                8real * rounding::real_of(a),
                1real / 100real,
            )
        }),
{
    lemma_limits();
    rounding::lemma_scales();
    let eight = Double { bits: pan::THUMB_DIV };
    let (x, y) = (rounding::real_of(a), rounding::real_of(eight));
    assert(x * y == 8real * x) by (nonlinear_arith)
        requires
            y == 8real,
    ;
    rounding::lemma_product(a, eight);
    lemma_part(rounding::size(8real * x));
}

/// The selection after `n` frames in a row that could not be tracked.
pub open spec fn lost_for(sel: Selection, w: int, h: int, frame: Kept, n: nat) -> Selection
    decreases n,
{
    if n == 0 {
        sel
    } else {
        lost_for(sel, w, h, frame, (n - 1) as nat).recorded(w, h, frame, None).0
    }
}

/// Frames that cannot be tracked keep nothing and move nothing. Ten in a row open a gap;
/// the next keyframe then breaks the chain, and a buffered frame is dropped when
/// recording stops. Without a gap it is kept, if there is room.
pub proof fn law_ten_lost_frames_open_a_gap(
    sel: Selection,
    w: int,
    h: int,
    frame: Kept,
    n: nat,
)
    requires
        sel.wf(),
        sel.keyframes.len() > 0,
        sel.lost_streak == 0,
        !sel.pending_gap,
    ensures
        ({
            let next = lost_for(sel, w, h, frame, n);
            &&& next.keyframes == sel.keyframes
            &&& next.candidate == sel.candidate
            &&& next.acc == sel.acc
            &&& next.truncated == sel.truncated
            &&& next.broken_after == sel.broken_after
            &&& next.pending_gap == (n >= 10)
            &&& next.lost_streak == n
            &&& sel.candidate is Some && sel.keyframes.len() < 30 ==> next.stopped().keyframes == (
            if n >= 10 {
                sel.keyframes
            } else {
                sel.keyframes.push((sel.candidate->0).0)
            })
        }),
    decreases n,
{
    if n > 0 {
        law_ten_lost_frames_open_a_gap(sel, w, h, frame, (n - 1) as nat);
    }
}

/// A frame whose shift scores under 0.35, or that has none, moves nothing and counts as
/// lost. Any other adds its shift to what was accumulated, each coordinate to its own.
pub proof fn law_shifts_accumulate(
    sel: Selection,
    w: int,
    h: int,
    frame: Kept,
    shift: Option<Shift>,
)
    requires
        sel.keyframes.len() > 0,
        is_shift(sel.acc),
        shift matches Some(s) ==> s.score.finite() && is_shift((s.dx, s.dy)),
    ensures
        ({
            let (next, disposition) = sel.recorded(w, h, frame, shift);
            &&& shift is None || 1000real * rounding::real_of(shift->0.score) < 349real ==> {
                &&& disposition == FrameDisposition::Skipped
                &&& next.acc == sel.acc
                &&& next.lost_streak == sel.lost_streak + 1
            }
            &&& is_followed(shift) && disposition != FrameDisposition::Kept ==> {
                &&& is_total(next.acc.0, sel.acc.0, shift->0.dx)
                &&& is_total(next.acc.1, sel.acc.1, shift->0.dy)
                &&& next.lost_streak == 0
            }
        }),
{
    lemma_limits();
    rounding::lemma_scales();
    if shift is Some {
        let s = shift->0;
        rounding::lemma_order(s.score, Double { bits: pan::MIN_SHIFT_SCORE });
        rounding::lemma_order(Double { bits: pan::MIN_SHIFT_SCORE }, s.score);
        rounding::lemma_sum(sel.acc.0, s.dx);
        rounding::lemma_sum(sel.acc.1, s.dy);
        lemma_part(rounding::size(rounding::real_of(sel.acc.0) + rounding::real_of(s.dx)));
        lemma_part(rounding::size(rounding::real_of(sel.acc.1) + rounding::real_of(s.dy)));
    }
}

/// `all` is `part` and `more` together, but for rounding.
pub open spec fn is_total(all: Double, part: Double, more: Double) -> bool {
    all.finite() && rounding::within(
        rounding::real_of(all),
        rounding::real_of(part) + rounding::real_of(more),
        1real / 100real,
    )
}

/// The first keyframe that is kept after a gap breaks the chain behind the keyframe
/// before it, and later gaps do not move the break.
pub proof fn law_break_is_behind_the_last_keyframe_before_the_gap(sel: Selection, frame: Kept)
    requires
        sel.wf(),
        sel.keyframes.len() > 0,
    ensures
        ({
            let next = sel.after_commit(frame);
            &&& !sel.pending_gap ==> next.broken_after is None
            &&& sel.pending_gap && sel.broken_after is None ==> next.broken_after == Some(
                next.keyframes.len() - 2,
            )
            &&& sel.broken_after is Some ==> next.broken_after == sel.broken_after
        }),
{
}

} // verus!
