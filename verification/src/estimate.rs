//! Estimation of a homography from point correspondences.
use vstd::prelude::*;

use crate::dlt;
use crate::dlt::{dlt, reprojection_errors};
use crate::double::Double;
use crate::edge::Point;
use crate::homography;
use crate::homography::{estimate_with, Estimate, Homography, Refiners};
use crate::linalg::Mat3;
use crate::ransac;
use crate::ransac::Models;
use crate::refine;
use crate::refine::refine_lm;

verus! {

/// The points with these indices.
pub open spec fn chosen(pts: Seq<Point>, idx: Seq<int>) -> Seq<Point> {
    Seq::new(idx.len(), |i: int| pts[idx[i]])
}

/// The points of a list.
pub open spec fn listed(pts: Seq<Point>, list: Seq<usize>) -> Seq<Point> {
    Seq::new(list.len(), |i: int| pts[list[i] as int])
}

/// Homographies between correspondences: the direct linear transform of a
/// sample, and the reprojection errors.
pub open spec fn homographies(src: Seq<Point>, dst: Seq<Point>) -> Models<Mat3> {
    Models {
        fit: |idx: Seq<int>| dlt::transform_of(chosen(src, idx), chosen(dst, idx)),
        errors: |h: Mat3| dlt::misses(h, src, dst),
    }
}

/// Refinement of homographies on a list of the correspondences.
pub open spec fn refinements(src: Seq<Point>, dst: Seq<Point>) -> Refiners<Mat3> {
    Refiners {
        refit: |list: Seq<usize>| dlt::transform_of(listed(src, list), listed(dst, list)),
        refine: |h: Mat3, list: Seq<usize>|
            refine::refined_of(h, listed(src, list), listed(dst, list)),
    }
}

/// `est` is the homography that takes `src` to `dst`, as far as they agree on one.
#[verifier::opaque]
pub open spec fn is_homography(
    src: Seq<Point>,
    dst: Seq<Point>,
    limit: Double,
    est: Option<Estimate<Mat3>>,
) -> bool {
    homography::is_estimated(
        homographies(src, dst),
        refinements(src, dst),
        limit,
        src.len() as int,
        dst.len() as int,
        est,
    )
}

/// An estimate has a residual for every correspondence.
pub proof fn lemma_residual_count(
    src: Seq<Point>,
    dst: Seq<Point>,
    limit: Double,
    est: Option<Estimate<Mat3>>,
)
    requires
        is_homography(src, dst, limit, est),
    ensures
        est matches Some(e) ==> e.residuals@.len() == src.len(),
{
    reveal(is_homography);
}

fn fit_matrix(src: &Vec<Point>, dst: &Vec<Point>) -> (m: Option<Mat3>)
    requires
        src@.len() < 0x20_0000_0000_0000,
    ensures
        m == dlt::transform_of(src@, dst@),
{
    match dlt(src, dst) {
        Some(h) => Some(h.0),
        None => None,
    }
}

fn pick(pts: &Vec<Point>, list: &Vec<usize>) -> (out: Vec<Point>)
    requires
        forall|i: int| 0 <= i < list@.len() ==> (#[trigger] list@[i]) < pts@.len(),
    ensures
        out@ == listed(pts@, list@),
{
    let mut out: Vec<Point> = Vec::new();
    let mut i: usize = 0;
    while i < list.len()
        invariant
            i <= list@.len(),
            forall|i: int| 0 <= i < list@.len() ==> (#[trigger] list@[i]) < pts@.len(),
            out@.len() == i,
            forall|k: int| 0 <= k < i ==> #[trigger] out@[k] == pts@[list@[k] as int],
        decreases list@.len() - i,
    {
        out.push(pts[list[i]]);
        i = i + 1;
    }
    assert(out@ =~= listed(pts@, list@));
    out
}

/// Estimate the homography that takes `src[i]` to `dst[i]`: an exact fit for 4
/// correspondences, RANSAC and inlier refit for more, then refinement. An
/// inlier's reprojection error does not exceed `inlier_threshold`, in units of
/// the target points.
pub fn estimate(src: &Vec<Point>, dst: &Vec<Point>, inlier_threshold: Double) -> (est: Option<
    Estimate<Mat3>,
>)
    requires
        src@.len() < 0x20_0000_0000_0000,
    ensures
        is_homography(src@, dst@, inlier_threshold, est),
{
    proof {
        reveal(is_homography);
    }
    if src.len() != dst.len() {
        return None;
    }
    let fit = |a: usize, b: usize, c: usize, d: usize| -> (h: Option<Mat3>)
        requires
            a < src@.len() && b < src@.len() && c < src@.len() && d < src@.len(),
        ensures
            h == (homographies(src@, dst@).fit)(ransac::four(a, b, c, d)),
        {
            let s: Vec<Point> = vec![src[a], src[b], src[c], src[d]];
            let e: Vec<Point> = vec![dst[a], dst[b], dst[c], dst[d]];
            proof {
                assert(s@ =~= chosen(src@, ransac::four(a, b, c, d)));
                assert(e@ =~= chosen(dst@, ransac::four(a, b, c, d)));
            }
            fit_matrix(&s, &e)
        };
    let errors = |h: &Mat3| -> (e: Vec<Double>)
        ensures
            e@ == (homographies(src@, dst@).errors)(*h),
            e@.len() == src@.len(),
        { reprojection_errors(&Homography(*h), src, dst) };
    let refit = |list: &Vec<usize>| -> (h: Option<Mat3>)
        requires
            homography::is_selection(list@, src@.len() as int),
        ensures
            h == (refinements(src@, dst@).refit)(list@),
        { fit_matrix(&pick(src, list), &pick(dst, list)) };
    let refine = |h: &Mat3, list: &Vec<usize>| -> (out: Mat3)
        requires
            homography::is_selection(list@, src@.len() as int),
        ensures
            out == (refinements(src@, dst@).refine)(*h, list@),
        { refine_lm(&Homography(*h), &pick(src, list), &pick(dst, list)).0 };
    assert(ransac::are_modelled(&fit, &errors, homographies(src@, dst@)));
    assert(homography::are_refined(&refit, &refine, refinements(src@, dst@)));
    estimate_with(src.len(), dst.len(), &fit, &errors, &refit, &refine, inlier_threshold)
}

} // verus!
