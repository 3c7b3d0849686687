//! What the pan pipeline asks for: features of keyframes and where they are found
//! again, homographies between points, and a calibration. The library answers
//! with [`crate::finish`]; a program may bring faster answers of its own. What an
//! implementation does not say of its answers is unknown.
use vstd::prelude::*;

use crate::calib;
use crate::calib::CalibOutcome;
use crate::double::Double;
use crate::edge::Point;
use crate::homography::Estimate;
use crate::linalg::Mat3;
use crate::links;
use crate::links::Link;

verus! {

/// Most features of a keyframe.
pub const MOST_FEATURES: usize = 10_000;

/// Sees what keyframes show.
pub trait Vision {
    /// Number of keyframes.
    open spec fn frames(&self) -> int {
        vstd::pervasive::arbitrary()
    }

    /// The features of keyframe `i`.
    open spec fn features(&self, i: int) -> Seq<Point> {
        vstd::pervasive::arbitrary()
    }

    /// Where a feature of keyframe `i` is found in the next one, searched around
    /// `predicted`.
    open spec fn found(&self, i: int, p: Point, predicted: Point) -> Option<Point> {
        vstd::pervasive::arbitrary()
    }

    /// Edge blur (px) of Marker B in keyframe `i`.
    open spec fn blurred(&self, i: int) -> Double {
        vstd::pervasive::arbitrary()
    }

    fn corners(&self, i: usize) -> (list: Vec<Point>)
        requires
            i < self.frames(),
        ensures
            list@ == self.features(i as int),
            list@.len() <= MOST_FEATURES,
    ;

    fn find(&self, i: usize, p: Point, predicted: Point) -> (q: Option<Point>)
        requires
            i + 1 < self.frames(),
        ensures
            q == self.found(i as int, p, predicted),
    ;

    fn blur(&self, i: usize) -> (b: Double)
        requires
            i < self.frames(),
        ensures
            b == self.blurred(i as int),
    ;
}

/// Estimates homographies.
pub trait Estimator {
    /// `est` is what takes `src` to `dst`.
    open spec fn answers(
        &self,
        src: Seq<Point>,
        dst: Seq<Point>,
        est: Option<Estimate<Mat3>>,
    ) -> bool {
        vstd::pervasive::arbitrary()
    }

    fn estimate(&self, src: &Vec<Point>, dst: &Vec<Point>) -> (est: Option<Estimate<Mat3>>)
        requires
            src@.len() < 0x20_0000_0000_0000,
            dst@.len() == src@.len(),
        ensures
            self.answers(src@, dst@, est),
            est matches Some(e) ==> e.residuals@.len() == src@.len(),
    ;
}

/// Calibrates the lens from a chain and its links.
pub trait Calibrator {
    /// Number of keyframes.
    open spec fn keyframes(&self) -> int {
        vstd::pervasive::arbitrary()
    }

    /// `outcome` is what can be claimed of a lens with a chain that starts from
    /// `k1`.
    open spec fn concludes(
        &self,
        k1: Double,
        chain: Seq<Mat3>,
        links: Seq<Link>,
        outcome: CalibOutcome,
    ) -> bool {
        vstd::pervasive::arbitrary()
    }

    fn calibrate(&self, k1: Double, chain: &Vec<Mat3>, links: &Vec<Link>) -> (outcome: CalibOutcome)
        requires
            chain@.len() == self.keyframes(),
            links@.len() < chain@.len(),
            links::are_observations(links@),
        ensures
            self.concludes(k1, chain@, links@, outcome),
            calib::is_as_long(outcome, chain@.len()),
    ;
}

} // verus!
