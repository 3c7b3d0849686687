//! Contours, chains, closures, gates and layout on small exact inputs.
use geometry_core::bound::{track_envelope, BoundModel};
use geometry_core::calib::{certify, eligible, focal_starts, FitSummary, Verdict};
use geometry_core::chain::{build_chain, chain_distances, distance, wall_centres};
use geometry_core::closure::{
    anchor_corners_mm, anchor_keyframe, back_project, closure_keyframe, correct_centres, credible,
    local_mm_per_px, pick_best, redistribute, rms4, Drift,
};
use geometry_core::components::flood_fill;
use geometry_core::contour::{find_contours, trace_contour};
use geometry_core::detect::{
    classify_cells, detectable, marker_unit_homography, quad_area, DetectedMarker,
};
use geometry_core::distortion::Distortion;
use geometry_core::double::Double;
use geometry_core::homography::{choose_chart, root_mean_square, Chart, Estimate, Homography};
use geometry_core::lcg::Lcg;
use geometry_core::linalg::Mat3;
use geometry_core::links::{collect_link_matches, estimate_links, find_marker, Matches};
use geometry_core::lm::{descend, Convergence};
use geometry_core::loop_closure::{farther_of, sample_spread};
use geometry_core::pan::{Keyframe, PanError};
use geometry_core::passes::{bootstrap_k1, link_rms};
use geometry_core::quad::fit_quad;
use geometry_core::ransac::{best_model, draw_sample, errors_within};
use geometry_core::rectify::order_markers;
use geometry_core::render::{
    footprint_window, output_resolution, output_side, round_between, stitch, wall_extent, Extent,
    Window, UNCOVERED,
};
use geometry_core::threshold::adaptive_threshold;
use geometry_core::vision::{Estimator, Vision};
use geometry_core::wall::{stitch_frames, PanPlan};

fn d(v: f64) -> Double {
    Double::from_bits(v.to_bits())
}

fn f(v: Double) -> f64 {
    f64::from_bits(v.bits)
}

fn point(x: f64, y: f64) -> [Double; 2] {
    [d(x), d(y)]
}

fn square(x: f64, y: f64, side: f64) -> [[Double; 2]; 4] {
    [point(x, y), point(x + side, y), point(x + side, y + side), point(x, y + side)]
}

/// Scale by `s`, then move by (`x`, `y`).
fn placed(s: f64, x: f64, y: f64) -> Mat3 {
    [s, 0.0, x, 0.0, s, y, 0.0, 0.0, 1.0].map(d)
}

fn seen(id: u16, x: f64, y: f64, side: f64) -> DetectedMarker {
    DetectedMarker { id, corners: square(x, y, side) }
}

#[test]
fn threshold_marks_what_is_darker_than_its_surroundings() {
    let (w, h) = (40usize, 40usize);
    let mut gray = vec![200u8; w * h];
    for y in 18..22 {
        for x in 18..22 {
            gray[y * w + x] = 50;
        }
    }
    let mask = adaptive_threshold(&gray, w, h);
    for y in 0..h {
        for x in 0..w {
            let dark = (18..22).contains(&x) && (18..22).contains(&y);
            assert_eq!(mask[y * w + x], dark as u8, "({x},{y})");
        }
    }
    assert!(adaptive_threshold(&vec![7u8; w * h], w, h).iter().all(|m| *m == 0));
    let lighter: Vec<u8> = gray.iter().map(|v| v + 5).collect();
    assert_eq!(adaptive_threshold(&lighter, w, h), mask, "brightness does not matter");
}

#[test]
fn components_join_at_sides_and_contours_go_round_them() {
    let (w, h) = (6usize, 5usize);
    let mask: Vec<u8> = vec![
        0, 0, 0, 0, 0, 0,
        0, 1, 1, 0, 0, 0,
        0, 1, 1, 0, 0, 0,
        0, 0, 0, 1, 0, 0,
        0, 0, 0, 0, 0, 1,
    ];
    let mut labels = vec![0u32; w * h];
    let c = flood_fill(&mask, &mut labels, w, h, 1, 1, 1);
    assert_eq!(c.count, 4, "a diagonal neighbour is another component");
    assert_eq!((c.x, c.y), (1, 1), "the topmost, leftmost pixel starts the contour");
    assert_eq!(labels.iter().filter(|l| **l == 1).count(), c.count);
    assert_eq!((labels[3 * w + 3], labels[4 * w + 5]), (0, 0));
    let contour = trace_contour(&labels, w, h, 1, 1, 1);
    assert_eq!(contour[0], [1, 1]);
    assert_eq!(contour.len(), 4);
    for p in [[1, 1], [2, 1], [2, 2], [1, 2]] {
        assert!(contour.contains(&p), "{p:?} is on the contour {contour:?}");
    }
}

/// Mask with a filled square of `side` px at (`x0`, `y0`).
fn blob(w: usize, h: usize, x0: usize, y0: usize, side: usize) -> Vec<u8> {
    let mut mask = vec![0u8; w * h];
    for y in y0..y0 + side {
        for x in x0..x0 + side {
            mask[y * w + x] = 1;
        }
    }
    mask
}

#[test]
fn square_blob_gives_one_contour_and_its_quad() {
    let (w, h) = (100usize, 90usize);
    let contours = find_contours(&blob(w, h, 20, 15, 40), w, h);
    assert_eq!(contours.len(), 1);
    assert_eq!(contours[0].len(), 4 * 39);
    let mut quad = fit_quad(&contours[0]).expect("a square");
    quad.sort();
    assert_eq!(quad, [[20, 15], [20, 54], [59, 15], [59, 54]]);
    // Fewer than 98 pixels are no candidate.
    assert_eq!(find_contours(&blob(w, h, 20, 15, 10), w, h).len(), 1);
    assert!(find_contours(&blob(w, h, 20, 15, 9), w, h).is_empty());
    // Sides below 14 px are no marker.
    assert!(fit_quad(&find_contours(&blob(w, h, 20, 15, 10), w, h)[0]).is_none());
}

#[test]
fn cells_are_white_above_the_middle_of_their_range() {
    let mut cells = [[d(20.0); 6]; 6];
    cells[2][3] = d(220.0);
    cells[3][3] = d(120.0);
    let white = classify_cells(&cells).expect("enough contrast");
    for r in 0..6 {
        for c in 0..6 {
            assert_eq!(white[r][c], (r, c) == (2, 3));
        }
    }
    cells[2][3] = d(49.0);
    cells[3][3] = d(20.0);
    assert!(classify_cells(&cells).is_none(), "not enough contrast to be printed");
}

#[test]
fn areas_and_orders_of_markers() {
    assert_eq!(f(quad_area(&square(3.0, 4.0, 10.0))), 100.0);
    let ordered = order_markers(&vec![seen(1, 0.0, 0.0, 1.0), seen(0, 5.0, 5.0, 1.0)]);
    assert_eq!(ordered.iter().map(|m| m.id).collect::<Vec<u16>>(), vec![0, 1]);
    let found = find_marker(&ordered, 1).unwrap();
    assert_eq!(f(found[2][0]), 1.0);
    assert!(find_marker(&ordered, 2).is_none());
}

#[test]
fn anchor_is_the_largest_left_marker_and_closure_weighs_sharpness() {
    let detections = vec![
        vec![seen(0, 0.0, 0.0, 10.0)],
        vec![seen(0, 0.0, 0.0, 12.0), seen(1, 50.0, 0.0, 20.0)],
        vec![seen(1, 50.0, 0.0, 10.0)],
    ];
    assert_eq!(anchor_keyframe(&detections), Ok(1));
    assert_eq!(closure_keyframe(&detections, &vec![d(1.0), d(1.0), d(1.0)]), Some(1));
    assert_eq!(closure_keyframe(&detections, &vec![d(1.0), d(1.0), d(5.0)]), Some(2));
    let none: Vec<Vec<DetectedMarker>> = vec![vec![seen(1, 0.0, 0.0, 5.0)]];
    assert_eq!(anchor_keyframe(&none), Err(PanError::AnchorMarkerNotFound));
    assert_eq!(pick_best(&vec![None, Some(d(2.0)), Some(d(2.0)), None]), Some(2));
    assert_eq!(pick_best(&vec![None]), None);
}

#[test]
fn chain_composes_links_outward_from_the_anchor() {
    // Every keyframe sees the wall 10 px further left than the one before it.
    let links = vec![placed(1.0, -10.0, 0.0), placed(1.0, -10.0, 0.0)];
    let chain = build_chain(&links, &placed(2.0, 100.0, 0.0), 1).unwrap();
    let offsets: Vec<f64> = chain.iter().map(|w| f(w[2]) / f(w[8])).collect();
    assert_eq!(offsets, vec![110.0, 100.0, 90.0]);
    let centres = wall_centres(&chain, 200, 80).unwrap();
    let xs: Vec<f64> = centres.iter().map(|c| f(c[0])).collect();
    assert_eq!(xs, vec![-5.0, 0.0, 5.0]);
    assert_eq!(f(centres[0][1]), 20.0);
    let s: Vec<f64> = chain_distances(&centres, 1).into_iter().map(f).collect();
    assert_eq!(s, vec![-5.0, 0.0, 5.0]);
    assert_eq!(f(distance(&point(0.0, 0.0), &point(3.0, -4.0))), 5.0);
    let singular = vec![[d(0.0); 9], placed(1.0, 1.0, 1.0)];
    assert_eq!(
        build_chain(&singular, &placed(1.0, 0.0, 0.0), 1).err(),
        Some(PanError::DegenerateExtent)
    );
}

#[test]
fn drift_is_spread_along_the_chain_and_spares_the_anchor() {
    let power = |b: Double, e: Double| d(f(b).powf(f(e)));
    let centres = vec![point(0.0, 0.0), point(100.0, 0.0), point(200.0, 0.0)];
    let s = vec![d(0.0), d(100.0), d(200.0)];
    let moved = correct_centres(&power, d(1.21), &s, &d(200.0), &centres, 0);
    assert_eq!(f(moved[0][0]), 0.0, "the anchor stays where it is");
    let (m1, m2) = (1.21f64.powf(0.25), 1.21f64.powf(0.75));
    assert_eq!(f(moved[1][0]), 0.0 + m1 * 100.0);
    assert_eq!(f(moved[2][0]), m1 * 100.0 + m2 * 100.0);
    let chain = vec![placed(1.0, 0.0, 0.0); 3];
    let out = redistribute(&power, d(1.21), &s, &d(200.0), &centres, 0, &chain).unwrap();
    assert_eq!(out[0].map(f), chain[0].map(f), "the anchor's homography is kept");
    // Far end: full local scale about the moved position.
    let scale = f(out[2][0]) / f(out[2][8]);
    assert!((scale - 1.0 / 1.21).abs() < 1e-12);
}

#[test]
fn only_credible_drift_is_accepted() {
    let drift = |discrepancy: f64, scale: f64| Drift { discrepancy_mm: d(discrepancy), scale: d(scale) };
    assert!(credible(&drift(50.0, 1.0)));
    assert!(!credible(&drift(50.1, 1.0)));
    assert!(credible(&drift(1.0, 0.975)));
    assert!(!credible(&drift(1.0, 1.031)));
    assert!(!credible(&drift(1.0, 0.96)));
}

#[test]
fn back_projection_refuses_what_is_implausibly_far() {
    let q = back_project(&placed(2.0, 10.0, 20.0), &square(10.0, 20.0, 300.0)).unwrap();
    assert_eq!((f(q[2][0]), f(q[2][1])), (150.0, 150.0));
    assert_eq!(f(rms4(&q, &anchor_corners_mm(d(150.0)))), 0.0);
    assert!(back_project(&placed(1.0, 0.0, 0.0), &square(15990.0, 0.0, 5.0)).is_some());
    assert!(back_project(&placed(1.0, 0.0, 0.0), &square(15990.0, 0.0, 15.0)).is_none());
    assert!(back_project(&[d(0.0); 9], &square(0.0, 0.0, 5.0)).is_none());
    assert!((f(local_mm_per_px(&placed(4.0, 7.0, 8.0), &point(50.0, 60.0)).unwrap()) - 0.25).abs() < 1e-12);
}

#[test]
fn spread_and_farther_end() {
    assert_eq!(f(sample_spread(&vec![d(1.0), d(3.0)])), 2.0f64.sqrt());
    assert_eq!(f(farther_of(d(-5.0), d(4.0))), -5.0);
    assert_eq!(f(farther_of(d(-5.0), d(5.5))), 5.5);
    assert_eq!(f(farther_of(d(-5.0), d(5.0))), -5.0);
}

#[test]
fn bounds_add_in_quadrature() {
    let b = BoundModel {
        sigma_a_mm: d(3.0),
        rel: d(0.004),
        closure_ramp: None,
        track: vec![(d(500.0), d(0.0)), (d(900.0), d(9.0))],
    };
    // 3 and 4 in quadrature, times two.
    assert_eq!(f(b.bound_at_mm(d(1000.0))), 2.0 * (9.0f64 + 16.0 + 9.0).sqrt());
    assert_eq!(f(b.bound_at_mm(d(-1000.0))), f(b.bound_at_mm(d(1000.0))));
    let steps: Vec<f64> =
        [0.0, 1.0, 499.0, 500.0, 899.0, 900.0, 5000.0].iter().map(|x| f(b.bound_at_mm(d(*x)))).collect();
    assert!(steps.windows(2).all(|w| w[0] <= w[1]), "{steps:?}");
    let track = track_envelope(&vec![(d(9.0), d(1.0)), (d(3.0), d(4.0)), (d(5.0), d(2.0))]);
    let pairs: Vec<(f64, f64)> = track.into_iter().map(|(x, v)| (f(x), f(v))).collect();
    assert_eq!(pairs, vec![(3.0, 4.0), (5.0, 4.0), (9.0, 4.0)]);
}

fn summary() -> FitSummary {
    FitSummary {
        focal: d(700.0),
        k1: d(-0.08),
        cost: d(100.0),
        rms_before: d(2.0),
        observations: 200,
        parameters: 100,
        focal_curvature: Some(d(49.0)),
        k1_curvature: Some(d(1e-6)),
    }
}

#[test]
fn calibration_gates_fail_independently() {
    let dim = d(640.0);
    // Residual variance 100 / (200 - 100) = 1: sigmas are 7 px and 0.001.
    match certify(&summary(), &dim) {
        Verdict::Full(c) => {
            assert_eq!(f(c.focal_sigma_px), 7.0);
            assert_eq!(f(c.k1_sigma), 1e-6f64.sqrt());
            assert_eq!(f(c.rms_after_px), 0.5f64.sqrt());
        }
        other => panic!("{other:?}"),
    }
    let shallow = FitSummary { focal_curvature: Some(d(100.0 * 100.0)), ..summary() };
    assert!(matches!(certify(&shallow, &dim), Verdict::DistortionOnly));
    let drifted = FitSummary { focal: d(200.0), focal_curvature: Some(d(1.0)), ..summary() };
    assert!(matches!(certify(&drifted, &dim), Verdict::DistortionOnly));
    for refused in [
        FitSummary { k1_curvature: Some(d(0.0009)), ..summary() },
        FitSummary { k1_curvature: None, ..summary() },
        FitSummary { focal_curvature: Some(d(-1.0)), ..summary() },
        FitSummary { k1: d(0.36), ..summary() },
        FitSummary { focal: d(f64::NAN), ..summary() },
        FitSummary { rms_before: d(0.7), ..summary() },
    ] {
        assert!(matches!(certify(&refused, &dim), Verdict::Refused), "{refused:?}");
    }
}

#[test]
fn calibration_starts_are_spread_and_plausible() {
    let starts = |init: Option<f64>| -> Vec<f64> {
        focal_starts(init.map(d), &d(1000.0)).into_iter().map(f).collect()
    };
    assert_eq!(starts(None), vec![0.7 * 1000.0, 1.05 * 1000.0, 1.6 * 1000.0]);
    assert_eq!(starts(Some(1100.0)), vec![1100.0, 0.7 * 1000.0, 1.6 * 1000.0]);
    assert_eq!(starts(Some(399.0)), starts(None));
    assert_eq!(starts(Some(8001.0)), starts(None));
    assert!(eligible(4, 1, 3));
    assert!(!eligible(3, 1, 2) && !eligible(4, 0, 3) && !eligible(4, 1, 4));
}

#[test]
fn bootstrap_reads_the_vertex_of_the_scan() {
    let scan = |values: &[(f64, f64)]| {
        let samples: Vec<(Double, Double)> = values.iter().map(|(k, o)| (d(*k), d(*o))).collect();
        bootstrap_k1(&samples).map(f)
    };
    assert_eq!(scan(&[]), None);
    assert_eq!(scan(&[(-0.1, 3.0), (-0.08, 5.0)]), Some(-0.1));
    let k = scan(&[(-0.1, 2.0), (-0.08, 1.0), (-0.06, 4.0)]).unwrap();
    let want = -0.08 + 0.02 * 0.5 * (2.0 - 4.0) / (2.0 - 2.0 * 1.0 + 4.0);
    assert!((k - want).abs() < 1e-15, "{k} vs {want}");
}

#[test]
fn identity_lens_and_root_mean_square() {
    let none = Distortion::none(640, 360);
    let p = point(12.5, 300.25);
    assert_eq!(none.distort(p), p);
    assert_eq!(none.undistort(p), p);
    assert_eq!(f(root_mean_square(&vec![d(3.0), d(4.0)])), 12.5f64.sqrt());
}

#[test]
fn homography_maps_points_and_refuses_the_plane_at_infinity() {
    let h = Homography([2.0, 0.0, 4.0, 0.0, 2.0, 6.0, 0.5, 0.0, 2.0].map(d));
    let (x, y) = h.apply(d(4.0), d(1.0)).unwrap();
    assert_eq!((f(x), f(y)), (3.0, 2.0));
    assert!(h.apply(d(-4.0), d(1.0)).is_none());
    let inv = h.inverse().unwrap();
    let (u, v) = inv.apply(x, y).unwrap();
    assert!((f(u) - 4.0).abs() < 1e-12 && (f(v) - 1.0).abs() < 1e-12);
}

#[test]
fn chart_moves_away_from_the_vanishing_line() {
    let pts = vec![point(100.0, 100.0), point(300.0, 100.0)];
    assert!(matches!(choose_chart(&placed(1.0, 2.0, 3.0), &pts), Chart::Direct));
    let origin_at_infinity = [1.0, 0.0, 5.0, 0.0, 1.0, 3.0, 1e-3, 1e-3, 0.0].map(d);
    match choose_chart(&origin_at_infinity, &pts) {
        Chart::Moved { origin, shifted } => {
            assert_eq!((f(origin[0]), f(origin[1])), (200.0, 100.0));
            assert!((f(shifted[8]) - 0.3).abs() < 1e-12);
        }
        other => panic!("{other:?}"),
    }
    let on_the_line = vec![point(1.0, -1.0), point(2.0, -2.0)];
    assert!(matches!(choose_chart(&origin_at_infinity, &on_the_line), Chart::Unrefined));
}

#[test]
fn samples_are_distinct_and_consensus_excludes_the_outlier() {
    let mut rng = Lcg(1);
    for _ in 0..200 {
        let mut s = draw_sample(&mut rng, 5);
        s.sort();
        assert!(s.windows(2).all(|w| w[0] < w[1]) && s[3] < 5);
    }
    assert_eq!(
        errors_within(&vec![d(1.0), d(2.0), d(2.5), d(f64::INFINITY)], &d(2.0)),
        vec![true, true, false, false]
    );
    // Values on a constant, one of them off: the model is the least of a sample.
    let values = [5.0f64, 5.0, 5.0, 90.0, 5.0, 5.0];
    let fit = |a: usize, b: usize, c: usize, e: usize| {
        Some([a, b, c, e].iter().map(|i| values[*i]).fold(f64::INFINITY, f64::min))
    };
    let errors = |m: &f64| -> Vec<Double> { values.iter().map(|v| d((v - m).abs())).collect() };
    let best = best_model(6, &fit, &errors, d(0.5)).unwrap();
    assert_eq!(best.count, 5);
    assert_eq!(best.mask, vec![true, true, true, false, true, true]);
    assert_eq!(best.model, 5.0);
    let nothing = |_: usize, _: usize, _: usize, _: usize| -> Option<f64> { None };
    assert!(best_model(6, &nothing, &errors, d(0.5)).is_none());
}

#[test]
fn descent_never_climbs_and_stops_at_the_optimum() {
    // Cost (x - 3)^2; the step is the damped Newton step.
    let cost = |x: f64| (x - 3.0) * (x - 3.0);
    let linearize = |x: &Vec<f64>| vec![2.0 * (x[0] - 3.0)];
    let step = |x: &Vec<f64>, g: &Vec<f64>, lambda: &Double| {
        let next = x[0] - g[0] / (2.0 * (1.0 + f(*lambda)));
        Some((vec![next], d(cost(next))))
    };
    let rule = Convergence::CostBelow(d(1e-20));
    let (x, c) = descend(&linearize, &step, rule, vec![10.0], d(cost(10.0)), 50);
    assert!((x[0] - 3.0).abs() < 1e-9 && f(c) < 1e-18);
    // A step that always climbs leaves the start alone.
    let climb = |x: &Vec<f64>, _: &Vec<f64>, _: &Double| Some((vec![x[0] + 1.0], d(1e9)));
    let (x, c) = descend(&linearize, &climb, rule, vec![10.0], d(49.0), 50);
    assert_eq!((x, f(c)), (vec![10.0], 49.0));
}

/// An estimator that takes every correspondence for an inlier.
struct Agreeable;

impl Estimator for Agreeable {
    fn estimate(&self, src: &Vec<[Double; 2]>, _: &Vec<[Double; 2]>) -> Option<Estimate<Mat3>> {
        Some(Estimate {
            h: placed(1.0, 0.0, 0.0),
            residuals: vec![d(0.5); src.len()],
            rms: d(0.5),
            max: d(0.5),
            inliers: src.len(),
        })
    }
}

/// Two features per keyframe, one of which is found where it is predicted.
struct HalfBlind;

impl Vision for HalfBlind {
    fn corners(&self, i: usize) -> Vec<[Double; 2]> {
        vec![point(10.0 * i as f64, 1.0), point(99.0, 1.0)]
    }

    fn find(&self, _: usize, p: [Double; 2], predicted: [Double; 2]) -> Option<[Double; 2]> {
        if f(p[0]) == 99.0 {
            None
        } else {
            Some(predicted)
        }
    }

    fn blur(&self, _: usize) -> Double {
        d(0.0)
    }
}

#[test]
fn links_need_matches_inliers_and_spread() {
    let estimate = Agreeable;
    let row = |n: usize, gap: f64| -> Vec<Matches> {
        let pts: Vec<[Double; 2]> = (0..n).map(|i| point(gap * i as f64, 0.0)).collect();
        vec![Matches { src: pts.clone(), dst: pts }]
    };
    let none = Distortion::none(400, 300);
    let links = estimate_links(&estimate, &row(100, 4.0), &none, 400, 300).unwrap();
    assert_eq!((links[0].quality.matches, links[0].quality.inliers), (100, 100));
    assert_eq!(f(links[0].quality.rms_px), 0.5);
    assert_eq!(f(link_rms(&links)), 0.5);
    // 100 inliers are subsampled by three.
    assert_eq!(links[0].kept.src.len(), 34);
    assert_eq!(f(links[0].kept.src[1][0]), 12.0);
    let weak = |n: usize, inliers: usize| {
        Some(PanError::WeakSegment { from_keyframe: 0, to_keyframe: 1, matches: n, inliers })
    };
    assert_eq!(estimate_links(&estimate, &row(9, 40.0), &none, 400, 300).err(), weak(9, 0));
    // One tight cluster extrapolates garbage.
    assert_eq!(estimate_links(&estimate, &row(20, 0.5), &none, 400, 300).err(), weak(20, 20));
}

#[test]
fn link_matches_are_features_and_shared_corners() {
    let shifts = vec![point(0.0, 0.0), point(-30.0, 2.0)];
    let detections = vec![vec![seen(0, 0.0, 0.0, 10.0)], vec![seen(0, 5.0, 5.0, 10.0)]];
    let found = collect_link_matches(&HalfBlind, &shifts, &detections);
    assert_eq!(found.len(), 1);
    assert_eq!((found[0].src.len(), found[0].dst.len()), (5, 5));
    assert_eq!((f(found[0].dst[0][0]), f(found[0].dst[0][1])), (-30.0, 3.0));
    assert_eq!((f(found[0].src[3][0]), f(found[0].dst[3][0])), (10.0, 15.0));
}

#[test]
fn layout_covers_the_frames_within_the_limits() {
    let corners = [point(0.0, 0.0), point(100.0, 0.0), point(100.0, 60.0), point(0.0, 60.0)];
    let chain = vec![placed(1.0, 0.0, 0.0), placed(1.0, -50.0, 10.0)];
    let e = wall_extent(&chain, &corners, &d(8000.0)).unwrap();
    assert_eq!(
        [f(e.min_x), f(e.min_y), f(e.max_x), f(e.max_y)],
        [0.0, -10.0, 150.0, 60.0]
    );
    let clipped = wall_extent(&chain, &corners, &d(120.0)).unwrap();
    assert_eq!(f(clipped.max_x), 120.0);
    assert!(wall_extent(&vec![[d(0.0); 9]], &corners, &d(8000.0)).is_none());
    let mm_per_px = output_resolution(&e, &d(150.0), &d(300.0), 4096, 1440);
    assert_eq!(f(mm_per_px), 0.5);
    assert_eq!(f(output_resolution(&e, &d(150.0), &d(300.0), 100, 1440)), 1.5);
    assert_eq!(output_side(&d(150.0), &mm_per_px, 4096), 300);
    assert_eq!(output_side(&d(1.0), &mm_per_px, 4096), 8);
    assert_eq!(round_between(&d(10.5), 8, 100), 11);
    assert_eq!(round_between(&d(10.49), 8, 100), 10);
    assert_eq!(round_between(&d(1e9), 8, 100), 100);
    let w = footprint_window(&chain[1], &corners, &e, &mm_per_px, 300, 140);
    assert_eq!((w.x0, w.y0, w.x1, w.y1), (100, 0, 299, 120));
}

#[test]
fn windows_round_outward_and_stay_in_the_output() {
    let e = Extent { min_x: d(0.0), min_y: d(0.0), max_x: d(100.0), max_y: d(100.0) };
    let corners = square(0.0, 0.0, 10.0);
    let at = |x: f64, y: f64| {
        let w = footprint_window(&placed(1.0, -x, -y), &corners, &e, &d(1.0), 100, 100);
        [w.x0, w.y0, w.x1, w.y1]
    };
    assert_eq!(at(20.5, 30.0), [20, 30, 31, 40]);
    assert_eq!(at(-5.0, 95.5), [0, 95, 5, 99]);
    let beyond = at(500.0, 0.0);
    assert!(beyond[2] < beyond[0]);
    let singular = footprint_window(&[d(0.0); 9], &corners, &e, &d(1.0), 100, 100);
    assert!(singular.x1 < singular.x0);
}

#[test]
fn nearest_covering_keyframe_paints_each_pixel() {
    let windows = vec![
        Window { x0: 0, y0: 0, x1: 2, y1: 0 },
        Window { x0: 1, y0: 0, x1: 3, y1: 0 },
    ];
    // Keyframe 0 is nearer everywhere but does not cover pixel 2.
    let rank = |i: usize, _: usize, _: usize| d(i as f64 + 1.0);
    let colour = |i: usize, x: usize, _: usize| {
        if i == 0 && x == 2 {
            None
        } else {
            Some([i as u8 + 10; 3])
        }
    };
    let rgba = stitch(&rank, &colour, &windows, 5, 1);
    let px = |x: usize| [rgba[4 * x], rgba[4 * x + 1], rgba[4 * x + 2]];
    assert_eq!((px(0), px(1), px(2), px(3)), ([10; 3], [10; 3], [11; 3], [11; 3]));
    assert_eq!(px(4), UNCOVERED);
    assert!((0..5).all(|x| rgba[4 * x + 3] == 255));
}

#[test]
fn frames_are_stitched_along_the_border_between_their_centres() {
    // Two 20 x 10 px frames of one colour each, 1 mm to the px, 10 mm apart.
    let frame = |c: [u8; 3]| Keyframe {
        rgba: [c[0], c[1], c[2], 255].repeat(200),
        gray: vec![0; 200],
        sharpness: d(0.0),
        shift_from_prev: (d(0.0), d(0.0)),
    };
    let plan = PanPlan {
        chain: vec![placed(1.0, 0.0, 0.0), placed(1.0, -10.0, 0.0)],
        centres: vec![point(10.0, 5.0), point(20.0, 5.0)],
        dist: Distortion::none(20, 10),
        extent: Extent { min_x: d(0.0), min_y: d(0.0), max_x: d(34.0), max_y: d(8.0) },
        width: 34,
        height: 8,
        mm_per_px: d(1.0),
        links: Vec::new(),
        closure: None,
        closure_rejected: false,
        calibration: None,
        bound: BoundModel { sigma_a_mm: d(1.0), rel: d(0.0), closure_ramp: None, track: Vec::new() },
        far_x_mm: d(30.0),
    };
    let frames = vec![frame([200, 10, 10]), frame([10, 10, 200])];
    let out = stitch_frames(plan, &frames, 20, 10, true);
    assert!(out.truncated && out.keyframes_used == 2);
    let px = |x: usize| [out.rgba[4 * x], out.rgba[4 * x + 1], out.rgba[4 * x + 2]];
    assert!((0..15).all(|x| px(x) == [200, 10, 10]));
    assert!((15..29).all(|x| px(x) == [10, 10, 200]));
    assert!((29..34).all(|x| px(x) == UNCOVERED));
}

#[test]
fn sloppy_capture_widens_the_bound() {
    let model = |sigma: f64, rel: f64, ramp: Option<(f64, f64)>, variance: f64| BoundModel {
        sigma_a_mm: d(sigma),
        rel: d(rel),
        closure_ramp: ramp.map(|(span, residual)| (d(span), d(residual))),
        track: vec![(d(0.0), d(variance)), (d(1000.0), d(2.0 * variance))],
    };
    let base = model(0.8, 0.003, Some((3900.0, 1.5)), 0.5);
    let worse = [
        model(1.6, 0.003, Some((3900.0, 1.5)), 0.5),
        model(0.8, 0.02, Some((3900.0, 1.5)), 0.5),
        model(0.8, 0.003, Some((3900.0, 4.0)), 0.5),
        model(0.8, 0.003, Some((3900.0, 1.5)), 4.0),
    ];
    for x in [1500.0, -3900.0] {
        for m in &worse {
            assert!(f(m.bound_at_mm(d(x))) > f(base.bound_at_mm(d(x))), "{m:?} at {x}");
        }
        let open = model(0.8, 0.003, None, 0.5);
        assert!(f(open.bound_at_mm(d(x))) < f(base.bound_at_mm(d(x))));
    }
}

#[test]
fn unit_square_maps_onto_a_detected_marker() {
    let m = DetectedMarker {
        id: 1,
        corners: [point(10.0, 20.0), point(110.0, 30.0), point(100.0, 140.0), point(5.0, 120.0)],
    };
    let h = marker_unit_homography(&m).expect("a proper quad");
    let unit = [(0.0, 0.0), (1.0, 0.0), (1.0, 1.0), (0.0, 1.0)];
    for (c, (u, v)) in m.corners.iter().zip(unit) {
        let (x, y) = h.apply(d(u), d(v)).unwrap();
        assert!((f(x) - f(c[0])).abs() < 1e-9 && (f(y) - f(c[1])).abs() < 1e-9);
    }
    let flat = DetectedMarker { id: 0, corners: [point(1.0, 1.0); 4] };
    assert!(marker_unit_homography(&flat).is_none());
}

#[test]
fn quads_are_fitted_across_the_widest_frames() {
    // Squared lengths far beyond what a double holds exactly.
    let far = i32::MAX;
    let outline = [[0, 0], [far, 0], [far, far], [0, far]];
    assert_eq!(fit_quad(&outline), Some(outline));
    let backwards = [[0, 0], [0, far], [far, far], [far, 0]];
    assert_eq!(fit_quad(&backwards), Some(outline));
    // A vertex 13 px off its chord is a corner of a short side only.
    let dented = [[0, 0], [1 << 25, 13], [1 << 26, 0], [1 << 26, 1 << 26], [0, 1 << 26]];
    let square = fit_quad(&dented).expect("a square");
    assert!(!square.contains(&[1 << 25, 13]));
}

#[test]
fn frames_beyond_the_limits_are_not_searched() {
    assert!(detectable(1920, 1080));
    assert!(detectable(0, 0));
    assert!(detectable(1 << 26, 1), "too small to show a marker");
    assert!(detectable(1 << 26, 32));
    assert!(!detectable(1 << 27, 32));
    assert!(!detectable(1 << 16, 1 << 16));
}
