//! Matrices, homographies, rotations and lenses on known answers.
use geometry_core::calib::init_focal;
use geometry_core::distortion::Distortion;
use geometry_core::double::Double;
use geometry_core::homography::{Estimate, Homography};
use geometry_core::linalg::Mat3;

fn d(v: f64) -> Double {
    Double::from_bits(v.to_bits())
}

fn f(v: Double) -> f64 {
    f64::from_bits(v.bits)
}

fn point(p: [f64; 2]) -> [Double; 2] {
    [d(p[0]), d(p[1])]
}

fn unpoint(p: &[Double; 2]) -> [f64; 2] {
    [f(p[0]), f(p[1])]
}

fn points(pts: &[[f64; 2]]) -> Vec<[Double; 2]> {
    pts.iter().map(|p| point(*p)).collect()
}

fn matrix(m: &[f64; 9]) -> Mat3 {
    m.map(d)
}

fn unmatrix(m: &Mat3) -> [f64; 9] {
    m.map(f)
}

fn rows(a: &[f64], n: usize) -> Vec<Vec<Double>> {
    a.chunks(n).map(|row| row.iter().map(|v| d(*v)).collect()).collect()
}

fn mat3_mul(a: &[f64; 9], b: &[f64; 9]) -> [f64; 9] {
    unmatrix(&geometry_core::linalg::mat3_mul(&matrix(a), &matrix(b)))
}

fn mat3_inv(m: &[f64; 9]) -> Option<[f64; 9]> {
    geometry_core::linalg::mat3_inv(&matrix(m)).map(|inv| unmatrix(&inv))
}

fn smallest_eigenvector_sym(a: &[f64], n: usize) -> Vec<f64> {
    let mut m = rows(a, n);
    geometry_core::eigen::smallest_eigenvector_sym(&mut m).into_iter().map(f).collect()
}

fn solve_in_place(a: &mut [f64], b: &mut [f64], n: usize) -> bool {
    let mut m = rows(a, n);
    let mut x: Vec<Double> = b.iter().map(|v| d(*v)).collect();
    let ok = geometry_core::solve::solve_in_place(&mut m, &mut x);
    for (v, s) in b.iter_mut().zip(x) {
        *v = f(s);
    }
    ok
}

fn dlt(src: &[[f64; 2]], dst: &[[f64; 2]]) -> Option<[f64; 9]> {
    geometry_core::dlt::dlt(&points(src), &points(dst)).map(|h| unmatrix(&h.0))
}

fn reprojection_errors(h: &[f64; 9], src: &[[f64; 2]], dst: &[[f64; 2]]) -> Vec<f64> {
    let h = Homography(matrix(h));
    let errors = geometry_core::dlt::reprojection_errors(&h, &points(src), &points(dst));
    errors.into_iter().map(f).collect()
}

fn refine_lm(h: &[f64; 9], src: &[[f64; 2]], dst: &[[f64; 2]]) -> [f64; 9] {
    let h = Homography(matrix(h));
    unmatrix(&geometry_core::refine::refine_lm(&h, &points(src), &points(dst)).0)
}

fn estimate(src: &[[f64; 2]], dst: &[[f64; 2]], threshold: f64) -> Option<Estimate<Mat3>> {
    geometry_core::estimate::estimate(&points(src), &points(dst), d(threshold))
}

fn sin_cos(a: Double) -> (Double, Double) {
    let (s, c) = f(a).sin_cos();
    (d(s), d(c))
}

fn acos(a: Double) -> Double {
    d(f(a).acos())
}

fn rodrigues(r: &[f64; 3]) -> [f64; 9] {
    unmatrix(&geometry_core::pose::rodrigues(&sin_cos, &r.map(d)))
}

fn rodrigues_inv(m: &[f64; 9]) -> [f64; 3] {
    geometry_core::pose::rodrigues_inv(&acos, &matrix(m)).map(f)
}

fn pose_h(focal: f64, cx: f64, cy: f64, rvec: &[f64; 3], c: &[f64; 3]) -> [f64; 9] {
    let h = geometry_core::pose::pose_h(
        &sin_cos,
        &d(focal),
        &d(cx),
        &d(cy),
        &rvec.map(d),
        &c.map(d),
    );
    unmatrix(&h)
}

fn decompose_pose(w: &[f64; 9], focal: f64, cx: f64, cy: f64) -> Option<([f64; 3], [f64; 3])> {
    let pose = geometry_core::pose::decompose_pose(&acos, &matrix(w), &d(focal), &d(cx), &d(cy))?;
    Some((pose.0.map(f), pose.1.map(f)))
}

fn apply_true(h: &[f64; 9], p: [f64; 2]) -> [f64; 2] {
    let w = h[6] * p[0] + h[7] * p[1] + h[8];
    [(h[0] * p[0] + h[1] * p[1] + h[2]) / w, (h[3] * p[0] + h[4] * p[1] + h[5]) / w]
}

/// A realistic wall-to-image homography: mm plane to ~640 px frame with
/// perspective tilt.
const H_TRUE: [f64; 9] = [
    1.9, 0.12, 140.0, //
    -0.08, 1.85, 90.0, //
    1.1e-4, -0.9e-4, 1.0,
];

fn square_mm() -> Vec<[f64; 2]> {
    vec![[0.0, 0.0], [150.0, 0.0], [150.0, 150.0], [0.0, 150.0]]
}

#[test]
fn mat3_inverse_round_trips() {
    let m = [2.0, 0.0, 1.0, -1.0, 3.0, 0.5, 0.0, 1.0, 4.0];
    let inv = mat3_inv(&m).unwrap();
    let id = mat3_mul(&m, &inv);
    for r in 0..3 {
        for c in 0..3 {
            let want = if r == c { 1.0 } else { 0.0 };
            assert!((id[r * 3 + c] - want).abs() < 1e-12, "id[{r}][{c}] = {}", id[r * 3 + c]);
        }
    }
    assert!(mat3_inv(&[0.0; 9]).is_none());
}

#[test]
fn jacobi_finds_smallest_eigenvector() {
    // A = R D R^T with a simple rotation in the (0,2) plane.
    let (c, s) = (0.8, 0.6);
    let r = [c, 0.0, -s, 0.0, 1.0, 0.0, s, 0.0, c];
    let diag = [5.0, 0.0, 0.0, 0.0, 2.0, 0.0, 0.0, 0.0, 0.1];
    let rt = [c, 0.0, s, 0.0, 1.0, 0.0, -s, 0.0, c];
    let a3 = mat3_mul(&mat3_mul(&r, &diag), &rt);
    let v = smallest_eigenvector_sym(&a3, 3);
    // Smallest eigenvalue 0.1 has eigenvector R * e_z = (-s, 0, c).
    let dot = (v[0] * -s + v[2] * c).abs();
    assert!(dot > 0.999, "eigenvector misaligned: {v:?}");
}

#[test]
fn gaussian_solve_recovers_solution() {
    let mut a = vec![0.0, 2.0, 1.0, 1.0, 1.0, 0.0, 3.0, 0.0, 1.0];
    let x_true = [1.0, -2.0, 3.0];
    let mut b = vec![
        0.0 * 1.0 + 2.0 * -2.0 + 1.0 * 3.0,
        1.0 * 1.0 + 1.0 * -2.0,
        3.0 * 1.0 + 1.0 * 3.0,
    ];
    assert!(solve_in_place(&mut a, &mut b, 3));
    for i in 0..3 {
        assert!((b[i] - x_true[i]).abs() < 1e-12);
    }
    // Singular system is rejected.
    let mut sing = vec![1.0, 2.0, 2.0, 4.0];
    let mut rhs = vec![1.0, 2.0];
    assert!(!solve_in_place(&mut sing, &mut rhs, 2));
}

#[test]
fn dlt_recovers_exact_homography_from_4_points() {
    let src = square_mm();
    let dst: Vec<[f64; 2]> = src.iter().map(|&p| apply_true(&H_TRUE, p)).collect();
    let h = Homography(matrix(&dlt(&src, &dst).unwrap()));
    for (s, e) in src.iter().zip(&dst) {
        let (u, v) = h.apply(d(s[0]), d(s[1])).unwrap();
        assert!((f(u) - e[0]).abs() < 1e-8 && (f(v) - e[1]).abs() < 1e-8);
    }
    // And it generalizes to a point it was not fit on.
    let far = apply_true(&H_TRUE, [400.0, -80.0]);
    let (u, v) = h.apply(d(400.0), d(-80.0)).unwrap();
    assert!((f(u) - far[0]).abs() < 1e-6 && (f(v) - far[1]).abs() < 1e-6);
}

fn cost_of(h: &[f64; 9], src: &[[f64; 2]], dst: &[[f64; 2]]) -> f64 {
    reprojection_errors(h, src, dst).iter().map(|e| e * e).sum()
}

#[test]
fn lm_refinement_reduces_noisy_residuals() {
    // 8 points with mild noise on dst; LM must not make things worse and should
    // land near the least-squares optimum.
    let mut src = square_mm();
    src.extend([[300.0, 20.0], [460.0, 10.0], [455.0, 160.0], [305.0, 150.0]]);
    let noise = [0.3, -0.2, 0.25, -0.3, 0.2, 0.15, -0.25, 0.1];
    let dst: Vec<[f64; 2]> = src
        .iter()
        .enumerate()
        .map(|(i, &p)| {
            let e = apply_true(&H_TRUE, p);
            [e[0] + noise[i], e[1] - noise[(i + 3) % 8]]
        })
        .collect();
    let h0 = dlt(&src, &dst).unwrap();
    let h1 = refine_lm(&h0, &src, &dst);
    assert!(
        cost_of(&h1, &src, &dst) <= cost_of(&h0, &src, &dst) + 1e-12,
        "LM must not increase cost"
    );
}

#[test]
fn lm_refines_even_when_h8_is_zero() {
    // h[8] = 0: the projective weight vanishes at the src origin, so the h/h[8]
    // chart is invalid. Points live away from the vanishing line, so refinement is
    // well posed after re-anchoring the source frame.
    let h_deg: [f64; 9] = [
        1.0, 0.1, 5.0, //
        -0.1, 1.1, 3.0, //
        1e-3, 1e-3, 0.0,
    ];
    let src = vec![
        [100.0, 100.0],
        [400.0, 120.0],
        [420.0, 380.0],
        [110.0, 400.0],
        [250.0, 250.0],
        [300.0, 150.0],
    ];
    let noise = [0.4, -0.3, 0.2, -0.4, 0.3, -0.2];
    let dst: Vec<[f64; 2]> = src
        .iter()
        .enumerate()
        .map(|(i, &p)| {
            let e = apply_true(&h_deg, p);
            [e[0] + noise[i], e[1] - noise[(i + 2) % 6]]
        })
        .collect();
    let h1 = refine_lm(&h_deg, &src, &dst);
    let (before, after) = (cost_of(&h_deg, &src, &dst), cost_of(&h1, &src, &dst));
    assert!(
        after < before - 1e-6,
        "h[8]=0 input must actually be refined, not returned unchanged (cost {before} -> {after})"
    );
}

#[test]
fn refinement_pairs_points_with_as_many_targets() {
    let src = square_mm();
    let mut dst: Vec<[f64; 2]> = src.iter().map(|&p| apply_true(&H_TRUE, p)).collect();
    dst[2][0] += 0.5;
    let h0 = dlt(&src, &dst).unwrap();
    let h1 = refine_lm(&h0, &src, &dst);
    dst.push([1e9, -1e9]);
    assert_eq!(refine_lm(&h0, &src, &dst), h1, "targets beyond the last point do not count");
}

#[test]
fn refining_a_normalized_homography_never_fits_worse() {
    let src = square_mm();
    let dst: Vec<[f64; 2]> = src
        .iter()
        .enumerate()
        .map(|(i, &p)| {
            let e = apply_true(&H_TRUE, p);
            [e[0] + 0.3 * i as f64, e[1] - 0.2]
        })
        .collect();
    let h0: [f64; 9] = [1.1, 0.02, 30.0, -0.01, 0.9, 20.0, 1e-5, 2e-5, 1.0];
    let h1 = refine_lm(&h0, &src, &dst);
    assert!(cost_of(&h1, &src, &dst) < cost_of(&h0, &src, &dst));
    let h2 = refine_lm(&h1, &src, &dst);
    assert!(h2 == h1 || cost_of(&h2, &src, &dst) < cost_of(&h1, &src, &dst));
}

#[test]
fn refinement_never_fits_worse_at_any_scale_or_origin() {
    let src = square_mm();
    let fitted: [f64; 9] = [1.1, 0.02, 30.0, -0.01, 0.9, 20.0, 1e-5, 2e-5, 1.0];
    let at_infinity: [f64; 9] = [1.0, 0.1, 5.0, -0.1, 1.1, 3.0, 1e-3, 1e-3, 0.0];
    let away: Vec<[f64; 2]> = src.iter().map(|p| [p[0] + 200.0, p[1] + 150.0]).collect();
    for (h, pts) in [(fitted, &src), (at_infinity, &away)] {
        for scale in [1.0, -3.7, 1.0 / 3.0, 2.5e5] {
            let h0 = h.map(|v| v * scale);
            for push in [0.0, 0.4] {
                let dst: Vec<[f64; 2]> = pts
                    .iter()
                    .enumerate()
                    .map(|(i, &p)| {
                        let e = apply_true(&h, p);
                        [e[0] + push * i as f64, e[1] - push]
                    })
                    .collect();
                let h1 = refine_lm(&h0, pts, &dst);
                let (before, after) = (cost_of(&h0, pts, &dst), cost_of(&h1, pts, &dst));
                assert!(after <= before + 1e-12, "{scale} {push}: {before} -> {after}");
            }
        }
    }
}

#[test]
fn estimate_with_outliers_uses_ransac() {
    let mut src = square_mm();
    src.extend([[350.0, 0.0], [500.0, 0.0], [500.0, 150.0], [350.0, 150.0]]);
    let mut dst: Vec<[f64; 2]> = src.iter().map(|&p| apply_true(&H_TRUE, p)).collect();
    // One gross outlier.
    dst[5][0] += 40.0;
    dst[5][1] -= 35.0;
    let est = estimate(&src, &dst, 3.0).unwrap();
    assert_eq!(est.inliers, 7, "outlier must be excluded");
    assert!(f(est.residuals[5]) > 30.0, "outlier residual stays visible");
    // Inlier residuals essentially zero.
    for (i, r) in est.residuals.iter().enumerate() {
        let r = f(*r);
        if i != 5 {
            assert!(r < 0.01, "inlier {i} residual {r}");
        }
    }
}

#[test]
fn estimate_rejects_degenerate_input() {
    // All four points collinear: the DLT nullspace is multi-dimensional and any
    // returned "solution" would be rank-deficient garbage with deceptively perfect
    // residuals. Must be rejected outright.
    let src = vec![[0.0, 0.0], [1.0, 0.0], [2.0, 0.0], [3.0, 0.0]];
    let dst = src.clone();
    assert!(dlt(&src, &dst).is_none(), "collinear 4-point set must be rejected");
    assert!(estimate(&src, &dst, 3.0).is_none(), "estimate must reject it too");

    // Three collinear out of four is equally degenerate.
    let src3 = vec![[0.0, 0.0], [1.0, 0.0], [2.0, 0.0], [1.0, 5.0]];
    let dst3 = src3.clone();
    assert!(dlt(&src3, &dst3).is_none(), "3-collinear set must be rejected");

    // Near-collinear (points off the line by ~1e-9) is numerically the same trap.
    let src_near = vec![[0.0, 0.0], [1.0, 1e-9], [2.0, -1e-9], [3.0, 0.0]];
    assert!(dlt(&src_near, &src_near).is_none(), "near-collinear must be rejected");

    assert!(estimate(&src[..3], &dst[..3], 3.0).is_none(), "under-determined");

    // A well-conditioned square is still estimated.
    let ok_src = square_mm();
    let ok_dst: Vec<[f64; 2]> = ok_src.iter().map(|&p| apply_true(&H_TRUE, p)).collect();
    assert!(dlt(&ok_src, &ok_dst).is_some(), "well-conditioned set must survive");
}

#[test]
fn residual_summary_is_consistent() {
    let src = square_mm();
    let dst: Vec<[f64; 2]> = src.iter().map(|&p| apply_true(&H_TRUE, p)).collect();
    let est = estimate(&src, &dst, 3.0).unwrap();
    assert_eq!(est.residuals.len(), 4);
    assert!(f(est.rms) < 1e-6, "perfect points: rms {}", f(est.rms));
    assert!(f(est.max) < 1e-6);
    assert_eq!(est.inliers, 4);
}

#[test]
fn distort_undistort_round_trip() {
    for k1 in [-0.15, -0.05, 0.0, 0.04] {
        let lens = Distortion::new(640, 360, d(k1));
        for p in [[10.0, 10.0], [320.0, 180.0], [600.0, 40.0], [50.0, 340.0]] {
            let q = unpoint(&lens.undistort(lens.distort(point(p))));
            assert!(
                (q[0] - p[0]).abs() < 1e-9 && (q[1] - p[1]).abs() < 1e-9,
                "round trip failed for k1={k1}, p={p:?} -> {q:?}"
            );
            let q2 = unpoint(&lens.distort(lens.undistort(point(p))));
            assert!((q2[0] - p[0]).abs() < 1e-9 && (q2[1] - p[1]).abs() < 1e-9);
        }
    }
}

#[test]
fn distorting_undoes_undistorting_up_to_the_corners_of_large_frames() {
    for k1 in [-0.35, -0.2, -1e-6, 0.0, 1e-6, 0.2, 0.35] {
        let lens = Distortion::new(16000, 12000, d(k1));
        for p in [[0.0, 0.0], [16000.0, 12000.0], [8000.0, 6000.0], [15999.5, 3.25], [1.0, 6000.0]] {
            let q = unpoint(&lens.distort(lens.undistort(point(p))));
            assert!(
                (q[0] - p[0]).abs() < 1e-9 && (q[1] - p[1]).abs() < 1e-9,
                "k1={k1}, p={p:?} -> {q:?}"
            );
        }
    }
}

#[test]
fn barrel_distortion_pulls_points_toward_the_centre() {
    let lens = Distortion::new(640, 360, d(-0.10));
    let ideal = [630.0, 350.0]; // near the corner
    let meas = unpoint(&lens.distort(point(ideal)));
    let r_ideal = ((ideal[0] - 320.0f64).powi(2) + (ideal[1] - 180.0).powi(2)).sqrt();
    let r_meas = ((meas[0] - 320.0f64).powi(2) + (meas[1] - 180.0).powi(2)).sqrt();
    assert!(r_meas < r_ideal, "barrel (k1<0) must pull inward: {r_meas} vs {r_ideal}");
}

#[test]
fn rodrigues_round_trip() {
    for rv in [[0.0, 0.0, 0.0], [0.05, -0.02, 0.01], [0.0, 0.4, 0.0], [-0.3, 0.1, 0.25]] {
        let r = rodrigues(&rv);
        let back = rodrigues_inv(&r);
        for k in 0..3 {
            assert!((back[k] - rv[k]).abs() < 1e-9, "{rv:?} -> {back:?}");
        }
    }
}

#[test]
fn pose_decomposition_round_trips_through_the_homography() {
    let (focal, cx, cy) = (700.0, 320.0, 180.0);
    let rv = [0.02, -0.06, 0.015];
    let c = [800.0, 300.0, -1400.0];
    let w = pose_h(focal, cx, cy, &rv, &c);
    let (rv2, c2) = decompose_pose(&w, focal, cx, cy).expect("decompose");
    for k in 0..3 {
        assert!((rv2[k] - rv[k]).abs() < 1e-9, "rvec {rv:?} -> {rv2:?}");
        assert!((c2[k] - c[k]).abs() < 1e-6, "centre {c:?} -> {c2:?}");
    }
}

#[test]
fn init_focal_recovers_truth_from_rotated_views() {
    let (focal, cx, cy) = (700.0f64, 320.0, 180.0);
    let mut chain = Vec::new();
    for i in 0..8 {
        let yaw = -0.08 + 0.02 * i as f64;
        let pitch = 0.03 * ((i % 3) as f64 - 1.0);
        let rv = [pitch, yaw, 0.0];
        let c = [400.0 * i as f64, 280.0, -1400.0];
        chain.push(matrix(&pose_h(focal, cx, cy, &rv, &c)));
    }
    let f_est = f(init_focal(&chain, &d(cx), &d(cy)).expect("solvable"));
    assert!(
        (f_est - focal).abs() / focal < 0.02,
        "closed-form focal {f_est:.1} vs true {focal:.1}"
    );
    assert!(init_focal(&Vec::new(), &d(cx), &d(cy)).is_none());
}

#[test]
fn eigenvalues_come_with_the_vector() {
    let mut a = rows(&[5.0, 0.0, 0.0, 0.0, 2.0, 0.0, 0.0, 0.0, 0.5], 3);
    let (v, least, second) = geometry_core::eigen::smallest_eigenpair_sym(&mut a);
    assert_eq!((f(least), f(second)), (0.5, 2.0));
    assert_eq!(f(v[2]).abs(), 1.0);
}

#[test]
fn points_at_infinity_are_far_but_finite() {
    let h = matrix(&[1.0, 0.0, 0.0, 0.0, 1.0, 0.0, 1.0, 0.0, -2.0]);
    assert_eq!(unpoint(&geometry_core::pose::project(&h, d(2.0), d(5.0))), [1e6, 1e6]);
    assert_eq!(unpoint(&geometry_core::pose::project(&h, d(3.0), d(5.0))), [3.0, 5.0]);
    // A rotation too small to divide by is taken to first order.
    assert_eq!(rodrigues(&[1e-13, 0.0, 0.0]), [1.0, -0.0, 0.0, 0.0, 1.0, -1e-13, -0.0, 1e-13, 1.0]);
    assert!(decompose_pose(&[0.0; 9], 700.0, 320.0, 180.0).is_none());
}

#[test]
fn doubles_become_whole_numbers_as_casts_do() {
    for v in [
        0.0, -0.0, 0.49, 0.5, -0.5, 1.5, 2.5, -2.5, 7.999999, 1e15, -1e15, 4503599627370497.5, 1e300,
        -1e300, 5e-324, f64::NAN, f64::INFINITY, f64::NEG_INFINITY, 9007199254740993.0,
    ] {
        assert_eq!(d(v).truncate(), v as i64, "{v}");
        if v.is_nan() || v.abs() < 4e18 {
            assert_eq!(d(v).round(), v.round() as i64, "{v}");
        }
        if v.is_nan() || v == 0.0 || (1e-30..1e30).contains(&v.abs()) {
            let single = d(v).to_single();
            assert!(v.is_nan() || f(single) == v as f32 as f64, "{v}");
        }
    }
    assert_eq!(d(1e300).round(), 1i64 << 62);
    // Halfway between two singles: the even one.
    assert_eq!(f(d(16777217.0).to_single()), 16777216.0);
    assert_eq!(f(d(16777219.0).to_single()), 16777220.0);
}
