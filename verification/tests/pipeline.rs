//! The whole pipeline on synthetic ground truth: still rectification, live
//! coaching, recorded pans and self-calibration, with native floating-point kernels
//! behind the library's traits.
#![allow(dead_code)]
use geometry_core::analysis::{tenengrad, THUMB_DIV};
use geometry_core::bound::{BoundModel, K95};
use geometry_core::bundle::{CalibInput, Sighting};
use geometry_core::calib::CalibOutcome;
use geometry_core::closure::{fit_rigid_square, fit_similarity, MAX_CLOSURE_DISCREPANCY_MM};
use geometry_core::coach::{
    CoachCue, CoachStatus, Thumb, COACH_BLOWN_OUT, COACH_MARKER_LOST, COACH_MARKER_STALE_FRAMES,
    COACH_NO_MARKER, COACH_ROTATION, COACH_TOO_DARK, COACH_TOO_FAST,
};
use geometry_core::detect::DetectedMarker;
use geometry_core::distortion::Distortion;
use geometry_core::double::Double;
use geometry_core::features::MAX_FEATURES;
use geometry_core::frame::{grayscale, FrameProcessor};
use geometry_core::homography::{choose_chart, Chart, Estimate};
use geometry_core::lcg::Lcg;
use geometry_core::linalg::Mat3;
use geometry_core::links::{find_marker, Link, Matches, LINK_INLIER_THRESHOLD_PX};
use geometry_core::lm::{descend, Convergence};
use geometry_core::marker::{
    marker_cells, CELLS_PER_SIDE, LEFT_MARKER_ID, MARKER_SIDE_MM, QUIET_ZONE_CELLS,
    RIGHT_MARKER_ID,
};
use geometry_core::overlap::mean_luma;
use geometry_core::pan::{
    FrameDisposition, Keyframe, Observation, PanCore, PanError, LOST_TRACK_FRAMES,
};
use geometry_core::sample::Luma;
use geometry_core::shift;
use geometry_core::still::Rectified;
use geometry_core::synthetic;
use geometry_core::vision::{Calibrator, Estimator, Vision};
use geometry_core::wall::{process, stitch_wall, PanOutput, PanPlan};

// ---------------------------------------------------------------------------
// Floating-point kernels.

/// A double as the library holds it.
pub fn d(v: f64) -> Double {
    Double::from_bits(v.to_bits())
}

/// A double out of the library.
pub fn f(v: Double) -> f64 {
    f64::from_bits(v.bits)
}

pub fn point(p: [f64; 2]) -> [Double; 2] {
    [d(p[0]), d(p[1])]
}

pub fn unpoint(p: &[Double; 2]) -> [f64; 2] {
    [f(p[0]), f(p[1])]
}

pub fn matrix(m: &[f64; 9]) -> Mat3 {
    m.map(d)
}

pub fn unmatrix(m: &Mat3) -> [f64; 9] {
    m.map(f)
}

pub fn unquad(q: &[[Double; 2]; 4]) -> [[f64; 2]; 4] {
    [unpoint(&q[0]), unpoint(&q[1]), unpoint(&q[2]), unpoint(&q[3])]
}

pub fn mat3_mul(a: &[f64; 9], b: &[f64; 9]) -> [f64; 9] {
    unmatrix(&geometry_core::linalg::mat3_mul(&matrix(a), &matrix(b)))
}

pub fn mat3_inv(m: &[f64; 9]) -> Option<[f64; 9]> {
    geometry_core::linalg::mat3_inv(&matrix(m)).map(|inv| unmatrix(&inv))
}

/// Map a point; `None` if it lands on the plane at infinity.
pub fn apply(h: &[f64; 9], x: f64, y: f64) -> Option<(f64, f64)> {
    let w = h[6] * x + h[7] * y + h[8];
    let scale = h.iter().fold(0.0f64, |acc, v| acc.max(v.abs()));
    if w.abs() < 1e-12 * scale.max(1e-300) {
        return None;
    }
    Some(((h[0] * x + h[1] * y + h[2]) / w, (h[3] * x + h[4] * y + h[5]) / w))
}

/// Eigenvector for the smallest eigenvalue of a symmetric `n`x`n` row-major
/// matrix via cyclic Jacobi rotations, with the smallest and second-smallest
/// eigenvalues. `a` is destroyed. Floating point.
pub fn smallest_eigenpair_sym(a: &mut [f64], n: usize) -> (Vec<f64>, f64, f64) {
    let mut v = vec![0.0; n * n];
    for i in 0..n {
        v[i * n + i] = 1.0;
    }
    for _sweep in 0..60 {
        let mut off = 0.0;
        for p in 0..n {
            for q in p + 1..n {
                off += a[p * n + q].abs();
            }
        }
        if off < 1e-14 {
            break;
        }
        for p in 0..n {
            for q in p + 1..n {
                let apq = a[p * n + q];
                if apq.abs() < 1e-300 {
                    continue;
                }
                let theta = (a[q * n + q] - a[p * n + p]) / (2.0 * apq);
                let t = theta.signum() / (theta.abs() + (theta * theta + 1.0).sqrt());
                let c = 1.0 / (t * t + 1.0).sqrt();
                let s = t * c;
                for k in 0..n {
                    let akp = a[k * n + p];
                    let akq = a[k * n + q];
                    a[k * n + p] = c * akp - s * akq;
                    a[k * n + q] = s * akp + c * akq;
                }
                for k in 0..n {
                    let apk = a[p * n + k];
                    let aqk = a[q * n + k];
                    a[p * n + k] = c * apk - s * aqk;
                    a[q * n + k] = s * apk + c * aqk;
                }
                for k in 0..n {
                    let vkp = v[k * n + p];
                    let vkq = v[k * n + q];
                    v[k * n + p] = c * vkp - s * vkq;
                    v[k * n + q] = s * vkp + c * vkq;
                }
            }
        }
    }
    let mut min_i = 0;
    for i in 1..n {
        if a[i * n + i] < a[min_i * n + min_i] {
            min_i = i;
        }
    }
    let mut second = f64::INFINITY;
    for i in 0..n {
        if i != min_i {
            second = second.min(a[i * n + i]);
        }
    }
    let vec = (0..n).map(|k| v[k * n + min_i]).collect();
    (vec, a[min_i * n + min_i], second)
}

/// Solve `a * x = b` in place via Gaussian elimination with partial pivoting. On
/// success the solution is left in `b`. Floating point.
pub fn solve_in_place(a: &mut [f64], b: &mut [f64], n: usize) -> bool {
    for col in 0..n {
        let mut piv = col;
        for r in col + 1..n {
            if a[r * n + col].abs() > a[piv * n + col].abs() {
                piv = r;
            }
        }
        if a[piv * n + col].abs() < 1e-12 {
            return false;
        }
        if piv != col {
            for k in 0..n {
                a.swap(col * n + k, piv * n + k);
            }
            b.swap(col, piv);
        }
        let d = a[col * n + col];
        for r in col + 1..n {
            let f = a[r * n + col] / d;
            if f == 0.0 {
                continue;
            }
            for k in col..n {
                a[r * n + k] -= f * a[col * n + k];
            }
            b[r] -= f * b[col];
        }
    }
    for col in (0..n).rev() {
        let mut acc = b[col];
        for k in col + 1..n {
            acc -= a[col * n + k] * b[k];
        }
        b[col] = acc / a[col * n + col];
    }
    true
}

/// Hartley normalization: zero centroid, mean distance sqrt(2). Floating point.
fn normalizing_transform(pts: &[[f64; 2]]) -> Option<[f64; 9]> {
    let n = pts.len() as f64;
    let (mut cx, mut cy) = (0.0, 0.0);
    for p in pts {
        cx += p[0];
        cy += p[1];
    }
    cx /= n;
    cy /= n;
    let mut mean_dist = 0.0;
    for p in pts {
        mean_dist += ((p[0] - cx).powi(2) + (p[1] - cy).powi(2)).sqrt();
    }
    mean_dist /= n;
    if mean_dist < 1e-12 {
        return None;
    }
    let s = std::f64::consts::SQRT_2 / mean_dist;
    Some([s, 0.0, -s * cx, 0.0, s, -s * cy, 0.0, 0.0, 1.0])
}

/// Direct Linear Transform with Hartley normalization: the homography with unit
/// Frobenius norm, or `None` on degenerate input. Floating point.
pub fn dlt(src: &[[f64; 2]], dst: &[[f64; 2]]) -> Option<[f64; 9]> {
    let n = src.len();
    if n < 4 || dst.len() != n {
        return None;
    }
    let t_src = normalizing_transform(src)?;
    let t_dst = normalizing_transform(dst)?;
    let norm = |t: &[f64; 9], p: &[f64; 2]| {
        [t[0] * p[0] + t[1] * p[1] + t[2], t[4] * p[1] + t[3] * p[0] + t[5]]
    };
    let mut ata = [0.0f64; 81];
    let mut add_row = |row: [f64; 9]| {
        for i in 0..9 {
            if row[i] == 0.0 {
                continue;
            }
            for j in 0..9 {
                ata[i * 9 + j] += row[i] * row[j];
            }
        }
    };
    for i in 0..n {
        let s = norm(&t_src, &src[i]);
        let e = norm(&t_dst, &dst[i]);
        let (x, y, u, v) = (s[0], s[1], e[0], e[1]);
        add_row([-x, -y, -1.0, 0.0, 0.0, 0.0, u * x, u * y, u]);
        add_row([0.0, 0.0, 0.0, -x, -y, -1.0, v * x, v * y, v]);
    }
    let trace: f64 = (0..9).map(|i| ata[i * 9 + i]).sum();
    let (h_norm, _, second) = smallest_eigenpair_sym(&mut ata, 9);
    // A second eigenvalue that vanishes relative to the matrix scale means a
    // degenerate correspondence set.
    if second < 1e-12 * trace.max(f64::MIN_POSITIVE) {
        return None;
    }
    let mut hn = [0.0; 9];
    hn.copy_from_slice(&h_norm);
    let t_dst_inv = mat3_inv(&t_dst)?;
    let mut h = mat3_mul(&mat3_mul(&t_dst_inv, &hn), &t_src);
    let norm2: f64 = h.iter().map(|v| v * v).sum();
    if norm2 < 1e-300 {
        return None;
    }
    let inv_norm = norm2.sqrt().recip();
    for v in &mut h {
        *v *= inv_norm;
    }
    Some(h)
}

/// Per-point reprojection errors |H src - dst|. Floating point.
pub fn reprojection_errors(h: &[f64; 9], src: &[[f64; 2]], dst: &[[f64; 2]]) -> Vec<f64> {
    src.iter()
        .zip(dst)
        .map(|(s, e)| match apply(h, s[0], s[1]) {
            Some((u, v)) => ((u - e[0]).powi(2) + (v - e[1]).powi(2)).sqrt(),
            None => f64::INFINITY,
        })
        .collect()
}

fn reprojection_residuals(p: &[f64; 8], src: &[[f64; 2]], dst: &[[f64; 2]]) -> Vec<f64> {
    let h = [p[0], p[1], p[2], p[3], p[4], p[5], p[6], p[7], 1.0];
    let mut out = Vec::with_capacity(src.len() * 2);
    for (s, e) in src.iter().zip(dst) {
        match apply(&h, s[0], s[1]) {
            Some((u, v)) => {
                out.push(u - e[0]);
                out.push(v - e[1]);
            }
            None => {
                out.push(1e6);
                out.push(1e6);
            }
        }
    }
    out
}

/// Normal equations J^T J and J^T r of a numeric Jacobian given column by
/// column. Floating point.
fn normal_equations(jac: &[f64], r: &[f64], np: usize) -> (Vec<f64>, Vec<f64>) {
    let mut jtj = vec![0.0f64; np * np];
    let mut jtr = vec![0.0f64; np];
    for (i, ri) in r.iter().enumerate() {
        let row = &jac[i * np..(i + 1) * np];
        for a in 0..np {
            let ja = row[a];
            if ja == 0.0 {
                continue;
            }
            jtr[a] += ja * ri;
            for b in a..np {
                jtj[a * np + b] += ja * row[b];
            }
        }
    }
    for a in 0..np {
        for b in 0..a {
            jtj[a * np + b] = jtj[b * np + a];
        }
    }
    (jtj, jtr)
}

/// The damped Gauss-Newton step. Floating point.
fn damped_step(jtj: &[f64], jtr: &[f64], lambda: f64, np: usize) -> Option<Vec<f64>> {
    let mut a = jtj.to_vec();
    for k in 0..np {
        a[k * np + k] += lambda * jtj[k * np + k].max(1e-12);
    }
    let mut delta: Vec<f64> = jtr.iter().map(|v| -v).collect();
    solve_in_place(&mut a, &mut delta, np).then_some(delta)
}

fn refine_direct(h: &[f64; 9], src: &[[f64; 2]], dst: &[[f64; 2]]) -> [f64; 9] {
    let mut p = [0.0f64; 8];
    for i in 0..8 {
        p[i] = h[i] / h[8];
    }
    let linearize = |s: &([f64; 8], Vec<f64>)| -> (Vec<f64>, Vec<f64>) {
        let (p, r) = s;
        let m = r.len();
        let mut jac = vec![0.0f64; m * 8];
        for j in 0..8 {
            let step = 1e-7 * p[j].abs().max(1e-4);
            let mut pj = *p;
            pj[j] += step;
            let pert = reprojection_residuals(&pj, src, dst);
            for i in 0..m {
                jac[i * 8 + j] = (pert[i] - r[i]) / step;
            }
        }
        normal_equations(&jac, r, 8)
    };
    let step = |s: &([f64; 8], Vec<f64>), l: &(Vec<f64>, Vec<f64>), lambda: &Double| {
        let delta = damped_step(&l.0, &l.1, f(*lambda), 8)?;
        let mut p = s.0;
        for k in 0..8 {
            p[k] += delta[k];
        }
        let r = reprojection_residuals(&p, src, dst);
        let cost: f64 = r.iter().map(|v| v * v).sum();
        Some(((p, r), d(cost)))
    };
    let r = reprojection_residuals(&p, src, dst);
    let cost: f64 = r.iter().map(|v| v * v).sum();
    let rule = Convergence::CostBelow(d(1e-20));
    let ((p, _), _) = descend(&linearize, &step, rule, (p, r), d(cost), 50);
    [p[0], p[1], p[2], p[3], p[4], p[5], p[6], p[7], 1.0]
}

/// Levenberg-Marquardt refinement of a homography, minimizing the sum of squared
/// reprojection errors over 8 parameters h / h[8]. Floating point.
pub fn refine_lm(h: &[f64; 9], src: &[[f64; 2]], dst: &[[f64; 2]]) -> [f64; 9] {
    let pts: Vec<[Double; 2]> = src.iter().map(|p| point(*p)).collect();
    match choose_chart(&matrix(h), &pts) {
        Chart::Direct => refine_direct(h, src, dst),
        Chart::Unrefined => *h,
        Chart::Moved { origin, shifted } => {
            let p = unpoint(&origin);
            let moved: Vec<[f64; 2]> = src.iter().map(|s| [s[0] - p[0], s[1] - p[1]]).collect();
            let refined = refine_direct(&unmatrix(&shifted), &moved, dst);
            mat3_mul(&refined, &[1.0, 0.0, -p[0], 0.0, 1.0, -p[1], 0.0, 0.0, 1.0])
        }
    }
}

/// Estimate a homography from correspondences; an inlier's error does not exceed
/// `threshold`.
pub fn estimate(src: &[[f64; 2]], dst: &[[f64; 2]], threshold: f64) -> Option<Estimate<Mat3>> {
    let pick = |idx: &[usize], pts: &[[f64; 2]]| -> Vec<[f64; 2]> {
        idx.iter().map(|&i| pts[i]).collect()
    };
    let fit = |a: usize, b: usize, c: usize, e: usize| {
        let idx = [a, b, c, e];
        dlt(&pick(&idx, src), &pick(&idx, dst))
    };
    let errors = |m: &[f64; 9]| -> Vec<Double> {
        reprojection_errors(m, src, dst).into_iter().map(d).collect()
    };
    let refit = |idx: &Vec<usize>| dlt(&pick(idx, src), &pick(idx, dst));
    let refine = |m: &[f64; 9], idx: &Vec<usize>| refine_lm(m, &pick(idx, src), &pick(idx, dst));
    let est = geometry_core::homography::estimate_with(
        src.len(),
        dst.len(),
        &fit,
        &errors,
        &refit,
        &refine,
        d(threshold),
    )?;
    Some(Estimate {
        h: matrix(&est.h),
        residuals: est.residuals,
        rms: est.rms,
        max: est.max,
        inliers: est.inliers,
    })
}

/// Estimate a homography between points that the library holds.
pub fn estimate_points(
    src: &Vec<[Double; 2]>,
    dst: &Vec<[Double; 2]>,
    threshold: f64,
) -> Option<Estimate<Mat3>> {
    let s: Vec<[f64; 2]> = src.iter().map(unpoint).collect();
    let e: Vec<[f64; 2]> = dst.iter().map(unpoint).collect();
    estimate(&s, &e, threshold)
}

/// Sine and cosine of the angle of the direction (x, y). Floating point.
pub fn turn(y: Double, x: Double) -> (Double, Double) {
    let (s, c) = f(y).atan2(f(x)).sin_cos();
    (d(s), d(c))
}

/// A power. Floating point.
pub fn power(base: Double, exponent: Double) -> Double {
    d(f(base).powf(f(exponent)))
}

/// Bilinear sample of the colour at a point of an RGBA frame, if it is inside.
/// Floating point.
pub fn sample_rgb(rgba: &[u8], width: usize, height: usize, x: f64, y: f64) -> Option<[u8; 3]> {
    if !(x >= 0.0 && y >= 0.0 && x <= (width - 1) as f64 && y <= (height - 1) as f64) {
        return None;
    }
    let x0 = x.floor() as usize;
    let y0 = y.floor() as usize;
    let x1 = (x0 + 1).min(width - 1);
    let y1 = (y0 + 1).min(height - 1);
    let fx = x - x0 as f64;
    let fy = y - y0 as f64;
    let mut out = [0u8; 3];
    for (ch, o) in out.iter_mut().enumerate() {
        let g = |xx: usize, yy: usize| rgba[(yy * width + xx) * 4 + ch] as f64;
        let v = g(x0, y0) * (1.0 - fx) * (1.0 - fy)
            + g(x1, y0) * fx * (1.0 - fy)
            + g(x0, y1) * (1.0 - fx) * fy
            + g(x1, y1) * fx * fy;
        *o = v.round().clamp(0.0, 255.0) as u8;
    }
    Some(out)
}

/// Frames that the library can look for markers in.
pub fn assert_detectable(width: usize, height: usize) {
    assert!(geometry_core::detect::detectable(width, height), "frame too large");
}

/// Detect all Reference Markers in a luma plane.
pub fn detect_markers(gray: &[u8], width: usize, height: usize) -> Vec<DetectedMarker> {
    assert_detectable(width, height);
    assert!(gray.len() == width * height, "luma plane does not match the frame size");
    geometry_core::detect::detect_markers(gray, width, height)
}

/// Edge blur width (px) of a detected marker's border.
pub fn marker_edge_blur_px(
    gray: &[u8],
    width: usize,
    height: usize,
    corners: &[[Double; 2]; 4],
) -> Double {
    assert!(width > 0 && height > 0 && gray.len() == width * height);
    geometry_core::blur::marker_edge_blur_px(&Luma { gray, width, height }, corners)
}

/// Harris corners of a luma plane, strongest first.
pub fn harris_corners(gray: &[u8], w: usize, h: usize, max_pts: usize) -> Vec<[f64; 2]> {
    assert!(gray.len() == w * h, "luma plane does not match the frame size");
    assert!(w <= i32::MAX as usize && h <= i32::MAX as usize, "frame too large");
    geometry_core::features::harris_corners(gray, w, h, max_pts)
        .into_iter()
        .map(|p| [p[0] as f64, p[1] as f64])
        .collect()
}

/// Match a feature from `a` into `b` by zero-mean NCC over a search window around
/// `predicted`. Floating point.
pub fn ncc_match(
    a: &[u8],
    b: &[u8],
    w: usize,
    h: usize,
    p: [f64; 2],
    predicted: [f64; 2],
) -> Option<([f64; 2], f64)> {
    const R: i64 = shift::PATCH_RADIUS;
    let (px, py) = (p[0].round() as i64, p[1].round() as i64);
    if !shift::patch_fits(w, h, px, py) {
        return None;
    }
    let at = |img: &[u8], x: i64, y: i64| img[y as usize * w + x as usize] as f64;
    let n = ((2 * R + 1) * (2 * R + 1)) as f64;
    let mut sum = 0.0f64;
    for dy in -R..=R {
        for dx in -R..=R {
            sum += at(a, px + dx, py + dy);
        }
    }
    let mean_a = sum / n;
    let mut var_a = 0.0f64;
    let mut tmpl = [0f64; 13 * 13];
    for dy in -R..=R {
        for dx in -R..=R {
            let v = at(a, px + dx, py + dy) - mean_a;
            tmpl[((dy + R) * 13 + dx + R) as usize] = v;
            var_a += v * v;
        }
    }
    if var_a < 1e-3 {
        return None;
    }
    let limit = 1i64 << 47;
    let cx = (predicted[0].round() as i64).clamp(-limit, limit);
    let cy = (predicted[1].round() as i64).clamp(-limit, limit);
    let score = |sx: i64, sy: i64| -> Double {
        let (qx, qy) = (cx + sx, cy + sy);
        if sx.abs() > shift::SEARCH_RADIUS
            || sy.abs() > shift::SEARCH_RADIUS
            || !shift::patch_fits(w, h, qx, qy)
        {
            return Double::from_bits(shift::NO_SCORE);
        }
        let mut sum_b = 0.0f64;
        for dy in -R..=R {
            for dx in -R..=R {
                sum_b += at(b, qx + dx, qy + dy);
            }
        }
        let mean_b = sum_b / n;
        let (mut num, mut var_b) = (0.0f64, 0.0f64);
        for dy in -R..=R {
            for dx in -R..=R {
                let vb = at(b, qx + dx, qy + dy) - mean_b;
                num += tmpl[((dy + R) * 13 + dx + R) as usize] * vb;
                var_b += vb * vb;
            }
        }
        if var_b < 1e-3 {
            return Double::from_bits(shift::NO_SCORE);
        }
        d(num / (var_a * var_b).sqrt())
    };
    let m = shift::match_by(&score, cx, cy)?;
    Some(([f(m.x), f(m.y)], f(m.score)))
}

/// Incremental translation between two consecutive-frame thumbnails by zero-mean
/// NCC over a small window. Floating point.
pub fn ncc_shift(a: &[f32], b: &[f32], tw: usize, th: usize) -> Option<shift::Shift> {
    let score = |dx: i64, dy: i64| -> Double {
        let x0 = 0.max(-dx) as usize;
        let x1 = (tw as i64).min(tw as i64 - dx).max(0) as usize;
        let y0 = 0.max(-dy) as usize;
        let y1 = (th as i64).min(th as i64 - dy).max(0) as usize;
        if x1 <= x0 + 4 || y1 <= y0 + 4 {
            return Double::from_bits(shift::NO_SCORE);
        }
        let shifted = |x: usize, y: usize| {
            b[(y as i64 + dy) as usize * tw + (x as i64 + dx) as usize] as f64
        };
        let n = ((x1 - x0) * (y1 - y0)) as f64;
        let (mut sa, mut sb) = (0.0f64, 0.0f64);
        for y in y0..y1 {
            for x in x0..x1 {
                sa += a[y * tw + x] as f64;
                sb += shifted(x, y);
            }
        }
        let (ma, mb) = (sa / n, sb / n);
        let (mut num, mut da, mut db) = (0.0f64, 0.0f64, 0.0f64);
        for y in y0..y1 {
            for x in x0..x1 {
                let va = a[y * tw + x] as f64 - ma;
                let vb = shifted(x, y) - mb;
                num += va * vb;
                da += va * va;
                db += vb * vb;
            }
        }
        if da < 1e-6 || db < 1e-6 {
            return Double::from_bits(shift::NO_SCORE);
        }
        d(num / (da * db).sqrt())
    };
    shift::ncc_shift_local(&score)
}

/// The division lens model on native doubles, for per-pixel loops.
#[derive(Clone, Copy, Debug)]
pub struct Lens {
    pub k1: f64,
    pub cx: f64,
    pub cy: f64,
    pub r0: f64,
}

impl Lens {
    pub fn new(width: usize, height: usize, k1: f64) -> Lens {
        let cx = width as f64 / 2.0;
        let cy = height as f64 / 2.0;
        Lens { k1, cx, cy, r0: (cx * cx + cy * cy).sqrt().max(1.0) }
    }

    /// Measured px -> ideal px. Floating point.
    pub fn undistort(&self, p: [f64; 2]) -> [f64; 2] {
        if self.k1 == 0.0 {
            return p;
        }
        let dx = p[0] - self.cx;
        let dy = p[1] - self.cy;
        let rn2 = (dx * dx + dy * dy) / (self.r0 * self.r0);
        let mut s = 1.0 + self.k1 * rn2;
        if s.abs() < 1e-3 {
            s = if s < 0.0 { -1e-3 } else { 1e-3 };
        }
        [self.cx + dx / s, self.cy + dy / s]
    }

    /// Ideal px -> measured px. Floating point.
    pub fn distort(&self, p: [f64; 2]) -> [f64; 2] {
        if self.k1 == 0.0 {
            return p;
        }
        let dx = p[0] - self.cx;
        let dy = p[1] - self.cy;
        let ru = (dx * dx + dy * dy).sqrt() / self.r0;
        if ru < 1e-12 {
            return p;
        }
        let disc = 1.0 - 4.0 * self.k1 * ru * ru;
        if disc < 0.0 {
            return p;
        }
        let scale = 2.0 / (1.0 + disc.sqrt());
        [self.cx + dx * scale, self.cy + dy * scale]
    }
}

/// Rodrigues: axis-angle to a row-major rotation matrix. Floating point.
pub fn rodrigues(r: &[f64; 3]) -> [f64; 9] {
    let th = (r[0] * r[0] + r[1] * r[1] + r[2] * r[2]).sqrt();
    if th < 1e-12 {
        return [1.0, -r[2], r[1], r[2], 1.0, -r[0], -r[1], r[0], 1.0];
    }
    let (s, c) = th.sin_cos();
    let (x, y, z) = (r[0] / th, r[1] / th, r[2] / th);
    let c1 = 1.0 - c;
    [
        c + x * x * c1,
        x * y * c1 - z * s,
        x * z * c1 + y * s,
        y * x * c1 + z * s,
        c + y * y * c1,
        y * z * c1 - x * s,
        z * x * c1 - y * s,
        z * y * c1 + x * s,
        c + z * z * c1,
    ]
}

/// Inverse Rodrigues, for rotations well below pi. Floating point.
pub fn rodrigues_inv(m: &[f64; 9]) -> [f64; 3] {
    let cos = ((m[0] + m[4] + m[8] - 1.0) / 2.0).clamp(-1.0, 1.0);
    let th = cos.acos();
    let v = [m[7] - m[5], m[2] - m[6], m[3] - m[1]];
    let sin = (1.0 - cos * cos).sqrt();
    if sin < 1e-9 {
        return [v[0] / 2.0, v[1] / 2.0, v[2] / 2.0];
    }
    let s = th / (2.0 * sin);
    [v[0] * s, v[1] * s, v[2] * s]
}

/// Wall (mm, z = 0) -> ideal px homography of a camera. Floating point.
pub fn pose_h(focal: f64, cx: f64, cy: f64, rvec: &[f64; 3], c: &[f64; 3]) -> [f64; 9] {
    let r = rodrigues(rvec);
    let t = [
        -(r[0] * c[0] + r[1] * c[1] + r[2] * c[2]),
        -(r[3] * c[0] + r[4] * c[1] + r[5] * c[2]),
        -(r[6] * c[0] + r[7] * c[1] + r[8] * c[2]),
    ];
    let m = [r[0], r[1], t[0], r[3], r[4], t[1], r[6], r[7], t[2]];
    [
        focal * m[0] + cx * m[6],
        focal * m[1] + cx * m[7],
        focal * m[2] + cx * m[8],
        focal * m[3] + cy * m[6],
        focal * m[4] + cy * m[7],
        focal * m[5] + cy * m[8],
        m[6],
        m[7],
        m[8],
    ]
}

fn project_finite(h: &[f64; 9], x: f64, y: f64) -> [f64; 2] {
    let w = h[6] * x + h[7] * y + h[8];
    if w.abs() < 1e-12 {
        return [1e6, 1e6];
    }
    [(h[0] * x + h[1] * y + h[2]) / w, (h[3] * x + h[4] * y + h[5]) / w]
}

/// Decompose a wall->px homography into (rvec, camera centre) given a focal.
/// Floating point.
pub fn decompose_pose(w: &[f64; 9], focal: f64, cx: f64, cy: f64) -> Option<([f64; 3], [f64; 3])> {
    let m = [
        (w[0] - cx * w[6]) / focal,
        (w[1] - cx * w[7]) / focal,
        (w[2] - cx * w[8]) / focal,
        (w[3] - cy * w[6]) / focal,
        (w[4] - cy * w[7]) / focal,
        (w[5] - cy * w[8]) / focal,
        w[6],
        w[7],
        w[8],
    ];
    let n1 = (m[0] * m[0] + m[3] * m[3] + m[6] * m[6]).sqrt();
    let n2 = (m[1] * m[1] + m[4] * m[4] + m[7] * m[7]).sqrt();
    if !(n1.is_finite() && n2.is_finite()) || n1 + n2 < 1e-12 {
        return None;
    }
    let mut lam = 2.0 / (n1 + n2);
    if lam * m[8] < 0.0 {
        lam = -lam;
    }
    let r1 = [lam * m[0], lam * m[3], lam * m[6]];
    let r2 = [lam * m[1], lam * m[4], lam * m[7]];
    let t = [lam * m[2], lam * m[5], lam * m[8]];
    let norm = |v: [f64; 3]| -> Option<[f64; 3]> {
        let n = (v[0] * v[0] + v[1] * v[1] + v[2] * v[2]).sqrt();
        (n >= 1e-12).then(|| [v[0] / n, v[1] / n, v[2] / n])
    };
    let r1n = norm(r1)?;
    let dot = r2[0] * r1n[0] + r2[1] * r1n[1] + r2[2] * r1n[2];
    let r2n = norm([r2[0] - dot * r1n[0], r2[1] - dot * r1n[1], r2[2] - dot * r1n[2]])?;
    let r3 = [
        r1n[1] * r2n[2] - r1n[2] * r2n[1],
        r1n[2] * r2n[0] - r1n[0] * r2n[2],
        r1n[0] * r2n[1] - r1n[1] * r2n[0],
    ];
    let r = [r1n[0], r2n[0], r3[0], r1n[1], r2n[1], r3[1], r1n[2], r2n[2], r3[2]];
    let c = [
        -(r[0] * t[0] + r[3] * t[1] + r[6] * t[2]),
        -(r[1] * t[0] + r[4] * t[1] + r[7] * t[2]),
        -(r[2] * t[0] + r[5] * t[1] + r[8] * t[2]),
    ];
    Some((rodrigues_inv(&r), c))
}

/// The observations of self-calibration, in raw measured px. Parameters are
/// [f, k1, (rvec, C) for each keyframe].
pub struct Bundle<'a> {
    pub width: usize,
    pub height: usize,
    pub n: usize,
    pub world_a: [[f64; 2]; 4],
    /// Marker A: keyframe index and measured corners.
    pub marker_a: &'a [(usize, [[f64; 2]; 4])],
    pub links: &'a [(Vec<[f64; 2]>, Vec<[f64; 2]>)],
}

/// Parameters of a bundle, with its residuals there.
pub type BundleState = (Vec<f64>, Vec<f64>);

const MARKER_WEIGHT: f64 = 2.0;

impl Bundle<'_> {
    /// All residuals. Floating point.
    fn residuals(&self, p: &[f64]) -> Vec<f64> {
        let lens = Lens::new(self.width, self.height, p[1]);
        let mut w = Vec::with_capacity(self.n);
        let mut winv = Vec::with_capacity(self.n);
        for i in 0..self.n {
            let rv = [p[2 + 6 * i], p[3 + 6 * i], p[4 + 6 * i]];
            let c = [p[5 + 6 * i], p[6 + 6 * i], p[7 + 6 * i]];
            let wi = pose_h(p[0], lens.cx, lens.cy, &rv, &c);
            winv.push(mat3_inv(&wi));
            w.push(wi);
        }
        let mut out = Vec::new();
        let push = |pred: [f64; 2], meas: [f64; 2], weight: f64, out: &mut Vec<f64>| {
            out.push(weight * (pred[0] - meas[0]).clamp(-1e6, 1e6));
            out.push(weight * (pred[1] - meas[1]).clamp(-1e6, 1e6));
        };
        for (kf, corners) in self.marker_a {
            for k in 0..4 {
                let wall = self.world_a[k];
                let pred = lens.distort(project_finite(&w[*kf], wall[0], wall[1]));
                push(pred, corners[k], MARKER_WEIGHT, &mut out);
            }
        }
        for (i, (src, dst)) in self.links.iter().enumerate() {
            match &winv[i] {
                Some(inv) => {
                    for (pt, q) in src.iter().zip(dst) {
                        let pu = lens.undistort(*pt);
                        let wall = project_finite(inv, pu[0], pu[1]);
                        let pred = lens.distort(project_finite(&w[i + 1], wall[0], wall[1]));
                        push(pred, *q, 1.0, &mut out);
                    }
                }
                None => out.resize(out.len() + 2 * src.len(), 1e4),
            }
        }
        out
    }

    /// Numeric Jacobian (forward differences), row-major. Floating point.
    fn jacobian(&self, s: &BundleState) -> Vec<f64> {
        let (p, r) = s;
        let np = p.len();
        let mut jac = vec![0.0f64; r.len() * np];
        for j in 0..np {
            let step = if j == 0 {
                1e-6 * p[0].abs().max(1.0)
            } else if j == 1 {
                1e-6
            } else if (j - 2) % 6 < 3 {
                1e-7
            } else {
                1e-4 * p[j].abs().max(10.0)
            };
            let mut pj = p.clone();
            pj[j] += step;
            let pert = self.residuals(&pj);
            for i in 0..r.len() {
                jac[i * np + j] = (pert[i] - r[i]) / step;
            }
        }
        jac
    }
}

/// Jointly refine {focal, k1, keyframe poses} over the bundle's observations.
pub fn self_calibrate(bundle: &Bundle<'_>, k1_init: f64, w_chain: &Vec<Mat3>) -> CalibOutcome {
    let n = bundle.n;
    let np = 2 + 6 * n;
    let (cx, cy) = (bundle.width as f64 / 2.0, bundle.height as f64 / 2.0);
    let init = |f0: Double| -> Option<BundleState> {
        let mut p = vec![0.0f64; np];
        p[0] = f(f0);
        p[1] = k1_init;
        for i in 0..n {
            let (rv, c) = decompose_pose(&unmatrix(&w_chain[i]), p[0], cx, cy)?;
            p[2 + 6 * i..5 + 6 * i].copy_from_slice(&rv);
            p[5 + 6 * i..8 + 6 * i].copy_from_slice(&c);
        }
        let r = bundle.residuals(&p);
        Some((p, r))
    };
    let cost_of = |r: &[f64]| -> f64 { r.iter().map(|v| v * v).sum() };
    let measure = |s: &BundleState| (s.1.len(), d(cost_of(&s.1)));
    let linearize = |s: &BundleState| normal_equations(&bundle.jacobian(s), &s.1, np);
    let step = |s: &BundleState, l: &(Vec<f64>, Vec<f64>), lambda: &Double| {
        let delta = damped_step(&l.0, &l.1, f(*lambda), np)?;
        let p: Vec<f64> = s.0.iter().zip(&delta).map(|(a, b)| a + b).collect();
        let r = bundle.residuals(&p);
        let cost = cost_of(&r);
        Some(((p, r), d(cost)))
    };
    let intrinsics = |s: &BundleState| (d(s.0[0]), d(s.0[1]));
    let curvature = |s: &BundleState| {
        let (jtj, _) = normal_equations(&bundle.jacobian(s), &s.1, np);
        let entry = |idx: usize| {
            let mut a = jtj.clone();
            let mut e = vec![0.0f64; np];
            e[idx] = 1.0;
            solve_in_place(&mut a, &mut e, np).then(|| d(e[idx]))
        };
        (entry(0), entry(1))
    };
    let chain = |s: &BundleState| -> Vec<Mat3> {
        let p = &s.0;
        (0..n)
            .map(|i| {
                let rv = [p[2 + 6 * i], p[3 + 6 * i], p[4 + 6 * i]];
                let c = [p[5 + 6 * i], p[6 + 6 * i], p[7 + 6 * i]];
                matrix(&pose_h(p[0], cx, cy, &rv, &c))
            })
            .collect()
    };
    geometry_core::calib::self_calibrate_with(
        bundle.width,
        bundle.height,
        w_chain,
        bundle.marker_a.len(),
        bundle.links.len(),
        &init,
        &measure,
        &linearize,
        &step,
        &intrinsics,
        &curvature,
        &chain,
    )
}

/// The kept correspondences of links, on native doubles.
pub fn link_observations(links: &[Link]) -> Vec<(Vec<[f64; 2]>, Vec<[f64; 2]>)> {
    links
        .iter()
        .map(|l| {
            (
                l.kept.src.iter().map(unpoint).collect(),
                l.kept.dst.iter().map(unpoint).collect(),
            )
        })
        .collect()
}

// ---------------------------------------------------------------------------
// Recorder and still path.

/// Incremental pan recorder: feed every captured frame, it decides what to keep.
pub struct Recorder {
    core: PanCore,
    thumb_w: usize,
    thumb_h: usize,
}

/// Thumbnail pixels in single precision. Floating point.
fn thumb_pixels(thumb: &Thumb) -> Vec<f32> {
    thumb.sums.iter().map(|s| *s as f32 / thumb.area as f32).collect()
}

impl Recorder {
    pub fn new(width: usize, height: usize) -> Recorder {
        let limit = u32::MAX as usize;
        assert!(width <= limit && height <= limit, "frame too large");
        let pixels = width.checked_mul(height).expect("frame too large");
        assert!(pixels <= limit && pixels.checked_mul(4).is_some(), "frame too large");
        Recorder {
            core: PanCore::new(width, height),
            thumb_w: (width / THUMB_DIV).max(1),
            thumb_h: (height / THUMB_DIV).max(1),
        }
    }

    pub fn keyframe_count(&self) -> usize {
        self.core.keyframe_count()
    }

    pub fn coach_status(&self) -> CoachStatus {
        self.core.coach_status()
    }

    pub fn truncated(&self) -> bool {
        self.core.truncated()
    }

    pub fn tracking_broken(&self) -> bool {
        self.core.tracking_broken()
    }

    /// Consider one captured RGBA frame (`width * height * 4` bytes).
    pub fn push_frame(&mut self, rgba: &[u8]) -> FrameDisposition {
        assert!(
            rgba.len() == self.core.width * self.core.height * 4,
            "frame does not match the recorder's size"
        );
        assert!(self.core.coach.frame_idx < u32::MAX as u64, "recording too long");
        let frame = self.core.analyze(rgba);
        let thumb = thumb_pixels(&frame.thumb);
        let shift = self
            .core
            .prev_thumb
            .as_ref()
            .and_then(|prev| ncc_shift(&thumb_pixels(prev), &thumb, self.thumb_w, self.thumb_h));
        let thumb_px = shift.map_or(0.0, |s| f(s.dx).hypot(f(s.dy)));
        let mean_luma = mean_luma(&frame.thumb);
        let sighted = if self.core.detection_due() {
            detect_markers(&frame.gray, self.core.width, self.core.height)
                .iter()
                .map(|m| m.id)
                .collect()
        } else {
            Vec::new()
        };
        let seen = Observation { shift, thumb_px: d(thumb_px), mean_luma, sighted };
        self.core.record_frame(rgba, frame, seen)
    }

    /// Run the full post-capture pipeline.
    pub fn finish(&mut self, correction_factor: f64, close_loop: bool) -> Result<PanOutput, PanError> {
        self.finish_with(correction_factor, close_loop, true)
    }

    /// [`Recorder::finish`] with the self-calibration stage switchable:
    /// `calibrate = false` forces the pinhole path.
    pub fn finish_with(
        &mut self,
        correction_factor: f64,
        close_loop: bool,
        calibrate: bool,
    ) -> Result<PanOutput, PanError> {
        self.core.finish_recording(d(correction_factor))?;
        let plan = self.plan(correction_factor, close_loop, calibrate)?;
        Ok(self.stitch(plan))
    }

    fn plan(&self, factor: f64, close_loop: bool, calibrate: bool) -> Result<PanPlan, PanError> {
        let (width, height) = (self.core.width, self.core.height);
        let keyframes = &self.core.keyframes;
        let detections: Vec<Vec<DetectedMarker>> =
            keyframes.iter().map(|kf| detect_markers(&kf.gray, width, height)).collect();
        let marker_a: Vec<(usize, [[f64; 2]; 4])> = (0..keyframes.len())
            .filter_map(|i| find_marker(&detections[i], LEFT_MARKER_ID).map(|c| (i, unquad(&c))))
            .collect();
        let shifts: Vec<[Double; 2]> =
            keyframes.iter().map(|kf| [kf.shift_from_prev.0, kf.shift_from_prev.1]).collect();
        let sharpness: Vec<Double> = keyframes.iter().map(|kf| kf.sharpness).collect();
        let native = Native {
            keyframes,
            detections: &detections,
            marker_a: &marker_a,
            side: MARKER_SIDE_MM as f64 * factor,
            width,
            height,
        };
        process(
            (&native, &native),
            (&turn, &power),
            &native,
            d(factor),
            &shifts,
            &sharpness,
            &detections,
            width,
            height,
            close_loop,
            calibrate,
        )
    }

    /// Pick-best-source stitch; positions and colours of pixels are floating
    /// point.
    fn stitch(&self, plan: PanPlan) -> PanOutput {
        let (width, height) = (self.core.width, self.core.height);
        let keyframes = &self.core.keyframes;
        let chain: Vec<[f64; 9]> = plan.chain.iter().map(unmatrix).collect();
        let centres: Vec<[f64; 2]> = plan.centres.iter().map(unpoint).collect();
        let (min_x, min_y) = (f(plan.extent.min_x), f(plan.extent.min_y));
        let mm_per_px = f(plan.mm_per_px);
        let lens = Lens::new(width, height, f(plan.dist.k1));
        let wall = |x: usize, y: usize| {
            [min_x + (x as f64 + 0.5) * mm_per_px, min_y + (y as f64 + 0.5) * mm_per_px]
        };
        let rank = |i: usize, x: usize, y: usize| -> Double {
            let p = wall(x, y);
            let d2 = (p[0] - centres[i][0]).powi(2) + (p[1] - centres[i][1]).powi(2);
            d((d2 as f32) as f64)
        };
        let colour = |i: usize, x: usize, y: usize| -> Option<[u8; 3]> {
            let p = wall(x, y);
            let (ix, iy) = apply(&chain[i], p[0], p[1])?;
            let [sx, sy] = lens.distort([ix, iy]);
            sample_rgb(&keyframes[i].rgba, width, height, sx, sy)
        };
        stitch_wall(plan, &rank, &colour, width, height, self.core.truncated())
    }
}

/// What the pipeline asks for, on native doubles.
struct Native<'a> {
    keyframes: &'a Vec<Keyframe>,
    detections: &'a Vec<Vec<DetectedMarker>>,
    marker_a: &'a Vec<(usize, [[f64; 2]; 4])>,
    side: f64,
    width: usize,
    height: usize,
}

impl Vision for Native<'_> {
    fn corners(&self, i: usize) -> Vec<[Double; 2]> {
        harris_corners(&self.keyframes[i].gray, self.width, self.height, MAX_FEATURES)
            .into_iter()
            .map(point)
            .collect()
    }

    fn find(&self, i: usize, p: [Double; 2], predicted: [Double; 2]) -> Option<[Double; 2]> {
        let (a, b) = (&self.keyframes[i].gray, &self.keyframes[i + 1].gray);
        ncc_match(a, b, self.width, self.height, unpoint(&p), unpoint(&predicted))
            .map(|m| point(m.0))
    }

    fn blur(&self, i: usize) -> Double {
        match find_marker(&self.detections[i], RIGHT_MARKER_ID) {
            Some(c) => marker_edge_blur_px(&self.keyframes[i].gray, self.width, self.height, &c),
            None => d(0.0),
        }
    }
}

impl Estimator for Native<'_> {
    fn estimate(&self, src: &Vec<[Double; 2]>, dst: &Vec<[Double; 2]>) -> Option<Estimate<Mat3>> {
        estimate_points(src, dst, f(Double::from_bits(LINK_INLIER_THRESHOLD_PX)))
    }
}

impl Calibrator for Native<'_> {
    fn calibrate(&self, k1: Double, chain: &Vec<Mat3>, links: &Vec<Link>) -> CalibOutcome {
        let observed = link_observations(links);
        let side = self.side;
        let bundle = Bundle {
            width: self.width,
            height: self.height,
            n: chain.len(),
            world_a: [[0.0, 0.0], [side, 0.0], [side, side], [0.0, side]],
            marker_a: self.marker_a,
            links: &observed,
        };
        self_calibrate(&bundle, f(k1), chain)
    }
}

/// Rectify a still. `correction_factor` is the session print-scale factor.
pub fn rectify_frame(
    rgba: &[u8],
    width: usize,
    height: usize,
    correction_factor: f64,
) -> Option<Rectified> {
    assert_detectable(width, height);
    assert!(rgba.len() == width * height * 4, "frame does not match its size");
    geometry_core::still::rectify_frame(&turn, rgba, width, height, d(correction_factor))
}

// ---------------------------------------------------------------------------
// Synthetic scenes.

/// A marker placed on the synthetic wall.
pub struct SyntheticMarker {
    pub id: u16,
    /// Wall-plane mm of the printed square's top-left corner (unrotated).
    pub x_mm: f64,
    pub y_mm: f64,
    /// Physical side of the printed black square (mm).
    pub side_mm: f64,
    /// Pattern rotation in quarter turns, applied about the square's centre.
    pub rot_quarter: u8,
}

/// Scene description in wall-plane millimetres.
pub struct Scene {
    pub markers: Vec<SyntheticMarker>,
    /// Dark reference dots: (centre mm, radius mm).
    pub dots: Vec<([f64; 2], f64)>,
}

const INK: f64 = 20.0;
const DOT: f64 = 25.0;
const WALL: f64 = 205.0;
const PAPER: f64 = 250.0;

impl SyntheticMarker {
    /// Luma of the print at a wall position, if it covers it.
    fn luma(&self, x: f64, y: f64) -> Option<f64> {
        let cell = self.side_mm / CELLS_PER_SIDE as f64;
        let quiet = cell * QUIET_ZONE_CELLS as f64;
        let (lx, ly) = (x - self.x_mm, y - self.y_mm);
        let end = self.side_mm + quiet;
        if lx < -quiet || ly < -quiet || lx >= end || ly >= end {
            return None;
        }
        if lx < 0.0 || ly < 0.0 || lx >= self.side_mm || ly >= self.side_mm {
            return Some(PAPER);
        }
        let cells = marker_cells(self.id).expect("valid marker id");
        let mut r = ((ly / cell) as usize).min(CELLS_PER_SIDE - 1);
        let mut c = ((lx / cell) as usize).min(CELLS_PER_SIDE - 1);
        for _ in 0..(self.rot_quarter % 4) {
            (r, c) = (c, CELLS_PER_SIDE - 1 - r);
        }
        Some(if cells[r][c] { INK } else { PAPER })
    }
}

/// Width (mm) of the columns by which dots are found.
const COLUMN: f64 = 100.0;

/// A scene with its dots by wall column.
struct Indexed<'a> {
    scene: &'a Scene,
    first: i64,
    columns: Vec<Vec<([f64; 2], f64)>>,
}

impl<'a> Indexed<'a> {
    fn new(scene: &'a Scene) -> Indexed<'a> {
        let column = |x: f64| (x / COLUMN).floor() as i64;
        let first = scene.dots.iter().map(|(c, r)| column(c[0] - r)).min().unwrap_or(0);
        let last = scene.dots.iter().map(|(c, r)| column(c[0] + r)).max().unwrap_or(first);
        let mut columns = vec![Vec::new(); (last - first + 1) as usize];
        for (c, r) in &scene.dots {
            for k in column(c[0] - r)..=column(c[0] + r) {
                columns[(k - first) as usize].push((*c, *r));
            }
        }
        Indexed { scene, first, columns }
    }

    /// Wall-plane luma at a point, before noise.
    fn luma(&self, x: f64, y: f64) -> f64 {
        let k = (x / COLUMN).floor() as i64 - self.first;
        if k >= 0 && (k as usize) < self.columns.len() {
            for (centre, radius) in &self.columns[k as usize] {
                let (dx, dy) = (x - centre[0], y - centre[1]);
                if dx * dx + dy * dy <= radius * radius {
                    return DOT;
                }
            }
        }
        self.scene.markers.iter().find_map(|m| m.luma(x, y)).unwrap_or(WALL)
    }
}

/// Render the scene through `h_true` (wall mm -> image px), with 3x3
/// supersampling and `noise_sigma` gray levels of additive noise.
pub fn render_scene(
    scene: &Scene,
    h_true: &[f64; 9],
    width: usize,
    height: usize,
    noise_sigma: f64,
    seed: u64,
) -> Vec<u8> {
    let h_inv = mat3_inv(h_true).expect("h_true must be invertible");
    render_with(scene, width, height, noise_sigma, seed, |x, y| apply(&h_inv, x, y))
}

/// Render the scene through `h_true` and a radially distorting lens.
pub fn render_scene_distorted(
    scene: &Scene,
    h_true: &[f64; 9],
    width: usize,
    height: usize,
    noise_sigma: f64,
    seed: u64,
    lens: &Lens,
) -> Vec<u8> {
    let h_inv = mat3_inv(h_true).expect("h_true must be invertible");
    render_with(scene, width, height, noise_sigma, seed, |x, y| {
        let u = lens.undistort([x, y]);
        apply(&h_inv, u[0], u[1])
    })
}

/// What the library's generator yields, on native doubles.
fn native_gauss(state: &mut u64) -> f64 {
    let mut s = 0.0;
    for _ in 0..4 {
        *state = state.wrapping_mul(6364136223846793005).wrapping_add(1442695040888963407);
        s += ((*state >> 11) as f64) / ((1u64 << 53) as f64);
    }
    (s - 2.0) * (12.0f64 / 4.0).sqrt()
}

fn render_with(
    scene: &Scene,
    width: usize,
    height: usize,
    noise_sigma: f64,
    seed: u64,
    px_to_wall: impl Fn(f64, f64) -> Option<(f64, f64)>,
) -> Vec<u8> {
    let scene = Indexed::new(scene);
    let mut state = seed;
    let mut rgba = Vec::with_capacity(width * height * 4);
    for py in 0..height {
        for px in 0..width {
            // Pixel centres sit at integer coordinates.
            let mut acc = 0.0;
            for s in 0..9 {
                let ix = px as f64 - 0.5 + ((s % 3) as f64 + 0.5) / 3.0;
                let iy = py as f64 - 0.5 + ((s / 3) as f64 + 0.5) / 3.0;
                acc += px_to_wall(ix, iy).map_or(WALL, |(x, y)| scene.luma(x, y));
            }
            let mut v = acc / 9.0;
            if noise_sigma > 0.0 {
                v += noise_sigma * native_gauss(&mut state);
            }
            let g = v.round().clamp(0.0, 255.0) as u8;
            rgba.extend_from_slice(&[g, g, g, 255]);
        }
    }
    rgba
}

/// Pinhole camera of synthetic pans: translates along the wall with a hand-held
/// wobble.
pub struct PanCamera {
    pub focal_px: f64,
    pub width: usize,
    pub height: usize,
    pub distance_mm: f64,
    pub start_center_mm: [f64; 2],
    pub end_center_mm: [f64; 2],
    /// Peak yaw wobble (radians).
    pub yaw_amp: f64,
    /// Peak pitch wobble (radians).
    pub pitch_amp: f64,
}

/// Homography (wall mm -> image px) of a pinhole camera at `cam` with this yaw
/// and pitch, principal point at the frame centre.
pub fn pose_homography(
    focal_px: f64,
    width: usize,
    height: usize,
    cam: [f64; 3],
    yaw: f64,
    pitch: f64,
) -> [f64; 9] {
    let (sy, cyw) = yaw.sin_cos();
    let (sp, cp) = pitch.sin_cos();
    let r = [cyw, sy * sp, sy * cp, 0.0, cp, -sp, -sy, cyw * sp, cyw * cp];
    let t = |k: usize| -(r[3 * k] * cam[0] + r[3 * k + 1] * cam[1] + r[3 * k + 2] * cam[2]);
    let m = [r[0], r[1], t(0), r[3], r[4], t(1), r[6], r[7], t(2)];
    let (u0, v0) = (width as f64 / 2.0, height as f64 / 2.0);
    [
        focal_px * m[0] + u0 * m[6],
        focal_px * m[1] + u0 * m[7],
        focal_px * m[2] + u0 * m[8],
        focal_px * m[3] + v0 * m[6],
        focal_px * m[4] + v0 * m[7],
        focal_px * m[5] + v0 * m[8],
        m[6],
        m[7],
        m[8],
    ]
}

impl PanCamera {
    /// Homography (wall mm -> image px) at pan progress `t` in [0, 1].
    pub fn homography_at(&self, t: f64) -> [f64; 9] {
        let (a, b) = (self.start_center_mm, self.end_center_mm);
        let yaw = self.yaw_amp * (t * 11.0).sin();
        let pitch = self.pitch_amp * (t * 8.5 + 1.2).sin();
        let cx = a[0] + t * (b[0] - a[0]);
        let cy = a[1] + t * (b[1] - a[1]);
        let cam = [cx, cy + 12.0 * (t * 6.3).sin(), -self.distance_mm];
        pose_homography(self.focal_px, self.width, self.height, cam, yaw, pitch)
    }

    /// Homographies of an `n`-frame pan.
    pub fn sequence(&self, n: usize) -> Vec<[f64; 9]> {
        (0..n).map(|i| self.homography_at(i as f64 / (n.max(2) - 1) as f64)).collect()
    }
}

/// Project a wall-plane point through a raw homography (mm -> px).
pub fn project(h: &[f64; 9], x: f64, y: f64) -> [f64; 2] {
    let w = h[6] * x + h[7] * y + h[8];
    [(h[0] * x + h[1] * y + h[2]) / w, (h[3] * x + h[4] * y + h[5]) / w]
}

/// Wall-plane position of a marker's printed top-left corner, given its rotation.
pub fn printed_top_left(m: &SyntheticMarker) -> [f64; 2] {
    let s = m.side_mm;
    let corners = [
        [m.x_mm, m.y_mm],
        [m.x_mm + s, m.y_mm],
        [m.x_mm + s, m.y_mm + s],
        [m.x_mm, m.y_mm + s],
    ];
    corners[(4 - m.rot_quarter as usize % 4) % 4]
}
#[test]
fn lens_model_agrees_with_native_doubles_bit_for_bit() {
    for k1 in [-0.3, -0.08, 0.0, 0.06] {
        let lens = Distortion::new(640, 360, d(k1));
        let native = Lens::new(640, 360, k1);
        for p in [[0.0, 0.0], [320.0, 180.0], [639.0, 1.5], [17.25, 300.1]] {
            assert_eq!(unpoint(&lens.undistort(point(p))), native.undistort(p));
            assert_eq!(unpoint(&lens.distort(point(p))), native.distort(p));
        }
    }
    let none = Distortion::none(640, 360);
    assert_eq!(unpoint(&none.distort(point([3.0, 4.0]))), [3.0, 4.0]);
}

#[test]
fn library_numerics_agree_with_native_doubles_bit_for_bit() {
    let rows = |a: &[f64], n: usize| -> Vec<Vec<Double>> {
        a.chunks(n).map(|r| r.iter().map(|v| d(*v)).collect()).collect()
    };
    let system = [4.0, -1.5, 0.25, 2.0, 0.5, 3.0, -7.0, 1.0, 1.0 / 3.0];
    let (mut a, mut b) = (system.to_vec(), vec![1.0, 2.0, -3.0]);
    let (mut m, mut x) = (rows(&system, 3), vec![d(1.0), d(2.0), d(-3.0)]);
    assert!(solve_in_place(&mut a, &mut b, 3));
    assert!(geometry_core::solve::solve_in_place(&mut m, &mut x));
    assert_eq!(x.into_iter().map(f).collect::<Vec<_>>(), b);
    let symmetric = [4.0, 1.0, 0.3, 1.0, 3.0, -0.2, 0.3, -0.2, 0.1];
    let (v, least, second) = smallest_eigenpair_sym(&mut symmetric.to_vec(), 3);
    let found = geometry_core::eigen::smallest_eigenpair_sym(&mut rows(&symmetric, 3));
    assert_eq!(found.0.into_iter().map(f).collect::<Vec<_>>(), v);
    assert_eq!((f(found.1), f(found.2)), (least, second));

    // Correspondences with noise and outliers.
    let h = [1.9, 0.12, 140.0, -0.08, 1.85, 90.0, 1.1e-4, -0.9e-4, 1.0];
    let mut rng = Lcg(7);
    let mut next = |span: f64| (rng.next_below(1 << 20) as f64 / (1 << 20) as f64 - 0.5) * span;
    let src: Vec<[f64; 2]> = (0..14).map(|_| [next(600.0), next(400.0)]).collect();
    let dst: Vec<[f64; 2]> = src
        .iter()
        .enumerate()
        .map(|(i, p)| {
            let (u, v) = apply(&h, p[0], p[1]).unwrap();
            let off = if i % 5 == 3 { 60.0 } else { 0.4 };
            [u + next(off), v + next(off)]
        })
        .collect();
    let (s, e): (Vec<_>, Vec<_>) =
        (src.iter().map(|p| point(*p)).collect(), dst.iter().map(|p| point(*p)).collect());
    let fitted = geometry_core::dlt::dlt(&s, &e).unwrap();
    assert_eq!(unmatrix(&fitted.0), dlt(&src, &dst).unwrap());
    let refined = geometry_core::refine::refine_lm(&fitted, &s, &e);
    assert_eq!(unmatrix(&refined.0), refine_lm(&unmatrix(&fitted.0), &src, &dst));
    assert_ne!(unmatrix(&refined.0), unmatrix(&fitted.0));
    let ours = geometry_core::estimate::estimate(&s, &e, d(3.0)).unwrap();
    let native = estimate(&src, &dst, 3.0).unwrap();
    assert_eq!(unmatrix(&ours.h), unmatrix(&native.h));
    assert_eq!((f(ours.rms), f(ours.max), ours.inliers), (f(native.rms), f(native.max), native.inliers));
    assert!(ours.inliers < 14);
}

/// A plane with texture at every scale.
fn texture(w: usize, h: usize, dx: f64, dy: f64) -> Vec<u8> {
    (0..w * h)
        .map(|i| {
            let (x, y) = ((i % w) as f64 - dx, (i / w) as f64 - dy);
            let v = (x * 0.7).sin() * (y * 0.45).cos() + (x * 0.21 + y * 0.33).sin();
            (128.0 + 50.0 * v) as u8
        })
        .collect()
}

#[test]
fn library_correlation_agrees_with_native_doubles_bit_for_bit() {
    let (w, h) = (90usize, 80usize);
    let (a, b) = (texture(w, h, 0.0, 0.0), texture(w, h, 3.4, -2.3));
    for p in [[40.0, 40.0], [30.0, 50.0], [2.0, 40.0]] {
        let predicted = [p[0] + 1.0, p[1] + 0.6];
        let ours = geometry_core::ncc::ncc_match(&a, &b, w, h, &point(p), &point(predicted))
            .map(|m| ([f(m.x), f(m.y)], f(m.score)));
        assert_eq!(ours, ncc_match(&a, &b, w, h, p, predicted));
        assert_eq!(ours.is_some(), p[0] > 6.0);
    }
    // A flat patch matches nothing, and nothing is found beyond the frame.
    let flat = vec![7u8; w * h];
    let at = point([40.0, 40.0]);
    assert!(geometry_core::ncc::ncc_match(&flat, &b, w, h, &at, &at).is_none());
    assert!(geometry_core::ncc::ncc_match(&a, &b, w, h, &at, &point([1e12, 0.0])).is_none());

    let thumb = |g: &[u8]| Thumb { sums: g.iter().map(|v| *v as u32 * 7).collect(), area: 9 };
    let (tw, th) = (30usize, 22usize);
    let (ta, tb) = (thumb(&texture(tw, th, 0.0, 0.0)), thumb(&texture(tw, th, 2.2, 1.0)));
    let ours = geometry_core::overlap::thumb_shift(&ta, &tb, tw, th).unwrap();
    let native = ncc_shift(&thumb_pixels(&ta), &thumb_pixels(&tb), tw, th).unwrap();
    assert_eq!(
        [f(ours.dx), f(ours.dy), f(ours.score)],
        [f(native.dx), f(native.dy), f(native.score)]
    );
    assert!((f(ours.dx) - 2.2).abs() < 0.3 && (f(ours.dy) - 1.0).abs() < 0.3);
    let dull = thumb(&vec![9u8; tw * th]);
    assert!(geometry_core::overlap::thumb_shift(&dull, &dull, tw, th).is_none());
    assert_eq!(f(mean_luma(&dull)), 7.0);
}

#[test]
fn library_sampling_agrees_with_native_doubles_bit_for_bit() {
    let (w, h) = (7usize, 5usize);
    let gray = texture(w, h, 0.0, 0.0);
    let native = |x: f64, y: f64| {
        let (x, y) = (x.clamp(0.0, (w - 1) as f64), y.clamp(0.0, (h - 1) as f64));
        let (x0, y0) = (x.floor() as usize, y.floor() as usize);
        let (x1, y1) = ((x0 + 1).min(w - 1), (y0 + 1).min(h - 1));
        let (fx, fy) = (x - x0 as f64, y - y0 as f64);
        let g = |xx: usize, yy: usize| gray[yy * w + xx] as f64;
        g(x0, y0) * (1.0 - fx) * (1.0 - fy)
            + g(x1, y0) * fx * (1.0 - fy)
            + g(x0, y1) * (1.0 - fx) * fy
            + g(x1, y1) * fx * fy
    };
    for (x, y) in [(0.0, 0.0), (2.3, 1.7), (6.0, 4.0), (-3.0, 9.0), (5.99, 0.01), (3.0, 2.5)] {
        let v = geometry_core::sample::sample_bilinear(&gray, w, h, d(x), d(y));
        assert_eq!(f(v), native(x, y), "({x}, {y})");
    }
    let rgba: Vec<u8> = (0..w * h * 4).map(|i| (i * 37 % 256) as u8).collect();
    let px = |x: f64, y: f64| {
        let found = geometry_core::sample::sample_rgb(&rgba, w, h, d(x), d(y));
        assert_eq!(found, sample_rgb(&rgba, w, h, x, y), "({x}, {y})");
        found
    };
    assert_eq!(px(1.0, 1.0), Some([rgba[32], rgba[33], rgba[34]]));
    assert_eq!(px(0.5, 0.0), Some([74, 111, 148]));
    assert_eq!(px(6.01, 0.0), None);
    assert_eq!(px(f64::NAN, 0.0), None);
}

#[test]
fn library_self_calibration_agrees_with_native_doubles_bit_for_bit() {
    let (width, height) = (640usize, 360usize);
    let (focal, k1, n) = (690.0f64, -0.06f64, 5usize);
    let lens = Lens::new(width, height, k1);
    let poses: Vec<[f64; 9]> = (0..n)
        .map(|i| {
            let t = i as f64;
            let rv = [0.09 * (t * 1.3).sin(), 0.11 * (t * 0.9).cos(), 0.02 * t - 0.03];
            pose_h(focal, 320.0, 180.0, &rv, &[150.0 * t, 90.0 + 20.0 * t, -1300.0])
        })
        .collect();
    let shown = |i: usize, x: f64, y: f64| {
        let (u, v) = apply(&poses[i], x, y).unwrap();
        lens.distort([u, v])
    };
    let side = 150.0;
    let world = [[0.0, 0.0], [side, 0.0], [side, side], [0.0, side]];
    let marker_a = vec![(0usize, world.map(|p| shown(0, p[0], p[1])))];
    let links: Vec<(Vec<[f64; 2]>, Vec<[f64; 2]>)> = (0..n - 1)
        .map(|i| {
            (0..12)
                .map(|k| {
                    let x = 150.0 * i as f64 - 300.0 + 90.0 * (k % 4) as f64 * 1.7;
                    let y = -250.0 + 210.0 * (k / 4) as f64 + 13.0 * (k % 3) as f64;
                    (shown(i, x, y), shown(i + 1, x, y))
                })
                .unzip()
        })
        .collect();
    let w_chain: Vec<Mat3> = poses.iter().map(matrix).collect();
    let bundle = Bundle { width, height, n, world_a: world, marker_a: &marker_a, links: &links };
    let native = self_calibrate(&bundle, 0.0, &w_chain);
    let held = |pts: &[[f64; 2]]| pts.iter().map(|p| point(*p)).collect();
    let input = CalibInput {
        width,
        height,
        side_mm: d(side),
        k1_init: d(0.0),
        w_chain,
        marker_a: vec![Sighting { keyframe: 0, corners: marker_a[0].1.map(point) }],
        links: links.iter().map(|l| Matches { src: held(&l.0), dst: held(&l.1) }).collect(),
    };
    let sin_cos = |a: Double| {
        let (s, c) = f(a).sin_cos();
        (d(s), d(c))
    };
    let acos = |a: Double| d(f(a).acos());
    let ours = geometry_core::bundle::self_calibrate(&input, &sin_cos, &acos);
    match (ours, native) {
        (CalibOutcome::Full(a, chain), CalibOutcome::Full(b, native_chain)) => {
            assert_eq!(
                [a.focal_px, a.k1, a.focal_sigma_px, a.k1_sigma, a.rms_after_px].map(f),
                [b.focal_px, b.k1, b.focal_sigma_px, b.k1_sigma, b.rms_after_px].map(f)
            );
            assert!((f(a.focal_px) - focal).abs() < 1.0 && (f(a.k1) - k1).abs() < 1e-3);
            let bits = |c: &[Mat3]| c.iter().map(unmatrix).collect::<Vec<_>>();
            assert_eq!(bits(&chain), bits(&native_chain));
        }
        _ => panic!("both must be calibrated in full"),
    }
    // Too few keyframes: nothing is claimed.
    let short = CalibInput { w_chain: input.w_chain[..3].to_vec(), links: Vec::new(), ..input };
    let refused = geometry_core::bundle::self_calibrate(&short, &sin_cos, &acos);
    assert!(matches!(refused, CalibOutcome::Refused));
}

#[test]
fn similarity_fit_recovers_a_known_transform() {
    let src = [[0.0, 0.0], [100.0, 0.0], [100.0, 100.0], [0.0, 100.0]];
    let (s_true, th_true, t_true) = (1.03, 0.02, [5.0, -3.0]);
    let (sn, cs) = (th_true as f64).sin_cos();
    let mut dst = [[0.0f64; 2]; 4];
    for i in 0..4 {
        dst[i] = [
            s_true * (cs * src[i][0] - sn * src[i][1]) + t_true[0],
            s_true * (sn * src[i][0] + cs * src[i][1]) + t_true[1],
        ];
    }
    let atan2 = |y: Double, x: Double| d(f(y).atan2(f(x)));
    let sin_cos = |a: Double| (d(f(a).sin()), d(f(a).cos()));
    let (s, th, t) = fit_similarity(&atan2, &sin_cos, &src.map(point), &dst.map(point));
    assert!((f(s) - s_true).abs() < 1e-9);
    assert!((f(th) - th_true).abs() < 1e-9);
    assert!((f(t[0]) - t_true[0]).abs() < 1e-9 && (f(t[1]) - t_true[1]).abs() < 1e-9);
    // The rigid part is what the square fit recovers, at fixed scale.
    let rigid = fit_rigid_square(&turn, &src.map(point), &dst.map(point));
    let top = [f(rigid[1][0]) - f(rigid[0][0]), f(rigid[1][1]) - f(rigid[0][1])];
    assert!((top[1].atan2(top[0]) - th_true).abs() < 1e-9);
}

#[test]
fn bound_model_is_monotone_in_distance() {
    let b = BoundModel {
        sigma_a_mm: d(0.8),
        rel: d(0.003),
        closure_ramp: Some((d(3900.0), d(1.5))),
        track: vec![(d(500.0), d(1.0)), (d(1500.0), d(3.0)), (d(3000.0), d(6.0))],
    };
    let near = f(b.bound_at_mm(d(0.0)));
    let mid = f(b.bound_at_mm(d(1800.0)));
    let far = f(b.bound_at_mm(d(4000.0)));
    assert!(near < mid && mid < far, "{near} {mid} {far}");
    assert!((near - f(Double::from_bits(K95)) * 0.8f64).abs() < 1e-9);
}

#[test]
fn bound_at_the_anchor_is_twice_its_noise() {
    for sigma in [0.8, 0.1, 1.0 / 3.0, 123.456, 1e-100, 7e99, 1.0 + f64::EPSILON] {
        let b = BoundModel {
            sigma_a_mm: d(sigma),
            rel: d(0.003),
            closure_ramp: Some((d(3900.0), d(1.5))),
            track: vec![(d(500.0), d(1.0))],
        };
        assert_eq!(f(b.bound_at_mm(d(0.0))), 2.0 * sigma, "exactly");
        for x in [0.0, 1.5, 499.0, 3000.0] {
            assert_eq!(f(b.bound_at_mm(d(x))), f(b.bound_at_mm(d(-x))));
        }
    }
}

#[test]
fn tenengrad_ranks_sharp_above_blurred() {
    let (w, h) = (64usize, 64usize);
    let mut sharp = vec![0u8; w * h];
    for y in 0..h {
        for x in 0..w {
            sharp[y * w + x] = if (x / 8 + y / 8) % 2 == 0 { 230 } else { 20 };
        }
    }
    // 3x3 box blur of the sharp pattern.
    let mut blurred = sharp.clone();
    for y in 1..h - 1 {
        for x in 1..w - 1 {
            let mut acc = 0u32;
            for dy in 0..3 {
                for dx in 0..3 {
                    acc += sharp[(y + dy - 1) * w + (x + dx - 1)] as u32;
                }
            }
            blurred[y * w + x] = (acc / 9) as u8;
        }
    }
    assert!(f(tenengrad(&sharp, w, h)) > 1.5 * f(tenengrad(&blurred, w, h)));
}

#[test]
fn noise_agrees_with_native_doubles_bit_for_bit() {
    for seed in [0u64, 1, 42, 0x5EA_1157, u64::MAX] {
        let mut rng = Lcg(seed);
        let mut state = seed;
        for _ in 0..500 {
            assert_eq!(f(rng.next_gauss()), native_gauss(&mut state));
        }
        assert_eq!(rng.0, state);
    }
}

// ---------------------------------------------------------------------------
// Still-frame rectification.

const STILL_W: usize = 640;
const STILL_H: usize = 480;

/// A plausible phone-shot homography: wall mm -> image px, mild perspective tilt,
/// marker (150 mm at the origin) roughly 190 px across in frame.
const STILL_TRUE: [f64; 9] = [
    1.25, 0.06, 120.0, //
    -0.05, 1.22, 70.0, //
    2.2e-4, 1.4e-4, 1.0,
];

fn marker_at_origin(rot_quarter: u8, side_mm: f64) -> SyntheticMarker {
    SyntheticMarker { id: 0, x_mm: 0.0, y_mm: 0.0, side_mm, rot_quarter }
}

fn still_frame(scene: &Scene, h: &[f64; 9], noise: f64, seed: u64) -> Vec<u8> {
    render_scene(scene, h, STILL_W, STILL_H, noise, seed)
}

fn rectify_still(rgba: &[u8], factor: f64) -> Option<Rectified> {
    rectify_frame(rgba, STILL_W, STILL_H, factor)
}

fn detect_in(rgba: &[u8]) -> Vec<DetectedMarker> {
    let mut gray = vec![0u8; STILL_W * STILL_H];
    grayscale(rgba, &mut gray);
    detect_markers(&gray, STILL_W, STILL_H)
}

/// Centroid of dark pixels within `radius_px` of an expected position in a
/// rectified RGBA image: how the tests "tap" a reference dot the way the Homeowner
/// taps the measure tool.
fn still_dark_centroid(r: &Rectified, near: [f64; 2], radius_px: f64) -> [f64; 2] {
    let (mut sx, mut sy, mut n) = (0.0, 0.0, 0u32);
    for y in 0..r.plan.height {
        for x in 0..r.plan.width {
            let dx = x as f64 - near[0];
            let dy = y as f64 - near[1];
            if dx * dx + dy * dy > radius_px * radius_px {
                continue;
            }
            if r.rgba[(y * r.plan.width + x) * 4] < 90 {
                sx += x as f64;
                sy += y as f64;
                n += 1;
            }
        }
    }
    assert!(n > 3, "no dark dot found near {near:?}");
    [sx / n as f64, sy / n as f64]
}

/// Measure the distance between two reference dots on the rectified image (in mm)
/// exactly as the two-point measure tool does.
fn measure_dots_mm(r: &Rectified, dot_a_mm: [f64; 2], dot_b_mm: [f64; 2]) -> f64 {
    let (origin, mm_per_px) = ([f(r.plan.extent.min_x), f(r.plan.extent.min_y)], f(r.plan.mm_per_px));
    let expect =
        |p: [f64; 2]| [(p[0] - origin[0]) / mm_per_px, (p[1] - origin[1]) / mm_per_px];
    let ca = still_dark_centroid(r, expect(dot_a_mm), 14.0);
    let cb = still_dark_centroid(r, expect(dot_b_mm), 14.0);
    ((ca[0] - cb[0]).powi(2) + (ca[1] - cb[1]).powi(2)).sqrt() * mm_per_px
}

#[test]
fn reference_length_near_marker_measures_within_1_percent() {
    // Two taped dots 300 mm apart, just right of the marker.
    let dot_a = [230.0, 30.0];
    let dot_b = [230.0, 330.0];
    let scene = Scene {
        markers: vec![marker_at_origin(0, 150.0)],
        dots: vec![(dot_a, 5.0), (dot_b, 5.0)],
    };
    let rgba = still_frame(&scene, &STILL_TRUE, 3.0, 42);
    let r = rectify_still(&rgba, 1.0).expect("marker must be detected");

    assert_eq!(r.plan.wall.marker_ids, vec![0]);
    assert_eq!(r.plan.wall.estimate.residuals.len(), 4);
    let rms = f(r.plan.wall.estimate.rms);
    assert!(rms < 0.5, "corner reprojection RMS too high: {rms} px");

    let measured = measure_dots_mm(&r, dot_a, dot_b);
    let err_pct = (measured - 300.0).abs() / 300.0 * 100.0;
    assert!(
        err_pct < 1.0,
        "reference length off by {err_pct:.2}% (measured {measured:.2} mm, true 300 mm)"
    );
}

#[test]
fn print_scale_correction_factor_multiplies_into_the_metric() {
    // A sheet printed at 94%: the physical marker is 141 mm. Dots are a true
    // 300 mm apart regardless of the print.
    let dot_a = [220.0, 30.0];
    let dot_b = [220.0, 330.0];
    let scene = Scene {
        markers: vec![marker_at_origin(0, 150.0 * 0.94)],
        dots: vec![(dot_a, 5.0), (dot_b, 5.0)],
    };
    let rgba = still_frame(&scene, &STILL_TRUE, 2.0, 7);

    let corrected = rectify_still(&rgba, 0.94).expect("detected");
    let measured = measure_dots_mm(&corrected, dot_a, dot_b);
    let err_pct = (measured - 300.0).abs() / 300.0 * 100.0;
    assert!(err_pct < 1.0, "corrected measurement off by {err_pct:.2}%");

    // Without the correction the same scene must read ~6% long: proves the factor
    // is really consumed (MULTIPLY rule) and not silently ignored. (In the
    // uncorrected estimate's world frame every physical coordinate is stretched by
    // 1/0.94, so the dots are *searched for* there too.)
    let uncorrected = rectify_still(&rgba, 1.0).expect("detected");
    let stretch = |p: [f64; 2]| [p[0] / 0.94, p[1] / 0.94];
    let naive = measure_dots_mm(&uncorrected, stretch(dot_a), stretch(dot_b));
    assert!(
        (naive / measured - 1.0 / 0.94).abs() < 0.01,
        "uncorrected/corrected ratio should be ~1/0.94, got {}",
        naive / measured
    );
}

#[test]
fn sub_pixel_corners_beat_half_a_pixel() {
    let scene = Scene { markers: vec![marker_at_origin(0, 150.0)], dots: vec![] };
    let found = detect_in(&still_frame(&scene, &STILL_TRUE, 2.0, 3));
    assert_eq!(found.len(), 1);
    let m = &found[0];
    assert_eq!(m.id, 0);
    let world = [[0.0, 0.0], [150.0, 0.0], [150.0, 150.0], [0.0, 150.0]];
    let mut total = 0.0;
    for (c, w) in unquad(&m.corners).iter().zip(world) {
        let t = project(&STILL_TRUE, w[0], w[1]);
        total += ((c[0] - t[0]).powi(2) + (c[1] - t[1]).powi(2)).sqrt();
    }
    let mean = total / 4.0;
    assert!(mean < 0.5, "mean corner error {mean:.3} px (want sub-pixel)");
}

#[test]
fn rotated_markers_decode_with_correct_id_and_canonical_corners() {
    for rot in 0..4u8 {
        for id in [0u16, 1] {
            let mut m = marker_at_origin(rot, 150.0);
            m.id = id;
            let tl_mm = printed_top_left(&m);
            let scene = Scene { markers: vec![m], dots: vec![] };
            let found = detect_in(&still_frame(&scene, &STILL_TRUE, 2.0, 11 + rot as u64));
            assert_eq!(found.len(), 1, "rot {rot} id {id}: exactly one marker");
            assert_eq!(found[0].id, id, "rot {rot}: wrong ID");
            // corners[0] must be the printed top-left, whatever the rotation (an
            // upside-down marker is rot == 2).
            let expect = project(&STILL_TRUE, tl_mm[0], tl_mm[1]);
            let got = unpoint(&found[0].corners[0]);
            let err = ((got[0] - expect[0]).powi(2) + (got[1] - expect[1]).powi(2)).sqrt();
            assert!(
                err < 1.5,
                "rot {rot} id {id}: canonical TL off by {err:.2} px ({got:?} vs {expect:?})"
            );
        }
    }
}

#[test]
fn both_markers_in_frame_use_the_eight_point_path() {
    let dot_a = [230.0, 40.0];
    let dot_b = [530.0, 40.0];
    let scene = Scene {
        markers: vec![
            marker_at_origin(0, 150.0),
            SyntheticMarker { id: 1, x_mm: 620.0, y_mm: 15.0, side_mm: 150.0, rot_quarter: 0 },
        ],
        dots: vec![(dot_a, 8.0), (dot_b, 8.0)],
    };
    // Wider view so both markers fit: scale the projection down.
    let h_wide = [
        0.62, 0.03, 100.0, //
        -0.02, 0.61, 60.0, //
        1.0e-4, 0.7e-4, 1.0,
    ];
    let rgba = still_frame(&scene, &h_wide, 2.0, 99);
    let r = rectify_still(&rgba, 1.0).expect("markers detected");
    assert_eq!(r.plan.wall.marker_ids, vec![0, 1], "both Reference Markers must be used");
    assert_eq!(r.plan.wall.estimate.residuals.len(), 8, "8 correspondences");
    assert_eq!(r.plan.wall.estimate.inliers, 8);
    // Markers are ~95 px across in this wide two-marker view, so corner noise is
    // higher than the single-marker close-up.
    let rms = f(r.plan.wall.estimate.rms);
    assert!(rms < 1.0, "rms {rms}");

    let measured = measure_dots_mm(&r, dot_a, dot_b);
    let err_pct = (measured - 300.0).abs() / 300.0 * 100.0;
    assert!(err_pct < 1.0, "two-marker measurement off by {err_pct:.2}%");
}

#[test]
fn captured_frame_rectifies_to_an_image() {
    let (w, h) = (STILL_W as u32, STILL_H as u32);
    let mut processor = FrameProcessor::new(w, h).unwrap();
    assert!(processor.rectify_captured(&turn, d(1.0)).is_none(), "nothing captured yet");
    let scene = Scene { markers: vec![marker_at_origin(0, 150.0)], dots: vec![] };
    let rgba = still_frame(&scene, &STILL_TRUE, 2.0, 12);
    processor.input_mut().copy_from_slice(&rgba);
    let image = processor.rectify_captured(&turn, d(1.0)).expect("marker detected");
    let r = rectify_still(&rgba, 1.0).expect("marker detected");
    assert_eq!(image.pixels(), &r.rgba[..]);
    assert_eq!(image.pixels_len(), r.plan.width * r.plan.height * 4);
    assert_eq!((image.width() as usize, image.height() as usize), (r.plan.width, r.plan.height));
    assert_eq!(f(image.mm_per_px()), f(r.plan.mm_per_px));
    let origin = [f(image.origin_x_mm()), f(image.origin_y_mm())];
    assert_eq!(origin, unpoint(&r.px_to_mm(d(0.0), d(0.0))));
    assert_eq!((image.marker_ids(), image.second_marker_rejected()), (vec![0], false));
    assert_eq!((image.points_used(), image.inliers()), (4, 4));
    assert!(f(image.residual_rms_px()) <= f(image.residual_max_px()));
    assert!(processor.rectify_captured(&turn, d(0.0)).is_none(), "no such factor");
}

#[test]
fn frame_without_marker_detects_nothing() {
    let scene = Scene { markers: vec![], dots: vec![([200.0, 200.0], 30.0)] };
    let rgba = still_frame(&scene, &STILL_TRUE, 4.0, 5);
    assert!(rectify_still(&rgba, 1.0).is_none());
}

#[test]
fn marker_cut_by_the_frame_edge_is_rejected_not_misread() {
    // Shift the projection so a third of the marker hangs off the left edge.
    let mut h = STILL_TRUE;
    h[2] = -70.0;
    let scene = Scene { markers: vec![marker_at_origin(0, 150.0)], dots: vec![] };
    let found = detect_in(&still_frame(&scene, &h, 2.0, 8));
    assert!(found.is_empty(), "truncated marker must not decode: {found:?}");
}

#[test]
fn invalid_correction_factor_is_rejected() {
    let scene = Scene { markers: vec![marker_at_origin(0, 150.0)], dots: vec![] };
    let rgba = still_frame(&scene, &STILL_TRUE, 0.0, 1);
    assert!(rectify_still(&rgba, 0.0).is_none());
    assert!(rectify_still(&rgba, -1.0).is_none());
    assert!(rectify_still(&rgba, f64::NAN).is_none());
}

#[test]
fn frames_too_small_for_a_marker_rectify_to_nothing() {
    assert!(rectify_frame(&[], 0, 0, 1.0).is_none());
    assert!(rectify_frame(&[], 0, 640, 1.0).is_none());
    assert!(rectify_frame(&[90; 31 * 40 * 4], 31, 40, 1.0).is_none());
    assert!(rectify_frame(&[], 0, 0, f64::NAN).is_none());
}

#[test]
fn rectified_marker_itself_measures_its_physical_side() {
    // On the rectified image the marker's black square must span its physical side
    // within 1%: the most direct metric self-check.
    let scene = Scene { markers: vec![marker_at_origin(0, 150.0)], dots: vec![] };
    let rgba = still_frame(&scene, &STILL_TRUE, 2.0, 21);
    let r = rectify_still(&rgba, 1.0).expect("detected");
    let (width, height, mm_per_px) = (r.plan.width, r.plan.height, f(r.plan.mm_per_px));
    // Marker corners in rectified px: wall (0,0) and (150,0).
    let px_per_mm = 1.0 / mm_per_px;
    let ax = (0.0 - f(r.plan.extent.min_x)) * px_per_mm;
    let bx = (150.0 - f(r.plan.extent.min_x)) * px_per_mm;
    let y = (75.0 - f(r.plan.extent.min_y)) * px_per_mm; // marker mid-height
    // Walk the rectified row and find the black square's left/right edges. Scan
    // only a window around the predicted columns: far outside it the image
    // legitimately holds the dark out-of-source-frame fill.
    let row = y.round() as usize;
    assert!(row < height);
    let x0 = (ax - 12.0).max(0.0) as usize;
    let x1 = ((bx + 12.0) as usize).min(width - 1);
    let mut left = None;
    let mut right = None;
    for x in x0..=x1 {
        let dark = r.rgba[(row * width + x) * 4] < 90;
        if dark && left.is_none() {
            left = Some(x as f64);
        }
        if dark {
            right = Some(x as f64);
        }
    }
    let (left, right) = (left.expect("left edge"), right.expect("right edge"));
    // Sanity: found edges sit near the predicted marker corner columns.
    assert!((left - ax).abs() < 5.0 && (right - bx).abs() < 5.0);
    let side_mm = (right - left + 1.0) * mm_per_px;
    let err_pct = (side_mm - 150.0).abs() / 150.0 * 100.0;
    assert!(err_pct < 1.0, "marker side measures {side_mm:.2} mm ({err_pct:.2}% off)");
}

// ---------------------------------------------------------------------------
// Live capture coaching.

const LIVE_W: usize = 480;
const LIVE_H: usize = 270;
const LIVE_FOCAL: f64 = 525.0;
const LIVE_DIST: f64 = 1400.0;

fn marker(id: u16, x_mm: f64, y_mm: f64) -> SyntheticMarker {
    SyntheticMarker { id, x_mm, y_mm, side_mm: 150.0, rot_quarter: 0 }
}

/// Tracking texture spread along the wall (stands in for power points, skirting
/// shadows, paint blemishes; walls are low-texture otherwise).
fn spread_dots(from_mm: f64, to_mm: f64) -> Vec<([f64; 2], f64)> {
    let mut list = Vec::new();
    let mut x = from_mm;
    let mut k = 0u32;
    while x < to_mm {
        let y0 = [120.0, 460.0, 300.0][k as usize % 3];
        list.push(([x, y0], 7.0));
        list.push(([x + 80.0, 600.0 - y0], 6.0));
        list.push(([x + 40.0, y0 + 150.0], 5.0));
        k += 1;
        x += 170.0 + 15.0 * ((k % 4) as f64);
    }
    list
}

/// Cheap procedurally-dotted frame: world-anchored dark dots on a light wall seen
/// through a translation-only camera at `offset_px`.
fn dotted_frame(offset_px: f64, bg: u8, dot: u8) -> Vec<u8> {
    let (w, h) = (LIVE_W, LIVE_H);
    let mut rgba = vec![0u8; w * h * 4];
    for y in 0..h {
        for x in 0..w {
            let wx = x as f64 + offset_px;
            // Dot lattice: centres every 60 px in x, three staggered rows.
            let col = (wx / 60.0).floor();
            let cx = col * 60.0 + 30.0 + 13.0 * ((col as i64 % 3) as f64);
            let row_phase = ((col as i64).rem_euclid(3)) as f64;
            let mut v = bg;
            for (ri, ry) in [40.0, 130.0, 220.0].iter().enumerate() {
                let cy = ry + 12.0 * ((ri as f64 + row_phase) % 3.0);
                let dx = wx - cx;
                let dy = y as f64 - cy;
                if dx * dx + dy * dy < 49.0 {
                    v = dot;
                }
            }
            let o = (y * w + x) * 4;
            rgba[o] = v;
            rgba[o + 1] = v;
            rgba[o + 2] = v;
            rgba[o + 3] = 255;
        }
    }
    rgba
}

/// The library's own recorder, with the length of a vector.
struct Live {
    core: PanCore,
}

impl Live {
    fn new(width: usize, height: usize) -> Live {
        Live { core: PanCore::new(width, height) }
    }

    fn push_frame(&mut self, rgba: &[u8]) -> FrameDisposition {
        let length = |x: Double, y: Double| d(f(x).hypot(f(y)));
        self.core.push_frame(&length, rgba)
    }

    fn coach_status(&self) -> CoachStatus {
        self.core.coach_status()
    }
}

#[test]
fn cue_priority_is_marker_then_speed_then_exposure_then_rotation() {
    let s = |flags: u8| CoachStatus { flags, ..Default::default() };
    assert_eq!(s(0).cue(), CoachCue::AllGood);
    let all = COACH_NO_MARKER
        | COACH_MARKER_LOST
        | COACH_TOO_FAST
        | COACH_TOO_DARK
        | COACH_BLOWN_OUT
        | COACH_ROTATION;
    assert_eq!(s(all).cue(), CoachCue::FindMarkerA);
    assert_eq!(s(all & !COACH_NO_MARKER).cue(), CoachCue::MarkerLost);
    assert_eq!(
        s(COACH_TOO_FAST | COACH_TOO_DARK | COACH_BLOWN_OUT | COACH_ROTATION).cue(),
        CoachCue::TooFast
    );
    assert_eq!(s(COACH_TOO_DARK | COACH_BLOWN_OUT | COACH_ROTATION).cue(), CoachCue::TooDark);
    assert_eq!(s(COACH_BLOWN_OUT | COACH_ROTATION).cue(), CoachCue::BlownOut);
    assert_eq!(s(COACH_ROTATION).cue(), CoachCue::RotationDominant);
}

#[test]
fn clean_slow_pan_reports_all_good_and_sees_both_markers() {
    // A at the left end, B at the right, slow wall-parallel pan covering both: no
    // check may trip, and both sightings must stick.
    let scene = Scene {
        markers: vec![marker(0, 0.0, 0.0), marker(1, 1750.0, 0.0)],
        dots: spread_dots(250.0, 1700.0),
    };
    let cam = PanCamera {
        focal_px: LIVE_FOCAL,
        width: LIVE_W,
        height: LIVE_H,
        distance_mm: LIVE_DIST,
        start_center_mm: [300.0, 280.0],
        end_center_mm: [1500.0, 280.0],
        yaw_amp: 0.02,
        pitch_amp: 0.012,
    };
    let mut core = Recorder::new(LIVE_W, LIVE_H);
    let frames = 80;
    let mut warned_frames = 0u32;
    for (i, h) in cam.sequence(frames).iter().enumerate() {
        let rgba = render_scene(&scene, h, LIVE_W, LIVE_H, 2.5, 100 + i as u64);
        core.push_frame(&rgba);
        if core.coach_status().flags != 0 {
            warned_frames += 1;
        }
    }
    let status = core.coach_status();
    assert_eq!(
        status.flags,
        0,
        "clean pan must end with no coaching flags (got {:#b}, cue {:?})",
        status.flags,
        status.cue()
    );
    assert_eq!(status.cue(), CoachCue::AllGood);
    assert!(status.marker_a_seen, "Marker A must be sighted at the start");
    assert!(status.marker_b_seen, "Marker B must be sighted at the end");
    let blur = f(status.blur_fraction);
    assert!(blur < 0.25, "clean slow pan must not read as blurred: {blur}");
    // No false positives during the pan either (first frame has no marker
    // observation yet, so allow the very first detection interval).
    assert!(warned_frames <= 1, "clean pan flagged {warned_frames} frames");
}

#[test]
fn recording_with_no_marker_in_view_trips_find_marker_a() {
    let mut core = Live::new(LIVE_W, LIVE_H);
    for i in 0..30 {
        core.push_frame(&dotted_frame(i as f64 * 3.0, 205, 30));
    }
    let status = core.coach_status();
    assert!(
        status.flags & COACH_NO_MARKER != 0,
        "bare wall must trip COACH_NO_MARKER (flags {:#b})",
        status.flags
    );
    assert_eq!(status.cue(), CoachCue::FindMarkerA);
    assert!(!status.marker_a_seen && !status.marker_b_seen);
}

#[test]
fn marker_sighting_going_stale_mid_pan_trips_marker_lost() {
    // Marker A in view at the start (real rendered frames), then a long stretch of
    // bare wall: the sticky sighting stays, the staleness trips.
    let scene = Scene { markers: vec![marker(0, 0.0, 0.0)], dots: spread_dots(250.0, 900.0) };
    let h0 = pose_homography(LIVE_FOCAL, LIVE_W, LIVE_H, [300.0, 280.0, -LIVE_DIST], 0.0, 0.0);
    let mut core = Recorder::new(LIVE_W, LIVE_H);
    for i in 0..6 {
        let rgba = render_scene(&scene, &h0, LIVE_W, LIVE_H, 2.5, 500 + i as u64);
        core.push_frame(&rgba);
    }
    assert!(core.coach_status().marker_a_seen, "A must be seen at the start");
    assert_eq!(core.coach_status().flags & COACH_MARKER_LOST, 0);
    for i in 0..(COACH_MARKER_STALE_FRAMES + 10) {
        core.push_frame(&dotted_frame(i as f64 * 4.0, 205, 30));
    }
    let status = core.coach_status();
    assert!(
        status.flags & COACH_MARKER_LOST != 0,
        "stale sighting must trip COACH_MARKER_LOST (flags {:#b})",
        status.flags
    );
    assert_eq!(status.cue(), CoachCue::MarkerLost);
    assert!(status.marker_a_seen, "sightings are sticky");
    assert!(!status.marker_b_seen, "B was never seen: the page must demand a retake");
}

#[test]
fn fast_pan_trips_slow_down_and_clears_after_slowing() {
    let mut core = Live::new(LIVE_W, LIVE_H);
    let mut offset = 0.0;
    // ~22 px/frame at 480 wide is well over the HI threshold (0.028*480 = 13.4).
    for _ in 0..20 {
        core.push_frame(&dotted_frame(offset, 205, 30));
        offset += 22.0;
    }
    let fast = core.coach_status();
    assert!(
        fast.flags & COACH_TOO_FAST != 0,
        "22 px/frame must trip COACH_TOO_FAST (flags {:#b}, speed {:.1})",
        fast.flags,
        f(fast.speed_px_per_frame)
    );
    // (The cue itself is FindMarkerA here: these cheap frames carry no marker, and
    // marker problems outrank speed by design.)
    let blur = f(fast.blur_fraction);
    assert!(blur > 0.5, "a pan that fast is mostly blurred: {blur}");
    // Slow back down: the cue must clear within a few frames (hysteresis).
    for _ in 0..12 {
        core.push_frame(&dotted_frame(offset, 205, 30));
        offset += 4.0;
    }
    let slow = core.coach_status();
    assert_eq!(
        slow.flags & COACH_TOO_FAST,
        0,
        "slowing down must clear COACH_TOO_FAST (speed {:.1})",
        f(slow.speed_px_per_frame)
    );
}

#[test]
fn dark_scene_trips_too_dark_and_recovers_when_lit() {
    let mut core = Live::new(LIVE_W, LIVE_H);
    let mut offset = 0.0;
    for _ in 0..10 {
        core.push_frame(&dotted_frame(offset, 25, 6));
        offset += 4.0;
    }
    let dark = core.coach_status();
    assert!(
        dark.flags & COACH_TOO_DARK != 0,
        "a ~25-luma frame must trip COACH_TOO_DARK (mean {:.0}, flags {:#b})",
        f(dark.mean_luma),
        dark.flags
    );
    // Light turned on: clears after the debounce window.
    for _ in 0..8 {
        core.push_frame(&dotted_frame(offset, 205, 30));
        offset += 4.0;
    }
    assert_eq!(core.coach_status().flags & COACH_TOO_DARK, 0);
}

#[test]
fn blown_out_scene_trips_blown_out() {
    let mut core = Live::new(LIVE_W, LIVE_H);
    let mut offset = 0.0;
    for _ in 0..10 {
        core.push_frame(&dotted_frame(offset, 250, 170));
        offset += 4.0;
    }
    let status = core.coach_status();
    assert!(
        status.flags & COACH_BLOWN_OUT != 0,
        "a ~250-luma frame must trip COACH_BLOWN_OUT (mean {:.0}, flags {:#b})",
        f(status.mean_luma),
        status.flags
    );
}

// ---------------------------------------------------------------------------
// Recorded pans.

const PAN_W: usize = 640;
const PAN_H: usize = 360;

/// Wall layout: Marker A's printed top-left at wall (0, 0), so that the wall frame
/// and the scene frame coincide.
const B_X_MM: f64 = 3850.0;

/// Draw a few dark discs on a light background at a given x offset.
fn textured_frame(w: usize, h: usize, offset: f64) -> Vec<u8> {
    let mut rgba = vec![0u8; w * h * 4];
    let dots = [
        [30.0, 30.0],
        [90.0, 80.0],
        [150.0, 40.0],
        [210.0, 90.0],
        [60.0, 100.0],
        [180.0, 20.0],
        [240.0, 60.0],
        [120.0, 70.0],
    ];
    for y in 0..h {
        for x in 0..w {
            let mut v = 200u8;
            for dot in &dots {
                // The scene scrolls left as the camera pans right.
                let dx = x as f64 - (dot[0] - offset).rem_euclid(300.0);
                let dy = y as f64 - dot[1];
                if dx * dx + dy * dy < 36.0 {
                    v = 30;
                    break;
                }
            }
            let o = (y * w + x) * 4;
            rgba[o] = v;
            rgba[o + 1] = v;
            rgba[o + 2] = v;
            rgba[o + 3] = 255;
        }
    }
    rgba
}

#[test]
fn losing_track_mid_recording_reports_tracking_lost() {
    let (w, h) = (160usize, 120usize);
    let mut core = Live::new(w, h);
    let mut offset = 0.0;
    for _ in 0..14 {
        core.push_frame(&textured_frame(w, h, offset));
        offset += 7.0;
    }
    assert!(core.core.keyframe_count() >= 1);
    // Lens covered / blank wall: flat frames are untrackable.
    let flat = vec![180u8; w * h * 4];
    for _ in 0..(LOST_TRACK_FRAMES + 2) {
        assert_eq!(core.push_frame(&flat), FrameDisposition::Skipped);
    }
    // Texture reappears; keyframes commit beyond the gap.
    for _ in 0..30 {
        core.push_frame(&textured_frame(w, h, offset));
        offset += 7.0;
    }
    assert!(core.core.tracking_broken());
    let unused = |v: Double| (v, v);
    let same = |v: Double| v;
    match core.core.finish((&turn, &power), (&unused, &same), d(1.0), true) {
        Err(PanError::TrackingLost { .. }) => {}
        Err(other) => panic!("expected TrackingLost, got {other:?}"),
        Ok(out) => {
            panic!("expected TrackingLost, got a {}x{} result", out.plan.width, out.plan.height)
        }
    }
}

/// Frames of a camera that stands still before Marker A.
fn small_marker_frames(n: usize) -> Vec<Vec<u8>> {
    let scene = Scene { markers: vec![marker(0, 0.0, 0.0)], dots: spread_dots(250.0, 700.0) };
    let h = pose_homography(200.0, 160, 120, [200.0, 150.0, -700.0], 0.0, 0.0);
    (0..n).map(|i| render_scene(&scene, &h, 160, 120, 2.5, 500 + i as u64)).collect()
}

#[test]
fn library_recorder_notices_a_stale_marker() {
    let mut core = Live::new(160, 120);
    for rgba in small_marker_frames(6) {
        core.push_frame(&rgba);
    }
    assert!(core.coach_status().marker_a_seen, "A must be seen at the start");
    assert_eq!(core.coach_status().flags & COACH_MARKER_LOST, 0);
    let walls: Vec<Vec<u8>> = (0..12).map(|i| textured_frame(160, 120, i as f64 * 3.0)).collect();
    for i in 0..(COACH_MARKER_STALE_FRAMES + 10) as usize {
        core.push_frame(&walls[i % walls.len()]);
    }
    let status = core.coach_status();
    assert!(status.flags & COACH_MARKER_LOST != 0, "flags {:#b}", status.flags);
    assert_eq!(status.cue(), CoachCue::MarkerLost);
    assert!(status.marker_a_seen, "sightings are sticky");
    assert!(!status.marker_b_seen);
}

#[test]
fn library_recorder_says_all_good_of_a_slow_pan() {
    let camera = PanCamera {
        focal_px: 260.0,
        width: 240,
        height: 180,
        distance_mm: 900.0,
        start_center_mm: [300.0, 280.0],
        end_center_mm: [620.0, 280.0],
        yaw_amp: 0.02,
        pitch_amp: 0.01,
    };
    let scene = Scene { markers: vec![marker(0, 0.0, 0.0)], dots: spread_dots(250.0, 1200.0) };
    let mut core = Live::new(240, 180);
    let mut warned = 0;
    for (i, h) in camera.sequence(40).iter().enumerate() {
        core.push_frame(&render_scene(&scene, h, 240, 180, 2.5, 100 + i as u64));
        if core.coach_status().flags != 0 {
            warned += 1;
        }
    }
    let status = core.coach_status();
    assert_eq!(status.flags, 0, "cue {:?}", status.cue());
    assert_eq!(status.cue(), CoachCue::AllGood);
    assert!(status.marker_a_seen);
    assert!(f(status.blur_fraction) < 0.25);
    assert!(warned <= 1, "clean pan flagged {warned} frames");
}

/// Each pushed frame is told apart by what became of it.
#[test]
fn dispositions_account_for_every_frame() {
    let mut core = Live::new(160, 120);
    let mut offset = 0.0;
    for _ in 0..40 {
        let rgba = textured_frame(160, 120, offset);
        offset += 5.0;
        let (before, old) = (core.core.keyframe_count(), candidate_pixels(&core.core));
        let disposition = core.push_frame(&rgba);
        let (after, new) = (core.core.keyframe_count(), candidate_pixels(&core.core));
        assert_eq!(after, before + (disposition == FrameDisposition::Kept) as usize);
        match disposition {
            FrameDisposition::Candidate => assert_eq!(new, Some(rgba)),
            FrameDisposition::Skipped => assert_eq!(new, old),
            _ => {}
        }
    }
    assert!(core.core.keyframe_count() > 2);
}

fn candidate_pixels(core: &PanCore) -> Option<Vec<u8>> {
    core.candidate.as_ref().map(|(k, _)| k.rgba.clone())
}

/// A finished pan on native doubles.
struct Wall {
    out: PanOutput,
    mm_per_px: f64,
    origin_mm: [f64; 2],
}

impl Wall {
    fn bound_near_anchor_mm(&self) -> f64 {
        f(self.out.bound_near_anchor_mm())
    }

    fn bound_far_end_mm(&self) -> f64 {
        f(self.out.bound_far_end_mm())
    }

    fn bound_between_mm(&self, xa: f64, xb: f64) -> f64 {
        f(self.out.plan.bound.bound_between_mm(d(xa), d(xb)))
    }
}

fn finish(core: &mut Recorder, factor: f64, close_loop: bool, calibrate: bool) -> Result<Wall, PanError> {
    let out = core.finish_with(factor, close_loop, calibrate)?;
    let mm_per_px = f(out.plan.mm_per_px);
    let origin_mm = [f(out.plan.extent.min_x), f(out.plan.extent.min_y)];
    Ok(Wall { out, mm_per_px, origin_mm })
}

fn pan_camera() -> PanCamera {
    PanCamera {
        focal_px: 700.0,
        width: PAN_W,
        height: PAN_H,
        distance_mm: 1400.0,
        start_center_mm: [500.0, 280.0],
        end_center_mm: [3450.0, 280.0],
        yaw_amp: 0.035,
        pitch_amp: 0.02,
    }
}

/// Reference dots: pairs 300 mm apart near Marker A, in the middle, and near Marker
/// B, plus spread "fixture" texture through the middle so inter-frame tracking has
/// something to hold onto.
fn pan_dots() -> Vec<([f64; 2], f64)> {
    let mut list = vec![
        // Near-A measurement pair (vertical, 300 mm).
        ([250.0, 250.0], 8.0),
        ([250.0, 550.0], 8.0),
        // Middle measurement pair (horizontal, 300 mm).
        ([1900.0, 250.0], 8.0),
        ([2200.0, 250.0], 8.0),
        // Near-B measurement pair (vertical, 300 mm).
        ([3700.0, 150.0], 8.0),
        ([3700.0, 450.0], 8.0),
    ];
    // Tracking texture spread along the pan: irregular clusters.
    let mut x = 450.0;
    let mut k = 0u32;
    while x < 3600.0 {
        let y0 = [120.0, 480.0, 300.0][k as usize % 3];
        list.push(([x, y0], 6.0));
        list.push(([x + 90.0, 620.0 - y0], 5.0));
        list.push(([x + 45.0, y0 + 160.0], 4.0));
        k += 1;
        x += 210.0 + 20.0 * ((k % 4) as f64);
    }
    list
}

fn pan_scene() -> Scene {
    Scene { markers: vec![marker(0, 0.0, 0.0), marker(1, B_X_MM, 0.0)], dots: pan_dots() }
}

/// The frames of a rendered pan.
fn pan_frames(scene: &Scene, frames: usize, noise: f64, seed: u64) -> Vec<Vec<u8>> {
    pan_camera()
        .sequence(frames)
        .iter()
        .enumerate()
        .map(|(i, h)| render_scene(scene, h, PAN_W, PAN_H, noise, seed + i as u64))
        .collect()
}

fn record_frames(frames: &[Vec<u8>]) -> Recorder {
    let mut core = Recorder::new(PAN_W, PAN_H);
    for rgba in frames {
        core.push_frame(rgba);
    }
    core
}

/// Push a rendered pan into a fresh recorder.
fn record_pan(scene: &Scene, frames: usize, noise: f64, seed: u64) -> Recorder {
    record_frames(&pan_frames(scene, frames, noise, seed))
}

/// Centroid of dark pixels near an expected output position: the test's stand-in
/// for the Homeowner tapping the measure tool. `None` when no dark dot is present
/// in the window.
fn dark_centroid_opt(wall: &Wall, near_mm: [f64; 2], radius_px: f64) -> Option<[f64; 2]> {
    let (width, height) = (wall.out.plan.width, wall.out.plan.height);
    let cx = (near_mm[0] - wall.origin_mm[0]) / wall.mm_per_px;
    let cy = (near_mm[1] - wall.origin_mm[1]) / wall.mm_per_px;
    let (mut sx, mut sy, mut n) = (0.0, 0.0, 0u32);
    for y in 0..height {
        for x in 0..width {
            let dx = x as f64 - cx;
            let dy = y as f64 - cy;
            if dx * dx + dy * dy > radius_px * radius_px {
                continue;
            }
            let px = &wall.out.rgba[(y * width + x) * 4..(y * width + x) * 4 + 4];
            // Skip the out-of-coverage fill (24, 24, 28).
            if px[0] < 90 && !(px[0] == 24 && px[1] == 24 && px[2] == 28) {
                sx += x as f64;
                sy += y as f64;
                n += 1;
            }
        }
    }
    if n > 3 {
        Some([sx / n as f64, sy / n as f64])
    } else {
        None
    }
}

fn dark_centroid(wall: &Wall, near_mm: [f64; 2], radius_px: f64) -> [f64; 2] {
    dark_centroid_opt(wall, near_mm, radius_px)
        .unwrap_or_else(|| panic!("no dark dot found near wall {near_mm:?}"))
}

/// Measured mm distance between two dots on the stitched image. `radius_px` is the
/// tap search window: open-loop results drift far enough that the dot must be
/// hunted over a wider area.
fn measure_mm(wall: &Wall, a_mm: [f64; 2], b_mm: [f64; 2], radius_px: f64) -> f64 {
    let ca = dark_centroid(wall, a_mm, radius_px);
    let cb = dark_centroid(wall, b_mm, radius_px);
    ((ca[0] - cb[0]).powi(2) + (ca[1] - cb[1]).powi(2)).sqrt() * wall.mm_per_px
}

#[test]
fn library_scenes_agree_with_native_doubles_bit_for_bit() {
    let sin_cos = |a: Double| {
        let (s, c) = f(a).sin_cos();
        (d(s), d(c))
    };
    let camera = calib_camera(300.0, 900.0, 0.05, 0.03);
    let ours = synthetic::PanCamera {
        focal_px: d(camera.focal_px),
        width: camera.width,
        height: camera.height,
        distance_mm: d(camera.distance_mm),
        start_center_mm: point(camera.start_center_mm),
        end_center_mm: point(camera.end_center_mm),
        yaw_amp: d(camera.yaw_amp),
        pitch_amp: d(camera.pitch_amp),
    };
    let path = camera.sequence(5);
    let found: Vec<[f64; 9]> = ours.sequence(&sin_cos, 5).iter().map(unmatrix).collect();
    assert_eq!(found, path);
    assert_eq!(ours.sequence(&sin_cos, 1).len(), 1);

    for rot_quarter in 0..5 {
        let native = marker_at_origin(rot_quarter, 150.0);
        let placed = synthetic::SyntheticMarker {
            id: native.id,
            x_mm: d(native.x_mm),
            y_mm: d(native.y_mm),
            side_mm: d(native.side_mm),
            rot_quarter,
        };
        let corner = synthetic::printed_top_left(&placed);
        assert_eq!(unpoint(&corner), printed_top_left(&native));
        // 96 x 72 px around the marker: it is 60 px across.
        let h = [0.4, 0.02, 18.0, -0.01, 0.39, 7.0, 1e-4, 2e-4, 1.0];
        let at = synthetic::project(&matrix(&h), corner[0], corner[1]);
        let p = printed_top_left(&native);
        assert_eq!(unpoint(&at), project(&h, p[0], p[1]));
        let dots = vec![([170.0, 20.0], 12.0), ([60.0, 60.0], 9.0)];
        let scene = synthetic::Scene {
            markers: vec![placed],
            dots: dots.iter().map(|(c, r)| (point(*c), d(*r))).collect(),
        };
        let theirs = Scene { markers: vec![native], dots };
        assert!(
            synthetic::render_scene(&scene, &matrix(&h), 96, 72, d(2.0), 5)
                == render_scene(&theirs, &h, 96, 72, 2.0, 5)
        );
        let lens = Distortion::new(96, 72, d(-0.2));
        assert!(
            synthetic::render_scene_distorted(&scene, &matrix(&h), 96, 72, d(0.0), 5, &lens)
                == render_scene_distorted(&theirs, &h, 96, 72, 0.0, 5, &Lens::new(96, 72, -0.2))
        );
        let straight = Distortion::none(96, 72);
        assert!(
            synthetic::render_scene_distorted(&scene, &matrix(&h), 96, 72, d(1.0), 6, &straight)
                == synthetic::render_scene(&scene, &matrix(&h), 96, 72, d(1.0), 6)
        );
    }
}

/// A short pan of small frames past Marker A.
fn short_pan() -> Vec<Vec<u8>> {
    let camera = PanCamera {
        focal_px: 260.0,
        width: 240,
        height: 180,
        distance_mm: 900.0,
        start_center_mm: [300.0, 280.0],
        end_center_mm: [460.0, 280.0],
        yaw_amp: 0.02,
        pitch_amp: 0.01,
    };
    let dots = (0..20)
        .map(|k| ([190.0 + (k * 331 % 600) as f64, 60.0 + (k * 197 % 500) as f64], 7.0))
        .collect();
    let scene = Scene { markers: vec![marker(0, 0.0, 0.0)], dots };
    camera
        .sequence(4)
        .iter()
        .enumerate()
        .map(|(i, h)| render_scene(&scene, h, 240, 180, 1.0, 900 + i as u64))
        .collect()
}

#[test]
fn library_recorder_agrees_with_native_doubles_bit_for_bit() {
    let length = |x: Double, y: Double| d(f(x).hypot(f(y)));
    let sin_cos = |a: Double| {
        let (s, c) = f(a).sin_cos();
        (d(s), d(c))
    };
    let acos = |v: Double| d(f(v).acos());
    let mut native = Recorder::new(240, 180);
    let mut core = PanCore::new(240, 180);
    for rgba in short_pan() {
        assert_eq!(core.push_frame(&length, &rgba), native.push_frame(&rgba));
        let (a, b) = (core.coach_status(), native.coach_status());
        assert_eq!(format!("{a:?}"), format!("{b:?}"));
    }
    assert_eq!(core.keyframe_count(), native.keyframe_count());
    let a = core.finish_with((&turn, &power), (&sin_cos, &acos), d(1.0), true, false).unwrap();
    let b = native.finish_with(1.0, true, false).unwrap();
    assert_eq!(a.keyframes_used, 2);
    assert_eq!(a.keyframes_used, b.keyframes_used);
    assert_eq!((a.plan.width, a.plan.height), (b.plan.width, b.plan.height));
    for (m, n) in a.plan.chain.iter().zip(&b.plan.chain) {
        assert_eq!(unmatrix(m), unmatrix(n));
    }
    assert_eq!(f(a.bound_far_end_mm()), f(b.bound_far_end_mm()));
    assert_eq!(f(a.bound_worst_mm()), f(a.bound_far_end_mm()));
    assert!(f(a.bound_near_anchor_mm()) <= f(a.bound_worst_mm()));
    assert!(a.rgba == b.rgba);
}

/// A short wobbly pan through a barrel lens, from Marker A to Marker B.
fn bent_pan() -> Vec<Vec<u8>> {
    let camera = PanCamera {
        focal_px: 190.8,
        width: 180,
        height: 135,
        distance_mm: 900.0,
        start_center_mm: [300.0, 280.0],
        end_center_mm: [1100.0, 280.0],
        yaw_amp: 0.12,
        pitch_amp: 0.06,
    };
    let dots = (0..26u32)
        .map(|k| {
            (
                [190.0 + (k * 7331 % 1500) as f64, 20.0 + (k * 197 % 520) as f64],
                6.0 + (k % 4) as f64 * 2.0,
            )
        })
        .collect();
    let scene = Scene { markers: vec![marker(0, 0.0, 0.0), marker(1, 1250.0, 0.0)], dots };
    let lens = Lens::new(180, 135, -0.15);
    camera
        .sequence(8)
        .iter()
        .enumerate()
        .map(|(i, h)| render_scene_distorted(&scene, h, 180, 135, 0.5, 900 + i as u64, &lens))
        .collect()
}

#[test]
fn library_finish_calibrates_a_short_pan_as_native_doubles_do() {
    let length = |x: Double, y: Double| d(f(x).hypot(f(y)));
    let sin_cos = |a: Double| {
        let (s, c) = f(a).sin_cos();
        (d(s), d(c))
    };
    let acos = |v: Double| d(f(v).acos());
    let mut native = Recorder::new(180, 135);
    let mut core = PanCore::new(180, 135);
    for rgba in bent_pan() {
        assert_eq!(core.push_frame(&length, &rgba), native.push_frame(&rgba));
    }
    let a = core.finish_with((&turn, &power), (&sin_cos, &acos), d(1.0), true, true).unwrap();
    let b = native.finish_with(1.0, true, true).unwrap();
    assert!(a.keyframes_used >= 4);
    assert_eq!(a.keyframes_used, b.keyframes_used);
    let c = a.plan.calibration.as_ref().expect("the pan must calibrate");
    let e = b.plan.calibration.as_ref().expect("the pan must calibrate");
    assert!((f(c.k1) + 0.15).abs() < 0.02, "k1 {}", f(c.k1));
    assert_eq!(f(a.plan.dist.k1), f(c.k1));
    assert_eq!((f(c.focal_px), f(c.k1)), (f(e.focal_px), f(e.k1)));
    assert_eq!((f(c.rms_before_px), f(c.rms_after_px)), (f(e.rms_before_px), f(e.rms_after_px)));
    assert!(f(c.rms_after_px) < f(c.rms_before_px));
    for (m, n) in a.plan.chain.iter().zip(&b.plan.chain) {
        assert_eq!(unmatrix(m), unmatrix(n));
    }
    assert_eq!(f(a.bound_far_end_mm()), f(b.bound_far_end_mm()));
    assert!(a.rgba == b.rgba);
}

#[test]
fn recorder_refuses_what_it_cannot_process() {
    let ignored = |v: Double| (v, v);
    let same = |v: Double| v;
    let mut core = PanCore::new(64, 64);
    let refused = core.finish((&turn, &power), (&ignored, &same), d(0.0), true).err();
    assert_eq!(refused, Some(PanError::InvalidCorrectionFactor));
    let empty = core.finish((&turn, &power), (&ignored, &same), d(1.0), true).err();
    assert_eq!(empty, Some(PanError::NoKeyframes));
    for factor in [f64::NAN, f64::INFINITY, f64::NEG_INFINITY, -1.0, -0.0] {
        let refused = core.finish((&turn, &power), (&ignored, &same), d(factor), true).err();
        assert_eq!(refused, Some(PanError::InvalidCorrectionFactor));
    }
    let length = |x: Double, y: Double| d(f(x).hypot(f(y)));
    let plain = vec![128u8; 64 * 64 * 4];
    assert_eq!(core.push_frame(&length, &plain), FrameDisposition::Kept);
    let blank = core.finish((&turn, &power), (&ignored, &same), d(1.0), true).err();
    assert_eq!(blank, Some(PanError::AnchorMarkerNotFound));
}

#[test]
fn pan_recovers_known_distances_within_the_reported_error_bound() {
    let mut core = record_pan(&pan_scene(), 60, 2.5, 1000);
    let out = finish(&mut core, 1.0, true, true).expect("pan must process");

    assert!(
        (4..=30).contains(&out.out.keyframes_used),
        "keyframe selection out of range: {}",
        out.out.keyframes_used
    );
    assert!(!out.out.truncated);
    let closure = out.out.plan.closure.as_ref().expect("Marker B must close the loop");
    assert!(!out.out.plan.closure_rejected, "clean closure must not be rejected");
    // Same constant the plausibility guard enforces.
    assert!(
        f(closure.discrepancy_mm) < f(Double::from_bits(MAX_CLOSURE_DISCREPANCY_MM)),
        "implausible measured drift: {} mm",
        f(closure.discrepancy_mm)
    );

    // The stitched image must cover the whole wall, far wider than any single
    // frame's ~1280 mm footprint.
    let span_mm = out.out.plan.width as f64 * out.mm_per_px;
    assert!(span_mm > 3800.0, "stitched span only {span_mm:.0} mm");

    // Error Bound <= 30 mm everywhere on a clean capture.
    let far = out.bound_far_end_mm();
    assert!(far <= 30.0, "far-end Error Bound {far:.1} mm exceeds 30 mm");
    assert!(out.bound_near_anchor_mm() < far, "bound must grow with distance");

    // Known 300 mm distances at both ends and the middle, each within the bound on
    // distances between its two wall positions.
    let cases = [
        ("near A", [250.0, 250.0], [250.0, 550.0], 300.0),
        ("middle", [1900.0, 250.0], [2200.0, 250.0], 300.0),
        ("near B", [3700.0, 150.0], [3700.0, 450.0], 300.0),
    ];
    for (name, a, b, true_mm) in cases {
        let measured = measure_mm(&out, a, b, 18.0);
        let allowed = out.bound_between_mm(a[0], b[0]);
        let err = (measured - true_mm).abs();
        assert!(
            err <= allowed,
            "{name}: measured {measured:.1} mm vs {true_mm} mm (err {err:.1}) exceeds reported bound {allowed:.1} mm"
        );
    }

    // The full-wall span: near-A dot to near-B dot, 3450 mm apart in x.
    let a = [250.0f64, 250.0];
    let b = [3700.0f64, 150.0];
    let true_mm = ((b[0] - a[0]).powi(2) + (b[1] - a[1]).powi(2)).sqrt();
    let measured = measure_mm(&out, a, b, 18.0);
    let allowed = out.bound_between_mm(a[0], b[0]);
    let err = (measured - true_mm).abs();
    assert!(
        err <= allowed,
        "full span: measured {measured:.1} vs {true_mm:.1} (err {err:.1}) > bound {allowed:.1}"
    );
}

#[test]
fn loop_closure_reduces_far_end_error() {
    // Noisier capture: per-link tracking errors accumulate into real scale drift
    // over the chain, which is exactly what closure corrects. The fixed seed keeps it
    // deterministic.
    let a = [250.0f64, 250.0];
    let b = [3700.0f64, 150.0];
    let true_mm = ((b[0] - a[0]).powi(2) + (b[1] - a[1]).powi(2)).sqrt();

    let frames = pan_frames(&pan_scene(), 60, 6.0, 7777);
    let open = finish(&mut record_frames(&frames), 1.0, false, true)
        .expect("open-loop pan must process");
    assert!(open.out.plan.closure.is_none(), "close_loop=false must skip closure");
    let open_err = (measure_mm(&open, a, b, 60.0) - true_mm).abs();

    let closed = finish(&mut record_frames(&frames), 1.0, true, true)
        .expect("closed-loop pan must process");
    let closure = closed.out.plan.closure.as_ref().expect("closure must engage");
    let closed_err = (measure_mm(&closed, a, b, 60.0) - true_mm).abs();

    // The mechanism must have measured real drift and corrected it.
    let scale = f(closure.scale_correction);
    assert!(
        (scale - 1.0).abs() > 1e-4,
        "closure measured no drift (scale {scale}), test is vacuous"
    );
    assert!(
        closed_err < open_err,
        "closure must reduce far-end error: open {open_err:.2} mm, closed {closed_err:.2} mm"
    );
    // And the open-loop bound must be honest about not having a closure: wider than
    // the closed-loop bound at the far end.
    assert!(
        open.bound_far_end_mm() > closed.bound_far_end_mm(),
        "open-loop bound {:.1} must exceed closed-loop bound {:.1}",
        open.bound_far_end_mm(),
        closed.bound_far_end_mm()
    );
}

/// Texture only near the ends, with a lone fixture cluster inside a gap wider than
/// one camera view: the fixture keeps the coarse tracker alive (keyframes are kept)
/// but consecutive keyframes in the gap share nothing except that one tight
/// cluster.
fn gappy_dots() -> Vec<([f64; 2], f64)> {
    let mut list = vec![
        ([250.0, 250.0], 8.0),
        ([250.0, 550.0], 8.0),
        // The lone middle fixture cluster (spans < 25% of a frame).
        ([2050.0, 350.0], 40.0),
        ([2130.0, 300.0], 10.0),
        ([2000.0, 450.0], 10.0),
        ([3700.0, 150.0], 8.0),
        ([3700.0, 450.0], 8.0),
    ];
    for x in [450.0, 650.0, 850.0, 1050.0, 1200.0] {
        list.push(([x, 480.0], 6.0));
        list.push(([x + 90.0, 150.0], 5.0));
    }
    for x in [2900.0, 3100.0, 3300.0, 3450.0] {
        list.push(([x, 480.0], 6.0));
        list.push(([x + 90.0, 150.0], 5.0));
    }
    list
}

#[test]
fn untrackable_segment_fails_loudly_naming_the_segment() {
    // The chain must break with a WeakSegment error: a homography "fit" to a single
    // tight feature cluster extrapolates garbage and must not silently corrupt the
    // chain.
    let scene = Scene {
        markers: vec![marker(0, 0.0, 0.0), marker(1, B_X_MM, 0.0)],
        dots: gappy_dots(),
    };
    let mut core = record_pan(&scene, 60, 2.5, 4242);
    match core.finish(1.0, true) {
        Err(PanError::WeakSegment { from_keyframe, to_keyframe, .. }) => {
            assert_eq!(to_keyframe, from_keyframe + 1);
            let msg = PanError::WeakSegment { from_keyframe, to_keyframe, matches: 3, inliers: 0 }
                .message();
            assert!(msg.contains("tracking failed between keyframe"));
        }
        Err(other) => panic!("expected WeakSegment, got: {}", other.message()),
        Ok(out) => panic!(
            "chain across a featureless gap must fail loudly, but produced a {}x{} image from {} keyframes",
            out.plan.width, out.plan.height, out.keyframes_used
        ),
    }
}

#[test]
fn losing_track_mid_pan_fails_loudly() {
    // A fully blank middle stretch wider than one view: the coarse tracker loses
    // the wall entirely, later keyframes sit beyond the gap, and the recorder must
    // report the loss instead of chaining across it.
    let mut dots: Vec<([f64; 2], f64)> = vec![
        ([250.0, 250.0], 8.0),
        ([250.0, 550.0], 8.0),
        ([3700.0, 150.0], 8.0),
        ([3700.0, 450.0], 8.0),
    ];
    for x in [450.0, 650.0, 850.0, 1050.0, 1200.0] {
        dots.push(([x, 480.0], 6.0));
        dots.push(([x + 90.0, 150.0], 5.0));
    }
    for x in [2900.0, 3100.0, 3300.0, 3450.0] {
        dots.push(([x, 480.0], 6.0));
        dots.push(([x + 90.0, 150.0], 5.0));
    }
    let scene = Scene { markers: vec![marker(0, 0.0, 0.0), marker(1, B_X_MM, 0.0)], dots };
    let mut core = record_pan(&scene, 60, 2.5, 99);
    // Depending on exactly where trackable texture peters out, either the
    // capture-time continuity guard (TrackingLost) or the per-link guard
    // (WeakSegment) fires first; both are loud and both name the spot.
    match core.finish(1.0, true) {
        Err(PanError::TrackingLost { .. }) | Err(PanError::WeakSegment { .. }) => {}
        Err(other) => panic!("expected TrackingLost/WeakSegment, got: {}", other.message()),
        Ok(_) => panic!("a pan with a lost middle must not silently produce a result"),
    }
}

#[test]
fn implausible_closure_is_refused_not_redistributed() {
    // Marker B physically 130 mm but claimed 150 mm: a stand-in for every "closure
    // demands a big scale rewrite" failure. The measured scale correction (~1.15)
    // is far beyond MAX_CLOSURE_SCALE_DEV: the guard must REFUSE the closure, return
    // the honest open-loop result, and raise the closure_rejected flag.
    let bad_scene = Scene {
        markers: vec![
            marker(0, 0.0, 0.0),
            SyntheticMarker { id: 1, x_mm: B_X_MM, y_mm: 0.0, side_mm: 130.0, rot_quarter: 0 },
        ],
        dots: pan_dots(),
    };
    let mut core = record_pan(&bad_scene, 60, 2.5, 1000);
    let out = finish(&mut core, 1.0, true, true).expect("pan must still process open-loop");
    assert!(
        out.out.plan.closure.is_none(),
        "an implausible closure (scale {:?}) must not be applied",
        out.out.plan.closure.map(|c| f(c.scale_correction))
    );
    assert!(
        out.out.plan.closure_rejected,
        "refusing a visible Marker B must raise the flag, never stay silent"
    );
    // And the bound must be the honest open-loop one: far wider than a clean
    // closed-loop capture's.
    let mut clean_core = record_pan(&pan_scene(), 60, 2.5, 1000);
    let clean = finish(&mut clean_core, 1.0, true, true).expect("clean pan");
    assert!(
        out.bound_far_end_mm() > 2.0 * clean.bound_far_end_mm(),
        "rejected closure must fall back to the wide open-loop bound: rejected {:.1} mm vs clean {:.1} mm",
        out.bound_far_end_mm(),
        clean.bound_far_end_mm()
    );
}

/// 3x3 box blur on an RGBA frame (stand-in for motion blur at B).
fn blur3(rgba: &[u8], w: usize, h: usize) -> Vec<u8> {
    let mut out = rgba.to_vec();
    for y in 1..h - 1 {
        for x in 1..w - 1 {
            for ch in 0..3 {
                let mut acc = 0u32;
                for dy in 0..3 {
                    for dx in 0..3 {
                        acc += rgba[((y + dy - 1) * w + x + dx - 1) * 4 + ch] as u32;
                    }
                }
                out[(y * w + x) * 4 + ch] = (acc / 9) as u8;
            }
        }
    }
    out
}

#[test]
fn blurred_marker_b_widens_the_bound_not_tightens_it() {
    // Same pan, same seed, blur over the last 30% of frames (where B lives): the far
    // bound must come out wider than the clean run's (or the closure must be refused
    // outright, which yields the even wider open-loop bound).
    let frames = 60usize;
    let clean_frames = pan_frames(&pan_scene(), frames, 2.5, 1000);
    let blurred_frames: Vec<Vec<u8>> = clean_frames
        .iter()
        .enumerate()
        .map(|(i, rgba)| {
            if i >= frames * 7 / 10 {
                blur3(rgba, PAN_W, PAN_H)
            } else {
                rgba.clone()
            }
        })
        .collect();
    let clean =
        finish(&mut record_frames(&clean_frames), 1.0, true, true).expect("clean pan");
    assert!(clean.out.plan.closure.is_some() && !clean.out.plan.closure_rejected);
    let blurred =
        finish(&mut record_frames(&blurred_frames), 1.0, true, true).expect("blurred pan");
    assert!(
        blurred.bound_far_end_mm() > clean.bound_far_end_mm(),
        "blurring Marker B must WIDEN the far bound: clean {:.1} mm, blurred {:.1} mm",
        clean.bound_far_end_mm(),
        blurred.bound_far_end_mm()
    );
}

#[test]
fn pan_without_marker_a_reports_missing_anchor() {
    let scene = Scene { markers: vec![marker(1, B_X_MM, 0.0)], dots: pan_dots() };
    let mut core = record_pan(&scene, 30, 2.5, 5);
    match core.finish(1.0, true) {
        Err(PanError::AnchorMarkerNotFound) => {}
        Err(other) => panic!("expected AnchorMarkerNotFound, got {}", other.message()),
        Ok(_) => panic!("pan with no Marker A must not produce a result"),
    }
}

#[test]
fn print_scale_correction_scales_the_pan_metric() {
    // Markers printed at 94%: physically 141 mm. The dots are a true 300 mm apart
    // regardless. With the correction factor the measurement is right.
    let side_mm = 150.0 * 0.94;
    let scene = Scene {
        markers: vec![
            SyntheticMarker { id: 0, x_mm: 0.0, y_mm: 0.0, side_mm, rot_quarter: 0 },
            SyntheticMarker { id: 1, x_mm: B_X_MM, y_mm: 40.0, side_mm, rot_quarter: 0 },
        ],
        dots: pan_dots(),
    };
    let mut core = record_pan(&scene, 60, 2.5, 31);
    let out = finish(&mut core, 0.94, true, true).expect("pan must process");
    let measured = measure_mm(&out, [250.0, 250.0], [250.0, 550.0], 12.0);
    let err = (measured - 300.0).abs();
    let allowed = f(out.out.plan.bound.bound_at_mm(d(250.0))) * 2.0;
    assert!(
        err <= allowed,
        "print-scale-corrected measurement {measured:.1} mm off by {err:.1} > {allowed:.1}"
    );
}

// ---------------------------------------------------------------------------
// Self-calibrated intrinsics.

/// Ground-truth camera: same focal as the clean-pan fixture, plus real barrel
/// distortion (division model, radius normalized by the half frame diagonal).
const FOCAL_TRUE: f64 = 700.0;
const K1_TRUE: f64 = -0.08;

/// Documented recovery tolerances.
const FOCAL_TOL_REL: f64 = 0.05;
const K1_TOL: f64 = 0.02;

/// Wall y of the straightness dot row: near the TOP edge of the camera frame
/// throughout the pan, which is where radial distortion bends geometry hardest.
const LINE_Y_MM: f64 = -40.0;

fn line_xs() -> Vec<f64> {
    (0..14).map(|i| 300.0 + 250.0 * i as f64).collect()
}

/// Measurement pairs + tracking texture, plus the straightness dot row along the
/// frame's top edge.
fn calib_dots() -> Vec<([f64; 2], f64)> {
    let mut list = pan_dots();
    for x in line_xs() {
        list.push(([x, LINE_Y_MM], 7.0));
    }
    list
}

fn calib_scene() -> Scene {
    Scene { markers: vec![marker(0, 0.0, 0.0), marker(1, B_X_MM, 0.0)], dots: calib_dots() }
}

fn calib_camera(from_x: f64, to_x: f64, yaw_amp: f64, pitch_amp: f64) -> PanCamera {
    PanCamera {
        focal_px: FOCAL_TRUE,
        width: PAN_W,
        height: PAN_H,
        distance_mm: 1400.0,
        start_center_mm: [from_x, 280.0],
        end_center_mm: [to_x, 280.0],
        yaw_amp,
        pitch_amp,
    }
}

/// Record a pan through the distorting lens.
fn record_distorted(scene: &Scene, cam: &PanCamera, frames: usize, seed: u64) -> Recorder {
    let lens = Lens::new(PAN_W, PAN_H, K1_TRUE);
    let mut core = Recorder::new(PAN_W, PAN_H);
    for (i, h) in cam.sequence(frames).iter().enumerate() {
        core.push_frame(&render_scene_distorted(
            scene,
            h,
            PAN_W,
            PAN_H,
            2.5,
            seed + i as u64,
            &lens,
        ));
    }
    core
}

/// The distorted pan processed with self-calibration and with the forced-pinhole
/// baseline. More rotation wobble than the clean-pan fixture: rotation is exactly
/// what makes the focal observable in plane-based self-calibration.
fn fixture() -> (Wall, Wall) {
    let cam = calib_camera(500.0, 3450.0, 0.06, 0.02);
    let mut core = record_distorted(&calib_scene(), &cam, 60, 1000);
    let calibrated = finish(&mut core, 1.0, true, true).expect("calibrated pan must process");
    let baseline = finish(&mut core, 1.0, true, false).expect("pinhole baseline must process");
    (calibrated, baseline)
}

/// Straightness metric: max deviation (mm) of the dot-row centroids from their own
/// least-squares line across the full wall, and how many of the row's dots could be
/// located within `radius_px` of their true wall positions; `None` when fewer than
/// 10 of 14 were found.
fn line_straightness_mm(wall: &Wall, radius_px: f64) -> Option<(f64, usize)> {
    let pts: Vec<[f64; 2]> = line_xs()
        .iter()
        .filter_map(|&x| {
            let c = dark_centroid_opt(wall, [x, LINE_Y_MM], radius_px)?;
            Some([
                wall.origin_mm[0] + c[0] * wall.mm_per_px,
                wall.origin_mm[1] + c[1] * wall.mm_per_px,
            ])
        })
        .collect();
    if pts.len() < 10 {
        return None;
    }
    // Least-squares y = a + b x; the line is near-horizontal, so the vertical
    // residual is the deviation (to first order).
    let n = pts.len() as f64;
    let mx = pts.iter().map(|p| p[0]).sum::<f64>() / n;
    let my = pts.iter().map(|p| p[1]).sum::<f64>() / n;
    let sxx: f64 = pts.iter().map(|p| (p[0] - mx).powi(2)).sum();
    let sxy: f64 = pts.iter().map(|p| (p[0] - mx) * (p[1] - my)).sum();
    let b = sxy / sxx.max(1e-12);
    let dev = pts.iter().map(|p| (p[1] - (my + b * (p[0] - mx))).abs()).fold(0.0, f64::max);
    Some((dev, pts.len()))
}

#[test]
fn calibration_recovers_known_focal_and_k1() {
    let (wall, _) = fixture();
    let calib = wall
        .out
        .plan
        .calibration
        .as_ref()
        .expect("a 60-frame wobbly pan across two markers must self-calibrate");
    let (focal_px, k1) = (f(calib.focal_px), f(calib.k1));
    let f_err = (focal_px - FOCAL_TRUE).abs() / FOCAL_TRUE;
    assert!(
        f_err <= FOCAL_TOL_REL,
        "focal {:.1} px is {:.1}% off the true {FOCAL_TRUE} px (tolerance {}%)",
        focal_px,
        f_err * 100.0,
        FOCAL_TOL_REL * 100.0
    );
    let k1_err = (k1 - K1_TRUE).abs();
    assert!(
        k1_err <= K1_TOL,
        "k1 {:.4} is {:.4} off the true {K1_TRUE} (tolerance {K1_TOL})",
        k1,
        k1_err
    );
    assert!(
        f(calib.rms_after_px) < f(calib.rms_before_px),
        "joint refinement must reduce the bundle rms"
    );
}

#[test]
fn straight_dot_row_stays_straight_to_the_frame_edges() {
    let (calibrated, baseline) = fixture();
    // Calibrated: every dot must be findable AT its true wall position (tight
    // window) and the row must be straight.
    let (dev_cal, found_cal) =
        line_straightness_mm(&calibrated, 15.0).expect("calibrated row must be measurable");
    assert_eq!(found_cal, line_xs().len(), "calibrated stitch must place every row dot");
    // Uncalibrated: a generous window, and the row may not even be measurable.
    if let Some((dev_base, _)) = line_straightness_mm(&baseline, 30.0) {
        assert!(
            dev_cal < dev_base,
            "calibration must straighten the frame-edge dot row: {dev_cal:.2} vs {dev_base:.2} mm"
        );
    }
    // Absolute criterion: straight to within the stitch's own resolution.
    assert!(dev_cal <= 3.0, "calibrated dot row still bows {dev_cal:.2} mm from straight");
}

#[test]
fn error_bound_shrinks_and_still_contains_the_true_error() {
    let (calibrated, baseline) = fixture();

    // Compare the DISTANCE bound over the same wall span for both results: the two
    // runs render different extents, so far-end scalars would compare different
    // positions.
    let span = (250.0, 3700.0);
    let cal_bound = calibrated.bound_between_mm(span.0, span.1);
    let base_bound = baseline.bound_between_mm(span.0, span.1);
    assert!(calibrated.out.plan.calibration.is_some());
    assert!(
        baseline.out.plan.calibration.is_none(),
        "forced-pinhole baseline must not calibrate"
    );
    assert!(
        cal_bound < base_bound,
        "calibration must tighten the distance bound: {cal_bound:.1} vs {base_bound:.1} mm"
    );

    // The tightened bound must still contain the true error.
    let cases = [
        ("near A", [250.0, 250.0], [250.0, 550.0], 300.0),
        ("middle", [1900.0, 250.0], [2200.0, 250.0], 300.0),
        ("near B", [3700.0, 150.0], [3700.0, 450.0], 300.0),
        (
            "full span",
            [250.0, 250.0],
            [3700.0, 150.0],
            ((3700.0f64 - 250.0).powi(2) + (150.0f64 - 250.0).powi(2)).sqrt(),
        ),
    ];
    for (name, a, b, true_mm) in cases {
        let measured = measure_mm(&calibrated, a, b, 18.0);
        let allowed = calibrated.bound_between_mm(a[0], b[0]);
        let err = (measured - true_mm).abs();
        assert!(
            err <= allowed,
            "{name}: err {err:.1} mm exceeds the calibrated bound {allowed:.1} mm"
        );
    }
}

/// A barely-moving pan cannot separate focal from pose: it must NOT claim
/// calibrated intrinsics, even though the lens genuinely is distorted.
#[test]
fn short_barely_moving_pan_refuses_to_claim_calibration() {
    let cam = calib_camera(500.0, 1020.0, 0.0, 0.0);
    let mut core = record_distorted(&calib_scene(), &cam, 30, 4000);
    let wall =
        finish(&mut core, 1.0, true, true).expect("short pan must still process open-loop");
    assert!(
        wall.out.keyframes_used <= 3,
        "fixture drift: this test needs a SHORT chain, got {} keyframes",
        wall.out.keyframes_used
    );
    assert!(
        wall.out.plan.calibration.is_none(),
        "a {}-keyframe barely-moving pan must not claim calibrated intrinsics",
        wall.out.keyframes_used
    );
}

/// Translation-only pan (zero rotation wobble, perfectly fronto-parallel): every
/// view constrains the focal identically, i.e. not at all.
#[test]
fn fronto_parallel_translation_only_pan_refuses_calibration() {
    // Denser tracking texture than the shared fixture: this test is about
    // CALIBRATION refusal, not weak links.
    let mut list = calib_dots();
    let mut x = 350.0;
    while x < 2600.0 {
        list.push(([x, 200.0], 5.0));
        list.push(([x + 60.0, 420.0], 4.0));
        x += 130.0;
    }
    let scene = Scene { markers: vec![marker(0, 0.0, 0.0), marker(1, B_X_MM, 0.0)], dots: list };
    let cam = calib_camera(400.0, 2200.0, 0.0, 0.0);
    let mut core = record_distorted(&scene, &cam, 60, 5000);
    let wall = finish(&mut core, 1.0, true, true).expect("translation pan must process");
    assert!(wall.out.keyframes_used >= 4, "fixture drift: expected a longer chain");
    assert!(
        wall.out.plan.calibration.is_none(),
        "a rotation-free fronto-parallel chain must not claim a focal"
    );
}
