//! Rotations as axis-angle vectors and as matrices, and the map from a camera
//! pose to the homography of the wall. Sine, cosine and arc cosine are the
//! caller's.
use vstd::prelude::*;

use crate::closure;
use crate::closure::clamp;
use crate::double::Double;
use crate::edge::Point;
use crate::homography;
use crate::linalg::Mat3;

verus! {

/// A vector in space.
pub type Vec3 = [Double; 3];

/// Angle, length or weight that counts as zero: the bits of 1e-12.
pub const TINY: u64 = 0x3d71_9799_812d_ea11;

/// Sine of an angle that counts as zero: the bits of 1e-9.
pub const TINY_SINE: u64 = 0x3e11_2e0b_e826_d695;

/// Where a point at infinity is put, in both coordinates: the bits of 1e6.
pub const FAR_AWAY: u64 = 0x412e_8480_0000_0000;

/// The bits of 1.0.
pub const ONE: u64 = 0x3ff0_0000_0000_0000;

/// The bits of 2.0.
pub const TWO: u64 = 0x4000_0000_0000_0000;

/// The bits of -1.0.
pub const MINUS_ONE: u64 = 0xbff0_0000_0000_0000;

/// Trigonometry, as functions.
pub struct Trig {
    pub sin_cos: spec_fn(Double) -> (Double, Double),
    pub acos: spec_fn(Double) -> Double,
}

/// `sin_cos` and `acos` answer every question.
pub open spec fn are_curves<SinCos: Fn(Double) -> (Double, Double), Acos: Fn(Double) -> Double>(
    sin_cos: &SinCos,
    acos: &Acos,
) -> bool {
    &&& forall|a: Double| call_requires(sin_cos, (a,))
    &&& forall|a: Double| call_requires(acos, (a,))
}

/// `sin_cos` computes sine and cosine as `t` has them.
pub open spec fn is_sine<SinCos: Fn(Double) -> (Double, Double)>(
    sin_cos: &SinCos,
    t: Trig,
) -> bool {
    forall|a: Double, r: (Double, Double)| #[trigger]
        call_ensures(sin_cos, (a,), r) ==> r == (t.sin_cos)(a)
}

/// `acos` computes the arc cosine as `t` has it.
pub open spec fn is_arc<Acos: Fn(Double) -> Double>(acos: &Acos, t: Trig) -> bool {
    forall|a: Double, r: Double| #[trigger] call_ensures(acos, (a,), r) ==> r == (t.acos)(a)
}

/// The product of two vectors.
pub open spec fn inner(a: Vec3, b: Vec3) -> Double {
    a[0] * b[0] + a[1] * b[1] + a[2] * b[2]
}

/// The length of a vector.
pub open spec fn length(v: Vec3) -> Double {
    inner(v, v).root()
}

/// Rotation about a unit axis, given the sine and cosine of the angle.
pub open spec fn turned(axis: Vec3, s: Double, c: Double) -> Mat3 {
    let (x, y, z) = (axis[0], axis[1], axis[2]);
    let c1 = Double { bits: ONE } - c;
    [
        c + x * x * c1,
        x * y * c1 - z * s,
        x * z * c1 + y * s,
        y * x * c1 + z * s,
        c + y * y * c1,
        y * z * c1 - x * s,
        z * x * c1 - y * s,
        z * y * c1 + x * s,
        c + z * z * c1,
    ]
}

/// The rotation by an axis-angle vector, to first order where the angle is tiny.
pub open spec fn rotation_by(t: Trig, r: Vec3) -> Mat3 {
    let th = length(r);
    let one = Double { bits: ONE };
    if th.less(Double { bits: TINY }) {
        [one, r[2].opposite(), r[1], r[2], one, r[0].opposite(), r[1].opposite(), r[0], one]
    } else {
        let (s, c) = (t.sin_cos)(th);
        turned([r[0].per(th), r[1].per(th), r[2].per(th)], s, c)
    }
}

/// Rodrigues: axis-angle (the angle is the length) to a row-major rotation
/// matrix.
pub fn rodrigues<SinCos: Fn(Double) -> (Double, Double)>(sin_cos: &SinCos, r: &Vec3) -> (m: Mat3)
    requires
        forall|a: Double| call_requires(sin_cos, (a,)),
    ensures
        forall|t: Trig| #[trigger] is_sine(sin_cos, t) ==> m == rotation_by(t, *r),
{
    let th: Double = (r[0] * r[0] + r[1] * r[1] + r[2] * r[2]).sqrt();
    let one: Double = Double::from_bits(ONE);
    if th.lt(&Double::from_bits(TINY)) {
        return [one, r[2].negate(), r[1], r[2], one, r[0].negate(), r[1].negate(), r[0], one];
    }
    let sc: (Double, Double) = sin_cos(th);
    proof {
        assert(call_ensures(sin_cos, (th,), sc));
    }
    let (s, c) = sc;
    let x: Double = r[0] / th;
    let y: Double = r[1] / th;
    let z: Double = r[2] / th;
    let c1: Double = one - c;
    [
        c + x * x * c1,
        x * y * c1 - z * s,
        x * z * c1 + y * s,
        y * x * c1 + z * s,
        c + y * y * c1,
        y * z * c1 - x * s,
        z * x * c1 - y * s,
        z * y * c1 + x * s,
        c + z * z * c1,
    ]
}

/// The cosine of a rotation's angle.
pub open spec fn cosine_of(m: Mat3) -> Double {
    closure::clamped(
        (m[0] + m[4] + m[8] - Double { bits: ONE }).per(Double { bits: TWO }),
        Double { bits: MINUS_ONE },
        Double { bits: ONE },
    )
}

/// The axis-angle vector of a rotation.
pub open spec fn axis_angle(t: Trig, m: Mat3) -> Vec3 {
    let cos = cosine_of(m);
    let sin = (Double { bits: ONE } - cos * cos).root();
    let two = Double { bits: TWO };
    let v = [m[7] - m[5], m[2] - m[6], m[3] - m[1]];
    if sin.less(Double { bits: TINY_SINE }) {
        [v[0].per(two), v[1].per(two), v[2].per(two)]
    } else {
        let s = (t.acos)(cos).per(two * sin);
        [v[0] * s, v[1] * s, v[2] * s]
    }
}

/// Inverse Rodrigues, for rotations well below a half turn.
pub fn rodrigues_inv<Acos: Fn(Double) -> Double>(acos: &Acos, m: &Mat3) -> (r: Vec3)
    requires
        forall|a: Double| call_requires(acos, (a,)),
    ensures
        forall|t: Trig| #[trigger] is_arc(acos, t) ==> r == axis_angle(t, *m),
{
    let one: Double = Double::from_bits(ONE);
    let two: Double = Double::from_bits(TWO);
    let cos: Double = clamp((m[0] + m[4] + m[8] - one) / two, Double::from_bits(MINUS_ONE), one);
    let th: Double = acos(cos);
    proof {
        assert(call_ensures(acos, (cos,), th));
    }
    let v: Vec3 = [m[7] - m[5], m[2] - m[6], m[3] - m[1]];
    let sin: Double = (one - cos * cos).sqrt();
    if sin.lt(&Double::from_bits(TINY_SINE)) {
        return [v[0] / two, v[1] / two, v[2] / two];
    }
    let s: Double = th / (two * sin);
    [v[0] * s, v[1] * s, v[2] * s]
}

/// A row of a matrix.
pub open spec fn row_of(m: Mat3, i: int) -> Vec3 {
    [m[3 * i], m[3 * i + 1], m[3 * i + 2]]
}

/// The homography of a camera with this rotation and centre.
pub open spec fn pose_matrix(f: Double, cx: Double, cy: Double, r: Mat3, c: Vec3) -> Mat3 {
    let t0 = inner(row_of(r, 0), c).opposite();
    let t1 = inner(row_of(r, 1), c).opposite();
    let t2 = inner(row_of(r, 2), c).opposite();
    [
        f * r[0] + cx * r[6],
        f * r[1] + cx * r[7],
        f * t0 + cx * t2,
        f * r[3] + cy * r[6],
        f * r[4] + cy * r[7],
        f * t1 + cy * t2,
        r[6],
        r[7],
        t2,
    ]
}

/// Wall (mm, z = 0) -> ideal px homography of a camera with focal `f`, principal
/// point (cx, cy), rotation `rvec` (axis-angle) and centre `c` (wall frame mm,
/// negative z in front of the wall).
pub fn pose_h<SinCos: Fn(Double) -> (Double, Double)>(
    sin_cos: &SinCos,
    f: &Double,
    cx: &Double,
    cy: &Double,
    rvec: &Vec3,
    c: &Vec3,
) -> (h: Mat3)
    requires
        forall|a: Double| call_requires(sin_cos, (a,)),
    ensures
        forall|t: Trig| #[trigger]
            is_sine(sin_cos, t) ==> h == pose_matrix(*f, *cx, *cy, rotation_by(t, *rvec), *c),
{
    let r: Mat3 = rodrigues(sin_cos, rvec);
    let t0: Double = (r[0] * c[0] + r[1] * c[1] + r[2] * c[2]).negate();
    let t1: Double = (r[3] * c[0] + r[4] * c[1] + r[5] * c[2]).negate();
    let t2: Double = (r[6] * c[0] + r[7] * c[1] + r[8] * c[2]).negate();
    [
        *f * r[0] + *cx * r[6],
        *f * r[1] + *cx * r[7],
        *f * t0 + *cx * t2,
        *f * r[3] + *cy * r[6],
        *f * r[4] + *cy * r[7],
        *f * t1 + *cy * t2,
        r[6],
        r[7],
        t2,
    ]
}

/// Where a homography puts a point; far away, if at infinity.
pub open spec fn projected(h: Mat3, x: Double, y: Double) -> Point {
    let w = homography::weight(h, x, y);
    if w.size().less(Double { bits: TINY }) {
        [Double { bits: FAR_AWAY }, Double { bits: FAR_AWAY }]
    } else {
        [(h[0] * x + h[1] * y + h[2]).per(w), (h[3] * x + h[4] * y + h[5]).per(w)]
    }
}

/// Project through a homography. A point at infinity is put far away, so that a
/// residual there is large, and still a number.
pub fn project(h: &Mat3, x: Double, y: Double) -> (p: Point)
    ensures
        p == projected(*h, x, y),
{
    let w: Double = h[6] * x + h[7] * y + h[8];
    if w.abs().lt(&Double::from_bits(TINY)) {
        return [Double::from_bits(FAR_AWAY), Double::from_bits(FAR_AWAY)];
    }
    [(h[0] * x + h[1] * y + h[2]) / w, (h[3] * x + h[4] * y + h[5]) / w]
}

/// A homography seen from a camera with unit focal and the principal point at
/// the origin.
pub open spec fn unprojected(w: Mat3, f: Double, cx: Double, cy: Double) -> Mat3 {
    [
        (w[0] - cx * w[6]).per(f),
        (w[1] - cx * w[7]).per(f),
        (w[2] - cx * w[8]).per(f),
        (w[3] - cy * w[6]).per(f),
        (w[4] - cy * w[7]).per(f),
        (w[5] - cy * w[8]).per(f),
        w[6],
        w[7],
        w[8],
    ]
}

/// A column of a matrix.
pub open spec fn column_of(m: Mat3, j: int) -> Vec3 {
    [m[j], m[j + 3], m[j + 6]]
}

/// A vector times a number.
pub open spec fn stretched(k: Double, v: Vec3) -> Vec3 {
    [k * v[0], k * v[1], k * v[2]]
}

/// A vector of length 1 in the direction of `v`.
pub open spec fn unit_of(v: Vec3) -> Option<Vec3> {
    let n = length(v);
    if n.less(Double { bits: TINY }) {
        None
    } else {
        Some([v[0].per(n), v[1].per(n), v[2].per(n)])
    }
}

/// What is left of `v` once its part along a unit vector is taken off.
pub open spec fn across(v: Vec3, unit: Vec3) -> Vec3 {
    let d = inner(v, unit);
    [v[0] - d * unit[0], v[1] - d * unit[1], v[2] - d * unit[2]]
}

/// The vector product.
pub open spec fn outer(a: Vec3, b: Vec3) -> Vec3 {
    [a[1] * b[2] - a[2] * b[1], a[2] * b[0] - a[0] * b[2], a[0] * b[1] - a[1] * b[0]]
}

/// The matrix with these columns.
pub open spec fn with_columns(a: Vec3, b: Vec3, c: Vec3) -> Mat3 {
    [a[0], b[0], c[0], a[1], b[1], c[1], a[2], b[2], c[2]]
}

/// What brings the first two columns of `m` to length 1 on average, with the
/// wall's origin in front of the camera.
pub open spec fn depth_scale(m: Mat3) -> Option<Double> {
    let n1 = length(column_of(m, 0));
    let n2 = length(column_of(m, 1));
    if !(n1.finite() && n2.finite()) || (n1 + n2).less(Double { bits: TINY }) {
        None
    } else {
        let k = Double { bits: TWO }.per(n1 + n2);
        if (k * m[8]).less(Double { bits: 0 }) {
            Some(k.opposite())
        } else {
            Some(k)
        }
    }
}

/// The rotation whose first two columns are those of `m`, orthonormalized.
pub open spec fn orthonormal(m: Mat3, k: Double) -> Option<Mat3> {
    match unit_of(stretched(k, column_of(m, 0))) {
        None => None,
        Some(a) => match unit_of(across(stretched(k, column_of(m, 1)), a)) {
            None => None,
            Some(b) => Some(with_columns(a, b, outer(a, b))),
        },
    }
}

/// The rotation and the camera centre that a homography stands for.
pub open spec fn decomposed(t: Trig, w: Mat3, f: Double, cx: Double, cy: Double) -> Option<
    (Vec3, Vec3),
> {
    let m = unprojected(w, f, cx, cy);
    match depth_scale(m) {
        None => None,
        Some(k) => match orthonormal(m, k) {
            None => None,
            Some(r) => {
                let d = stretched(k, column_of(m, 2));
                Some(
                    (
                        axis_angle(t, r),
                        [
                            inner(column_of(r, 0), d).opposite(),
                            inner(column_of(r, 1), d).opposite(),
                            inner(column_of(r, 2), d).opposite(),
                        ],
                    ),
                )
            },
        },
    }
}

fn normalize(v: &Vec3) -> (u: Option<Vec3>)
    ensures
        u == unit_of(*v),
{
    let n: Double = (v[0] * v[0] + v[1] * v[1] + v[2] * v[2]).sqrt();
    if n.lt(&Double::from_bits(TINY)) {
        return None;
    }
    Some([v[0] / n, v[1] / n, v[2] / n])
}

fn unproject(w: &Mat3, f: &Double, cx: &Double, cy: &Double) -> (m: Mat3)
    ensures
        m == unprojected(*w, *f, *cx, *cy),
{
    [
        (w[0] - *cx * w[6]) / *f,
        (w[1] - *cx * w[7]) / *f,
        (w[2] - *cx * w[8]) / *f,
        (w[3] - *cy * w[6]) / *f,
        (w[4] - *cy * w[7]) / *f,
        (w[5] - *cy * w[8]) / *f,
        w[6],
        w[7],
        w[8],
    ]
}

fn find_scale(m: &Mat3) -> (k: Option<Double>)
    ensures
        k == depth_scale(*m),
{
    let n1: Double = (m[0] * m[0] + m[3] * m[3] + m[6] * m[6]).sqrt();
    let n2: Double = (m[1] * m[1] + m[4] * m[4] + m[7] * m[7]).sqrt();
    if !(n1.is_finite() && n2.is_finite()) || (n1 + n2).lt(&Double::from_bits(TINY)) {
        return None;
    }
    let k: Double = Double::from_bits(TWO) / (n1 + n2);
    if (k * m[8]).lt(&Double::from_bits(0)) {
        Some(k.negate())
    } else {
        Some(k)
    }
}

fn orthonormalize(m: &Mat3, k: &Double) -> (r: Option<Mat3>)
    ensures
        r == orthonormal(*m, *k),
{
    let a: Vec3 = match normalize(&[*k * m[0], *k * m[3], *k * m[6]]) {
        None => {
            return None;
        },
        Some(a) => a,
    };
    let r2: Vec3 = [*k * m[1], *k * m[4], *k * m[7]];
    let d: Double = r2[0] * a[0] + r2[1] * a[1] + r2[2] * a[2];
    let b: Vec3 = match normalize(&[r2[0] - d * a[0], r2[1] - d * a[1], r2[2] - d * a[2]]) {
        None => {
            return None;
        },
        Some(b) => b,
    };
    let c: Vec3 = [
        a[1] * b[2] - a[2] * b[1],
        a[2] * b[0] - a[0] * b[2],
        a[0] * b[1] - a[1] * b[0],
    ];
    Some([a[0], b[0], c[0], a[1], b[1], c[1], a[2], b[2], c[2]])
}

/// Decompose a wall->px homography into an axis-angle rotation and a camera
/// centre, given a focal.
pub fn decompose_pose<Acos: Fn(Double) -> Double>(
    acos: &Acos,
    w: &Mat3,
    f: &Double,
    cx: &Double,
    cy: &Double,
) -> (pose: Option<(Vec3, Vec3)>)
    requires
        forall|a: Double| call_requires(acos, (a,)),
    ensures
        forall|t: Trig| #[trigger] is_arc(acos, t) ==> pose == decomposed(t, *w, *f, *cx, *cy),
{
    let m: Mat3 = unproject(w, f, cx, cy);
    let k: Double = match find_scale(&m) {
        None => {
            return None;
        },
        Some(k) => k,
    };
    let r: Mat3 = match orthonormalize(&m, &k) {
        None => {
            return None;
        },
        Some(r) => r,
    };
    let d: Vec3 = [k * m[2], k * m[5], k * m[8]];
    let c: Vec3 = [
        (r[0] * d[0] + r[3] * d[1] + r[6] * d[2]).negate(),
        (r[1] * d[0] + r[4] * d[1] + r[7] * d[2]).negate(),
        (r[2] * d[0] + r[5] * d[1] + r[8] * d[2]).negate(),
    ];
    Some((rodrigues_inv(acos, &r), c))
}

} // verus!
