//! 3x3 matrices of doubles, row-major.
use vstd::prelude::*;

use crate::double;
use crate::double::Double;

verus! {

/// A 3x3 matrix, row-major.
pub type Mat3 = [Double; 9];

/// How small a determinant, relative to the cube of the matrix's scale, counts
/// as zero: the bits of 1e-13.
pub const SINGULAR: u64 = 0x3d3c_25c2_6849_7682;

/// The bits of 1.0.
pub const ONE: u64 = 0x3ff0_0000_0000_0000;

/// Row `r` of `a` times column `c` of `b`.
pub open spec fn row_times_column(a: Mat3, b: Mat3, r: int, c: int) -> Double {
    a[3 * r] * b[c] + a[3 * r + 1] * b[3 + c] + a[3 * r + 2] * b[6 + c]
}

/// The matrix product.
pub open spec fn mat_product(a: Mat3, b: Mat3) -> Mat3 {
    [
        row_times_column(a, b, 0, 0),
        row_times_column(a, b, 0, 1),
        row_times_column(a, b, 0, 2),
        row_times_column(a, b, 1, 0),
        row_times_column(a, b, 1, 1),
        row_times_column(a, b, 1, 2),
        row_times_column(a, b, 2, 0),
        row_times_column(a, b, 2, 1),
        row_times_column(a, b, 2, 2),
    ]
}

fn entry(a: &Mat3, b: &Mat3, r: usize, c: usize) -> (v: Double)
    requires
        r < 3,
        c < 3,
    ensures
        v == row_times_column(*a, *b, r as int, c as int),
{
    a[3 * r] * b[c] + a[3 * r + 1] * b[3 + c] + a[3 * r + 2] * b[6 + c]
}

/// Multiply two 3x3 row-major matrices.
pub fn mat3_mul(a: &Mat3, b: &Mat3) -> (m: Mat3)
    ensures
        m == mat_product(*a, *b),
{
    [
        entry(a, b, 0, 0),
        entry(a, b, 0, 1),
        entry(a, b, 0, 2),
        entry(a, b, 1, 0),
        entry(a, b, 1, 1),
        entry(a, b, 1, 2),
        entry(a, b, 2, 0),
        entry(a, b, 2, 1),
        entry(a, b, 2, 2),
    ]
}

/// Largest magnitude among the first `n` entries.
pub open spec fn scale_upto(m: Mat3, n: int) -> Double
    decreases n,
{
    if n <= 0 {
        Double { bits: 0 }
    } else {
        double::larger(scale_upto(m, n - 1), m[n - 1].size())
    }
}

/// Largest magnitude of a matrix's entries.
pub open spec fn scale_of(m: Mat3) -> Double {
    scale_upto(m, 9)
}

/// Largest magnitude of a matrix's entries.
pub fn mat3_scale(m: &Mat3) -> (s: Double)
    ensures
        s == scale_of(*m),
{
    let mut s: Double = Double::from_bits(0);
    let mut i: usize = 0;
    while i < 9
        invariant
            i <= 9,
            s == scale_upto(*m, i as int),
        decreases 9 - i,
    {
        s = s.max(&m[i].abs());
        i = i + 1;
    }
    s
}

/// Cofactors of the first row.
pub open spec fn cofactor(m: Mat3, c: int) -> Double {
    if c == 0 {
        m[4] * m[8] - m[5] * m[7]
    } else if c == 1 {
        m[5] * m[6] - m[3] * m[8]
    } else {
        m[3] * m[7] - m[4] * m[6]
    }
}

pub open spec fn determinant(m: Mat3) -> Double {
    m[0] * cofactor(m, 0) + m[1] * cofactor(m, 1) + m[2] * cofactor(m, 2)
}

/// The determinant vanishes relative to the matrix's own scale, so that the test
/// works for homographies in either px or mm units.
pub open spec fn is_singular(m: Mat3) -> bool {
    let s = scale_of(m);
    s.same(Double { bits: 0 }) || determinant(m).size().less(
        Double { bits: SINGULAR } * s * s * s,
    )
}

/// The inverse by way of the adjugate.
pub open spec fn adjugate_inverse(m: Mat3) -> Mat3 {
    let k = Double { bits: ONE }.per(determinant(m));
    [
        cofactor(m, 0) * k,
        (m[2] * m[7] - m[1] * m[8]) * k,
        (m[1] * m[5] - m[2] * m[4]) * k,
        cofactor(m, 1) * k,
        (m[0] * m[8] - m[2] * m[6]) * k,
        (m[2] * m[3] - m[0] * m[5]) * k,
        cofactor(m, 2) * k,
        (m[1] * m[6] - m[0] * m[7]) * k,
        (m[0] * m[4] - m[1] * m[3]) * k,
    ]
}

/// The inverse of a matrix, if it is not singular.
pub open spec fn inverse_of(m: Mat3) -> Option<Mat3> {
    if is_singular(m) {
        None
    } else {
        Some(adjugate_inverse(m))
    }
}

/// Inverse of a 3x3 row-major matrix via the adjugate, or `None` if singular.
pub fn mat3_inv(m: &Mat3) -> (inv: Option<Mat3>)
    ensures
        inv == inverse_of(*m),
{
    let c00: Double = m[4] * m[8] - m[5] * m[7];
    let c01: Double = m[5] * m[6] - m[3] * m[8];
    let c02: Double = m[3] * m[7] - m[4] * m[6];
    let det: Double = m[0] * c00 + m[1] * c01 + m[2] * c02;
    let s: Double = mat3_scale(m);
    if s.equals(&Double::from_bits(0)) || det.abs().lt(
        &(Double::from_bits(SINGULAR) * s * s * s),
    ) {
        return None;
    }
    let k: Double = Double::from_bits(ONE) / det;
    Some(
        [
            c00 * k,
            (m[2] * m[7] - m[1] * m[8]) * k,
            (m[1] * m[5] - m[2] * m[4]) * k,
            c01 * k,
            (m[0] * m[8] - m[2] * m[6]) * k,
            (m[2] * m[3] - m[0] * m[5]) * k,
            c02 * k,
            (m[1] * m[6] - m[0] * m[7]) * k,
            (m[0] * m[4] - m[1] * m[3]) * k,
        ],
    )
}

} // verus!
