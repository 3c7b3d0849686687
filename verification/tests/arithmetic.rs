//! Doubles held as bits agree with native doubles.
use geometry_core::double::Double;
use geometry_core::lcg::Lcg;
use geometry_core::linalg::{mat3_inv, mat3_mul, mat3_scale};
use geometry_core::sorting::sort_by_key;

fn d(v: f64) -> Double {
    Double::from_bits(v.to_bits())
}

fn f(v: Double) -> f64 {
    f64::from_bits(v.bits)
}

/// The same number: NaN is NaN, and zeros keep their signs.
fn same(a: Double, b: f64) -> bool {
    (f(a).is_nan() && b.is_nan()) || a.bits == b.to_bits()
}

const EDGES: [f64; 20] = [
    0.0,
    -0.0,
    1.0,
    -1.0,
    0.1,
    -2.5,
    3.0,
    1e300,
    -1e300,
    1e-300,
    5e-324,
    -5e-324,
    2.2250738585072014e-308,
    2.225073858507201e-308,
    f64::MAX,
    f64::MIN,
    f64::INFINITY,
    f64::NEG_INFINITY,
    f64::NAN,
    9007199254740993.0,
];

fn check_pair(a: f64, b: f64) {
    assert!(same(d(a) + d(b), a + b), "{a:e} + {b:e}");
    assert!(same(d(a) - d(b), a - b), "{a:e} - {b:e}");
    assert!(same(d(a) * d(b), a * b), "{a:e} * {b:e}");
    assert!(same(d(a) / d(b), a / b), "{a:e} / {b:e}");
    assert_eq!(d(a).lt(&d(b)), a < b, "{a:e} < {b:e}");
    assert_eq!(d(a).le(&d(b)), a <= b, "{a:e} <= {b:e}");
    assert_eq!(d(a).equals(&d(b)), a == b, "{a:e} == {b:e}");
    assert!(f(d(a).max(&d(b))) == a.max(b) || (a.is_nan() && b.is_nan()), "{a:e} max {b:e}");
    assert!(f(d(a).min(&d(b))) == a.min(b) || (a.is_nan() && b.is_nan()), "{a:e} min {b:e}");
}

#[test]
fn edge_values_compute_like_native_doubles() {
    for a in EDGES {
        for b in EDGES {
            check_pair(a, b);
        }
        assert!(same(d(a).sqrt(), a.sqrt()), "sqrt {a:e}");
        assert!(same(d(a).abs(), a.abs()));
        assert!(same(d(a).negate(), -a));
        assert_eq!(d(a).is_nan(), a.is_nan());
        assert_eq!(d(a).is_finite(), a.is_finite());
    }
}

#[test]
fn random_values_compute_like_native_doubles() {
    let mut state: u64 = 7;
    let mut next = || {
        state = state.wrapping_mul(6364136223846793005).wrapping_add(1442695040888963407);
        state ^ (state >> 29)
    };
    for _ in 0..20000 {
        let (a, b) = (f64::from_bits(next()), f64::from_bits(next()));
        check_pair(a, b);
        assert!(same(d(a).sqrt(), a.sqrt()), "sqrt {a:e}");
        // Near magnitudes exercise cancellation and rounding.
        let c = f64::from_bits(a.to_bits() ^ (next() & 0x000f_ffff_ffff_ffff));
        check_pair(a, c);
    }
}

#[test]
fn counts_convert_like_native_doubles() {
    for n in [0u64, 1, 2, 3, 640, 4096, (1 << 53) - 1, 1 << 52] {
        assert!(same(Double::from_count(n), n as f64));
    }
}

#[test]
fn generator_draws_the_documented_indices() {
    let mut rng = Lcg(0x5EA_1157);
    let mut state: u64 = 0x5EA_1157;
    for n in [4usize, 7, 150, 1] {
        state = state.wrapping_mul(6364136223846793005).wrapping_add(1442695040888963407);
        assert_eq!(rng.next_below(n), ((state >> 33) as usize) % n);
        assert_eq!(rng.0, state);
    }
}

#[test]
fn matrices_multiply_and_invert_like_native_doubles() {
    let a = [2.0, 0.5, 1.0, -1.0, 3.0, 0.25, 0.1, 1.0, 4.0];
    let b = [1.0, 2.0, 3.0, 0.0, 1.0, 4.0, 5.0, 6.0, 0.0];
    let product = mat3_mul(&a.map(d), &b.map(d));
    for r in 0..3 {
        for c in 0..3 {
            let want = a[r * 3] * b[c] + a[r * 3 + 1] * b[3 + c] + a[r * 3 + 2] * b[6 + c];
            assert_eq!(f(product[r * 3 + c]), want);
        }
    }
    assert_eq!(f(mat3_scale(&a.map(d))), 4.0);
    // The inverse of this one is exact.
    let inv = mat3_inv(&b.map(d)).unwrap();
    assert_eq!(inv.map(f), [-24.0, 18.0, 5.0, 20.0, -15.0, -4.0, -5.0, 4.0, 1.0]);
    // Rank two is singular, whatever its scale.
    assert!(mat3_inv(&[1e6, 2e6, 3e6, 4e6, 5e6, 6e6, 7e6, 8e6, 9e6].map(d)).is_none());
}

#[test]
fn sorting_is_stable_and_keeps_every_item() {
    let items = vec![(d(3.0), 'a'), (d(-1.0), 'b'), (d(3.0), 'c'), (d(0.0), 'd'), (d(-1.0), 'e')];
    let sorted: Vec<(f64, char)> =
        sort_by_key(&items).into_iter().map(|(k, v)| (f(k), v)).collect();
    assert_eq!(sorted, vec![(-1.0, 'b'), (-1.0, 'e'), (0.0, 'd'), (3.0, 'a'), (3.0, 'c')]);
}
