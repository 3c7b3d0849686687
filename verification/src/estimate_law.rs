//! What an estimate reports of itself: how far off it is, at worst and on the whole, and
//! which points it stands on.
use vstd::prelude::*;

use crate::double;
use crate::double::Double;
use crate::fit_error;
use crate::homography;
use crate::order;
use crate::ordinary;
use crate::ransac;
use crate::rounding;

verus! {

/// The largest residual is one of the residuals, and none is larger; without any it is
/// none.
pub proof fn law_worst_residual_is_the_largest(values: Seq<Double>, n: int)
    requires
        0 <= n <= values.len(),
        forall|i: int| 0 <= i < values.len() ==> order::is_amount(#[trigger] values[i]),
    ensures
        ({
            let m = homography::peak_of(values, n);
            &&& order::is_amount(m)
            &&& forall|i: int| 0 <= i < n ==> (#[trigger] values[i]).at_most(m)
            &&& m == (Double { bits: 0 }) || exists|i: int|
                0 <= i < n && m == #[trigger] values[i]
        }),
    decreases n,
{
    if n > 0 {
        law_worst_residual_is_the_largest(values, n - 1);
        let (m, v) = (homography::peak_of(values, n - 1), values[n - 1]);
        assert(order::is_amount(v));
        order::lemma_amounts_are_ordered(m, v);
        order::lemma_amounts_are_ordered(v, m);
        assert forall|i: int| 0 <= i < n implies (#[trigger] values[i]).at_most(
            homography::peak_of(values, n),
        ) by {
            assert(order::is_amount(values[i]));
            order::lemma_amounts_are_ordered(values[i], m);
            order::lemma_amounts_are_ordered(values[i], v);
            order::lemma_amounts_are_ordered(values[i], homography::peak_of(values, n));
        }
        if homography::peak_of(values, n) == v {
            assert(homography::peak_of(values, n) == values[n - 1]);
        }
    }
}

/// The exact sum of the squares of the first `n` values.
pub open spec fn exact_squares(values: Seq<Double>, n: int) -> real
    decreases n,
{
    if n <= 0 {
        0real
    } else {
        exact_squares(values, n - 1) + rounding::real_of(values[n - 1]) * rounding::real_of(
            values[n - 1],
        )
    }
}

proof fn lemma_squares_grow(values: Seq<Double>, m: int, n: int)
    requires
        0 <= m <= n,
    ensures
        0real <= exact_squares(values, m) <= exact_squares(values, n),
    decreases n,
{
    if n > 0 {
        let v = rounding::real_of(values[n - 1]);
        assert(v * v >= 0real) by (nonlinear_arith);
        if m < n {
            lemma_squares_grow(values, m, n - 1);
        } else {
            lemma_squares_grow(values, n - 1, n - 1);
        }
    }
}

proof fn lemma_square_sum(values: Seq<Double>, n: int)
    requires
        0 <= n <= values.len(),
        n <= 100000,
        forall|i: int| 0 <= i < values.len() ==> (#[trigger] values[i]).finite(),
        exact_squares(values, n) <= 100000000real,
    ensures
        homography::square_sum(values, n).finite(),
        rounding::within(
            rounding::real_of(homography::square_sum(values, n)),
            exact_squares(values, n),
            (n as real) * (3real / 1000000real),
        ),
    decreases n,
{
    rounding::lemma_constants();
    if n > 0 {
        lemma_squares_grow(values, n - 1, n);
        lemma_square_sum(values, n - 1);
        let v = values[n - 1];
        assert(v.finite());
        let x = rounding::real_of(v);
        assert(x * x >= 0real) by (nonlinear_arith);
        lemma_squares_grow(values, 0, n - 1);
        ordinary::lemma_times(v, v);
        let s = homography::square_sum(values, n - 1);
        ordinary::lemma_plus(s, v * v);
        assert((n as real) * (3real / 1000000real) == ((n - 1) as real) * (3real / 1000000real)
            + 3real / 1000000real) by (nonlinear_arith);
    } else {
        assert((n as real) * (3real / 1000000real) == 0real) by (nonlinear_arith)
            requires
                n == 0,
        ;
    }
}

/// The overall error of an estimate is the root of the mean of the squared residuals.
pub proof fn law_rms_is_the_root_of_the_mean_square(values: Seq<Double>)
    requires
        0 < values.len() <= 100000,
        forall|i: int| 0 <= i < values.len() ==> (#[trigger] values[i]).finite(),
        exact_squares(values, values.len() as int) <= 100000000real,
        exact_squares(values, values.len() as int) >= values.len() as real / 1000real,
    ensures
        ({
            let r = homography::rms_of(values);
            let n = values.len() as real;
            &&& r.finite()
            &&& rounding::real_of(r) >= 0real
            &&& rounding::within(
                rounding::real_of(r) * rounding::real_of(r) * n,
                exact_squares(values, values.len() as int),
                n / 10000real,
            )
        }),
{
    let k = values.len() as int;
    lemma_square_sum(values, k);
    let s = homography::square_sum(values, k);
    double::lemma_whole(k);
    rounding::lemma_whole_real(double::whole(k), k);
    ordinary::lemma_over(s, double::whole(k));
    let q = s.per(double::whole(k));
    let (x, n) = (rounding::real_of(q), k as real);
    let t = (k as real) * (3real / 1000000real);
    assert(t == 3real * n / 1000000real) by (nonlinear_arith)
        requires
            t == n * (3real / 1000000real),
    ;
    if x < 0real {
        assert(x * n <= 0real) by (nonlinear_arith)
            requires
                x < 0real,
                n >= 1real,
        ;
    }
    rounding::lemma_root(q);
    rounding::lemma_units_are_small();
    let u = rounding::unit();
    let r = rounding::real_of(homography::rms_of(values));
    let rr = r * r;
    let e = rr - x;
    let b = 2real * u * x;
    fit_error::lemma_size_product(e, n);
    let se = rounding::size(e);
    fit_error::lemma_scale_both(se, b, n);
    let xn = x * n;
    assert(b * n == 2real * u * xn) by (nonlinear_arith)
        requires
            b == 2real * u * x,
            xn == x * n,
    ;
    assert(2real * u * xn <= xn / 100000000000000real && xn >= 0real) by (nonlinear_arith)
        requires
            xn == x * n,
            x >= 0real,
            n >= 1real,
            u * 4503599627370496real == 1real,
            u > 0real,
    ;
    assert(rr * n == xn + e * n) by (nonlinear_arith)
        requires
            e == rr - x,
            xn == x * n,
    ;
}

/// A sample never holds a point twice.
pub proof fn law_samples_hold_no_point_twice(d: Seq<int>)
    ensures
        ransac::distinct(d).no_duplicates(),
        ransac::distinct(d).len() <= d.len(),
        forall|i: int| d.contains(i) <==> ransac::distinct(d).contains(i),
    decreases d.len(),
{
    let out = ransac::distinct(d);
    if d.len() > 0 {
        let front = d.drop_last();
        law_samples_hold_no_point_twice(front);
        let before = ransac::distinct(front);
        assert(d =~= front.push(d.last()));
        assert forall|i: int| d.contains(i) <==> out.contains(i) by {
            if d.contains(i) {
                if i == d.last() {
                    if !before.contains(i) {
                        assert(out[out.len() - 1] == i);
                    }
                } else {
                    let k = choose|k: int| 0 <= k < d.len() && d[k] == i;
                    assert(front[k] == i);
                    assert(front.contains(i));
                    let m = choose|m: int| 0 <= m < before.len() && before[m] == i;
                    assert(out[m] == i);
                }
            }
            if out.contains(i) {
                let m = choose|m: int| 0 <= m < out.len() && out[m] == i;
                if m < before.len() {
                    assert(before[m] == i);
                    assert(before.contains(i));
                    assert(front.contains(i));
                    let k = choose|k: int| 0 <= k < front.len() && front[k] == i;
                    assert(d[k] == i);
                } else {
                    assert(d[d.len() - 1] == i);
                }
            }
        }
    } else {
        assert forall|i: int| d.contains(i) <==> out.contains(i) by {}
    }
}

/// The inliers are listed in order, each once, and no other point is.
pub proof fn law_inliers_are_listed_in_order(mask: Seq<bool>, n: int)
    requires
        0 <= n <= mask.len(),
        n <= usize::MAX,
    ensures
        ({
            let list = homography::indices_upto(mask, n);
            &&& list.len() == ransac::inliers_among(mask, n)
            &&& forall|i: int, j: int|
                0 <= i < j < list.len() ==> #[trigger] list[i] < #[trigger] list[j]
            &&& forall|k: int| 0 <= k < list.len() ==> #[trigger] list[k] < n && mask[list[k] as int]
            &&& forall|p: int|
                0 <= p < n && #[trigger] mask[p] ==> exists|k: int|
                    0 <= k < list.len() && #[trigger] list[k] == p
        }),
    decreases n,
{
    if n > 0 {
        law_inliers_are_listed_in_order(mask, n - 1);
        let (before, list) = (
            homography::indices_upto(mask, n - 1),
            homography::indices_upto(mask, n),
        );
        assert forall|p: int| 0 <= p < n && #[trigger] mask[p] implies exists|k: int|
            0 <= k < list.len() && #[trigger] list[k] == p by {
            if p < n - 1 {
                let k = choose|k: int| 0 <= k < before.len() && #[trigger] before[k] == p;
                assert(list[k] == p);
            } else {
                assert(list[list.len() - 1] == p);
            }
        }
    }
}

} // verus!
