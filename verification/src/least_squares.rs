//! Nonlinear least squares on doubles: forward differences, the normal
//! equations, and a damped step.
use vstd::prelude::*;

use crate::double;
use crate::double::Double;
use crate::homography;
use crate::lm;
use crate::solve;
use crate::solve::{copy_matrix, copy_row, solve_in_place, Matrix};

verus! {

/// Least diagonal entry that the damping is a fraction of: the bits of 1e-12.
pub const LEAST_DIAGONAL: u64 = 0x3d71_9799_812d_ea11;

/// The residuals at parameters, as a function of them.
pub type Residuals = spec_fn(Seq<Double>) -> Seq<Double>;

/// How far parameter `j` is moved to difference along it.
pub type Increments = spec_fn(Seq<Double>, int) -> Double;

/// `residuals` and `increment` answer every question, and there are as many
/// residuals at all parameters.
pub open spec fn are_measured<
    F: Fn(&Vec<Double>) -> Vec<Double>,
    H: Fn(&Vec<Double>, usize) -> Double,
>(residuals: &F, increment: &H) -> bool {
    &&& forall|p: &Vec<Double>| call_requires(residuals, (p,))
    &&& forall|p: &Vec<Double>, q: &Vec<Double>, r: Vec<Double>, s: Vec<Double>|
        #[trigger] call_ensures(residuals, (p,), r) && #[trigger] call_ensures(residuals, (q,), s)
            ==> r@.len() == s@.len()
    &&& forall|p: &Vec<Double>, j: usize| call_requires(increment, (p, j))
}

/// `residuals` computes `f`.
pub open spec fn measures<F: Fn(&Vec<Double>) -> Vec<Double>>(residuals: &F, f: Residuals) -> bool {
    forall|p: &Vec<Double>, r: Vec<Double>| #[trigger]
        call_ensures(residuals, (p,), r) ==> r@ == f(p@)
}

/// `increment` computes `h`.
pub open spec fn increments<H: Fn(&Vec<Double>, usize) -> Double>(
    increment: &H,
    h: Increments,
) -> bool {
    forall|p: &Vec<Double>, j: usize, d: Double| #[trigger]
        call_ensures(increment, (p, j), d) ==> d == h(p@, j as int)
}

/// Parameters with one of them moved.
pub open spec fn moved(p: Seq<Double>, j: int, by: Double) -> Seq<Double> {
    p.update(j, p[j] + by)
}

/// Forward differences between two lists of residuals.
pub open spec fn differences(after: Seq<Double>, before: Seq<Double>, by: Double) -> Seq<Double> {
    Seq::new(before.len(), |i: int| (after[i] - before[i]).per(by))
}

/// The derivatives of the residuals by parameter `j`.
pub open spec fn derivative(f: Residuals, h: Increments, p: Seq<Double>, j: int) -> Seq<Double> {
    differences(f(moved(p, j, h(p, j))), f(p), h(p, j))
}

/// The Jacobian, column by column.
pub open spec fn jacobian_of(f: Residuals, h: Increments, p: Seq<Double>) -> Seq<Seq<Double>> {
    Seq::new(p.len(), |j: int| derivative(f, h, p, j))
}

/// Sum of the first `n` products, leaving out those whose first factor is zero.
pub open spec fn dot_upto(a: Seq<Double>, b: Seq<Double>, n: int) -> Double
    decreases n,
{
    if n <= 0 {
        Double { bits: 0 }
    } else if a[n - 1].same(Double { bits: 0 }) {
        dot_upto(a, b, n - 1)
    } else {
        dot_upto(a, b, n - 1) + a[n - 1] * b[n - 1]
    }
}

/// The product of two columns.
pub open spec fn dot(a: Seq<Double>, b: Seq<Double>) -> Double {
    dot_upto(a, b, a.len() as int)
}

/// The products of the columns with each other, the earlier one first.
pub open spec fn gram(columns: Seq<Seq<Double>>) -> Seq<Seq<Double>> {
    Seq::new(
        columns.len(),
        |a: int|
            Seq::new(
                columns.len(),
                |b: int|
                    if a <= b {
                        dot(columns[a], columns[b])
                    } else {
                        dot(columns[b], columns[a])
                    },
            ),
    )
}

/// The products of the columns with the residuals.
pub open spec fn gradient(columns: Seq<Seq<Double>>, r: Seq<Double>) -> Seq<Double> {
    Seq::new(columns.len(), |a: int| dot(columns[a], r))
}

/// The normal equations at some parameters: J'J and J'r.
pub struct NormalEquations {
    pub jtj: Matrix,
    pub jtr: Vec<Double>,
}

impl View for NormalEquations {
    type V = (Seq<Seq<Double>>, Seq<Double>);

    open spec fn view(&self) -> (Seq<Seq<Double>>, Seq<Double>) {
        (solve::entries(self.jtj@), self.jtr@)
    }
}

/// The normal equations of residuals.
pub open spec fn normal_equations_of(f: Residuals, h: Increments, p: Seq<Double>) -> (
    Seq<Seq<Double>>,
    Seq<Double>,
) {
    (gram(jacobian_of(f, h, p)), gradient(jacobian_of(f, h, p), f(p)))
}

/// The normal equations as a function of the parameters.
pub open spec fn linear_of(f: Residuals, h: Increments) -> lm::Linear<
    Seq<Double>,
    (Seq<Seq<Double>>, Seq<Double>),
> {
    |p: Seq<Double>| normal_equations_of(f, h, p)
}

/// J'J with each diagonal entry raised by a fraction of itself.
pub open spec fn damped(jtj: Seq<Seq<Double>>, damping: Double) -> Seq<Seq<Double>> {
    Seq::new(
        jtj.len(),
        |a: int|
            jtj[a].update(
                a,
                jtj[a][a] + damping * double::larger(jtj[a][a], Double { bits: LEAST_DIAGONAL }),
            ),
    )
}

/// Every entry with the other sign.
pub open spec fn negated(v: Seq<Double>) -> Seq<Double> {
    v.map_values(|d: Double| d.opposite())
}

/// The sums of corresponding entries.
pub open spec fn shifted_by(p: Seq<Double>, delta: Seq<Double>) -> Seq<Double> {
    Seq::new(p.len(), |i: int| p[i] + delta[i])
}

/// The sum of the squares of all residuals.
pub open spec fn cost_of(r: Seq<Double>) -> Double {
    homography::square_sum(r, r.len() as int)
}

/// There is an equation for each of `n` parameters.
pub open spec fn fits(l: (Seq<Seq<Double>>, Seq<Double>), n: int) -> bool {
    solve::is_shaped(l.0, n, n) && l.1.len() == n
}

/// Where a damped step leads, and the cost there, if it can be solved for.
pub open spec fn stepped(
    f: Residuals,
    p: Seq<Double>,
    l: (Seq<Seq<Double>>, Seq<Double>),
    damping: Double,
) -> Option<(Seq<Double>, Double)> {
    if !fits(l, p.len() as int) {
        None
    } else {
        match solve::solution(damped(l.0, damping), negated(l.1)) {
            None => None,
            Some(delta) => {
                let next = shifted_by(p, delta);
                Some((next, cost_of(f(next))))
            },
        }
    }
}

/// Damped steps as a function of the parameters.
pub open spec fn stepping_of(f: Residuals) -> lm::Stepping<
    Seq<Double>,
    (Seq<Seq<Double>>, Seq<Double>),
> {
    |p: Seq<Double>, l: (Seq<Seq<Double>>, Seq<Double>), damping: Double|
        stepped(f, p, l, damping)
}

fn difference(after: &Vec<Double>, before: &Vec<Double>, by: &Double) -> (d: Vec<Double>)
    requires
        after@.len() == before@.len(),
    ensures
        d@ == differences(after@, before@, *by),
{
    let mut d: Vec<Double> = Vec::new();
    let mut i: usize = 0;
    while i < before.len()
        invariant
            i <= before@.len(),
            after@.len() == before@.len(),
            d@.len() == i,
            forall|k: int| 0 <= k < i ==> #[trigger] d@[k] == (after@[k] - before@[k]).per(*by),
        decreases before@.len() - i,
    {
        d.push((after[i] - before[i]) / *by);
        i = i + 1;
    }
    assert(d@ =~= differences(after@, before@, *by));
    d
}

/// The Jacobian of the residuals, column by column, by forward differences.
/// `r` holds the residuals at `p`.
fn jacobian<F: Fn(&Vec<Double>) -> Vec<Double>, H: Fn(&Vec<Double>, usize) -> Double>(
    residuals: &F,
    increment: &H,
    p: &Vec<Double>,
    r: &Vec<Double>,
) -> (columns: Matrix)
    requires
        are_measured(residuals, increment),
        call_ensures(residuals, (p,), *r),
    ensures
        solve::is_shaped(solve::entries(columns@), p@.len() as int, r@.len() as int),
        forall|f: Residuals, h: Increments|
            #![trigger measures(residuals, f), increments(increment, h)]
            measures(residuals, f) && increments(increment, h) ==> solve::entries(columns@)
                == jacobian_of(f, h, p@),
{
    let mut columns: Matrix = Vec::new();
    let mut j: usize = 0;
    while j < p.len()
        invariant
            j <= p@.len(),
            are_measured(residuals, increment),
            call_ensures(residuals, (p,), *r),
            columns@.len() == j,
            forall|k: int| 0 <= k < j ==> (#[trigger] columns@[k])@.len() == r@.len(),
            forall|f: Residuals, h: Increments, k: int|
                #![trigger measures(residuals, f), increments(increment, h), columns@[k]]
                measures(residuals, f) && increments(increment, h) && 0 <= k < j
                    ==> columns@[k]@ == derivative(f, h, p@, k),
        decreases p@.len() - j,
    {
        let by: Double = increment(p, j);
        let mut pj: Vec<Double> = copy_row(p);
        let v: Double = pj[j] + by;
        pj.set(j, v);
        assert(pj@ =~= moved(p@, j as int, by));
        let after: Vec<Double> = residuals(&pj);
        proof {
            assert(call_ensures(increment, (p, j), by));
            assert(call_ensures(residuals, (&pj,), after));
        }
        let ghost before = columns@;
        columns.push(difference(&after, r, &by));
        proof {
            assert forall|f: Residuals, h: Increments, k: int|
                #![trigger measures(residuals, f), increments(increment, h), columns@[k]]
                measures(residuals, f) && increments(increment, h) && 0 <= k < j
                    + 1 implies columns@[k]@ == derivative(f, h, p@, k) by {
                if k < j {
                    assert(columns@[k] == before[k]);
                }
            }
        }
        j = j + 1;
    }
    proof {
        assert forall|f: Residuals, h: Increments|
            #![trigger measures(residuals, f), increments(increment, h)]
            measures(residuals, f) && increments(increment, h) implies solve::entries(
            columns@,
        ) == jacobian_of(f, h, p@) by {
            assert forall|k: int| 0 <= k < p@.len() implies solve::entries(columns@)[k]
                == #[trigger] jacobian_of(f, h, p@)[k] by {
                assert(columns@[k]@ == derivative(f, h, p@, k));
            }
            assert(solve::entries(columns@) =~= jacobian_of(f, h, p@));
        }
    }
    columns
}

fn dot_product(a: &Vec<Double>, b: &Vec<Double>) -> (v: Double)
    requires
        a@.len() == b@.len(),
    ensures
        v == dot(a@, b@),
{
    let zero: Double = Double::from_bits(0);
    let mut v: Double = zero;
    let mut i: usize = 0;
    while i < a.len()
        invariant
            i <= a@.len(),
            a@.len() == b@.len(),
            zero == (Double { bits: 0 }),
            v == dot_upto(a@, b@, i as int),
        decreases a@.len() - i,
    {
        if !a[i].equals(&zero) {
            v = v + a[i] * b[i];
        }
        i = i + 1;
    }
    v
}

fn gram_row(columns: &Matrix, a: usize) -> (row: Vec<Double>)
    requires
        a < columns@.len(),
        exists|m: int| solve::is_shaped(solve::entries(columns@), columns@.len() as int, m),
    ensures
        row@ == gram(solve::entries(columns@))[a as int],
{
    let ghost c = solve::entries(columns@);
    let ghost m = choose|m: int| solve::is_shaped(c, columns@.len() as int, m);
    let mut row: Vec<Double> = Vec::new();
    let mut b: usize = 0;
    while b < columns.len()
        invariant
            a < columns@.len(),
            b <= columns@.len(),
            c == solve::entries(columns@),
            solve::is_shaped(c, columns@.len() as int, m),
            row@.len() == b,
            forall|k: int| 0 <= k < b ==> #[trigger] row@[k] == gram(c)[a as int][k],
        decreases columns@.len() - b,
    {
        assert(c[a as int] == columns@[a as int]@ && c[b as int] == columns@[b as int]@);
        if a <= b {
            row.push(dot_product(&columns[a], &columns[b]));
        } else {
            row.push(dot_product(&columns[b], &columns[a]));
        }
        b = b + 1;
    }
    assert(row@ =~= gram(c)[a as int]);
    row
}

/// The normal equations of columns and residuals.
fn normalize(columns: &Matrix, r: &Vec<Double>) -> (l: NormalEquations)
    requires
        solve::is_shaped(solve::entries(columns@), columns@.len() as int, r@.len() as int),
    ensures
        l@ == (gram(solve::entries(columns@)), gradient(solve::entries(columns@), r@)),
{
    let ghost c = solve::entries(columns@);
    let mut jtj: Matrix = Vec::new();
    let mut jtr: Vec<Double> = Vec::new();
    let mut a: usize = 0;
    while a < columns.len()
        invariant
            a <= columns@.len(),
            c == solve::entries(columns@),
            solve::is_shaped(c, columns@.len() as int, r@.len() as int),
            jtj@.len() == a,
            jtr@.len() == a,
            forall|k: int| 0 <= k < a ==> (#[trigger] jtj@[k])@ == gram(c)[k],
            forall|k: int| 0 <= k < a ==> #[trigger] jtr@[k] == dot(c[k], r@),
        decreases columns@.len() - a,
    {
        assert(c[a as int] == columns@[a as int]@);
        jtj.push(gram_row(columns, a));
        jtr.push(dot_product(&columns[a], r));
        a = a + 1;
    }
    assert(solve::entries(jtj@) =~= gram(c));
    assert(jtr@ =~= gradient(c, r@));
    NormalEquations { jtj, jtr }
}

/// The normal equations at `p`.
pub fn linearize_at<F: Fn(&Vec<Double>) -> Vec<Double>, H: Fn(&Vec<Double>, usize) -> Double>(
    residuals: &F,
    increment: &H,
    p: &Vec<Double>,
) -> (l: NormalEquations)
    requires
        are_measured(residuals, increment),
    ensures
        fits(l@, p@.len() as int),
        forall|f: Residuals, h: Increments|
            #![trigger measures(residuals, f), increments(increment, h)]
            measures(residuals, f) && increments(increment, h) ==> l@ == normal_equations_of(
                f,
                h,
                p@,
            ),
{
    let r: Vec<Double> = residuals(p);
    proof {
        assert(call_ensures(residuals, (p,), r));
    }
    let columns: Matrix = jacobian(residuals, increment, p, &r);
    normalize(&columns, &r)
}

fn square(l: &NormalEquations, n: usize) -> (ok: bool)
    ensures
        ok == fits(l@, n as int),
{
    if l.jtj.len() != n || l.jtr.len() != n {
        return false;
    }
    let mut a: usize = 0;
    while a < n
        invariant
            a <= n,
            l.jtj@.len() == n,
            l.jtr@.len() == n,
            forall|k: int| 0 <= k < a ==> (#[trigger] l.jtj@[k])@.len() == n,
        decreases n - a,
    {
        if l.jtj[a].len() != n {
            assert(solve::entries(l.jtj@)[a as int].len() != n);
            return false;
        }
        a = a + 1;
    }
    assert forall|k: int| 0 <= k < n implies (#[trigger] solve::entries(l.jtj@)[k]).len() == n by {
        assert(l.jtj@[k]@.len() == n);
    }
    true
}

/// Raise the diagonal.
fn damp(jtj: &Matrix, damping: &Double) -> (a: Matrix)
    requires
        solve::is_shaped(solve::entries(jtj@), jtj@.len() as int, jtj@.len() as int),
    ensures
        solve::entries(a@) == damped(solve::entries(jtj@), *damping),
{
    let ghost n = jtj@.len() as int;
    let ghost from = solve::entries(jtj@);
    let mut a: Matrix = copy_matrix(jtj);
    assert(a@.len() == solve::entries(a@).len());
    let mut i: usize = 0;
    while i < a.len()
        invariant
            i <= n,
            n == jtj@.len(),
            from == solve::entries(jtj@),
            solve::is_shaped(from, n, n),
            a@.len() == n,
            forall|k: int|
                0 <= k < n ==> #[trigger] solve::entries(a@)[k] == (if k < i {
                    damped(from, *damping)[k]
                } else {
                    from[k]
                }),
        decreases n - i,
    {
        let ghost before = solve::entries(a@);
        assert(before[i as int] == from[i as int] && before[i as int] == a@[i as int]@);
        let mut row: Vec<Double> = copy_row(&a[i]);
        let v: Double = row[i] + *damping * row[i].max(&Double::from_bits(LEAST_DIAGONAL));
        row.set(i, v);
        a.set(i, row);
        assert forall|k: int| 0 <= k < n implies #[trigger] solve::entries(a@)[k] == (if k < i + 1 {
            damped(from, *damping)[k]
        } else {
            from[k]
        }) by {
            if k != i {
                assert(solve::entries(a@)[k] == before[k]);
            }
        }
        i = i + 1;
    }
    assert(solve::entries(a@) =~= damped(from, *damping));
    a
}

fn negate_all(v: &Vec<Double>) -> (out: Vec<Double>)
    ensures
        out@ == negated(v@),
{
    let mut out: Vec<Double> = Vec::new();
    let mut i: usize = 0;
    while i < v.len()
        invariant
            i <= v@.len(),
            out@.len() == i,
            forall|k: int| 0 <= k < i ==> #[trigger] out@[k] == v@[k].opposite(),
        decreases v@.len() - i,
    {
        out.push(v[i].negate());
        i = i + 1;
    }
    assert(out@ =~= negated(v@));
    out
}

fn shift_by(p: &Vec<Double>, delta: &Vec<Double>) -> (next: Vec<Double>)
    requires
        delta@.len() == p@.len(),
    ensures
        next@ == shifted_by(p@, delta@),
{
    let mut next: Vec<Double> = Vec::new();
    let mut i: usize = 0;
    while i < p.len()
        invariant
            i <= p@.len(),
            delta@.len() == p@.len(),
            next@.len() == i,
            forall|k: int| 0 <= k < i ==> #[trigger] next@[k] == p@[k] + delta@[k],
        decreases p@.len() - i,
    {
        next.push(p[i] + delta[i]);
        i = i + 1;
    }
    assert(next@ =~= shifted_by(p@, delta@));
    next
}

/// The sum of the squares of all residuals.
pub fn cost(r: &Vec<Double>) -> (c: Double)
    ensures
        c == cost_of(r@),
{
    let mut c: Double = Double::from_bits(0);
    let mut i: usize = 0;
    while i < r.len()
        invariant
            i <= r@.len(),
            c == homography::square_sum(r@, i as int),
        decreases r@.len() - i,
    {
        c = c + r[i] * r[i];
        i = i + 1;
    }
    c
}

/// Take a damped step from `p`.
pub fn step_from<F: Fn(&Vec<Double>) -> Vec<Double>>(
    residuals: &F,
    p: &Vec<Double>,
    l: &NormalEquations,
    damping: &Double,
) -> (next: Option<(Vec<Double>, Double)>)
    requires
        forall|p: &Vec<Double>| call_requires(residuals, (p,)),
    ensures
        forall|f: Residuals| #[trigger]
            measures(residuals, f) ==> lm::reached(next) == stepped(f, p@, l@, *damping),
{
    if !square(l, p.len()) {
        return None;
    }
    let mut a: Matrix = damp(&l.jtj, damping);
    let mut delta: Vec<Double> = negate_all(&l.jtr);
    assert(solve::is_shaped(solve::entries(a@), a@.len() as int, a@.len() as int)) by {
        let e = damped(solve::entries(l.jtj@), *damping);
        assert(solve::entries(a@).len() == a@.len());
        assert forall|k: int| 0 <= k < a@.len() implies (#[trigger] solve::entries(a@)[k]).len()
            == a@.len() by {
            assert(e[k].len() == solve::entries(l.jtj@)[k].len());
        }
    }
    if !solve_in_place(&mut a, &mut delta) {
        return None;
    }
    let next: Vec<Double> = shift_by(p, &delta);
    let r: Vec<Double> = residuals(&next);
    proof {
        assert(call_ensures(residuals, (&next,), r));
    }
    let c: Double = cost(&r);
    Some((next, c))
}

proof fn lemma_improvement_is_measured<L>(
    stepping: lm::Stepping<Seq<Double>, L>,
    f: Residuals,
    p: Seq<Double>,
    l: L,
    cost: Double,
    damping: Double,
    tries: nat,
)
    requires
        forall|q: Seq<Double>, m: L, d: Double|
            (#[trigger] stepping(q, m, d)) matches Some((next, c)) ==> c == cost_of(f(next)),
    ensures
        lm::improvement(stepping, p, l, cost, damping, tries) matches Some((next, c, _)) ==> c
            == cost_of(f(next)),
    decreases tries,
{
    if tries > 0 {
        lemma_improvement_is_measured(
            stepping,
            f,
            p,
            l,
            cost,
            damping * Double { bits: lm::DAMP_MORE },
            (tries - 1) as nat,
        );
    }
}

proof fn lemma_descent_is_measured<L>(
    linear: lm::Linear<Seq<Double>, L>,
    stepping: lm::Stepping<Seq<Double>, L>,
    f: Residuals,
    rule: lm::Convergence,
    p: Seq<Double>,
    damping: Double,
    iterations: nat,
)
    requires
        forall|q: Seq<Double>, m: L, d: Double|
            (#[trigger] stepping(q, m, d)) matches Some((next, c)) ==> c == cost_of(f(next)),
    ensures
        ({
            let end = lm::descended(
                linear,
                stepping,
                rule,
                p,
                cost_of(f(p)),
                damping,
                iterations,
            );
            end.1 == cost_of(f(end.0))
        }),
    decreases iterations,
{
    if iterations > 0 {
        let cost = cost_of(f(p));
        lemma_improvement_is_measured(
            stepping,
            f,
            p,
            linear(p),
            cost,
            damping,
            lm::TRIES as nat,
        );
        match lm::improvement(stepping, p, linear(p), cost, damping, lm::TRIES as nat) {
            None => {},
            Some((next, _, less)) => {
                lemma_descent_is_measured(
                    linear,
                    stepping,
                    f,
                    rule,
                    next,
                    less,
                    (iterations - 1) as nat,
                );
            },
        }
    }
}

/// A least-squares descent reports the cost of where it ends, and that is where it
/// began, or somewhere with a lower cost.
pub proof fn law_descent_lowers_cost(
    f: Residuals,
    h: Increments,
    rule: lm::Convergence,
    p: Seq<Double>,
    iterations: nat,
)
    ensures
        ({
            let end = lm::descent(
                linear_of(f, h),
                stepping_of(f),
                rule,
                p,
                cost_of(f(p)),
                iterations,
            );
            &&& end.1 == cost_of(f(end.0))
            &&& end.0 == p || cost_of(f(end.0)).less(cost_of(f(p)))
        }),
{
    let first = Double { bits: lm::FIRST_DAMPING };
    lemma_descent_is_measured(linear_of(f, h), stepping_of(f), f, rule, p, first, iterations);
    lm::law_descent_never_climbs(
        linear_of(f, h),
        stepping_of(f),
        rule,
        p,
        cost_of(f(p)),
        first,
        iterations,
    );
}

} // verus!
