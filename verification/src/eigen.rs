//! Smallest eigenvector of a symmetric matrix, by cyclic Jacobi rotations.
use vstd::prelude::*;

use crate::double;
use crate::double::{Double, SIGN};
use crate::solve;
use crate::solve::Matrix;

verus! {

/// Sweeps over all pairs of rows.
pub const SWEEPS: usize = 60;

/// Off-diagonal sum at which a matrix counts as diagonal: the bits of 1e-14.
pub const DIAGONAL: u64 = 0x3d06_849b_86a1_2b9b;

/// Entry that is not worth a rotation: the bits of 1e-300.
pub const NEGLIGIBLE: u64 = 0x01a5_6e1f_c2f8_f359;

/// The bits of 1.0.
pub const ONE: u64 = 0x3ff0_0000_0000_0000;

/// The bits of 2.0.
pub const TWO: u64 = 0x4000_0000_0000_0000;

/// The bits of -1.0.
pub const MINUS_ONE: u64 = 0xbff0_0000_0000_0000;

/// The bits of infinity.
pub const POS_INFINITY: u64 = 0x7ff0_0000_0000_0000;

/// One with the sign of `d`; a NaN stays one.
pub open spec fn sign_of(d: Double) -> Double {
    if d.nan() {
        d
    } else if d.is_negative() {
        Double { bits: MINUS_ONE }
    } else {
        Double { bits: ONE }
    }
}

fn signum(d: &Double) -> (r: Double)
    ensures
        r == sign_of(*d),
{
    if d.is_nan() {
        *d
    } else if d.bits >= SIGN {
        Double::from_bits(MINUS_ONE)
    } else {
        Double::from_bits(ONE)
    }
}

/// Sizes of the entries of a row from column `from` to before `end`, added to
/// `before`.
pub open spec fn row_off(row: Seq<Double>, from: int, end: int, before: Double) -> Double
    decreases end - from,
{
    if end <= from {
        before
    } else {
        row_off(row, from, end - 1, before) + row[end - 1].size()
    }
}

/// Sizes of the entries above the diagonal in the first `rows` rows, summed.
pub open spec fn off_diagonal(a: Seq<Seq<Double>>, n: int, rows: int) -> Double
    decreases rows,
{
    if rows <= 0 {
        Double { bits: 0 }
    } else {
        row_off(a[rows - 1], rows, n, off_diagonal(a, n, rows - 1))
    }
}

/// Cosine and sine of the rotation that clears entry (`p`, `q`).
pub open spec fn rotation_of(a: Seq<Seq<Double>>, p: int, q: int) -> (Double, Double) {
    let one = Double { bits: ONE };
    let theta = (a[q][q] - a[p][p]).per(Double { bits: TWO } * a[p][q]);
    let t = sign_of(theta).per(theta.size() + (theta * theta + one).root());
    let c = one.per((t * t + one).root());
    (c, t * c)
}

/// A row with its entries `p` and `q` rotated.
pub open spec fn turned_row(row: Seq<Double>, p: int, q: int, c: Double, s: Double) -> Seq<Double> {
    row.update(p, c * row[p] - s * row[q]).update(q, s * row[p] + c * row[q])
}

/// A matrix with its columns `p` and `q` rotated.
pub open spec fn turned_columns(
    a: Seq<Seq<Double>>,
    p: int,
    q: int,
    c: Double,
    s: Double,
) -> Seq<Seq<Double>> {
    a.map_values(|row: Seq<Double>| turned_row(row, p, q, c, s))
}

/// The weighted sum of two rows.
pub open spec fn blended(u: Seq<Double>, v: Seq<Double>, c: Double, s: Double) -> Seq<Double> {
    Seq::new(u.len(), |k: int| s * u[k] + c * v[k])
}

/// The weighted difference of two rows.
pub open spec fn contrasted(u: Seq<Double>, v: Seq<Double>, c: Double, s: Double) -> Seq<Double> {
    Seq::new(u.len(), |k: int| c * u[k] - s * v[k])
}

/// A matrix with its rows `p` and `q` rotated.
pub open spec fn turned_rows(
    a: Seq<Seq<Double>>,
    p: int,
    q: int,
    c: Double,
    s: Double,
) -> Seq<Seq<Double>> {
    a.update(p, contrasted(a[p], a[q], c, s)).update(q, blended(a[p], a[q], c, s))
}

/// A matrix and its accumulated rotations, after the rotation that clears entry
/// (`p`, `q`).
pub open spec fn rotated(
    a: Seq<Seq<Double>>,
    v: Seq<Seq<Double>>,
    p: int,
    q: int,
) -> (Seq<Seq<Double>>, Seq<Seq<Double>>) {
    if a[p][q].size().less(Double { bits: NEGLIGIBLE }) {
        (a, v)
    } else {
        let (c, s) = rotation_of(a, p, q);
        (turned_rows(turned_columns(a, p, q, c, s), p, q, c, s), turned_columns(v, p, q, c, s))
    }
}

/// After the rotations of row `p` with the rows before `end`.
pub open spec fn swept_row(
    a: Seq<Seq<Double>>,
    v: Seq<Seq<Double>>,
    p: int,
    end: int,
) -> (Seq<Seq<Double>>, Seq<Seq<Double>>)
    decreases end - p,
{
    if end <= p + 1 {
        (a, v)
    } else {
        let (b, w) = swept_row(a, v, p, end - 1);
        rotated(b, w, p, end - 1)
    }
}

/// After the rotations of the first `rows` rows.
pub open spec fn swept(
    a: Seq<Seq<Double>>,
    v: Seq<Seq<Double>>,
    n: int,
    rows: int,
) -> (Seq<Seq<Double>>, Seq<Seq<Double>>)
    decreases rows,
{
    if rows <= 0 {
        (a, v)
    } else {
        let (b, w) = swept(a, v, n, rows - 1);
        swept_row(b, w, rows - 1, n)
    }
}

/// After at most `sweeps` sweeps; none is made of a matrix that is diagonal.
pub open spec fn diagonalized(
    a: Seq<Seq<Double>>,
    v: Seq<Seq<Double>>,
    n: int,
    sweeps: nat,
) -> (Seq<Seq<Double>>, Seq<Seq<Double>>)
    decreases sweeps,
{
    if sweeps == 0 || off_diagonal(a, n, n).less(Double { bits: DIAGONAL }) {
        (a, v)
    } else {
        let (b, w) = swept(a, v, n, n);
        diagonalized(b, w, n, (sweeps - 1) as nat)
    }
}

/// The unit matrix.
pub open spec fn unit(n: int) -> Seq<Seq<Double>> {
    Seq::new(
        n as nat,
        |r: int|
            Seq::new(
                n as nat,
                |c: int|
                    if r == c {
                        Double { bits: ONE }
                    } else {
                        Double { bits: 0 }
                    },
            ),
    )
}

/// The first of the first `n` diagonal entries that is smallest.
pub open spec fn least_diagonal(a: Seq<Seq<Double>>, n: int) -> int
    decreases n,
{
    if n <= 1 {
        0
    } else {
        let m = least_diagonal(a, n - 1);
        if a[n - 1][n - 1].less(a[m][m]) {
            n - 1
        } else {
            m
        }
    }
}

/// Smallest of the first `n` diagonal entries but for entry `m`.
pub open spec fn next_diagonal(a: Seq<Seq<Double>>, m: int, n: int) -> Double
    decreases n,
{
    if n <= 0 {
        Double { bits: POS_INFINITY }
    } else if n - 1 == m {
        next_diagonal(a, m, n - 1)
    } else {
        double::smaller(next_diagonal(a, m, n - 1), a[n - 1][n - 1])
    }
}

/// Column `m` of a matrix.
pub open spec fn column_of(a: Seq<Seq<Double>>, m: int) -> Seq<Double> {
    a.map_values(|row: Seq<Double>| row[m])
}

/// The smallest eigenvector of a symmetric matrix, its eigenvalue and the next.
pub open spec fn eigenpair(a: Seq<Seq<Double>>) -> (Seq<Double>, Double, Double) {
    let n = a.len() as int;
    let (d, v) = diagonalized(a, unit(n), n, SWEEPS as nat);
    let m = least_diagonal(d, n);
    (column_of(v, m), d[m][m], next_diagonal(d, m, n))
}

fn off_sum(a: &Matrix) -> (off: Double)
    requires
        solve::is_shaped(solve::entries(a@), a@.len() as int, a@.len() as int),
    ensures
        off == off_diagonal(solve::entries(a@), a@.len() as int, a@.len() as int),
{
    let ghost g = solve::entries(a@);
    let n: usize = a.len();
    let mut off: Double = Double::from_bits(0);
    let mut p: usize = 0;
    while p < n
        invariant
            n == a@.len(),
            g == solve::entries(a@),
            solve::is_shaped(g, n as int, n as int),
            p <= n,
            off == off_diagonal(g, n as int, p as int),
        decreases n - p,
    {
        let ghost before = off;
        assert(g[p as int] == a@[p as int]@);
        let mut q: usize = p + 1;
        while q < n
            invariant
                n == a@.len(),
                p < q <= n,
                g[p as int] == a@[p as int]@,
                a@[p as int]@.len() == n,
                off == row_off(g[p as int], p + 1, q as int, before),
            decreases n - q,
        {
            off = off + a[p][q].abs();
            q = q + 1;
        }
        p = p + 1;
    }
    off
}

fn turn_row(row: &Vec<Double>, p: usize, q: usize, c: &Double, s: &Double) -> (out: Vec<Double>)
    requires
        p < q < row@.len(),
    ensures
        out@ == turned_row(row@, p as int, q as int, *c, *s),
{
    let x: Double = *c * row[p] - *s * row[q];
    let y: Double = *s * row[p] + *c * row[q];
    let mut out: Vec<Double> = solve::copy_row(row);
    out.set(p, x);
    out.set(q, y);
    out
}

fn turn_columns(a: &mut Matrix, p: usize, q: usize, c: &Double, s: &Double)
    requires
        solve::is_shaped(solve::entries(old(a)@), old(a)@.len() as int, old(a)@.len() as int),
        p < q < old(a)@.len(),
    ensures
        solve::entries(final(a)@) == turned_columns(
            solve::entries(old(a)@),
            p as int,
            q as int,
            *c,
            *s,
        ),
        final(a)@.len() == old(a)@.len(),
{
    let ghost g = solve::entries(a@);
    let ghost t = turned_columns(g, p as int, q as int, *c, *s);
    let ghost n = a@.len() as int;
    let mut k: usize = 0;
    while k < a.len()
        invariant
            n == a@.len(),
            g.len() == n,
            t == turned_columns(g, p as int, q as int, *c, *s),
            solve::is_shaped(g, n, n),
            p < q < n,
            k <= n,
            forall|i: int| 0 <= i < k ==> (#[trigger] a@[i])@ == t[i],
            forall|i: int| k <= i < n ==> (#[trigger] a@[i])@ == g[i],
        decreases n - k,
    {
        assert(a@[k as int]@ == g[k as int]);
        let row: Vec<Double> = turn_row(&a[k], p, q, c, s);
        a.set(k, row);
        k = k + 1;
    }
    assert(solve::entries(a@) =~= t);
}

fn turn_rows(a: &mut Matrix, p: usize, q: usize, c: &Double, s: &Double)
    requires
        solve::is_shaped(solve::entries(old(a)@), old(a)@.len() as int, old(a)@.len() as int),
        p < q < old(a)@.len(),
    ensures
        solve::entries(final(a)@) == turned_rows(
            solve::entries(old(a)@),
            p as int,
            q as int,
            *c,
            *s,
        ),
        final(a)@.len() == old(a)@.len(),
{
    let ghost g = solve::entries(a@);
    let ghost n = a@.len() as int;
    let ghost (u, v) = (g[p as int], g[q as int]);
    assert(a@[p as int]@ == u && a@[q as int]@ == v);
    let mut first: Vec<Double> = Vec::new();
    let mut second: Vec<Double> = Vec::new();
    let mut k: usize = 0;
    while k < a.len()
        invariant
            n == a@.len(),
            p < q < n,
            a@[p as int]@ == u,
            a@[q as int]@ == v,
            u.len() == n,
            v.len() == n,
            k <= n,
            first@.len() == k,
            second@.len() == k,
            forall|i: int| 0 <= i < k ==> #[trigger] first@[i] == *c * u[i] - *s * v[i],
            forall|i: int| 0 <= i < k ==> #[trigger] second@[i] == *s * u[i] + *c * v[i],
            solve::entries(a@) == g,
        decreases n - k,
    {
        first.push(*c * a[p][k] - *s * a[q][k]);
        second.push(*s * a[p][k] + *c * a[q][k]);
        k = k + 1;
    }
    assert(first@ =~= contrasted(u, v, *c, *s));
    assert(second@ =~= blended(u, v, *c, *s));
    a.set(p, first);
    a.set(q, second);
    assert(solve::entries(a@) =~= turned_rows(g, p as int, q as int, *c, *s));
}

proof fn lemma_rotation_keeps_shape(
    a: Seq<Seq<Double>>,
    n: int,
    p: int,
    q: int,
    c: Double,
    s: Double,
)
    requires
        solve::is_shaped(a, n, n),
        0 <= p < q < n,
    ensures
        solve::is_shaped(turned_columns(a, p, q, c, s), n, n),
        solve::is_shaped(turned_rows(turned_columns(a, p, q, c, s), p, q, c, s), n, n),
{
    let b = turned_columns(a, p, q, c, s);
    assert forall|r: int| 0 <= r < n implies (#[trigger] b[r]).len() == n by {
        assert(a[r].len() == n);
    }
    let t = turned_rows(b, p, q, c, s);
    assert forall|r: int| 0 <= r < n implies (#[trigger] t[r]).len() == n by {
        assert(b[r].len() == n && b[p].len() == n);
    }
}

/// Rotate entry (`p`, `q`) away.
fn rotate(a: &mut Matrix, v: &mut Matrix, p: usize, q: usize)
    requires
        solve::is_shaped(solve::entries(old(a)@), old(a)@.len() as int, old(a)@.len() as int),
        solve::is_shaped(solve::entries(old(v)@), old(a)@.len() as int, old(a)@.len() as int),
        p < q < old(a)@.len(),
    ensures
        (solve::entries(final(a)@), solve::entries(final(v)@)) == rotated(
            solve::entries(old(a)@),
            solve::entries(old(v)@),
            p as int,
            q as int,
        ),
        final(a)@.len() == old(a)@.len(),
        solve::is_shaped(solve::entries(final(a)@), old(a)@.len() as int, old(a)@.len() as int),
        solve::is_shaped(solve::entries(final(v)@), old(a)@.len() as int, old(a)@.len() as int),
{
    let ghost g = solve::entries(a@);
    let ghost n = a@.len() as int;
    assert(g[p as int] == a@[p as int]@ && g[q as int] == a@[q as int]@);
    let apq: Double = a[p][q];
    if apq.abs().lt(&Double::from_bits(NEGLIGIBLE)) {
        return ;
    }
    let one: Double = Double::from_bits(ONE);
    let theta: Double = (a[q][q] - a[p][p]) / (Double::from_bits(TWO) * apq);
    let t: Double = signum(&theta) / (theta.abs() + (theta * theta + one).sqrt());
    let c: Double = one / (t * t + one).sqrt();
    let s: Double = t * c;
    assert((c, s) == rotation_of(g, p as int, q as int));
    proof {
        lemma_rotation_keeps_shape(g, n, p as int, q as int, c, s);
        lemma_rotation_keeps_shape(solve::entries(v@), n, p as int, q as int, c, s);
    }
    turn_columns(a, p, q, &c, &s);
    turn_rows(a, p, q, &c, &s);
    turn_columns(v, p, q, &c, &s);
}

/// Rotate away every entry above the diagonal once.
fn sweep(a: &mut Matrix, v: &mut Matrix)
    requires
        solve::is_shaped(solve::entries(old(a)@), old(a)@.len() as int, old(a)@.len() as int),
        solve::is_shaped(solve::entries(old(v)@), old(a)@.len() as int, old(a)@.len() as int),
    ensures
        (solve::entries(final(a)@), solve::entries(final(v)@)) == swept(
            solve::entries(old(a)@),
            solve::entries(old(v)@),
            old(a)@.len() as int,
            old(a)@.len() as int,
        ),
        final(a)@.len() == old(a)@.len(),
        solve::is_shaped(solve::entries(final(a)@), old(a)@.len() as int, old(a)@.len() as int),
        solve::is_shaped(solve::entries(final(v)@), old(a)@.len() as int, old(a)@.len() as int),
{
    let n: usize = a.len();
    let ghost (g, w) = (solve::entries(a@), solve::entries(v@));
    let mut p: usize = 0;
    while p < n
        invariant
            n == a@.len(),
            p <= n,
            solve::is_shaped(solve::entries(a@), n as int, n as int),
            solve::is_shaped(solve::entries(v@), n as int, n as int),
            (solve::entries(a@), solve::entries(v@)) == swept(g, w, n as int, p as int),
        decreases n - p,
    {
        let ghost (b, x) = (solve::entries(a@), solve::entries(v@));
        let mut q: usize = p + 1;
        while q < n
            invariant
                n == a@.len(),
                p < q <= n,
                solve::is_shaped(solve::entries(a@), n as int, n as int),
                solve::is_shaped(solve::entries(v@), n as int, n as int),
                (solve::entries(a@), solve::entries(v@)) == swept_row(b, x, p as int, q as int),
            decreases n - q,
        {
            rotate(a, v, p, q);
            q = q + 1;
        }
        p = p + 1;
    }
}

fn unit_matrix(n: usize) -> (m: Matrix)
    ensures
        solve::entries(m@) == unit(n as int),
{
    let mut m: Matrix = Vec::new();
    let mut r: usize = 0;
    while r < n
        invariant
            r <= n,
            m@.len() == r,
            forall|i: int| 0 <= i < r ==> (#[trigger] m@[i])@ == unit(n as int)[i],
        decreases n - r,
    {
        let mut row: Vec<Double> = Vec::new();
        let mut c: usize = 0;
        while c < n
            invariant
                c <= n,
                r < n,
                row@.len() == c,
                forall|j: int|
                    0 <= j < c ==> #[trigger] row@[j] == unit(n as int)[r as int][j],
            decreases n - c,
        {
            if r == c {
                row.push(Double::from_bits(ONE));
            } else {
                row.push(Double::from_bits(0));
            }
            c = c + 1;
        }
        assert(row@ =~= unit(n as int)[r as int]);
        m.push(row);
        r = r + 1;
    }
    assert(solve::entries(m@) =~= unit(n as int));
    m
}

/// Eigenvector for the smallest eigenvalue of a symmetric matrix, with the smallest
/// and the second-smallest eigenvalue. `a` is used up.
pub fn smallest_eigenpair_sym(a: &mut Matrix) -> (pair: (Vec<Double>, Double, Double))
    requires
        old(a)@.len() >= 1,
        solve::is_shaped(solve::entries(old(a)@), old(a)@.len() as int, old(a)@.len() as int),
    ensures
        (pair.0@, pair.1, pair.2) == eigenpair(solve::entries(old(a)@)),
{
    let n: usize = a.len();
    let ghost g = solve::entries(a@);
    let mut v: Matrix = unit_matrix(n);
    let mut i: usize = 0;
    while i < SWEEPS
        invariant_except_break
            n == a@.len(),
            i <= SWEEPS,
            solve::is_shaped(solve::entries(a@), n as int, n as int),
            solve::is_shaped(solve::entries(v@), n as int, n as int),
            diagonalized(g, unit(n as int), n as int, SWEEPS as nat) == diagonalized(
                solve::entries(a@),
                solve::entries(v@),
                n as int,
                (SWEEPS - i) as nat,
            ),
        ensures
            n == a@.len(),
            solve::is_shaped(solve::entries(a@), n as int, n as int),
            solve::is_shaped(solve::entries(v@), n as int, n as int),
            diagonalized(g, unit(n as int), n as int, SWEEPS as nat) == (
                solve::entries(a@),
                solve::entries(v@),
            ),
        decreases SWEEPS - i,
    {
        if off_sum(a).lt(&Double::from_bits(DIAGONAL)) {
            break ;
        }
        sweep(a, &mut v);
        i = i + 1;
    }
    let ghost (d, w) = (solve::entries(a@), solve::entries(v@));
    let mut m: usize = 0;
    let mut k: usize = 1;
    while k < n
        invariant
            n == a@.len(),
            d == solve::entries(a@),
            solve::is_shaped(d, n as int, n as int),
            m < k <= n,
            m == least_diagonal(d, k as int),
        decreases n - k,
    {
        assert(d[k as int] == a@[k as int]@ && d[m as int] == a@[m as int]@);
        if a[k][k].lt(&a[m][m]) {
            m = k;
        }
        k = k + 1;
    }
    let mut next: Double = Double::from_bits(POS_INFINITY);
    let mut vector: Vec<Double> = Vec::new();
    k = 0;
    while k < n
        invariant
            n == a@.len(),
            n == v@.len(),
            d == solve::entries(a@),
            w == solve::entries(v@),
            solve::is_shaped(d, n as int, n as int),
            solve::is_shaped(w, n as int, n as int),
            m < n,
            k <= n,
            next == next_diagonal(d, m as int, k as int),
            vector@.len() == k,
            forall|j: int| 0 <= j < k ==> #[trigger] vector@[j] == w[j][m as int],
        decreases n - k,
    {
        assert(d[k as int] == a@[k as int]@ && w[k as int] == v@[k as int]@);
        if k != m {
            next = next.min(&a[k][k]);
        }
        vector.push(v[k][m]);
        k = k + 1;
    }
    assert(vector@ =~= column_of(w, m as int));
    assert(d[m as int] == a@[m as int]@);
    let least: Double = a[m][m];
    (vector, least, next)
}

/// Eigenvector for the smallest eigenvalue of a symmetric matrix. `a` is used up.
pub fn smallest_eigenvector_sym(a: &mut Matrix) -> (vector: Vec<Double>)
    requires
        old(a)@.len() >= 1,
        solve::is_shaped(solve::entries(old(a)@), old(a)@.len() as int, old(a)@.len() as int),
    ensures
        vector@ == eigenpair(solve::entries(old(a)@)).0,
{
    let (vector, _, _) = smallest_eigenpair_sym(a);
    vector
}

} // verus!
