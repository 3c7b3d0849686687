//! Linear systems of doubles: Gaussian elimination with partial pivoting.
use vstd::prelude::*;

use crate::double::Double;

verus! {

/// A matrix, row by row.
pub type Matrix = Vec<Vec<Double>>;

/// Smallest pivot that counts as nonzero: the bits of 1e-12.
pub const LEAST_PIVOT: u64 = 0x3d71_9799_812d_ea11;

/// The entries of a matrix.
pub open spec fn entries(m: Seq<Vec<Double>>) -> Seq<Seq<Double>> {
    m.map_values(|row: Vec<Double>| row@)
}

/// A matrix of `rows` rows and `columns` columns.
pub open spec fn is_shaped(a: Seq<Seq<Double>>, rows: int, columns: int) -> bool {
    a.len() == rows && forall|r: int| 0 <= r < rows ==> (#[trigger] a[r]).len() == columns
}

/// The first of the rows from `col` to before `end` with the largest entry in
/// column `col`.
pub open spec fn pivot_of(a: Seq<Seq<Double>>, col: int, end: int) -> int
    decreases end - col,
{
    if end <= col + 1 {
        col
    } else {
        let best = pivot_of(a, col, end - 1);
        if a[best][col].size().less(a[end - 1][col].size()) {
            end - 1
        } else {
            best
        }
    }
}

/// A sequence with two entries exchanged.
pub open spec fn exchanged<T>(s: Seq<T>, i: int, j: int) -> Seq<T> {
    s.update(i, s[j]).update(j, s[i])
}

/// How often the pivot row is taken off a row.
pub open spec fn factor_of(row: Seq<Double>, pivot: Seq<Double>, col: int) -> Double {
    row[col].per(pivot[col])
}

/// A row whose entry in column `col` has been cleared.
pub open spec fn cleared(row: Seq<Double>, pivot: Seq<Double>, col: int) -> Seq<Double> {
    let f = factor_of(row, pivot, col);
    if f.same(Double { bits: 0 }) {
        row
    } else {
        Seq::new(
            row.len(),
            |k: int|
                if k < col {
                    row[k]
                } else {
                    row[k] - f * pivot[k]
                },
        )
    }
}

/// The right-hand side of a cleared row.
pub open spec fn cleared_side(
    side: Double,
    pivot_side: Double,
    row: Seq<Double>,
    pivot: Seq<Double>,
    col: int,
) -> Double {
    let f = factor_of(row, pivot, col);
    if f.same(Double { bits: 0 }) {
        side
    } else {
        side - f * pivot_side
    }
}

/// The rows below `col`, up to before `end`, cleared.
pub open spec fn eliminated(a: Seq<Seq<Double>>, col: int, end: int) -> Seq<Seq<Double>> {
    Seq::new(
        a.len(),
        |r: int|
            if col < r < end {
                cleared(a[r], a[col], col)
            } else {
                a[r]
            },
    )
}

/// The right-hand sides of the rows below `col`, up to before `end`.
pub open spec fn eliminated_sides(
    a: Seq<Seq<Double>>,
    b: Seq<Double>,
    col: int,
    end: int,
) -> Seq<Double> {
    Seq::new(
        b.len(),
        |r: int|
            if col < r < end {
                cleared_side(b[r], b[col], a[r], a[col], col)
            } else {
                b[r]
            },
    )
}

/// The triangular system that elimination from column `col` on leads to, if no
/// pivot vanishes.
pub open spec fn triangular(a: Seq<Seq<Double>>, b: Seq<Double>, n: int, col: int) -> Option<
    (Seq<Seq<Double>>, Seq<Double>),
>
    decreases n - col,
{
    if col >= n {
        Some((a, b))
    } else {
        let p = pivot_of(a, col, n);
        let u = exchanged(a, col, p);
        let v = exchanged(b, col, p);
        if a[p][col].size().less(Double { bits: LEAST_PIVOT }) {
            None
        } else {
            triangular(eliminated(u, col, n), eliminated_sides(u, v, col, n), n, col + 1)
        }
    }
}

/// What is left of unknown `col` once the known ones after it, up to before
/// `end`, are taken off.
pub open spec fn remainder(row: Seq<Double>, x: Seq<Double>, col: int, end: int) -> Double
    decreases end - col,
{
    if end <= col + 1 {
        x[col]
    } else {
        remainder(row, x, col, end - 1) - row[end - 1] * x[end - 1]
    }
}

/// A right-hand side with the unknowns from `col` on solved for.
pub open spec fn substituted(a: Seq<Seq<Double>>, b: Seq<Double>, col: int) -> Seq<Double>
    decreases a.len() - col,
{
    if col >= a.len() {
        b
    } else {
        let x = substituted(a, b, col + 1);
        x.update(col, remainder(a[col], x, col, a.len() as int).per(a[col][col]))
    }
}

/// The solution of `a * x = b`, if no pivot vanishes.
pub open spec fn solution(a: Seq<Seq<Double>>, b: Seq<Double>) -> Option<Seq<Double>> {
    match triangular(a, b, a.len() as int, 0) {
        None => None,
        Some((u, y)) => Some(substituted(u, y, 0)),
    }
}

/// A copy of a row.
pub fn copy_row(row: &Vec<Double>) -> (out: Vec<Double>)
    ensures
        out@ == row@,
{
    let mut out: Vec<Double> = Vec::new();
    let mut i: usize = 0;
    while i < row.len()
        invariant
            i <= row@.len(),
            out@ == row@.take(i as int),
        decreases row@.len() - i,
    {
        out.push(row[i]);
        i = i + 1;
    }
    assert(row@.take(i as int) =~= row@);
    out
}

/// A copy of a matrix.
pub fn copy_matrix(m: &Matrix) -> (out: Matrix)
    ensures
        entries(out@) == entries(m@),
{
    let mut out: Matrix = Vec::new();
    let mut i: usize = 0;
    while i < m.len()
        invariant
            i <= m@.len(),
            out@.len() == i,
            forall|r: int| 0 <= r < i ==> (#[trigger] out@[r])@ == m@[r]@,
        decreases m@.len() - i,
    {
        out.push(copy_row(&m[i]));
        i = i + 1;
    }
    assert(entries(out@) =~= entries(m@));
    out
}

fn find_pivot(a: &Matrix, col: usize) -> (p: usize)
    requires
        is_shaped(entries(a@), a@.len() as int, a@.len() as int),
        col < a@.len(),
    ensures
        p == pivot_of(entries(a@), col as int, a@.len() as int),
        col <= p < a@.len(),
{
    let mut p: usize = col;
    assert(a.len() == a@.len());
    let mut r: usize = col + 1;
    while r < a.len()
        invariant
            is_shaped(entries(a@), a@.len() as int, a@.len() as int),
            col < r <= a@.len(),
            col <= p < r,
            p == pivot_of(entries(a@), col as int, r as int),
        decreases a@.len() - r,
    {
        assert(entries(a@)[r as int] == a@[r as int]@ && entries(a@)[p as int] == a@[p as int]@);
        if a[p][col].abs().lt(&a[r][col].abs()) {
            p = r;
        }
        r = r + 1;
    }
    p
}

fn exchange_rows(a: &mut Matrix, i: usize, j: usize)
    requires
        i < old(a)@.len(),
        j < old(a)@.len(),
    ensures
        entries(final(a)@) == exchanged(entries(old(a)@), i as int, j as int),
{
    let ghost before = entries(a@);
    let ri: Vec<Double> = copy_row(&a[i]);
    let rj: Vec<Double> = copy_row(&a[j]);
    a.set(i, rj);
    a.set(j, ri);
    assert(entries(a@) =~= exchanged(before, i as int, j as int));
}

fn clear_row(row: &Vec<Double>, pivot: &Vec<Double>, col: usize, f: &Double) -> (out: Vec<Double>)
    requires
        col < row@.len(),
        pivot@.len() == row@.len(),
        *f == factor_of(row@, pivot@, col as int),
        !f.same(Double { bits: 0 }),
    ensures
        out@ == cleared(row@, pivot@, col as int),
{
    let mut out: Vec<Double> = Vec::new();
    let mut k: usize = 0;
    while k < row.len()
        invariant
            k <= row@.len(),
            pivot@.len() == row@.len(),
            out@.len() == k,
            forall|i: int|
                0 <= i < k ==> #[trigger] out@[i] == (if i < col {
                    row@[i]
                } else {
                    row@[i] - *f * pivot@[i]
                }),
        decreases row@.len() - k,
    {
        if k < col {
            out.push(row[k]);
        } else {
            out.push(row[k] - *f * pivot[k]);
        }
        k = k + 1;
    }
    assert(out@ =~= cleared(row@, pivot@, col as int));
    out
}

/// Clear column `col` below the diagonal.
fn eliminate(a: &mut Matrix, b: &mut Vec<Double>, col: usize)
    requires
        is_shaped(entries(old(a)@), old(a)@.len() as int, old(a)@.len() as int),
        old(b)@.len() == old(a)@.len(),
        col < old(a)@.len(),
    ensures
        entries(final(a)@) == eliminated(entries(old(a)@), col as int, old(a)@.len() as int),
        final(b)@ == eliminated_sides(
            entries(old(a)@),
            old(b)@,
            col as int,
            old(a)@.len() as int,
        ),
{
    let ghost n = a@.len() as int;
    let ghost rows = entries(a@);
    let ghost sides = b@;
    assert(a.len() == a@.len());
    let mut r: usize = col + 1;
    assert(entries(a@) =~= eliminated(rows, col as int, r as int));
    assert(b@ =~= eliminated_sides(rows, sides, col as int, r as int));
    while r < a.len()
        invariant
            n == rows.len(),
            a@.len() == n,
            b@.len() == n,
            sides.len() == n,
            col < r <= n,
            is_shaped(rows, n, n),
            entries(a@) == eliminated(rows, col as int, r as int),
            b@ == eliminated_sides(rows, sides, col as int, r as int),
        decreases n - r,
    {
        proof {
            assert(a@[r as int]@ == entries(a@)[r as int]);
            assert(a@[col as int]@ == entries(a@)[col as int]);
        }
        let ghost before = entries(a@);
        let f: Double = a[r][col] / a[col][col];
        if !f.equals(&Double::from_bits(0)) {
            let row: Vec<Double> = clear_row(&a[r], &a[col], col, &f);
            let side: Double = b[r] - f * b[col];
            a.set(r, row);
            b.set(r, side);
        }
        proof {
            let after = eliminated(rows, col as int, r + 1);
            assert forall|i: int| 0 <= i < n implies entries(a@)[i] == #[trigger] after[i] by {
                assert(before[i] == eliminated(rows, col as int, r as int)[i]);
            }
            assert(entries(a@) =~= after);
            assert(b@ =~= eliminated_sides(rows, sides, col as int, r + 1));
        }
        r = r + 1;
    }
}

proof fn lemma_elimination_keeps_shape(a: Seq<Seq<Double>>, n: int, col: int, p: int)
    requires
        is_shaped(a, n, n),
        0 <= col < n,
        0 <= p < n,
    ensures
        is_shaped(exchanged(a, col, p), n, n),
        is_shaped(eliminated(exchanged(a, col, p), col, n), n, n),
{
    let u = exchanged(a, col, p);
    assert forall|r: int| 0 <= r < n implies (#[trigger] u[r]).len() == n by {}
    let e = eliminated(u, col, n);
    assert forall|r: int| 0 <= r < n implies (#[trigger] e[r]).len() == n by {
        assert(u[r].len() == n && u[col].len() == n);
    }
}

/// Bring a system to triangular form.
fn triangulate(a: &mut Matrix, b: &mut Vec<Double>) -> (ok: bool)
    requires
        is_shaped(entries(old(a)@), old(a)@.len() as int, old(a)@.len() as int),
        old(b)@.len() == old(a)@.len(),
    ensures
        ok == triangular(entries(old(a)@), old(b)@, old(a)@.len() as int, 0) is Some,
        ok ==> triangular(entries(old(a)@), old(b)@, old(a)@.len() as int, 0)
            == Some((entries(final(a)@), final(b)@)),
        final(a)@.len() == old(a)@.len(),
        final(b)@.len() == old(b)@.len(),
        ok ==> is_shaped(entries(final(a)@), old(a)@.len() as int, old(a)@.len() as int),
{
    let ghost n = a@.len() as int;
    let ghost whole = triangular(entries(a@), b@, n, 0);
    let mut col: usize = 0;
    while col < a.len()
        invariant
            col <= n,
            a@.len() == n,
            b@.len() == n,
            is_shaped(entries(a@), n, n),
            whole == triangular(entries(a@), b@, n, col as int),
            n == old(a)@.len(),
            n == old(b)@.len(),
            whole == triangular(entries(old(a)@), old(b)@, old(a)@.len() as int, 0),
        decreases n - col,
    {
        let p: usize = find_pivot(a, col);
        let ghost rows = entries(a@);
        let ghost sides = b@;
        assert(rows[p as int] == a@[p as int]@);
        if a[p][col].abs().lt(&Double::from_bits(LEAST_PIVOT)) {
            return false;
        }
        proof {
            lemma_elimination_keeps_shape(rows, n, col as int, p as int);
        }
        if p != col {
            exchange_rows(a, col, p);
            let side: Double = b[col];
            let other: Double = b[p];
            b.set(col, other);
            b.set(p, side);
        }
        proof {
            assert(entries(a@) =~= exchanged(rows, col as int, p as int));
            assert(b@ =~= exchanged(sides, col as int, p as int));
        }
        eliminate(a, b, col);
        col = col + 1;
    }
    true
}

/// Solve a triangular system.
fn substitute(a: &Matrix, b: &mut Vec<Double>)
    requires
        is_shaped(entries(a@), a@.len() as int, a@.len() as int),
        old(b)@.len() == a@.len(),
    ensures
        final(b)@ == substituted(entries(a@), old(b)@, 0),
{
    let ghost n = a@.len() as int;
    let mut col: usize = a.len();
    while col > 0
        invariant
            n == a@.len(),
            col <= n,
            b@.len() == n,
            is_shaped(entries(a@), n, n),
            b@ == substituted(entries(a@), old(b)@, col as int),
        decreases col,
    {
        let c: usize = col - 1;
        let ghost row = entries(a@)[c as int];
        assert(a@[c as int]@ == row);
        let mut acc: Double = b[c];
        let mut k: usize = col;
        while k < a.len()
            invariant
                n == a@.len(),
                c < col <= k <= n,
                c + 1 == col,
                b@.len() == n,
                row == a@[c as int]@,
                row.len() == n,
                acc == remainder(row, b@, c as int, k as int),
            decreases n - k,
        {
            acc = acc - a[c][k] * b[k];
            k = k + 1;
        }
        let x: Double = acc / a[c][c];
        b.set(c, x);
        col = c;
    }
}

/// Solve `a * x = b` in place via Gaussian elimination with partial pivoting. On
/// success the solution is left in `b`; `a` is used up. False, if a pivot
/// vanishes.
pub fn solve_in_place(a: &mut Matrix, b: &mut Vec<Double>) -> (ok: bool)
    requires
        is_shaped(entries(old(a)@), old(a)@.len() as int, old(a)@.len() as int),
        old(b)@.len() == old(a)@.len(),
    ensures
        ok == solution(entries(old(a)@), old(b)@) is Some,
        ok ==> solution(entries(old(a)@), old(b)@) == Some(final(b)@),
        final(b)@.len() == old(b)@.len(),
{
    if !triangulate(a, b) {
        return false;
    }
    proof {
        lemma_substituted_length(entries(a@), b@, 0);
    }
    substitute(a, b);
    true
}

proof fn lemma_substituted_length(a: Seq<Seq<Double>>, b: Seq<Double>, col: int)
    requires
        0 <= col,
        b.len() == a.len(),
    ensures
        substituted(a, b, col).len() == b.len(),
    decreases a.len() - col,
{
    if col < a.len() {
        lemma_substituted_length(a, b, col + 1);
    }
}

} // verus!
