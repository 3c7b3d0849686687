//! What fitting a quad promises of the outline it is fitted to.
use vstd::prelude::*;

use crate::double;
use crate::double::Double;
use crate::quad;

verus! {

/// No point of an outline is farther away than the one it is split at.
pub proof fn law_outline_is_split_at_the_farthest_point(
    pts: Seq<(int, int)>,
    c: (int, int),
    n: int,
)
    requires
        1 <= n <= pts.len(),
    ensures
        0 <= quad::last_farthest(pts, c, n) < n,
        forall|i: int|
            0 <= i < n ==> quad::dist2(c, #[trigger] pts[i]) <= quad::dist2(
                c,
                pts[quad::last_farthest(pts, c, n)],
            ),
    decreases n,
{
    if n > 1 {
        law_outline_is_split_at_the_farthest_point(pts, c, n - 1);
    }
}

/// A simplified chain starts and ends where the chain does, and goes through points of the
/// chain only.
pub proof fn law_simplified_chain_keeps_its_ends(tol: Double, chain: Seq<(int, int)>)
    requires
        chain.len() >= 2,
    ensures
        2 <= quad::simplified(tol, chain).len() <= chain.len(),
        quad::simplified(tol, chain)[0] == chain[0],
        quad::simplified(tol, chain).last() == chain.last(),
        forall|i: int|
            0 <= i < quad::simplified(tol, chain).len() ==> chain.contains(
                #[trigger] quad::simplified(tol, chain)[i],
            ),
    decreases chain.len(),
{
    let out = quad::simplified(tol, chain);
    let n = chain.len() as int;
    assert(chain.contains(chain[0]) && chain.contains(chain[n - 1]));
    if n > 2 {
        quad::lemma_first_peak_bounds(chain, n - 1);
        let peak = quad::first_peak(chain, n - 1);
        if tol.less(quad::deviation(chain, peak)) {
            let (a, b) = (chain.subrange(0, peak + 1), chain.subrange(peak, n));
            law_simplified_chain_keeps_its_ends(tol, a);
            law_simplified_chain_keeps_its_ends(tol, b);
            let (x, y) = (quad::simplified(tol, a), quad::simplified(tol, b));
            assert(out == x.drop_last() + y);
            assert forall|i: int| 0 <= i < out.len() implies chain.contains(
                #[trigger] out[i],
            ) by {
                if i < x.len() - 1 {
                    assert(out[i] == x[i]);
                    assert(a.contains(x[i]));
                    let k = choose|k: int| 0 <= k < a.len() && a[k] == x[i];
                    assert(chain[k] == x[i]);
                } else {
                    let j = i - (x.len() - 1);
                    assert(out[i] == y[j]);
                    assert(b.contains(y[j]));
                    let k = choose|k: int| 0 <= k < b.len() && b[k] == y[j];
                    assert(chain[peak + k] == y[j]);
                }
            }
        }
    } else {
        assert forall|i: int| 0 <= i < out.len() implies chain.contains(#[trigger] out[i]) by {
            assert(chain[i] == out[i]);
        }
    }
}

/// A chain is reduced to its ends if and only if no inner point of it is off by more than
/// the tolerance.
pub proof fn law_chain_is_cut_where_it_deviates(tol: Double, chain: Seq<(int, int)>)
    requires
        chain.len() > 2,
        forall|k: int|
            1 <= k < chain.len() - 1 ==> !(#[trigger] quad::deviation(chain, k)).nan(),
    ensures
        (quad::simplified(tol, chain) == seq![chain[0], chain.last()]) || (exists|k: int|
            1 <= k < chain.len() - 1 && tol.less(#[trigger] quad::deviation(chain, k))),
        (forall|k: int|
            1 <= k < chain.len() - 1 ==> !tol.less(#[trigger] quad::deviation(chain, k)))
            || quad::simplified(tol, chain).len() > 2,
{
    let n = chain.len() as int;
    quad::lemma_first_peak_bounds(chain, n - 1);
    let peak = quad::first_peak(chain, n - 1);
    if tol.less(quad::deviation(chain, peak)) {
        let (a, b) = (chain.subrange(0, peak + 1), chain.subrange(peak, n));
        law_simplified_chain_keeps_its_ends(tol, a);
        law_simplified_chain_keeps_its_ends(tol, b);
    } else {
        assert forall|k: int| 1 <= k < n - 1 implies !tol.less(
            #[trigger] quad::deviation(chain, k),
        ) by {
            quad::lemma_first_peak_is_maximal(chain, n - 1, k);
        }
    }
}

/// The chain with columns and rows exchanged.
pub open spec fn transposed(chain: Seq<(int, int)>) -> Seq<(int, int)> {
    chain.map_values(|p: (int, int)| (p.1, p.0))
}

proof fn lemma_sum_commutes(a: Double, b: Double)
    ensures
        double::sum(a, b) == double::sum(b, a),
{
    double::lemma_sum(a, b);
    double::lemma_sum(b, a);
    double::lemma_sum_unique(a, b, double::sum(a, b), double::sum(b, a));
}

/// The length of a step is the same with columns and rows exchanged.
pub proof fn law_lengths_ignore_orientation(p: (int, int), q: (int, int))
    ensures
        quad::length(quad::step((p.1, p.0), (q.1, q.0))) == quad::length(quad::step(p, q)),
{
    let u = quad::step(p, q);
    lemma_sum_commutes(double::product(u.0, u.0), double::product(u.1, u.1));
}

} // verus!
