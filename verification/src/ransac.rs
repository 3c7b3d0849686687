//! RANSAC over minimal 4-point samples, with a deterministic sampler.
use vstd::prelude::*;

use crate::double::Double;
use crate::lcg;
use crate::lcg::Lcg;

verus! {

/// Points in a minimal sample.
pub const SAMPLE: usize = 4;

/// Number of sampled rounds.
pub const ROUNDS: usize = 200;

/// Seed of the sampler.
pub const SEED: u64 = 0x5EA_1157;

/// The first `m` indices drawn from state `s`.
pub open spec fn draws(s: int, n: int, m: nat) -> Seq<int> {
    Seq::new(m, |i: int| lcg::index_of(lcg::steps(s, (i + 1) as nat), n))
}

/// A sequence without the elements that occurred before.
pub open spec fn distinct(d: Seq<int>) -> Seq<int>
    decreases d.len(),
{
    if d.len() == 0 {
        Seq::empty()
    } else {
        let before = distinct(d.drop_last());
        if before.contains(d.last()) {
            before
        } else {
            before.push(d.last())
        }
    }
}

/// A sample is complete after exactly `m` draws from state `s`.
pub open spec fn completes(s: int, n: int, m: nat) -> bool {
    &&& m > 0
    &&& distinct(draws(s, n, m)).len() == SAMPLE
    &&& distinct(draws(s, n, (m - 1) as nat)).len() == SAMPLE - 1
}

/// How many draws a sample takes.
pub open spec fn draws_needed(s: int, n: int) -> nat {
    choose|m: nat| completes(s, n, m)
}

/// The sample drawn from state `s`: the first four distinct indices.
pub open spec fn sample_from(s: int, n: int) -> Seq<int> {
    distinct(draws(s, n, draws_needed(s, n)))
}

/// The state after a sample has been drawn.
pub open spec fn state_after(s: int, n: int) -> int {
    lcg::steps(s, draws_needed(s, n))
}

/// The state that round `r` draws its sample from.
pub open spec fn round_state(n: int, r: nat) -> int
    decreases r,
{
    if r == 0 {
        SEED as int
    } else {
        state_after(round_state(n, (r - 1) as nat), n)
    }
}

/// The sample of round `r`.
pub open spec fn round_sample(n: int, r: nat) -> Seq<int> {
    sample_from(round_state(n, r), n)
}

proof fn lemma_draws_extend(s: int, n: int, m: nat)
    ensures
        draws(s, n, m + 1).drop_last() == draws(s, n, m),
        draws(s, n, m + 1).last() == lcg::index_of(lcg::steps(s, m + 1), n),
{
    assert(draws(s, n, m + 1).drop_last() =~= draws(s, n, m));
}

proof fn lemma_distinct_grows(s: int, n: int, i: nat, j: nat)
    requires
        i <= j,
    ensures
        distinct(draws(s, n, i)).len() <= distinct(draws(s, n, j)).len(),
    decreases j,
{
    if i < j {
        lemma_distinct_grows(s, n, i, (j - 1) as nat);
        lemma_draws_extend(s, n, (j - 1) as nat);
    }
}

/// A sample is complete at one point only.
proof fn lemma_completes_once(s: int, n: int, i: nat, j: nat)
    requires
        completes(s, n, i),
        completes(s, n, j),
    ensures
        i == j,
{
    if i < j {
        lemma_distinct_grows(s, n, i, (j - 1) as nat);
    } else if j < i {
        lemma_distinct_grows(s, n, j, (i - 1) as nat);
    }
}

/// What is kept of a sequence is without repetition and drawn from it.
proof fn lemma_distinct(d: Seq<int>, n: int)
    requires
        forall|i: int| 0 <= i < d.len() ==> 0 <= #[trigger] d[i] < n,
    ensures
        distinct(d).no_duplicates(),
        forall|i: int| 0 <= i < distinct(d).len() ==> 0 <= #[trigger] distinct(d)[i] < n,
    decreases d.len(),
{
    if d.len() > 0 {
        lemma_distinct(d.drop_last(), n);
    }
}

/// A state that stands for an index which is not among the given ones.
proof fn lemma_fresh_state(chosen: Seq<int>, n: int) -> (target: int)
    requires
        n >= 4,
        chosen.len() <= 3,
    ensures
        0 <= target < lcg::states(),
        !chosen.contains(lcg::index_of(target, n)),
{
    let v: int = if !chosen.contains(0) {
        0
    } else if !chosen.contains(1) {
        1
    } else if !chosen.contains(2) {
        2
    } else {
        3
    };
    if chosen.contains(v) {
        let i0 = choose|i: int| 0 <= i < chosen.len() && chosen[i] == 0;
        let i1 = choose|i: int| 0 <= i < chosen.len() && chosen[i] == 1;
        let i2 = choose|i: int| 0 <= i < chosen.len() && chosen[i] == 2;
        let i3 = choose|i: int| 0 <= i < chosen.len() && chosen[i] == 3;
        assert(false);
    }
    let target = v * 0x2_0000_0000;
    assert(target / 0x2_0000_0000 == v);
    vstd::arithmetic::div_mod::lemma_small_mod(v as nat, n as nat);
    target
}

/// The number of further draws, one at least, until a fresh index comes up.
proof fn lemma_fresh_index_comes(s: int, chosen: Seq<int>, n: int) -> (k: nat)
    requires
        0 <= s < lcg::states(),
        n >= 4,
        chosen.len() <= 3,
    ensures
        k >= 1,
        !chosen.contains(lcg::index_of(lcg::steps(s, k), n)),
{
    let target = lemma_fresh_state(chosen, n);
    let next = lcg::step(s);
    vstd::arithmetic::div_mod::lemma_mod_bound(
        lcg::MULTIPLIER * s + lcg::INCREMENT,
        lcg::states(),
    );
    lcg::law_full_period(next, target);
    let j = choose|j: nat| j < lcg::states() && #[trigger] lcg::steps(next, j) == target;
    lcg::lemma_steps_compose(s, 1, j);
    reveal_with_fuel(lcg::steps, 2);
    assert(lcg::steps(s, 1) == next);
    1 + j
}

/// Draw four distinct indices below `n`.
pub fn draw_sample(rng: &mut Lcg, n: usize) -> (sample: [usize; 4])
    requires
        n >= 4,
    ensures
        sample@.map_values(|i: usize| i as int) == sample_from(old(rng).0 as int, n as int),
        final(rng).0 == state_after(old(rng).0 as int, n as int),
        forall|i: int| 0 <= i < 4 ==> #[trigger] sample[i] < n,
        forall|i: int, j: int| 0 <= i < j < 4 ==> sample[i] != sample[j],
{
    let ghost s = rng.0 as int;
    let ghost mut m: nat = 0;
    let mut chosen: Vec<usize> = Vec::new();
    let ghost mut wait: nat = 0;
    proof {
        assert(draws(s, n as int, 0) =~= Seq::<int>::empty());
        assert(chosen@.map_values(|i: usize| i as int) =~= distinct(draws(s, n as int, 0)));
        wait = lemma_fresh_index_comes(s, distinct(draws(s, n as int, m)), n as int);
    }
    while chosen.len() < SAMPLE
        invariant
            n >= 4,
            0 <= s < lcg::states(),
            rng.0 == lcg::steps(s, m),
            chosen@.map_values(|i: usize| i as int) == distinct(draws(s, n as int, m)),
            chosen@.len() <= 4,
            chosen@.len() == 4 ==> completes(s, n as int, m),
            chosen@.len() < 4 ==> wait >= 1 && !distinct(draws(s, n as int, m)).contains(
                lcg::index_of(lcg::steps(rng.0 as int, wait), n as int),
            ),
        decreases 4 - chosen@.len(), wait,
    {
        let ghost before = distinct(draws(s, n as int, m));
        let ghost at = rng.0 as int;
        let cand: usize = rng.next_below(n);
        proof {
            lemma_draws_extend(s, n as int, m);
            assert(lcg::steps(s, m + 1) == rng.0);
            lcg::lemma_steps_compose(at, 1, (wait - 1) as nat);
            reveal_with_fuel(lcg::steps, 2);
            assert(lcg::steps(at, 1) == rng.0);
            assert(before.len() == chosen@.len());
        }
        let known: bool = contains_index(&chosen, cand);
        proof {
            let ghost_view = chosen@.map_values(|i: usize| i as int);
            assert(before.contains(cand as int) == known) by {
                if known {
                    let k = choose|k: int| 0 <= k < chosen@.len() && chosen@[k] == cand;
                    assert(ghost_view[k] == cand as int);
                } else if before.contains(cand as int) {
                    let k = choose|k: int| 0 <= k < before.len() && before[k] == cand as int;
                    assert(ghost_view[k] == cand as int);
                    assert(chosen@[k] == cand);
                }
            }
        }
        if !known {
            chosen.push(cand);
            proof {
                assert(chosen@.map_values(|i: usize| i as int) =~= before.push(cand as int));
                m = m + 1;
                if chosen@.len() < 4 {
                    wait = lemma_fresh_index_comes(
                        rng.0 as int,
                        distinct(draws(s, n as int, m)),
                        n as int,
                    );
                }
            }
        } else {
            proof {
                m = m + 1;
                wait = (wait - 1) as nat;
                if wait == 0 {
                    assert(lcg::steps(rng.0 as int, 0) == rng.0);
                }
            }
        }
    }
    proof {
        lemma_completes_once(s, n as int, m, draws_needed(s, n as int));
        assert forall|i: int| 0 <= i < draws(s, n as int, m).len() implies 0 <= #[trigger] draws(
            s,
            n as int,
            m,
        )[i] < n by {
            vstd::arithmetic::div_mod::lemma_mod_bound(
                lcg::steps(s, (i + 1) as nat) / 0x2_0000_0000,
                n as int,
            );
        }
        lemma_distinct(draws(s, n as int, m), n as int);
        let v = chosen@.map_values(|i: usize| i as int);
        assert(v[0] == chosen@[0] && v[1] == chosen@[1] && v[2] == chosen@[2] && v[3]
            == chosen@[3]);
    }
    let sample: [usize; 4] = [chosen[0], chosen[1], chosen[2], chosen[3]];
    assert(sample@.map_values(|i: usize| i as int) =~= chosen@.map_values(|i: usize| i as int));
    sample
}

fn contains_index(list: &Vec<usize>, x: usize) -> (r: bool)
    ensures
        r == list@.contains(x),
{
    let mut i: usize = 0;
    while i < list.len()
        invariant
            i <= list@.len(),
            forall|k: int| 0 <= k < i ==> list@[k] != x,
        decreases list@.len() - i,
    {
        if list[i] == x {
            return true;
        }
        i = i + 1;
    }
    false
}

/// Number of inliers among the first `k` points.
pub open spec fn inliers_among(mask: Seq<bool>, k: int) -> int
    decreases k,
{
    if k <= 0 {
        0
    } else {
        inliers_among(mask, k - 1) + (if mask[k - 1] {
            1int
        } else {
            0int
        })
    }
}

/// Number of inliers.
pub open spec fn inlier_count(mask: Seq<bool>) -> int {
    inliers_among(mask, mask.len() as int)
}

/// Models of points, as functions: what is fitted to a sample of four, and how
/// far each point is from what a model says.
#[verifier::reject_recursive_types(M)]
pub struct Models<M> {
    pub fit: spec_fn(Seq<int>) -> Option<M>,
    pub errors: spec_fn(M) -> Seq<Double>,
}

/// `fit` and `errors` answer every question about `n` points, and `errors` has
/// an answer for each of them.
pub open spec fn are_models<
    M,
    Fit: Fn(usize, usize, usize, usize) -> Option<M>,
    Errors: Fn(&M) -> Vec<Double>,
>(fit: &Fit, errors: &Errors, n: int) -> bool {
    &&& forall|a: usize, b: usize, c: usize, d: usize|
        a < n && b < n && c < n && d < n ==> #[trigger] call_requires(fit, (a, b, c, d))
    &&& forall|m: &M| call_requires(errors, (m,))
    &&& forall|m: &M, x: Vec<Double>| #[trigger] call_ensures(errors, (m,), x) ==> x@.len() == n
}

/// Four indices as a sample.
pub open spec fn four(a: usize, b: usize, c: usize, d: usize) -> Seq<int> {
    seq![a as int, b as int, c as int, d as int]
}

/// `errors` computes `f`.
pub open spec fn are_errors<M, Errors: Fn(&M) -> Vec<Double>>(
    errors: &Errors,
    f: spec_fn(M) -> Seq<Double>,
) -> bool {
    forall|m: &M, x: Vec<Double>| #[trigger] call_ensures(errors, (m,), x) ==> x@ == f(*m)
}

/// `fit` and `errors` compute what `p` says.
pub open spec fn are_modelled<
    M,
    Fit: Fn(usize, usize, usize, usize) -> Option<M>,
    Errors: Fn(&M) -> Vec<Double>,
>(fit: &Fit, errors: &Errors, p: Models<M>) -> bool {
    &&& forall|a: usize, b: usize, c: usize, d: usize, m: Option<M>| #[trigger]
        call_ensures(fit, (a, b, c, d), m) ==> m == (p.fit)(four(a, b, c, d))
    &&& are_errors(errors, p.errors)
}

/// The inlier mask of a model.
pub open spec fn mask_of<M>(p: Models<M>, limit: Double, model: M) -> Seq<bool> {
    within((p.errors)(model), limit)
}

/// Which errors do not exceed the limit.
pub open spec fn within(errors: Seq<Double>, limit: Double) -> Seq<bool> {
    errors.map_values(|e: Double| e.at_most(limit))
}

/// Which errors do not exceed the limit.
pub fn errors_within(errors: &Vec<Double>, limit: &Double) -> (mask: Vec<bool>)
    ensures
        mask@ == within(errors@, *limit),
{
    let mut mask: Vec<bool> = Vec::new();
    let mut i: usize = 0;
    while i < errors.len()
        invariant
            i <= errors@.len(),
            mask@.len() == i,
            forall|k: int| 0 <= k < i ==> #[trigger] mask@[k] == errors@[k].at_most(*limit),
        decreases errors@.len() - i,
    {
        mask.push(errors[i].le(limit));
        i = i + 1;
    }
    assert(mask@ =~= within(errors@, *limit));
    mask
}

/// Inliers among all `n` points of the model of round `r`; none when no model
/// fits the sample.
pub open spec fn round_count<M>(p: Models<M>, limit: Double, n: int, r: nat) -> int {
    match (p.fit)(round_sample(n, r)) {
        Some(m) => if mask_of(p, limit, m).len() == n {
            inlier_count(mask_of(p, limit, m))
        } else {
            0
        },
        None => 0,
    }
}

/// Round `r` is the first of the first `rounds` with the most inliers.
pub open spec fn is_best_round<M>(
    p: Models<M>,
    limit: Double,
    n: int,
    rounds: nat,
    r: nat,
) -> bool {
    &&& r < rounds
    &&& forall|k: nat|
        k < rounds ==> #[trigger] round_count(p, limit, n, k) <= round_count(p, limit, n, r)
    &&& forall|k: nat| k < r
        ==> #[trigger] round_count(p, limit, n, k) < round_count(p, limit, n, r)
}

/// `c` is the model of round `r`, with its inliers.
pub open spec fn is_consensus<M>(
    p: Models<M>,
    limit: Double,
    n: int,
    r: nat,
    c: Consensus<M>,
) -> bool {
    &&& (p.fit)(round_sample(n, r)) == Some(c.model)
    &&& c.mask@ == mask_of(p, limit, c.model)
    &&& c.count == round_count(p, limit, n, r)
}

proof fn lemma_inliers_bound(mask: Seq<bool>, k: int)
    requires
        0 <= k <= mask.len(),
    ensures
        0 <= inliers_among(mask, k) <= k,
    decreases k,
{
    if k > 0 {
        lemma_inliers_bound(mask, k - 1);
    }
}

fn count_inliers(mask: &Vec<bool>) -> (count: usize)
    ensures
        count == inlier_count(mask@),
        count <= mask@.len(),
{
    let mut count: usize = 0;
    let mut i: usize = 0;
    while i < mask.len()
        invariant
            i <= mask@.len(),
            count == inliers_among(mask@, i as int),
            count <= i,
        decreases mask@.len() - i,
    {
        if mask[i] {
            count = count + 1;
        }
        i = i + 1;
    }
    count
}

/// A model that agrees with most points.
pub struct Consensus<M> {
    pub model: M,
    /// Which points are inliers.
    pub mask: Vec<bool>,
    pub count: usize,
}

/// No round has enough inliers to fit a model to.
pub open spec fn lacks_consensus<M>(p: Models<M>, limit: Double, n: int) -> bool {
    forall|r: nat| r < ROUNDS ==> #[trigger] round_count(p, limit, n, r) < SAMPLE
}

/// `c` is the model of the first round with the most inliers.
pub open spec fn is_best<M>(p: Models<M>, limit: Double, n: int, c: Consensus<M>) -> bool {
    exists|r: nat| #[trigger]
        is_best_round(p, limit, n, ROUNDS as nat, r) && is_consensus(p, limit, n, r, c)
}

/// The model of the first of [`ROUNDS`] sampled rounds with the most inliers
/// among `n` points, those whose error does not exceed `limit`; `None` when none
/// has enough inliers to fit a model to.
pub fn best_model<
    M,
    Fit: Fn(usize, usize, usize, usize) -> Option<M>,
    Errors: Fn(&M) -> Vec<Double>,
>(n: usize, fit: &Fit, errors: &Errors, limit: Double) -> (best: Option<Consensus<M>>)
    requires
        n >= 4,
        are_models::<M, Fit, Errors>(fit, errors, n as int),
    ensures
        best is None ==> forall|p: Models<M>| #[trigger]
            are_modelled(fit, errors, p) ==> lacks_consensus(p, limit, n as int),
        best matches Some(c) ==> {
            &&& c.count >= SAMPLE
            &&& c.count == inlier_count(c.mask@)
            &&& c.mask@.len() == n
            &&& forall|p: Models<M>| #[trigger]
                are_modelled(fit, errors, p) ==> is_best(p, limit, n as int, c)
        },
{
    let mut rng: Lcg = Lcg(SEED);
    let mut best: Option<Consensus<M>> = None;
    let mut best_count: usize = 0;
    let ghost mut best_round: nat = 0;
    let mut r: usize = 0;
    while r < ROUNDS
        invariant_except_break
            n >= 4,
            are_models::<M, Fit, Errors>(fit, errors, n as int),
            r <= ROUNDS,
            rng.0 == round_state(n as int, r as nat),
            best is None ==> best_count == 0 && forall|p: Models<M>, k: nat|
                #![trigger are_modelled(fit, errors, p), round_count(p, limit, n as int, k)]
                are_modelled(fit, errors, p) && k < r ==> round_count(p, limit, n as int, k) <= 0,
            best matches Some(c) ==> {
                &&& best_count == c.count
                &&& c.count > 0
                &&& c.count == inlier_count(c.mask@)
                &&& c.mask@.len() == n
                &&& forall|p: Models<M>| #[trigger]
                    are_modelled(fit, errors, p) ==> is_best_round(
                        p,
                        limit,
                        n as int,
                        r as nat,
                        best_round,
                    ) && is_consensus(p, limit, n as int, best_round, c)
            },
        ensures
            best is None ==> best_count == 0 && forall|p: Models<M>, k: nat|
                #![trigger are_modelled(fit, errors, p), round_count(p, limit, n as int, k)]
                are_modelled(fit, errors, p) && k < ROUNDS ==> round_count(p, limit, n as int, k)
                    <= 0,
            best matches Some(c) ==> {
                &&& best_count == c.count
                &&& c.count > 0
                &&& c.count == inlier_count(c.mask@)
                &&& c.mask@.len() == n
                &&& forall|p: Models<M>| #[trigger]
                    are_modelled(fit, errors, p) ==> is_best_round(
                        p,
                        limit,
                        n as int,
                        ROUNDS as nat,
                        best_round,
                    ) && is_consensus(p, limit, n as int, best_round, c)
            },
        decreases ROUNDS - r,
    {
        let sample: [usize; 4] = draw_sample(&mut rng, n);
        let ghost drawn = round_sample(n as int, r as nat);
        proof {
            assert(sample@.map_values(|i: usize| i as int) =~= four(
                sample[0],
                sample[1],
                sample[2],
                sample[3],
            ));
        }
        let fitted: Option<M> = fit(sample[0], sample[1], sample[2], sample[3]);
        proof {
            assert(call_ensures(fit, (sample[0], sample[1], sample[2], sample[3]), fitted));
        }
        match fitted {
            None => {
                proof {
                    assert forall|p: Models<M>| #[trigger]
                        are_modelled(fit, errors, p) implies round_count(
                        p,
                        limit,
                        n as int,
                        r as nat,
                    ) == 0 by {}
                }
            },
            Some(model) => {
                let off: Vec<Double> = errors(&model);
                let mask: Vec<bool> = errors_within(&off, &limit);
                let count: usize = count_inliers(&mask);
                let ghost fit_model = model;
                let ghost inlying = mask@;
                proof {
                    assert(call_ensures(errors, (&model,), off));
                    assert forall|p: Models<M>| #[trigger]
                        are_modelled(fit, errors, p) implies round_count(
                        p,
                        limit,
                        n as int,
                        r as nat,
                    ) == count && (p.fit)(drawn) == Some(fit_model) && inlying == mask_of(
                        p,
                        limit,
                        fit_model,
                    ) by {}
                }
                if count > best_count {
                    proof {
                        assert forall|p: Models<M>| #[trigger]
                            are_modelled(fit, errors, p) implies is_best_round(
                            p,
                            limit,
                            n as int,
                            (r + 1) as nat,
                            r as nat,
                        ) by {
                            assert forall|k: nat| k < r implies #[trigger] round_count(
                                p,
                                limit,
                                n as int,
                                k,
                            ) < count by {
                                if best is Some {
                                    assert(is_best_round(
                                        p,
                                        limit,
                                        n as int,
                                        r as nat,
                                        best_round,
                                    ));
                                }
                            }
                        }
                    }
                    best_count = count;
                    proof {
                        best_round = r as nat;
                    }
                    best = Some(Consensus { model, mask, count });
                    if count == n {
                        proof {
                            assert forall|p: Models<M>| #[trigger]
                                are_modelled(fit, errors, p) implies is_best_round(
                                p,
                                limit,
                                n as int,
                                ROUNDS as nat,
                                r as nat,
                            ) by {
                                assert forall|k: nat| k < ROUNDS implies #[trigger] round_count(
                                    p,
                                    limit,
                                    n as int,
                                    k,
                                ) <= n by {
                                    lemma_round_count_bound(p, limit, n as int, k);
                                }
                                assert(is_best_round(
                                    p,
                                    limit,
                                    n as int,
                                    (r + 1) as nat,
                                    r as nat,
                                ));
                            }
                        }
                        break ;
                    }
                }
            },
        }
        r = r + 1;
    }
    if best_count < SAMPLE {
        proof {
            if best is Some {
                assert forall|p: Models<M>, k: nat|
                    #![trigger are_modelled(fit, errors, p), round_count(p, limit, n as int, k)]
                    are_modelled(fit, errors, p) && k < ROUNDS implies round_count(
                    p,
                    limit,
                    n as int,
                    k,
                ) < SAMPLE by {
                    assert(is_best_round(p, limit, n as int, ROUNDS as nat, best_round));
                }
            }
        }
        return None;
    }
    best
}

proof fn lemma_round_count_bound<M>(p: Models<M>, limit: Double, n: int, r: nat)
    requires
        n >= 0,
    ensures
        round_count(p, limit, n, r) <= n,
{
    match (p.fit)(round_sample(n, r)) {
        Some(m) => {
            let mask = mask_of(p, limit, m);
            lemma_inliers_bound(mask, mask.len() as int);
        },
        None => {},
    }
}

} // verus!
