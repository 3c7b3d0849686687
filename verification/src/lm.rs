//! Levenberg-Marquardt descent: the damping schedule, and when to stop. What a
//! state is, how it is linearized and how a damped step is solved for is the
//! caller's.
use vstd::prelude::*;

use crate::double;
use crate::double::Double;

verus! {

/// Damping to start with: the bits of 1e-3.
pub const FIRST_DAMPING: u64 = 0x3f50_624d_d2f1_a9fc;

/// A step that fails has the damping multiplied by this: the bits of 10.0.
pub const DAMP_MORE: u64 = 0x4024_0000_0000_0000;

/// A step that succeeds has the damping multiplied by this: the bits of 0.3.
pub const DAMP_LESS: u64 = 0x3fd3_3333_3333_3333;

/// Least damping: the bits of 1e-12.
pub const LEAST_DAMPING: u64 = 0x3d71_9799_812d_ea11;

/// Damped steps that are tried from one state.
pub const TRIES: usize = 8;

/// Least cost a relative decrease is taken of: the bits of 1e-30.
pub const LEAST_COST: u64 = 0x39b4_484b_feeb_c2a0;

/// When a descent has converged.
#[derive(Clone, Copy, Debug)]
pub enum Convergence {
    /// The cost is below this.
    CostBelow(Double),
    /// A step decreased the cost by less than this fraction of it.
    DecreaseBelow(Double),
}

/// A step from `before` to `after` is the last one.
pub open spec fn has_converged(rule: Convergence, before: Double, after: Double) -> bool {
    match rule {
        Convergence::CostBelow(least) => after.less(least),
        Convergence::DecreaseBelow(least) => (before - after).per(
            double::larger(before, Double { bits: LEAST_COST }),
        ).less(least),
    }
}

fn converged(rule: &Convergence, before: &Double, after: &Double) -> (done: bool)
    ensures
        done == has_converged(*rule, *before, *after),
{
    match rule {
        Convergence::CostBelow(least) => after.lt(least),
        Convergence::DecreaseBelow(least) => {
            ((*before - *after) / before.max(&Double::from_bits(LEAST_COST))).lt(least)
        },
    }
}

/// What a state is linearized to, as a function of what it holds.
pub type Linear<S, L> = spec_fn(S) -> L;

/// Where a damped step leads, and the cost there, if it can be solved for.
pub type Stepping<S, L> = spec_fn(S, L, Double) -> Option<(S, Double)>;

/// `linearize` computes `linear`.
pub open spec fn linearizes<S: View, L: View, Linearize: Fn(&S) -> L>(
    linearize: &Linearize,
    linear: Linear<S::V, L::V>,
) -> bool {
    forall|s: &S, l: L| #[trigger] call_ensures(linearize, (s,), l) ==> l@ == linear(s@)
}

/// What a step's result holds.
pub open spec fn reached<S: View>(r: Option<(S, Double)>) -> Option<(S::V, Double)> {
    match r {
        Some((s, cost)) => Some((s@, cost)),
        None => None,
    }
}

/// `step` computes `stepping`.
pub open spec fn steps<S: View, L: View, Step: Fn(&S, &L, &Double) -> Option<(S, Double)>>(
    step: &Step,
    stepping: Stepping<S::V, L::V>,
) -> bool {
    forall|s: &S, l: &L, d: &Double, r: Option<(S, Double)>| #[trigger]
        call_ensures(step, (s, l, d), r) ==> reached(r) == stepping(s@, l@, *d)
}

/// `linearize` and `step` answer every question.
pub open spec fn are_steps<
    S,
    L,
    Linearize: Fn(&S) -> L,
    Step: Fn(&S, &L, &Double) -> Option<(S, Double)>,
>(linearize: &Linearize, step: &Step) -> bool {
    &&& forall|s: &S| call_requires(linearize, (s,))
    &&& forall|s: &S, l: &L, d: &Double| call_requires(step, (s, l, d))
}

/// The first of at most `tries` steps, each damped more than the one before,
/// that decreases the cost, with the damping to go on with.
pub open spec fn improvement<S, L>(
    stepping: Stepping<S, L>,
    s: S,
    l: L,
    cost: Double,
    damping: Double,
    tries: nat,
) -> Option<(S, Double, Double)>
    decreases tries,
{
    if tries == 0 {
        None
    } else {
        match stepping(s, l, damping) {
            Some((next, lower)) if lower.less(cost) => Some(
                (
                    next,
                    lower,
                    double::larger(
                        damping * Double { bits: DAMP_LESS },
                        Double { bits: LEAST_DAMPING },
                    ),
                ),
            ),
            _ => improvement(
                stepping,
                s,
                l,
                cost,
                damping * Double { bits: DAMP_MORE },
                (tries - 1) as nat,
            ),
        }
    }
}

/// Where a descent of at most `iterations` steps ends, and the cost there.
pub open spec fn descended<S, L>(
    linear: Linear<S, L>,
    stepping: Stepping<S, L>,
    rule: Convergence,
    s: S,
    cost: Double,
    damping: Double,
    iterations: nat,
) -> (S, Double)
    decreases iterations,
{
    if iterations == 0 {
        (s, cost)
    } else {
        match improvement(stepping, s, linear(s), cost, damping, TRIES as nat) {
            None => (s, cost),
            Some((next, lower, less)) => if has_converged(rule, cost, lower) {
                (next, lower)
            } else {
                descended(linear, stepping, rule, next, lower, less, (iterations - 1) as nat)
            },
        }
    }
}

/// A descent from a state and its cost, with the damping to start with.
pub open spec fn descent<S, L>(
    linear: Linear<S, L>,
    stepping: Stepping<S, L>,
    rule: Convergence,
    s: S,
    cost: Double,
    iterations: nat,
) -> (S, Double) {
    descended(linear, stepping, rule, s, cost, Double { bits: FIRST_DAMPING }, iterations)
}

/// What an improvement holds.
pub open spec fn improved<S: View>(r: Option<(S, Double, Double)>) -> Option<
    (S::V, Double, Double),
> {
    match r {
        Some((s, cost, damping)) => Some((s@, cost, damping)),
        None => None,
    }
}

/// Try damped steps from a state until one decreases the cost.
fn improve<S: View, L: View, Step: Fn(&S, &L, &Double) -> Option<(S, Double)>>(
    step: &Step,
    s: &S,
    l: &L,
    cost: &Double,
    first: Double,
) -> (found: Option<(S, Double, Double)>)
    requires
        forall|s: &S, l: &L, d: &Double| call_requires(step, (s, l, d)),
    ensures
        forall|stepping: Stepping<S::V, L::V>| #[trigger]
            steps(step, stepping) ==> improved(found) == improvement(
                stepping,
                s@,
                l@,
                *cost,
                first,
                TRIES as nat,
            ),
        found matches Some((_, lower, _)) ==> lower.less(*cost),
{
    let mut damping: Double = first;
    let mut i: usize = 0;
    while i < TRIES
        invariant
            i <= TRIES,
            forall|s: &S, l: &L, d: &Double| call_requires(step, (s, l, d)),
            forall|stepping: Stepping<S::V, L::V>| #[trigger]
                steps(step, stepping) ==> improvement(
                    stepping,
                    s@,
                    l@,
                    *cost,
                    first,
                    TRIES as nat,
                ) == improvement(stepping, s@, l@, *cost, damping, (TRIES - i) as nat),
        decreases TRIES - i,
    {
        let r: Option<(S, Double)> = step(s, l, &damping);
        let ghost result = r;
        proof {
            assert(call_ensures(step, (s, l, &damping), result));
        }
        if let Some((next, lower)) = r {
            if lower.lt(cost) {
                let less: Double = (damping * Double::from_bits(DAMP_LESS)).max(
                    &Double::from_bits(LEAST_DAMPING),
                );
                return Some((next, lower, less));
            }
        }
        damping = damping * Double::from_bits(DAMP_MORE);
        i = i + 1;
    }
    None
}

/// Descend from a state and its cost: in each of at most `iterations` rounds,
/// take the first of up to [`TRIES`] increasingly damped steps that decreases
/// the cost; stop where none does, or on convergence. `step` gives the state
/// and the cost that a damped step leads to, if it can be solved for. Whatever
/// functions of what a state holds `linearize` and `step` compute, the descent
/// is along them.
pub fn descend<
    S: View,
    L: View,
    Linearize: Fn(&S) -> L,
    Step: Fn(&S, &L, &Double) -> Option<(S, Double)>,
>(
    linearize: &Linearize,
    step: &Step,
    rule: Convergence,
    start: S,
    start_cost: Double,
    iterations: usize,
) -> (end: (S, Double))
    requires
        are_steps(linearize, step),
    ensures
        forall|linear: Linear<S::V, L::V>, stepping: Stepping<S::V, L::V>| #[trigger]
            linearizes(linearize, linear) && #[trigger] steps(step, stepping) ==> (end.0@, end.1)
                == descent(linear, stepping, rule, start@, start_cost, iterations as nat),
        end == (start, start_cost) || end.1.less(start_cost),
{
    let mut s: S = start;
    let mut cost: Double = start_cost;
    let mut damping: Double = Double::from_bits(FIRST_DAMPING);
    let mut i: usize = 0;
    while i < iterations
        invariant_except_break
            i <= iterations,
            are_steps(linearize, step),
            (s, cost) == (start, start_cost) || cost.less(start_cost),
            forall|linear: Linear<S::V, L::V>, stepping: Stepping<S::V, L::V>| #[trigger]
                linearizes(linearize, linear) && #[trigger] steps(step, stepping) ==> descent(
                    linear,
                    stepping,
                    rule,
                    start@,
                    start_cost,
                    iterations as nat,
                ) == descended(
                    linear,
                    stepping,
                    rule,
                    s@,
                    cost,
                    damping,
                    (iterations - i) as nat,
                ),
        ensures
            (s, cost) == (start, start_cost) || cost.less(start_cost),
            forall|linear: Linear<S::V, L::V>, stepping: Stepping<S::V, L::V>| #[trigger]
                linearizes(linearize, linear) && #[trigger] steps(step, stepping) ==> descent(
                    linear,
                    stepping,
                    rule,
                    start@,
                    start_cost,
                    iterations as nat,
                ) == (s@, cost),
        decreases iterations - i,
    {
        let l: L = linearize(&s);
        proof {
            assert(call_ensures(linearize, (&s,), l));
        }
        let found: Option<(S, Double, Double)> = improve(step, &s, &l, &cost, damping);
        let ghost better = found;
        proof {
            assert forall|linear: Linear<S::V, L::V>, stepping: Stepping<S::V, L::V>| #[trigger]
                linearizes(linearize, linear) && #[trigger] steps(
                step,
                stepping,
            ) implies improved(better) == improvement(
                stepping,
                s@,
                linear(s@),
                cost,
                damping,
                TRIES as nat,
            ) by {
                assert(l@ == linear(s@));
            }
        }
        match found {
            None => {
                break ;
            },
            Some((next, lower, less)) => {
                let done: bool = converged(&rule, &cost, &lower);
                s = next;
                cost = lower;
                damping = less;
                if done {
                    break ;
                }
            },
        }
        i = i + 1;
    }
    (s, cost)
}

proof fn lemma_improvement_is_lower<S, L>(
    stepping: Stepping<S, L>,
    s: S,
    l: L,
    cost: Double,
    damping: Double,
    tries: nat,
)
    ensures
        improvement(stepping, s, l, cost, damping, tries) matches Some((_, lower, _))
            ==> lower.less(cost),
    decreases tries,
{
    if tries > 0 {
        lemma_improvement_is_lower(
            stepping,
            s,
            l,
            cost,
            damping * Double { bits: DAMP_MORE },
            (tries - 1) as nat,
        );
    }
}

/// A descent ends where it began, or at a lower cost.
pub proof fn law_descent_never_climbs<S, L>(
    linear: Linear<S, L>,
    stepping: Stepping<S, L>,
    rule: Convergence,
    s: S,
    cost: Double,
    damping: Double,
    iterations: nat,
)
    ensures
        descended(linear, stepping, rule, s, cost, damping, iterations) == (s, cost) || descended(
            linear,
            stepping,
            rule,
            s,
            cost,
            damping,
            iterations,
        ).1.less(cost),
    decreases iterations,
{
    if iterations > 0 {
        let l = linear(s);
        lemma_improvement_is_lower(stepping, s, l, cost, damping, TRIES as nat);
        match improvement(stepping, s, l, cost, damping, TRIES as nat) {
            None => {},
            Some((next, lower, less)) => {
                law_descent_never_climbs(
                    linear,
                    stepping,
                    rule,
                    next,
                    lower,
                    less,
                    (iterations - 1) as nat,
                );
            },
        }
    }
}

} // verus!
