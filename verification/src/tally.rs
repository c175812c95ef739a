//! Sums over a population.

use crate::agent::Agent;
use vstd::prelude::*;

verus! {

/// The sum of `weight` over the agents of a population.
pub open spec fn sum_over(agents: Seq<Agent>, weight: spec_fn(Agent) -> int) -> int
    decreases agents.len(),
{
    if agents.len() == 0 {
        0
    } else {
        sum_over(agents.drop_last(), weight) + weight(agents.last())
    }
}

/// The welfare that the agents hold: the sum of their utilities.
pub open spec fn total_utility(agents: Seq<Agent>) -> int {
    sum_over(agents, |a: Agent| a.utility as int)
}

/// The value that the agents who traded brought to the market, buyers
/// counted up and sellers down.
pub open spec fn traded_value(agents: Seq<Agent>) -> int {
    sum_over(agents, |a: Agent| if a.traded { a.truthful_bid() } else { 0 })
}

/// The buyers who traded less the sellers who traded.
pub open spec fn traded_balance(agents: Seq<Agent>) -> int {
    sum_over(agents, |a: Agent| if a.traded { a.spec_sign() } else { 0 })
}

/// The value that the agents who traded in the benchmark brought to it,
/// buyers counted up and sellers down.
pub open spec fn benchmark_value(agents: Seq<Agent>) -> int {
    sum_over(agents, |a: Agent| if a.ce_traded { a.truthful_bid() } else { 0 })
}

/// The buyers who traded in the benchmark less the sellers who did.
pub open spec fn benchmark_balance(agents: Seq<Agent>) -> int {
    sum_over(agents, |a: Agent| if a.ce_traded { a.spec_sign() } else { 0 })
}

/// Replacing one agent moves a sum by the difference of the two weights.
pub proof fn lemma_sum_update(agents: Seq<Agent>, weight: spec_fn(Agent) -> int, i: int, next: Agent)
    requires
        0 <= i < agents.len(),
    ensures
        sum_over(agents.update(i, next), weight) == sum_over(agents, weight) - weight(agents[i])
            + weight(next),
    decreases agents.len(),
{
    let after = agents.update(i, next);
    if i == agents.len() - 1 {
        assert(after.drop_last() =~= agents.drop_last());
    } else {
        lemma_sum_update(agents.drop_last(), weight, i, next);
        assert(after.drop_last() =~= agents.drop_last().update(i, next));
    }
}

/// A sum of weights that vanish on every agent is zero.
pub proof fn lemma_sum_of_nothing(agents: Seq<Agent>, weight: spec_fn(Agent) -> int)
    requires
        forall|i: int| 0 <= i < agents.len() ==> weight(#[trigger] agents[i]) == 0,
    ensures
        sum_over(agents, weight) == 0,
    decreases agents.len(),
{
    if agents.len() > 0 {
        assert(forall|i: int|
            0 <= i < agents.len() - 1 ==> agents.drop_last()[i] == #[trigger] agents[i]);
        lemma_sum_of_nothing(agents.drop_last(), weight);
    }
}

/// Two populations whose agents weigh the same, place by place, sum to the
/// same.
pub proof fn lemma_sum_pointwise(
    left: Seq<Agent>,
    f: spec_fn(Agent) -> int,
    right: Seq<Agent>,
    g: spec_fn(Agent) -> int,
)
    requires
        left.len() == right.len(),
        forall|i: int| 0 <= i < left.len() ==> f(#[trigger] left[i]) == g(right[i]),
    ensures
        sum_over(left, f) == sum_over(right, g),
    decreases left.len(),
{
    if left.len() > 0 {
        assert forall|i: int| 0 <= i < left.len() - 1 implies f(#[trigger] left.drop_last()[i])
            == g(right.drop_last()[i]) by {
            assert(left.drop_last()[i] == left[i]);
            assert(right.drop_last()[i] == right[i]);
        }
        lemma_sum_pointwise(left.drop_last(), f, right.drop_last(), g);
        assert(f(left[left.len() - 1]) == g(right[left.len() - 1]));
    }
}

/// A sum of weights of bounded size is bounded by as many times the bound.
pub proof fn lemma_sum_bound(agents: Seq<Agent>, weight: spec_fn(Agent) -> int, bound: int)
    requires
        0 <= bound,
        forall|i: int| 0 <= i < agents.len() ==> -bound <= weight(#[trigger] agents[i]) <= bound,
    ensures
        -(bound * agents.len()) <= sum_over(agents, weight) <= bound * agents.len(),
    decreases agents.len(),
{
    if agents.len() > 0 {
        assert forall|i: int| 0 <= i < agents.len() - 1 implies -bound <= weight(
            #[trigger] agents.drop_last()[i],
        ) <= bound by {
            assert(agents.drop_last()[i] == agents[i]);
        }
        lemma_sum_bound(agents.drop_last(), weight, bound);
        let shorter = agents.len() - 1;
        assert(-bound <= weight(agents[shorter]) <= bound);
        assert(bound * agents.len() == bound * shorter + bound) by (nonlinear_arith)
            requires
                shorter == agents.len() - 1,
        ;
        assert(bound * agents.drop_last().len() == bound * shorter);
    } else {
        assert(bound * 0 == 0);
    }
}

} // verus!
