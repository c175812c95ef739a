//! What a market is: the contract that every clearing mechanism keeps, and
//! the notions that the mechanisms share.

use crate::agent::Agent;
use crate::book::{Order, OrderQueue};
use crate::tally::{total_utility, traded_balance, traded_value};
use vstd::prelude::*;

verus! {

/// Every agent of the population is priced: its value and its bid are within
/// their limits.
pub open spec fn ready(agents: Seq<Agent>) -> bool {
    forall|i: int| 0 <= i < agents.len() ==> (#[trigger] agents[i]).priced()
}

/// Every agent of the population is configured: its shading strength lies in
/// the unit interval.
pub open spec fn configured(agents: Seq<Agent>) -> bool {
    forall|i: int| 0 <= i < agents.len() ==> (#[trigger] agents[i]).configured()
}

/// No agent of the population holds an outcome.
pub open spec fn fresh(agents: Seq<Agent>) -> bool {
    forall|i: int|
        0 <= i < agents.len() ==> (#[trigger] agents[i]).utility == 0 && !agents[i].traded
}

/// Agent `i` is served before agent `j` of its side: it bids more, or bids
/// the same and stands first.
pub open spec fn precedes(agents: Seq<Agent>, i: int, j: int) -> bool {
    agents[i].bid > agents[j].bid || (agents[i].bid == agents[j].bid && i < j)
}

/// The buyer's bid reaches the seller's ask.
pub open spec fn crosses(buyer: Agent, seller: Agent) -> bool {
    -seller.bid <= buyer.bid
}

/// No buyer of the population reaches the ask of any seller.
pub open spec fn no_cross(agents: Seq<Agent>) -> bool {
    forall|b: int, s: int|
        0 <= b < agents.len() && 0 <= s < agents.len() && agents[b].buyer && !agents[s].buyer
            ==> !crosses(#[trigger] agents[b], #[trigger] agents[s])
}

/// What every market leaves behind: the same agents in the same places, with
/// nothing changed but their outcomes; and, where no agent held an outcome
/// before, outcomes that add up: each trade paid a buyer and a seller at one
/// price, so the utilities sum to the traded value and as many buyers as
/// sellers traded.
pub open spec fn settled(before: Seq<Agent>, after: Seq<Agent>) -> bool {
    &&& after.len() == before.len()
    &&& forall|i: int|
        0 <= i < before.len() ==> (#[trigger] after[i]).cleared() == before[i].cleared()
    &&& fresh(before) ==> total_utility(after) == traded_value(after) && traded_balance(after)
        == 0
}

/// A mechanism that clears a population whose bids are set.
pub trait Market {
    /// What the mechanism may make of a population: the population it
    /// leaves and the price it names.
    spec fn clears(&self, before: Seq<Agent>, after: Seq<Agent>, price: Option<i64>) -> bool;

    /// Clears the population and returns the price at which it traded, if it
    /// traded at all.
    fn simulate(&self, agents: &mut [Agent<'_>]) -> (price: Option<i64>)
        requires
            ready(old(agents)@),
        ensures
            self.clears(old(agents)@, final(agents)@, price),
            settled(old(agents)@, final(agents)@),
    ;
}

/// The places that a vector of indices names.
pub open spec fn places(picks: Seq<usize>) -> Seq<int> {
    Seq::new(picks.len(), |k: int| picks[k] as int)
}

/// Naming one more agent adds its place to the places named.
pub proof fn lemma_places_push(picks: Seq<usize>, next: usize)
    ensures
        places(picks.push(next)) == places(picks).push(next as int),
        forall|j: int|
            places(picks.push(next)).contains(j) <==> places(picks).contains(j) || j == next,
{
    let longer = places(picks.push(next));
    let pushed = places(picks).push(next as int);
    assert(longer =~= pushed);
    assert forall|j: int| longer.contains(j) <==> places(picks).contains(j) || j == next by {
        if places(picks).contains(j) {
            let k = choose|k: int| 0 <= k < places(picks).len() && places(picks)[k] == j;
            assert(pushed[k] == j);
        }
        if j == next {
            assert(pushed[picks.len() as int] == j);
        }
    }
}

/// Agent `i` is in the pool and is served before every other agent in it.
pub open spec fn is_foremost(agents: Seq<Agent>, pool: Set<int>, i: int) -> bool {
    &&& pool.contains(i)
    &&& forall|j: int| pool.contains(j) && j != i ==> precedes(agents, i, j)
}

/// `queue` holds one order for each agent of `pool`, at the agent's bid, and
/// nothing else.
pub open spec fn resting(queue: OrderQueue, agents: Seq<Agent>, pool: Set<int>) -> bool {
    forall|o: Order|
        #[trigger] queue@.count(o) == if pool.contains(o.agent as int) && o.agent < agents.len()
            && agents[o.agent as int].bid == o.bid {
            1nat
        } else {
            0nat
        }
}

/// The best order of a queue belongs to the foremost agent of its pool.
pub proof fn lemma_best_resting(queue: OrderQueue, agents: Seq<Agent>, pool: Set<int>, best: Order)
    requires
        agents.len() <= usize::MAX,
        forall|j: int| pool.contains(j) ==> 0 <= j < agents.len(),
        resting(queue, agents, pool),
        queue.is_best(best),
    ensures
        best.agent < agents.len(),
        agents[best.agent as int].bid == best.bid,
        is_foremost(agents, pool, best.agent as int),
{
    assert(queue@.count(best) > 0);
    assert forall|j: int| pool.contains(j) && j != best.agent implies precedes(
        agents,
        best.agent as int,
        j,
    ) by {
        let other = Order { bid: agents[j].bid, agent: j as usize };
        assert(queue@.count(other) == 1);
        assert(queue@.contains(other));
        assert(!other.outranks(best));
    }
}

/// A queue without orders has an empty pool.
pub proof fn lemma_none_resting(queue: OrderQueue, agents: Seq<Agent>, pool: Set<int>, j: int)
    requires
        agents.len() <= usize::MAX,
        forall|j: int| pool.contains(j) ==> 0 <= j < agents.len(),
        resting(queue, agents, pool),
        queue@.len() == 0,
    ensures
        !pool.contains(j),
{
    if pool.contains(j) {
        let other = Order { bid: agents[j].bid, agent: j as usize };
        assert(queue@.count(other) == 1);
        assert(queue@.contains(other));
        assert(queue@.len() > 0) by {
            broadcast use vstd::multiset::group_multiset_axioms;

            assert(queue@.remove(other).len() >= 0);
        }
    }
}

/// Taking the best order from a queue takes its agent from the pool.
pub proof fn lemma_rest_taken(
    before: OrderQueue,
    after: OrderQueue,
    agents: Seq<Agent>,
    pool: Set<int>,
    best: Order,
)
    requires
        resting(before, agents, pool),
        before@.contains(best),
        after@ == before@.remove(best),
    ensures
        resting(after, agents, pool.remove(best.agent as int)),
{
    broadcast use vstd::multiset::group_multiset_axioms;

    assert(before@.count(best) > 0);
    assert forall|o: Order|
        #[trigger] after@.count(o) == if pool.remove(best.agent as int).contains(o.agent as int)
            && o.agent < agents.len() && agents[o.agent as int].bid == o.bid {
            1nat
        } else {
            0nat
        } by {
        assert(before@.count(o) >= 0);
    }
}

} // verus!
