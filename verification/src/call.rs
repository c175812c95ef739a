//! The call market: every agent bids at once, and all who trade do so at one
//! price.

use crate::agent::Agent;
use crate::book::{Order, OrderQueue};
use crate::fixed::{floor_div, BID_LIMIT, UNIT};
use crate::market::{
    crosses, fresh, lemma_best_resting, lemma_none_resting, lemma_places_push, lemma_rest_taken,
    no_cross, places, precedes, ready, resting, settled, Market,
};
use crate::tally::{
    lemma_sum_of_nothing, lemma_sum_update, total_utility, traded_balance, traded_value,
};
use vstd::prelude::*;

verus! {

/// `picks` names agents of one side, each once and best first, and every
/// agent of that side that it leaves out comes after all of them.
pub open spec fn is_top(agents: Seq<Agent>, buyer: bool, picks: Seq<int>) -> bool {
    &&& forall|r: int|
        0 <= r < picks.len() ==> 0 <= #[trigger] picks[r] < agents.len()
            && agents[picks[r]].buyer == buyer
    &&& forall|a: int, b: int|
        0 <= a < b < picks.len() ==> precedes(agents, #[trigger] picks[a], #[trigger] picks[b])
    &&& forall|r: int, j: int|
        0 <= r < picks.len() && 0 <= j < agents.len() && (#[trigger] agents[j]).buyer == buyer
            && !picks.contains(j) ==> precedes(agents, #[trigger] picks[r], j)
}

/// `buys` and `sells` are the two sides of the call market's matching: the
/// best buyers and as many of the best sellers, pair by pair across, and so
/// many of them that no buyer left out reaches a seller left out.
pub open spec fn is_call_matching(agents: Seq<Agent>, buys: Seq<int>, sells: Seq<int>) -> bool {
    &&& buys.len() == sells.len()
    &&& is_top(agents, true, buys)
    &&& is_top(agents, false, sells)
    &&& forall|r: int|
        0 <= r < buys.len() ==> crosses(agents[#[trigger] buys[r]], agents[sells[r]])
    &&& forall|b: int, s: int|
        0 <= b < agents.len() && 0 <= s < agents.len() && agents[b].buyer && !agents[s].buyer
            && !buys.contains(b) && !sells.contains(s) ==> !crosses(
            #[trigger] agents[b],
            #[trigger] agents[s],
        )
}

/// The price half way between a bid and an ask, rounded down to the grid.
pub open spec fn midpoint(bid: int, ask: int) -> int {
    (bid + ask) / 2
}

/// The uniform price of a matching: the midpoint of its last pair.
pub open spec fn call_price(agents: Seq<Agent>, buys: Seq<int>, sells: Seq<int>) -> Option<i64> {
    if buys.len() == 0 || sells.len() == 0 {
        None
    } else {
        Some(midpoint(agents[buys.last()].bid as int, -agents[sells.last()].bid) as i64)
    }
}

/// The population after each agent named in `taken` has traded at `price`.
pub open spec fn settle(agents: Seq<Agent>, taken: Seq<int>, price: int) -> Seq<Agent> {
    Seq::new(
        agents.len(),
        |i: int|
            if taken.contains(i) {
                agents[i].transacted(price)
            } else {
                agents[i]
            },
    )
}

/// The population after a matching has cleared at its price.
pub open spec fn call_outcome(agents: Seq<Agent>, buys: Seq<int>, sells: Seq<int>) -> Seq<
    Agent,
> {
    match call_price(agents, buys, sells) {
        Some(price) => settle(agents, buys + sells, price as int),
        None => agents,
    }
}

/// The agents of one side that `taken` does not name.
pub open spec fn waiting(agents: Seq<Agent>, buyer: bool, taken: Seq<int>) -> Set<int> {
    Set::new(|j: int| 0 <= j < agents.len() && agents[j].buyer == buyer && !taken.contains(j))
}

/// Lines the agents up in two queues, the buyers in the first.
fn line_up(agents: &[Agent<'_>]) -> (queues: (OrderQueue, OrderQueue))
    ensures
        queues.0.wf(),
        queues.1.wf(),
        resting(queues.0, agents@, waiting(agents@, true, Seq::empty())),
        resting(queues.1, agents@, waiting(agents@, false, Seq::empty())),
{
    let mut buys = OrderQueue::new();
    let mut sells = OrderQueue::new();
    let n: usize = agents.len();
    let mut i: usize = 0;
    while i < n
        invariant
            n == agents@.len(),
            i <= n,
            buys.wf(),
            sells.wf(),
            resting(
                buys,
                agents@.take(i as int),
                waiting(agents@.take(i as int), true, Seq::empty()),
            ),
            resting(
                sells,
                agents@.take(i as int),
                waiting(agents@.take(i as int), false, Seq::empty()),
            ),
        decreases n - i,
    {
        let order = Order { bid: agents[i].bid, agent: i };
        let ghost shorter = agents@.take(i as int);
        let ghost longer = agents@.take(i + 1);
        assert(forall|j: int| 0 <= j < i ==> shorter[j] == longer[j]);
        if agents[i].buyer {
            buys.push(order);
        } else {
            sells.push(order);
        }
        i += 1;
    }
    assert(agents@.take(n as int) =~= agents@);
    (buys, sells)
}

/// Taking the best order from a queue extends the picks of its side by the
/// agent that made it.
proof fn lemma_take_best(
    before: OrderQueue,
    after: OrderQueue,
    agents: Seq<Agent>,
    buyer: bool,
    taken: Seq<int>,
    best: Order,
)
    requires
        agents.len() <= usize::MAX,
        resting(before, agents, waiting(agents, buyer, taken)),
        is_top(agents, buyer, taken),
        before.is_best(best),
        after@ == before@.remove(best),
    ensures
        resting(after, agents, waiting(agents, buyer, taken.push(best.agent as int))),
        is_top(agents, buyer, taken.push(best.agent as int)),
{
    let pool = waiting(agents, buyer, taken);
    lemma_best_resting(before, agents, pool, best);
    lemma_rest_taken(before, after, agents, pool, best);
    let place = best.agent as int;
    let more = taken.push(place);
    assert forall|j: int| more.contains(j) <==> taken.contains(j) || j == place by {
        if taken.contains(j) {
            let k = choose|k: int| 0 <= k < taken.len() && taken[k] == j;
            assert(more[k] == j);
        }
        if j == place {
            assert(more[taken.len() as int] == j);
        }
    }
    assert(waiting(agents, buyer, more) =~= pool.remove(place));
    assert(pool.contains(place));
    assert forall|a: int, b: int| 0 <= a < b < more.len() implies precedes(
        agents,
        #[trigger] more[a],
        #[trigger] more[b],
    ) by {
        if b == taken.len() {
            assert(taken[a] == more[a]);
            assert(agents[place].buyer == buyer);
        } else {
            assert(taken[a] == more[a] && taken[b] == more[b]);
        }
    }
    assert forall|r: int, j: int|
        0 <= r < more.len() && 0 <= j < agents.len() && (#[trigger] agents[j]).buyer == buyer
            && !more.contains(j) implies precedes(agents, #[trigger] more[r], j) by {
        if r < taken.len() {
            assert(taken[r] == more[r]);
        } else {
            assert(pool.contains(j));
        }
    }
    assert forall|r: int| 0 <= r < more.len() implies 0 <= #[trigger] more[r] < agents.len()
        && agents[more[r]].buyer == buyer by {
        if r < taken.len() {
            assert(taken[r] == more[r]);
        }
    }
}

/// Takes pairs from the heads of the two queues for as long as they cross.
fn pair_off(agents: &[Agent<'_>], buys: OrderQueue, sells: OrderQueue) -> (picks: (
    Vec<usize>,
    Vec<usize>,
))
    requires
        ready(agents@),
        buys.wf(),
        sells.wf(),
        resting(buys, agents@, waiting(agents@, true, Seq::empty())),
        resting(sells, agents@, waiting(agents@, false, Seq::empty())),
    ensures
        is_call_matching(agents@, places(picks.0@), places(picks.1@)),
{
    let mut buys = buys;
    let mut sells = sells;
    let mut bought: Vec<usize> = Vec::new();
    let mut sold: Vec<usize> = Vec::new();
    let n: usize = agents.len();
    assert(places(bought@) =~= Seq::empty());
    assert(places(sold@) =~= Seq::empty());
    loop
        invariant
            n == agents@.len(),
            ready(agents@),
            buys.wf(),
            sells.wf(),
            bought.len() == sold.len(),
            resting(buys, agents@, waiting(agents@, true, places(bought@))),
            resting(sells, agents@, waiting(agents@, false, places(sold@))),
            is_top(agents@, true, places(bought@)),
            is_top(agents@, false, places(sold@)),
            forall|r: int|
                0 <= r < bought.len() ==> crosses(
                    agents@[#[trigger] places(bought@)[r]],
                    agents@[places(sold@)[r]],
                ),
        ensures
            is_call_matching(agents@, places(bought@), places(sold@)),
        decreases buys@.len(),
    {
        let ghost taken_buys = places(bought@);
        let ghost taken_sells = places(sold@);
        let bid: Option<Order> = buys.peek();
        let ask: Option<Order> = sells.peek();
        let (b, s) = match (bid, ask) {
            (Some(b), Some(s)) => (b, s),
            _ => {
                proof {
                    assert forall|i: int, j: int|
                        0 <= i < agents@.len() && 0 <= j < agents@.len() && agents@[i].buyer
                            && !agents@[j].buyer && !taken_buys.contains(i)
                            && !taken_sells.contains(j) implies !crosses(
                        #[trigger] agents@[i],
                        #[trigger] agents@[j],
                    ) by {
                        if bid.is_none() {
                            lemma_none_resting(buys, agents@, waiting(agents@, true, taken_buys), i);
                        } else {
                            lemma_none_resting(
                                sells,
                                agents@,
                                waiting(agents@, false, taken_sells),
                                j,
                            );
                        }
                    }
                }
                break ;
            },
        };
        proof {
            let idle_buys = waiting(agents@, true, taken_buys);
            let idle_sells = waiting(agents@, false, taken_sells);
            lemma_best_resting(buys, agents@, idle_buys, b);
            lemma_best_resting(sells, agents@, idle_sells, s);
            assert(idle_buys.contains(b.agent as int) && idle_sells.contains(s.agent as int));
            assert(agents@[b.agent as int].priced() && agents@[s.agent as int].priced());
            assert forall|i: int, j: int|
                0 <= i < agents@.len() && 0 <= j < agents@.len() && agents@[i].buyer
                    && !agents@[j].buyer && !taken_buys.contains(i) && !taken_sells.contains(j)
                    && !crosses(agents@[b.agent as int], agents@[s.agent as int]) implies !crosses(
                #[trigger] agents@[i],
                #[trigger] agents@[j],
            ) by {
                assert(idle_buys.contains(i) && idle_sells.contains(j));
            }
        }
        if !(-s.bid <= b.bid) {
            break ;
        }
        let ghost full_buys = buys;
        let ghost full_sells = sells;
        let popped_bid: Option<Order> = buys.pop();
        let popped_ask: Option<Order> = sells.pop();
        proof {
            full_buys.lemma_best_unique(b, popped_bid.unwrap());
            full_sells.lemma_best_unique(s, popped_ask.unwrap());
        }
        let ghost bought_before = bought@;
        let ghost sold_before = sold@;
        bought.push(b.agent);
        sold.push(s.agent);
        proof {
            lemma_places_push(bought_before, b.agent);
            lemma_places_push(sold_before, s.agent);
            lemma_take_best(full_buys, buys, agents@, true, taken_buys, b);
            lemma_take_best(full_sells, sells, agents@, false, taken_sells, s);
            assert forall|r: int| 0 <= r < bought.len() implies crosses(
                agents@[#[trigger] places(bought@)[r]],
                agents@[places(sold@)[r]],
            ) by {
                if r < taken_buys.len() {
                    assert(places(bought@)[r] == taken_buys[r]);
                    assert(places(sold@)[r] == taken_sells[r]);
                }
            }
        }
    }
    (bought, sold)
}

/// Records a trade at `price` for each agent that `picks` names.
fn settle_all(agents: &mut [Agent<'_>], picks: &Vec<usize>, price: i64)
    requires
        -BID_LIMIT <= price <= BID_LIMIT,
        forall|k: int|
            0 <= k < picks@.len() ==> (#[trigger] picks@[k]) < old(agents)@.len()
                && 0 <= old(agents)@[picks@[k] as int].value <= UNIT,
        forall|a: int, b: int| 0 <= a < b < picks@.len() ==> picks@[a] != picks@[b],
    ensures
        final(agents)@ == settle(old(agents)@, places(picks@), price as int),
{
    let count: usize = picks.len();
    let mut k: usize = 0;
    assert(agents@ =~= settle(old(agents)@, places(picks@.take(0)), price as int));
    while k < count
        invariant
            count == picks@.len(),
            k <= count,
            -BID_LIMIT <= price <= BID_LIMIT,
            agents@.len() == old(agents)@.len(),
            forall|k: int|
                0 <= k < picks@.len() ==> (#[trigger] picks@[k]) < old(agents)@.len()
                && 0 <= old(agents)@[picks@[k] as int].value <= UNIT,
            forall|a: int, b: int| 0 <= a < b < picks@.len() ==> picks@[a] != picks@[b],
            agents@ == settle(old(agents)@, places(picks@.take(k as int)), price as int),
        decreases count - k,
    {
        let place: usize = picks[k];
        let ghost before = agents@;
        let ghost done = places(picks@.take(k as int));
        proof {
            if done.contains(place as int) {
                let a = choose|a: int| 0 <= a < done.len() && done[a] == place as int;
                assert(picks@[a] == picks@[k as int]);
            }
            assert(before[place as int] == old(agents)@[place as int]);
        }
        agents[place].transact(price);
        proof {
            assert(picks@.take(k + 1) =~= picks@.take(k as int).push(place));
            lemma_places_push(picks@.take(k as int), place);
            assert(agents@ =~= settle(old(agents)@, places(picks@.take(k + 1)), price as int));
        }
        k += 1;
    }
    assert(picks@.take(count as int) =~= picks@);
}

/// Settling the sellers after the buyers settles the two together.
proof fn lemma_settle_twice(agents: Seq<Agent>, buys: Seq<int>, sells: Seq<int>, price: int)
    requires
        is_top(agents, true, buys),
        is_top(agents, false, sells),
    ensures
        settle(settle(agents, buys, price), sells, price) == settle(agents, buys + sells, price),
{
    let mid = settle(agents, buys, price);
    assert forall|j: int| (buys + sells).contains(j) <==> buys.contains(j) || sells.contains(
        j,
    ) by {
        if buys.contains(j) {
            let a = choose|a: int| 0 <= a < buys.len() && buys[a] == j;
            assert((buys + sells)[a] == j);
        }
        if sells.contains(j) {
            let a = choose|a: int| 0 <= a < sells.len() && sells[a] == j;
            assert((buys + sells)[buys.len() + a] == j);
        }
        if (buys + sells).contains(j) {
            let a = choose|a: int| 0 <= a < (buys + sells).len() && (buys + sells)[a] == j;
            if a < buys.len() {
                assert(buys[a] == j);
            } else {
                assert(sells[a - buys.len()] == j);
            }
        }
    }
    assert forall|j: int| 0 <= j < agents.len() && sells.contains(j) implies mid[j]
        == agents[j] by {
        let a = choose|a: int| 0 <= a < sells.len() && sells[a] == j;
        if buys.contains(j) {
            let b = choose|b: int| 0 <= b < buys.len() && buys[b] == j;
            assert(agents[buys[b]].buyer && !agents[sells[a]].buyer);
        }
    }
    assert(settle(mid, sells, price) =~= settle(agents, buys + sells, price));
}

/// Settling the agents of one side, none of whom held an outcome, moves the
/// balance of the traders by their number and keeps utility in step with
/// traded value.
pub proof fn lemma_settle_side(
    base: Seq<Agent>,
    taken: Seq<int>,
    price: int,
    buyer: bool,
)
    requires
        -BID_LIMIT <= price <= BID_LIMIT,
        forall|k: int|
            0 <= k < taken.len() ==> 0 <= #[trigger] taken[k] < base.len() && base[taken[k]].buyer
                == buyer && base[taken[k]].utility == 0 && !base[taken[k]].traded && 0
                <= base[taken[k]].value <= UNIT,
        forall|a: int, b: int| 0 <= a < b < taken.len() ==> taken[a] != taken[b],
    ensures
        traded_balance(settle(base, taken, price)) == traded_balance(base) + (if buyer {
            taken.len() as int
        } else {
            -(taken.len() as int)
        }),
        total_utility(settle(base, taken, price)) - traded_value(settle(base, taken, price))
            + price * traded_balance(settle(base, taken, price)) == total_utility(base)
            - traded_value(base) + price * traded_balance(base),
    decreases taken.len(),
{
    if taken.len() == 0 {
        assert(settle(base, taken, price) =~= base);
    } else {
        let fewer = taken.drop_last();
        let place = taken.last();
        let mid = settle(base, fewer, price);
        let end = settle(base, taken, price);
        assert forall|k: int| 0 <= k < fewer.len() implies 0 <= #[trigger] fewer[k] < base.len()
            && base[fewer[k]].buyer == buyer && base[fewer[k]].utility == 0
            && !base[fewer[k]].traded && 0 <= base[fewer[k]].value <= UNIT by {
            assert(fewer[k] == taken[k]);
        }
        assert forall|a: int, b: int| 0 <= a < b < fewer.len() implies fewer[a] != fewer[b] by {
            assert(fewer[a] == taken[a] && fewer[b] == taken[b]);
        }
        lemma_settle_side(base, fewer, price, buyer);
        if fewer.contains(place) {
            let a = choose|a: int| 0 <= a < fewer.len() && fewer[a] == place;
            assert(taken[a] == taken[taken.len() - 1]);
        }
        assert forall|j: int| taken.contains(j) <==> fewer.contains(j) || j == place by {
            if fewer.contains(j) {
                let a = choose|a: int| 0 <= a < fewer.len() && fewer[a] == j;
                assert(taken[a] == j);
            }
            if j == place {
                assert(taken[taken.len() - 1] == j);
            }
            if taken.contains(j) && j != place {
                let a = choose|a: int| 0 <= a < taken.len() && taken[a] == j;
                assert(fewer[a] == j);
            }
        }
        let agent = base[place];
        let next = agent.transacted(price);
        assert(end =~= mid.update(place, next));
        assert(mid[place] == agent);
        lemma_sum_update(mid, |a: Agent| a.utility as int, place, next);
        lemma_sum_update(mid, |a: Agent| if a.traded { a.truthful_bid() } else { 0 }, place, next);
        lemma_sum_update(mid, |a: Agent| if a.traded { a.spec_sign() } else { 0 }, place, next);
        let sign = agent.spec_sign();
        let value = agent.value as int;
        assert(agent.payoff(price) == sign * value - price * sign) by (nonlinear_arith)
            requires
                agent.payoff(price) == (value - price) * sign,
        ;
        assert(next.utility == agent.payoff(price));
        let balance = traded_balance(mid);
        assert(price * (balance + sign) == price * balance + price * sign) by (nonlinear_arith);
    }
}

/// The picks of one side name each agent at most once.
proof fn lemma_top_distinct(agents: Seq<Agent>, buyer: bool, picks: Seq<int>)
    requires
        is_top(agents, buyer, picks),
    ensures
        forall|a: int, b: int| 0 <= a < b < picks.len() ==> picks[a] != picks[b],
{
    assert forall|a: int, b: int| 0 <= a < b < picks.len() implies picks[a] != picks[b] by {
        assert(precedes(agents, picks[a], picks[b]));
    }
}

/// The price of a matching lies within the limit on bids.
pub proof fn lemma_call_price_range(agents: Seq<Agent>, buys: Seq<int>, sells: Seq<int>)
    requires
        ready(agents),
        is_call_matching(agents, buys, sells),
        buys.len() > 0,
    ensures
        -BID_LIMIT <= midpoint(agents[buys.last()].bid as int, -agents[sells.last()].bid)
            <= BID_LIMIT,
{
    let b = buys[buys.len() - 1];
    let s = sells[sells.len() - 1];
    assert(agents[b].priced() && agents[s].priced());
}

/// A matching that clears a population without outcomes leaves outcomes that
/// add up.
pub proof fn lemma_call_settled(agents: Seq<Agent>, buys: Seq<int>, sells: Seq<int>)
    requires
        ready(agents),
        is_call_matching(agents, buys, sells),
    ensures
        settled(agents, call_outcome(agents, buys, sells)),
{
    let after = call_outcome(agents, buys, sells);
    if fresh(agents) {
        lemma_sum_of_nothing(agents, |a: Agent| a.utility as int);
        lemma_sum_of_nothing(agents, |a: Agent| if a.traded { a.truthful_bid() } else { 0 });
        lemma_sum_of_nothing(agents, |a: Agent| if a.traded { a.spec_sign() } else { 0 });
    }
    if buys.len() > 0 {
        let price = call_price(agents, buys, sells).unwrap() as int;
        lemma_call_price_range(agents, buys, sells);
        let mid = settle(agents, buys, price);
        lemma_settle_twice(agents, buys, sells, price);
        assert(after == settle(mid, sells, price));
        assert forall|i: int| 0 <= i < agents.len() implies (#[trigger] after[i]).cleared()
            == agents[i].cleared() by {
            assert(mid[i].cleared() == agents[i].cleared());
        }
        if fresh(agents) {
            lemma_top_distinct(agents, true, buys);
            lemma_top_distinct(agents, false, sells);
            assert forall|k: int| 0 <= k < buys.len() implies 0 <= #[trigger] buys[k]
                < agents.len() && agents[buys[k]].buyer == true && agents[buys[k]].utility == 0
                && !agents[buys[k]].traded && 0 <= agents[buys[k]].value <= UNIT by {
                assert(agents[buys[k]].priced());
            }
            lemma_settle_side(agents, buys, price, true);
            assert forall|k: int| 0 <= k < sells.len() implies 0 <= #[trigger] sells[k]
                < mid.len() && mid[sells[k]].buyer == false && mid[sells[k]].utility == 0
                && !mid[sells[k]].traded && 0 <= mid[sells[k]].value <= UNIT by {
                assert(agents[sells[k]].priced());
                if buys.contains(sells[k]) {
                    let b = choose|b: int| 0 <= b < buys.len() && buys[b] == sells[k];
                    assert(agents[buys[b]].buyer && !agents[sells[k]].buyer);
                }
            }
            lemma_settle_side(mid, sells, price, false);
            assert(traded_balance(after) == 0);
            assert(price * traded_balance(after) == 0);
        }
    }
}

/// Where no bid reaches an ask the call market matches nobody: it names no
/// price and leaves the population as it was.
pub proof fn lemma_call_no_cross(agents: Seq<Agent>, buys: Seq<int>, sells: Seq<int>)
    requires
        is_call_matching(agents, buys, sells),
        no_cross(agents),
    ensures
        buys.len() == 0,
        sells.len() == 0,
        call_price(agents, buys, sells).is_none(),
        call_outcome(agents, buys, sells) == agents,
{
    if buys.len() > 0 {
        assert(crosses(agents[buys[0]], agents[sells[0]]));
    }
}

/// If two sets of picks agree below rank `r` and differ there, the pick of
/// the first is served before the pick of the second.
proof fn lemma_top_later(agents: Seq<Agent>, buyer: bool, one: Seq<int>, other: Seq<int>, r: int)
    requires
        is_top(agents, buyer, one),
        is_top(agents, buyer, other),
        0 <= r < one.len(),
        r < other.len(),
        forall|k: int| 0 <= k < r ==> one[k] == other[k],
        forall|a: int, b: int| 0 <= a < b < other.len() ==> other[a] != other[b],
        one[r] != other[r],
    ensures
        precedes(agents, one[r], other[r]),
{
    let rival = other[r];
    if one.contains(rival) {
        let k = choose|k: int| 0 <= k < one.len() && one[k] == rival;
        if k < r {
            assert(other[k] == other[r]);
        } else {
            assert(precedes(agents, one[r], one[k]));
        }
    } else {
        assert(agents[rival].buyer == buyer);
    }
}

/// Two sets of picks of one side agree on every rank that both reach.
proof fn lemma_top_agree(agents: Seq<Agent>, buyer: bool, one: Seq<int>, other: Seq<int>, r: int)
    requires
        is_top(agents, buyer, one),
        is_top(agents, buyer, other),
        0 <= r < one.len(),
        r < other.len(),
    ensures
        one[r] == other[r],
    decreases r,
{
    assert forall|k: int| 0 <= k < r implies one[k] == other[k] by {
        lemma_top_agree(agents, buyer, one, other, k);
    }
    lemma_top_distinct(agents, buyer, one);
    lemma_top_distinct(agents, buyer, other);
    if one[r] != other[r] {
        lemma_top_later(agents, buyer, one, other, r);
        lemma_top_later(agents, buyer, other, one, r);
    }
}

/// A call matching is as long as any other of the same population.
proof fn lemma_call_not_shorter(
    agents: Seq<Agent>,
    buys: Seq<int>,
    sells: Seq<int>,
    longer_buys: Seq<int>,
    longer_sells: Seq<int>,
)
    requires
        is_call_matching(agents, buys, sells),
        is_call_matching(agents, longer_buys, longer_sells),
    ensures
        longer_buys.len() <= buys.len(),
{
    if buys.len() < longer_buys.len() {
        let r = buys.len() as int;
        let b = longer_buys[r];
        let s = longer_sells[r];
        lemma_top_distinct(agents, true, longer_buys);
        lemma_top_distinct(agents, false, longer_sells);
        if buys.contains(b) {
            let k = choose|k: int| 0 <= k < buys.len() && buys[k] == b;
            lemma_top_agree(agents, true, buys, longer_buys, k);
            assert(longer_buys[k] == longer_buys[r]);
        }
        if sells.contains(s) {
            let k = choose|k: int| 0 <= k < sells.len() && sells[k] == s;
            lemma_top_agree(agents, false, sells, longer_sells, k);
            assert(longer_sells[k] == longer_sells[r]);
        }
        assert(crosses(agents[b], agents[s]));
        assert(agents[b].buyer && !agents[s].buyer);
    }
}

/// A population has one call matching: two matchings of the same population
/// name the same agents in the same order, and so clear at the same price
/// with the same outcome.
pub proof fn lemma_call_matching_unique(
    agents: Seq<Agent>,
    buys: Seq<int>,
    sells: Seq<int>,
    other_buys: Seq<int>,
    other_sells: Seq<int>,
)
    requires
        is_call_matching(agents, buys, sells),
        is_call_matching(agents, other_buys, other_sells),
    ensures
        buys == other_buys,
        sells == other_sells,
{
    lemma_call_not_shorter(agents, buys, sells, other_buys, other_sells);
    lemma_call_not_shorter(agents, other_buys, other_sells, buys, sells);
    assert forall|r: int| 0 <= r < buys.len() implies buys[r] == other_buys[r] && sells[r]
        == other_sells[r] by {
        lemma_top_agree(agents, true, buys, other_buys, r);
        lemma_top_agree(agents, false, sells, other_sells, r);
    }
    assert(buys =~= other_buys);
    assert(sells =~= other_sells);
}

/// The call market: every agent bids at once, and all who trade do so at one
/// price.
pub struct Call;

impl Market for Call {
    /// The population has a matching, and the market cleared it: it names
    /// the price of the matching and leaves its outcome.
    open spec fn clears(&self, before: Seq<Agent>, after: Seq<Agent>, price: Option<i64>) -> bool {
        exists|buys: Seq<int>, sells: Seq<int>|
            {
                &&& #[trigger] is_call_matching(before, buys, sells)
                &&& price == call_price(before, buys, sells)
                &&& after == call_outcome(before, buys, sells)
            }
    }

    /// Matches the best buyers with the best sellers for as long as bid
    /// reaches ask, and trades them all at the midpoint of the last pair.
    /// Agents that are not matched are left as they were.
    fn simulate(&self, agents: &mut [Agent<'_>]) -> (price: Option<i64>)
        ensures
            no_cross(old(agents)@) ==> price.is_none() && final(agents)@ == old(agents)@,
    {
        let queues = line_up(agents);
        let picks = pair_off(agents, queues.0, queues.1);
        let ghost buys = places(picks.0@);
        let ghost sells = places(picks.1@);
        proof {
            lemma_call_settled(agents@, buys, sells);
            if no_cross(agents@) {
                lemma_call_no_cross(agents@, buys, sells);
            }
        }
        let count: usize = picks.0.len();
        if count == 0 {
            assert(is_call_matching(agents@, buys, sells));
            return None;
        }
        let buyer: usize = picks.0[count - 1];
        let seller: usize = picks.1[count - 1];
        proof {
            lemma_call_price_range(agents@, buys, sells);
            lemma_top_distinct(agents@, true, buys);
            lemma_top_distinct(agents@, false, sells);
            assert(buys[count - 1] == buyer && sells[count - 1] == seller);
            assert(agents@[buyer as int].priced() && agents@[seller as int].priced());
        }
        let bid: i128 = agents[buyer].bid as i128;
        let ask: i128 = -(agents[seller].bid as i128);
        let price: i64 = floor_div(bid + ask, 2) as i64;
        proof {
            assert forall|k: int| 0 <= k < picks.0@.len() implies (#[trigger] picks.0@[k])
                < agents@.len() && 0 <= agents@[picks.0@[k] as int].value <= UNIT by {
                assert(buys[k] == picks.0@[k]);
                assert(agents@[buys[k]].priced());
            }
            assert forall|a: int, b: int| 0 <= a < b < picks.0@.len() implies picks.0@[a]
                != picks.0@[b] by {
                assert(buys[a] != buys[b]);
            }
        }
        settle_all(agents, &picks.0, price);
        let ghost mid = agents@;
        proof {
            assert forall|k: int| 0 <= k < picks.1@.len() implies (#[trigger] picks.1@[k])
                < agents@.len() && 0 <= agents@[picks.1@[k] as int].value <= UNIT by {
                assert(sells[k] == picks.1@[k]);
                assert(old(agents)@[sells[k]].priced());
            }
            assert forall|a: int, b: int| 0 <= a < b < picks.1@.len() implies picks.1@[a]
                != picks.1@[b] by {
                assert(sells[a] != sells[b]);
            }
        }
        settle_all(agents, &picks.1, price);
        proof {
            lemma_settle_twice(old(agents)@, buys, sells, price as int);
            assert(is_call_matching(old(agents)@, buys, sells));
        }
        Some(price)
    }
}

} // verus!
