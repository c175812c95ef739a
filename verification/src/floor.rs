//! The model of the continuous double auction: what the floor looks like
//! after each arrival, and what holds of it.

use crate::agent::Agent;
use crate::fixed::{BID_LIMIT, UNIT};
use crate::market::{crosses, fresh, is_foremost, no_cross, precedes, ready, settled};
use crate::tally::{
    lemma_sum_of_nothing, lemma_sum_update, total_utility, traded_balance, traded_value,
};
use vstd::prelude::*;

verus! {

/// The floor of a continuous auction between two arrivals.
pub struct Floor<'a> {
    /// The population, with the outcomes of the trades made so far.
    pub agents: Seq<Agent<'a>>,
    /// The places of the buyers whose orders are at rest.
    pub buys: Set<int>,
    /// The places of the sellers whose orders are at rest.
    pub sells: Set<int>,
    /// How many trades were made.
    pub trades: nat,
    /// The sum of the prices of those trades.
    pub turnover: int,
}

/// The agent of the pool that is served first.
pub open spec fn foremost(agents: Seq<Agent>, pool: Set<int>) -> int {
    choose|i: int| is_foremost(agents, pool, i)
}

/// A pool has at most one foremost agent.
pub proof fn lemma_foremost_unique(agents: Seq<Agent>, pool: Set<int>, i: int)
    requires
        is_foremost(agents, pool, i),
    ensures
        foremost(agents, pool) == i,
{
    let j = foremost(agents, pool);
    assert(is_foremost(agents, pool, j));
    if j != i {
        assert(precedes(agents, i, j));
        assert(precedes(agents, j, i));
    }
}

/// The floor before anyone arrives.
pub open spec fn opening<'a>(agents: Seq<Agent<'a>>) -> Floor<'a> {
    Floor { agents, buys: Set::empty(), sells: Set::empty(), trades: 0, turnover: 0 }
}

/// The floor after the agent at `place` has arrived. A buyer whose bid
/// reaches the ask of the foremost seller at rest trades with that seller at
/// the ask; a seller whose ask is reached by the bid of the foremost buyer at
/// rest trades with that buyer at the bid; any other agent goes to rest.
pub open spec fn arrive<'a>(floor: Floor<'a>, place: int) -> Floor<'a> {
    let me = floor.agents[place];
    if me.buyer {
        let other = foremost(floor.agents, floor.sells);
        let you = floor.agents[other];
        if floor.sells.contains(other) && crosses(me, you) {
            let price = -you.bid;
            Floor {
                agents: floor.agents.update(place, me.transacted(price)).update(
                    other,
                    you.transacted(price),
                ),
                sells: floor.sells.remove(other),
                trades: floor.trades + 1,
                turnover: floor.turnover + price,
                ..floor
            }
        } else {
            Floor { buys: floor.buys.insert(place), ..floor }
        }
    } else {
        let other = foremost(floor.agents, floor.buys);
        let you = floor.agents[other];
        if floor.buys.contains(other) && crosses(you, me) {
            let price = you.bid as int;
            Floor {
                agents: floor.agents.update(place, me.transacted(price)).update(
                    other,
                    you.transacted(price),
                ),
                buys: floor.buys.remove(other),
                trades: floor.trades + 1,
                turnover: floor.turnover + price,
                ..floor
            }
        } else {
            Floor { sells: floor.sells.insert(place), ..floor }
        }
    }
}

/// The floor after the agents have arrived in the order given.
pub open spec fn cda_floor<'a>(agents: Seq<Agent<'a>>, order: Seq<int>) -> Floor<'a>
    decreases order.len(),
{
    if order.len() == 0 {
        opening(agents)
    } else {
        arrive(cda_floor(agents, order.drop_last()), order.last())
    }
}

/// The mean of the prices at which the floor traded, rounded down to the
/// grid; none where it did not trade.
pub open spec fn mean_price(floor: Floor) -> Option<i64> {
    if floor.trades == 0 {
        None
    } else {
        Some((floor.turnover / (floor.trades as int)) as i64)
    }
}

/// `order` names places of a population of `len` agents, each at most once.
pub open spec fn is_arrival_order(order: Seq<int>, len: nat) -> bool {
    &&& forall|k: int| 0 <= k < order.len() ==> 0 <= #[trigger] order[k] < len
    &&& forall|a: int, b: int| 0 <= a < b < order.len() ==> order[a] != order[b]
}

/// What holds of the floor after the agents in `arrived` have come to a
/// population that started as `before`.
pub open spec fn floor_inv(before: Seq<Agent>, arrived: Seq<int>, floor: Floor) -> bool {
    &&& floor.agents.len() == before.len()
    &&& forall|i: int|
        0 <= i < before.len() ==> (#[trigger] floor.agents[i]).cleared() == before[i].cleared()
    &&& forall|i: int|
        0 <= i < before.len() && !arrived.contains(i) ==> #[trigger] floor.agents[i] == before[i]
    &&& forall|j: int| #[trigger]
        floor.buys.contains(j) ==> 0 <= j < before.len() && arrived.contains(j) && before[j].buyer
            && floor.agents[j] == before[j]
    &&& forall|j: int| #[trigger]
        floor.sells.contains(j) ==> 0 <= j < before.len() && arrived.contains(j)
            && !before[j].buyer && floor.agents[j] == before[j]
    &&& floor.buys.finite()
    &&& floor.sells.finite()
    &&& 2 * floor.trades + floor.buys.len() + floor.sells.len() == arrived.len()
    &&& -BID_LIMIT * floor.trades <= floor.turnover <= BID_LIMIT * floor.trades
}

/// One more place in the order of arrival.
proof fn lemma_arrived_push(arrived: Seq<int>, place: int)
    ensures
        forall|j: int| arrived.push(place).contains(j) <==> arrived.contains(j) || j == place,
{
    let more = arrived.push(place);
    assert forall|j: int| more.contains(j) <==> arrived.contains(j) || j == place by {
        if arrived.contains(j) {
            let k = choose|k: int| 0 <= k < arrived.len() && arrived[k] == j;
            assert(more[k] == j);
        }
        if j == place {
            assert(more[arrived.len() as int] == j);
        }
    }
}

/// An arrival keeps the floor in order.
pub proof fn lemma_arrive_inv(before: Seq<Agent>, arrived: Seq<int>, floor: Floor, place: int)
    requires
        ready(before),
        floor_inv(before, arrived, floor),
        0 <= place < before.len(),
        !arrived.contains(place),
    ensures
        floor_inv(before, arrived.push(place), arrive(floor, place)),
{
    broadcast use vstd::set::group_set_axioms;

    lemma_arrived_push(arrived, place);
    let next = arrive(floor, place);
    let more = arrived.push(place);
    let me = floor.agents[place];
    assert(me == before[place]);
    assert(me.priced());
    let pool = if me.buyer {
        floor.sells
    } else {
        floor.buys
    };
    let other = foremost(floor.agents, pool);
    let you = floor.agents[other];
    let trade = pool.contains(other) && if me.buyer {
        crosses(me, you)
    } else {
        crosses(you, me)
    };
    if trade {
        assert(other != place);
        assert(you == before[other]);
        assert(you.priced());
        let price = if me.buyer {
            -you.bid
        } else {
            you.bid as int
        };
        assert(-BID_LIMIT <= price <= BID_LIMIT);
        assert(BID_LIMIT * (floor.trades + 1) == BID_LIMIT * floor.trades + BID_LIMIT)
            by (nonlinear_arith);
        assert forall|i: int| 0 <= i < before.len() implies (#[trigger] next.agents[i]).cleared()
            == before[i].cleared() by {
            assert(floor.agents[i].cleared() == before[i].cleared());
        }
        assert(floor.buys.contains(place) == false);
        assert(floor.sells.contains(place) == false);
    } else {
        assert(!floor.buys.contains(place));
        assert(!floor.sells.contains(place));
    }
}

/// The floor is in order after any arrivals.
pub proof fn lemma_cda_floor_inv(agents: Seq<Agent>, order: Seq<int>)
    requires
        ready(agents),
        is_arrival_order(order, agents.len()),
    ensures
        floor_inv(agents, order, cda_floor(agents, order)),
    decreases order.len(),
{
    broadcast use vstd::set::group_set_axioms;

    if order.len() > 0 {
        let fewer = order.drop_last();
        let place = order.last();
        lemma_arrival_order_shorter(order, agents.len());
        lemma_cda_floor_inv(agents, fewer);
        lemma_arrive_inv(agents, fewer, cda_floor(agents, fewer), place);
        assert(fewer.push(place) =~= order);
    }
}

/// What the outcomes of a floor add up to, where the population started
/// without outcomes: the utilities sum to the traded value, and as many
/// buyers as sellers have traded.
pub open spec fn sums_even(agents: Seq<Agent>) -> bool {
    &&& total_utility(agents) == traded_value(agents)
    &&& traded_balance(agents) == 0
}

/// An arrival keeps the outcomes adding up.
proof fn lemma_arrive_sums(before: Seq<Agent>, arrived: Seq<int>, floor: Floor, place: int)
    requires
        ready(before),
        fresh(before),
        floor_inv(before, arrived, floor),
        0 <= place < before.len(),
        !arrived.contains(place),
        sums_even(floor.agents),
    ensures
        sums_even(arrive(floor, place).agents),
{
    let me = floor.agents[place];
    assert(me == before[place]);
    assert(me.priced());
    let pool = if me.buyer {
        floor.sells
    } else {
        floor.buys
    };
    let other = foremost(floor.agents, pool);
    let you = floor.agents[other];
    let trade = pool.contains(other) && if me.buyer {
        crosses(me, you)
    } else {
        crosses(you, me)
    };
    if trade {
        assert(other != place);
        assert(you == before[other]);
        assert(you.priced());
        assert(you.buyer != me.buyer);
        let price = if me.buyer {
            -you.bid
        } else {
            you.bid as int
        };
        let first = floor.agents.update(place, me.transacted(price));
        let second = first.update(other, you.transacted(price));
        assert(arrive(floor, place).agents == second);
        assert(first[other] == you);
        lemma_sum_update(floor.agents, |a: Agent| a.utility as int, place, me.transacted(price));
        lemma_sum_update(first, |a: Agent| a.utility as int, other, you.transacted(price));
        lemma_sum_update(
            floor.agents,
            |a: Agent| if a.traded { a.truthful_bid() } else { 0 },
            place,
            me.transacted(price),
        );
        lemma_sum_update(
            first,
            |a: Agent| if a.traded { a.truthful_bid() } else { 0 },
            other,
            you.transacted(price),
        );
        lemma_sum_update(
            floor.agents,
            |a: Agent| if a.traded { a.spec_sign() } else { 0 },
            place,
            me.transacted(price),
        );
        lemma_sum_update(
            first,
            |a: Agent| if a.traded { a.spec_sign() } else { 0 },
            other,
            you.transacted(price),
        );
        let sign = me.spec_sign();
        assert(you.spec_sign() == -sign);
        let mine = me.value as int;
        let yours = you.value as int;
        assert((mine - price) * sign + (yours - price) * (-sign) == sign * mine + (-sign) * yours)
            by (nonlinear_arith);
        assert(me.transacted(price).utility == me.payoff(price));
        assert(you.transacted(price).utility == you.payoff(price));
    }
}

/// The outcomes of a floor add up after any arrivals.
proof fn lemma_cda_sums(agents: Seq<Agent>, order: Seq<int>)
    requires
        ready(agents),
        fresh(agents),
        is_arrival_order(order, agents.len()),
    ensures
        sums_even(cda_floor(agents, order).agents),
    decreases order.len(),
{
    if order.len() == 0 {
        lemma_sum_of_nothing(agents, |a: Agent| a.utility as int);
        lemma_sum_of_nothing(agents, |a: Agent| if a.traded { a.truthful_bid() } else { 0 });
        lemma_sum_of_nothing(agents, |a: Agent| if a.traded { a.spec_sign() } else { 0 });
    } else {
        let fewer = order.drop_last();
        let place = order.last();
        lemma_arrival_order_shorter(order, agents.len());
        lemma_cda_sums(agents, fewer);
        lemma_cda_floor_inv(agents, fewer);
        lemma_arrive_sums(agents, fewer, cda_floor(agents, fewer), place);
    }
}

/// An order of arrival without its last place is an order of arrival that
/// does not name that place.
proof fn lemma_arrival_order_shorter(order: Seq<int>, len: nat)
    requires
        is_arrival_order(order, len),
        order.len() > 0,
    ensures
        is_arrival_order(order.drop_last(), len),
        !order.drop_last().contains(order.last()),
        0 <= order.last() < len,
{
    let fewer = order.drop_last();
    assert forall|k: int| 0 <= k < fewer.len() implies 0 <= #[trigger] fewer[k] < len by {
        assert(fewer[k] == order[k]);
    }
    assert forall|a: int, b: int| 0 <= a < b < fewer.len() implies fewer[a] != fewer[b] by {
        assert(fewer[a] == order[a] && fewer[b] == order[b]);
    }
    if fewer.contains(order.last()) {
        let a = choose|a: int| 0 <= a < fewer.len() && fewer[a] == order.last();
        assert(order[a] == order[order.len() - 1]);
    }
}

/// The continuous auction leaves a population settled as every market does.
pub proof fn lemma_cda_settled(agents: Seq<Agent>, order: Seq<int>)
    requires
        ready(agents),
        is_arrival_order(order, agents.len()),
    ensures
        settled(agents, cda_floor(agents, order).agents),
{
    lemma_cda_floor_inv(agents, order);
    if fresh(agents) {
        lemma_cda_sums(agents, order);
    }
}

/// Where no bid reaches an ask the floor never trades: every agent that
/// arrives goes to rest and the population stays as it was.
pub proof fn lemma_cda_no_cross(agents: Seq<Agent>, order: Seq<int>)
    requires
        is_arrival_order(order, agents.len()),
        no_cross(agents),
    ensures
        cda_floor(agents, order).agents == agents,
        cda_floor(agents, order).trades == 0,
        mean_price(cda_floor(agents, order)).is_none(),
        forall|j: int| #[trigger]
            cda_floor(agents, order).buys.contains(j) ==> 0 <= j < agents.len() && agents[j].buyer,
        forall|j: int| #[trigger]
            cda_floor(agents, order).sells.contains(j) ==> 0 <= j < agents.len()
                && !agents[j].buyer,
    decreases order.len(),
{
    if order.len() > 0 {
        lemma_arrival_order_shorter(order, agents.len());
        lemma_cda_no_cross(agents, order.drop_last());
        let floor = cda_floor(agents, order.drop_last());
        let place = order.last();
        let me = agents[place];
        if me.buyer {
            let other = foremost(agents, floor.sells);
            if floor.sells.contains(other) {
                assert(!crosses(agents[place], agents[other]));
            }
        } else {
            let other = foremost(agents, floor.buys);
            if floor.buys.contains(other) {
                assert(!crosses(agents[other], agents[place]));
            }
        }
    }
}

/// An order of arrival is no longer than the population.
pub proof fn lemma_arrival_order_len(order: Seq<int>, len: nat)
    requires
        is_arrival_order(order, len),
    ensures
        order.len() <= len,
{
    let range = vstd::set_lib::set_int_range(0, len as int);
    vstd::set_lib::lemma_int_range(0, len as int);
    assert(order.no_duplicates());
    order.unique_seq_to_set();
    assert forall|j: int| order.to_set().contains(j) implies range.contains(j) by {
        let k = choose|k: int| 0 <= k < order.len() && order[k] == j;
        assert(0 <= order[k] < len);
    }
    vstd::set_lib::lemma_len_subset(order.to_set(), range);
}

/// Agent `i` has traded on the floor: it arrived, is not at rest, and holds
/// the outcome of a trade.
pub open spec fn took_part(floor: Floor, arrived: Seq<int>, i: int) -> bool {
    &&& 0 <= i < floor.agents.len()
    &&& arrived.contains(i)
    &&& !floor.buys.contains(i)
    &&& !floor.sells.contains(i)
    &&& floor.agents[i].traded
}

/// Agents `low` and `high` have traded on the floor, and the turnover lies
/// between as many times the quote of the one and of the other as there were
/// trades.
pub open spec fn is_price_band(floor: Floor, arrived: Seq<int>, low: int, high: int) -> bool {
    &&& took_part(floor, arrived, low)
    &&& took_part(floor, arrived, high)
    &&& floor.agents[low].quote() * floor.trades <= floor.turnover
    &&& floor.turnover <= floor.agents[high].quote() * floor.trades
}

/// The price lies between the quotes of two agents that traded on the floor.
pub open spec fn within_quotes(floor: Floor, arrived: Seq<int>, price: int) -> bool {
    exists|low: int, high: int|
        {
            &&& #[trigger] took_part(floor, arrived, low)
            &&& #[trigger] took_part(floor, arrived, high)
            &&& floor.agents[low].quote() <= price <= floor.agents[high].quote()
        }
}

/// An arrival keeps a band around the turnover, or makes the first.
proof fn lemma_arrive_band(
    before: Seq<Agent>,
    arrived: Seq<int>,
    floor: Floor,
    place: int,
    low: int,
    high: int,
) -> (band: (int, int))
    requires
        ready(before),
        floor_inv(before, arrived, floor),
        0 <= place < before.len(),
        !arrived.contains(place),
        floor.trades > 0 ==> is_price_band(floor, arrived, low, high),
        arrive(floor, place).trades > 0,
    ensures
        is_price_band(arrive(floor, place), arrived.push(place), band.0, band.1),
{
    lemma_arrived_push(arrived, place);
    lemma_arrive_inv(before, arrived, floor, place);
    let next = arrive(floor, place);
    let me = floor.agents[place];
    assert(me == before[place]);
    let pool = if me.buyer {
        floor.sells
    } else {
        floor.buys
    };
    let other = foremost(floor.agents, pool);
    let you = floor.agents[other];
    let trade = pool.contains(other) && if me.buyer {
        crosses(me, you)
    } else {
        crosses(you, me)
    };
    if trade {
        assert(other != place);
        assert(you == before[other]);
        assert(you.buyer != me.buyer);
        let price = if me.buyer {
            -you.bid
        } else {
            you.bid as int
        };
        assert(you.quote() == price) by {
            assert(1 * you.bid == you.bid);
            assert(-1 * you.bid == -you.bid);
        }
        let t = floor.trades as int;
        assert(next.agents[other].quote() == price);
        assert(took_part(next, arrived.push(place), other));
        if t == 0 {
            assert(price * 1 == price);
            (other, other)
        } else {
            let q_low = floor.agents[low].quote();
            let q_high = floor.agents[high].quote();
            assert(low != place && high != place);
            assert(low != other && high != other);
            assert(next.agents[low] == floor.agents[low]);
            assert(next.agents[high] == floor.agents[high]);
            assert(took_part(next, arrived.push(place), low));
            assert(took_part(next, arrived.push(place), high));
            let new_low = if price < q_low {
                other
            } else {
                low
            };
            let new_high = if price > q_high {
                other
            } else {
                high
            };
            if price < q_low {
                assert(price * (t + 1) <= floor.turnover + price) by (nonlinear_arith)
                    requires
                        price < q_low,
                        q_low * t <= floor.turnover,
                        t > 0,
                ;
            } else {
                assert(q_low * (t + 1) <= floor.turnover + price) by (nonlinear_arith)
                    requires
                        q_low <= price,
                        q_low * t <= floor.turnover,
                        t > 0,
                ;
            }
            if price > q_high {
                assert(floor.turnover + price <= price * (t + 1)) by (nonlinear_arith)
                    requires
                        price > q_high,
                        floor.turnover <= q_high * t,
                        t > 0,
                ;
            } else {
                assert(floor.turnover + price <= q_high * (t + 1)) by (nonlinear_arith)
                    requires
                        price <= q_high,
                        floor.turnover <= q_high * t,
                        t > 0,
                ;
            }
            (new_low, new_high)
        }
    } else {
        assert(next.trades == floor.trades);
        assert(took_part(next, arrived.push(place), low));
        assert(took_part(next, arrived.push(place), high));
        (low, high)
    }
}

/// Two agents that traded and whose quotes bound the turnover of the floor,
/// where it traded at all.
proof fn lemma_cda_band(agents: Seq<Agent>, order: Seq<int>) -> (band: (int, int))
    requires
        ready(agents),
        is_arrival_order(order, agents.len()),
    ensures
        cda_floor(agents, order).trades > 0 ==> is_price_band(
            cda_floor(agents, order),
            order,
            band.0,
            band.1,
        ),
    decreases order.len(),
{
    if order.len() == 0 {
        (0, 0)
    } else {
        let fewer = order.drop_last();
        let place = order.last();
        lemma_arrival_order_shorter(order, agents.len());
        let earlier = lemma_cda_band(agents, fewer);
        lemma_cda_floor_inv(agents, fewer);
        assert(fewer.push(place) =~= order);
        if cda_floor(agents, order).trades > 0 {
            lemma_arrive_band(agents, fewer, cda_floor(agents, fewer), place, earlier.0, earlier.1)
        } else {
            (0, 0)
        }
    }
}

/// The continuous auction makes at most one trade for every two agents, and
/// its mean price lies between the quotes of two agents that traded.
pub proof fn lemma_cda_trade_count(agents: Seq<Agent>, order: Seq<int>)
    requires
        ready(agents),
        is_arrival_order(order, agents.len()),
    ensures
        0 <= 2 * cda_floor(agents, order).trades <= order.len() <= agents.len(),
        cda_floor(agents, order).trades <= agents.len() / 2,
        match mean_price(cda_floor(agents, order)) {
            Some(mean) => within_quotes(cda_floor(agents, order), order, mean as int),
            None => cda_floor(agents, order).trades == 0,
        },
{
    let floor = cda_floor(agents, order);
    lemma_cda_floor_inv(agents, order);
    lemma_arrival_order_len(order, agents.len());
    let band = lemma_cda_band(agents, order);
    if floor.trades > 0 {
        let t = floor.trades as int;
        let low = floor.agents[band.0].quote();
        let high = floor.agents[band.1].quote();
        let mean = floor.turnover / t;
        assert(low <= mean <= high) by (nonlinear_arith)
            requires
                t > 0,
                low * t <= floor.turnover <= high * t,
                mean == floor.turnover / t,
        ;
        assert(-BID_LIMIT <= mean <= BID_LIMIT) by (nonlinear_arith)
            requires
                t > 0,
                -BID_LIMIT * t <= floor.turnover <= BID_LIMIT * t,
                mean == floor.turnover / t,
        ;
        assert(took_part(floor, order, band.0));
        assert(took_part(floor, order, band.1));
    }
}

} // verus!
