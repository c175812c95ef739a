//! The continuous double auction: agents arrive one by one, and each trades
//! at once with the best order at rest on the other side, or goes to rest.

use crate::agent::Agent;
use crate::book::{Order, OrderQueue};
use crate::chance::shuffle;
use crate::fixed::{floor_div, BID_LIMIT};
use crate::floor::{
    arrive, cda_floor, floor_inv, foremost, is_arrival_order, lemma_arrive_inv,
    lemma_cda_no_cross, lemma_cda_settled, lemma_cda_trade_count, lemma_foremost_unique,
    mean_price, opening, within_quotes,
};
use crate::market::{
    lemma_best_resting, lemma_none_resting, no_cross, places, ready, resting, settled, Market,
};
use vstd::prelude::*;

verus! {

/// The continuous double auction: agents arrive one by one, and each trades
/// at once with the best order at rest on the other side, or goes to rest.
pub struct Cda;

/// What a run of the auction reports: how many trades it made, and the mean
/// of their prices.
#[derive(Clone, Copy, Debug, PartialEq, Eq, Structural)]
pub struct Trading {
    /// The number of trades made.
    pub trades: usize,
    /// The mean of their prices, rounded down to the grid; none without a
    /// trade.
    pub mean_price: Option<i64>,
}

impl Cda {
    /// Runs the auction with the agents arriving in the order given. An
    /// agent that `order` does not name never arrives.
    pub fn clear_in_order(agents: &mut [Agent<'_>], order: &[usize]) -> (report: Trading)
        requires
            ready(old(agents)@),
            is_arrival_order(places(order@), old(agents)@.len()),
        ensures
            final(agents)@ == cda_floor(old(agents)@, places(order@)).agents,
            report.trades == cda_floor(old(agents)@, places(order@)).trades,
            report.mean_price == mean_price(cda_floor(old(agents)@, places(order@))),
            2 * report.trades <= order@.len() <= old(agents)@.len(),
            match report.mean_price {
                Some(mean) => within_quotes(
                    cda_floor(old(agents)@, places(order@)),
                    places(order@),
                    mean as int,
                ),
                None => report.trades == 0,
            },
            settled(old(agents)@, final(agents)@),
            no_cross(old(agents)@) ==> report.trades == 0 && final(agents)@ == old(agents)@,
    {
        proof {
            lemma_cda_settled(agents@, places(order@));
            lemma_cda_trade_count(agents@, places(order@));
            if no_cross(agents@) {
                lemma_cda_no_cross(agents@, places(order@));
            }
        }
        let n: usize = agents.len();
        let count: usize = order.len();
        let mut buys = OrderQueue::new();
        let mut sells = OrderQueue::new();
        let mut trades: usize = 0;
        let mut turnover: i128 = 0;
        let ghost before = agents@;
        let ghost arrivals = places(order@);
        let ghost mut floor = opening(before);
        let mut k: usize = 0;
        proof {
            broadcast use vstd::set::group_set_axioms;

            assert(arrivals.take(0) =~= Seq::empty());
        }
        while k < count
            invariant
                n == before.len(),
                count == order@.len(),
                arrivals == places(order@),
                ready(before),
                is_arrival_order(arrivals, before.len()),
                k <= count,
                floor == cda_floor(before, arrivals.take(k as int)),
                floor_inv(before, arrivals.take(k as int), floor),
                agents@ == floor.agents,
                buys.wf(),
                sells.wf(),
                resting(buys, agents@, floor.buys),
                resting(sells, agents@, floor.sells),
                trades == floor.trades,
                turnover == floor.turnover,
                trades <= k,
            decreases count - k,
        {
            let place: usize = order[k];
            let ghost arrived = arrivals.take(k as int);
            proof {
                assert(arrivals[k as int] == place);
                if arrived.contains(place as int) {
                    let a = choose|a: int| 0 <= a < arrived.len() && arrived[a] == place as int;
                    assert(arrivals[a] == arrivals[k as int]);
                }
                lemma_arrive_inv(before, arrived, floor, place as int);
                assert(arrivals.take(k + 1) =~= arrived.push(place as int));
                assert(arrivals.take(k + 1).drop_last() =~= arrived);
                assert(agents@[place as int] == before[place as int]);
                assert(before[place as int].priced());
                assert(BID_LIMIT * (floor.trades + 1) == BID_LIMIT * floor.trades + BID_LIMIT)
                    by (nonlinear_arith);
                assert(BID_LIMIT * floor.trades <= BID_LIMIT * k) by (nonlinear_arith)
                    requires
                        floor.trades <= k,
                ;
                assert(BID_LIMIT * k <= 2_000_000_000 * 0x1_0000_0000_0000_0000) by (nonlinear_arith)
                    requires
                        k <= 0x1_0000_0000_0000_0000,
                        BID_LIMIT == 2_000_000_000,
                ;
            }
            let bid: i64 = agents[place].bid;
            let buyer: bool = agents[place].buyer;
            let top: Option<Order> = if buyer {
                sells.peek()
            } else {
                buys.peek()
            };
            let ghost pool = if buyer {
                floor.sells
            } else {
                floor.buys
            };
            let hit: bool = match top {
                Some(found) => {
                    proof {
                        if buyer {
                            lemma_best_resting(sells, agents@, pool, found);
                        } else {
                            lemma_best_resting(buys, agents@, pool, found);
                        }
                        lemma_foremost_unique(agents@, pool, found.agent as int);
                        assert(agents@[found.agent as int] == before[found.agent as int]);
                        assert(before[found.agent as int].priced());
                    }
                    -found.bid <= bid
                },
                None => {
                    proof {
                        let other = foremost(agents@, pool);
                        if buyer {
                            lemma_none_resting(sells, agents@, pool, other);
                        } else {
                            lemma_none_resting(buys, agents@, pool, other);
                        }
                    }
                    false
                },
            };
            if hit {
                let ghost full_buys = buys;
                let ghost full_sells = sells;
                let taken: Option<Order> = if buyer {
                    sells.pop()
                } else {
                    buys.pop()
                };
                proof {
                    if buyer {
                        full_sells.lemma_best_unique(top.unwrap(), taken.unwrap());
                    } else {
                        full_buys.lemma_best_unique(top.unwrap(), taken.unwrap());
                    }
                }
                let found: Order = taken.unwrap();
                let price: i64 = if buyer {
                    -found.bid
                } else {
                    found.bid
                };
                agents[place].transact(price);
                agents[found.agent].transact(price);
                trades += 1;
                turnover += price as i128;
                proof {
                    broadcast use vstd::multiset::group_multiset_axioms;

                    floor = arrive(floor, place as int);
                    assert(agents@ =~= floor.agents);
                }
            } else {
                let order_at_rest = Order { bid, agent: place };
                if buyer {
                    buys.push(order_at_rest);
                } else {
                    sells.push(order_at_rest);
                }
                proof {
                    broadcast use vstd::multiset::group_multiset_axioms;

                    floor = arrive(floor, place as int);
                }
            }
            k += 1;
        }
        proof {
            assert(arrivals.take(count as int) =~= arrivals);
        }
        if trades == 0 {
            Trading { trades, mean_price: None }
        } else {
            proof {
                let t = trades as int;
                let sum = turnover as int;
                assert(-BID_LIMIT <= sum / t <= BID_LIMIT) by (nonlinear_arith)
                    requires
                        t > 0,
                        -BID_LIMIT * t <= sum <= BID_LIMIT * t,
                ;
                assert(BID_LIMIT * t <= 2_000_000_000 * 0x1_0000_0000_0000_0000) by (nonlinear_arith)
                    requires
                        0 <= t <= 0x1_0000_0000_0000_0000,
                        BID_LIMIT == 2_000_000_000,
                ;
            }
            let mean: i128 = floor_div(turnover, trades as i128);
            Trading { trades, mean_price: Some(mean as i64) }
        }
    }
}

/// A shuffle of the places `0, 1, ..` of a population is an order of arrival
/// that names every place.
proof fn lemma_shuffled_order(lined: Seq<usize>, shuffled: Seq<usize>, len: nat)
    requires
        lined.len() == len,
        forall|i: int| 0 <= i < len ==> lined[i] == i,
        shuffled.to_multiset() == lined.to_multiset(),
    ensures
        shuffled.len() == len,
        is_arrival_order(places(shuffled), len),
{
    broadcast use vstd::seq_lib::group_to_multiset_ensures;

    assert(shuffled.len() == shuffled.to_multiset().len());
    assert(lined.len() == lined.to_multiset().len());
    assert(lined.no_duplicates());
    lined.lemma_multiset_has_no_duplicates();
    shuffled.lemma_multiset_has_no_duplicates_conv();
    assert forall|k: int| 0 <= k < shuffled.len() implies 0 <= #[trigger] places(shuffled)[k]
        < len by {
        let x = shuffled[k];
        assert(shuffled.contains(x));
        assert(lined.to_multiset().count(x) > 0);
        assert(lined.contains(x));
    }
}

impl Market for Cda {
    /// Every agent arrived once, in some order, and the auction ran on that
    /// order: it names the mean price of the floor and leaves its outcome,
    /// having made no more trades than half the agents, at a mean price
    /// between the quotes of two agents that traded.
    open spec fn clears(&self, before: Seq<Agent>, after: Seq<Agent>, price: Option<i64>) -> bool {
        exists|order: Seq<int>|
            {
                &&& #[trigger] is_arrival_order(order, before.len())
                &&& order.len() == before.len()
                &&& after == cda_floor(before, order).agents
                &&& price == mean_price(cda_floor(before, order))
                &&& 2 * cda_floor(before, order).trades <= before.len()
                &&& match price {
                    Some(mean) => within_quotes(cda_floor(before, order), order, mean as int),
                    None => cda_floor(before, order).trades == 0,
                }
            }
    }

    /// Lets the agents arrive in an order drawn at random and runs the
    /// auction as [`Cda::clear_in_order`] does. Every agent arrives once;
    /// which order is drawn is left to chance. The agents stay in their
    /// places.
    fn simulate(&self, agents: &mut [Agent<'_>]) -> (price: Option<i64>)
        ensures
            no_cross(old(agents)@) ==> price.is_none() && final(agents)@ == old(agents)@,
    {
        let n: usize = agents.len();
        let mut order: Vec<usize> = Vec::new();
        let mut i: usize = 0;
        while i < n
            invariant
                i <= n,
                order@.len() == i,
                forall|j: int| 0 <= j < i ==> order@[j] == j,
            decreases n - i,
        {
            order.push(i);
            i += 1;
        }
        let ghost lined = order@;
        shuffle(&mut order);
        proof {
            lemma_shuffled_order(lined, order@, n as nat);
        }
        let report = Cda::clear_in_order(agents, order.as_slice());
        assert(is_arrival_order(places(order@), old(agents)@.len()));
        report.mean_price
    }
}

} // verus!
