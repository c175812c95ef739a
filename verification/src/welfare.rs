//! One round of the simulation and the decomposition of its welfare.

use crate::agent::{lemma_shaded_bid_range, Agent};
use crate::fixed::{BID_LIMIT, UNIT};
use crate::call::{
    call_outcome, call_price, is_call_matching, lemma_call_price_range, lemma_call_settled, Call,
};
use crate::market::{configured, fresh, ready, settled, Market};
use crate::tally::{
    benchmark_balance, benchmark_value, lemma_sum_bound, lemma_sum_of_nothing, lemma_sum_pointwise,
    sum_over, total_utility, traded_balance, traded_value,
};
use vstd::prelude::*;

verus! {

/// The welfare of a round: what the market realised, what the benchmark
/// would have, and how the gap between them splits.
#[derive(Debug)]
pub struct Features {
    /// The sum of the utilities after the market cleared.
    pub surplus: i128,
    /// The sum of the utilities after the benchmark cleared truthful bids.
    pub ce_surplus: i128,
    /// The gains of trades that the benchmark made and the market missed.
    pub im_surplus: i128,
    /// The gains, counted against the market, of trades that it made and the
    /// benchmark did not.
    pub em_surplus: i128,
    /// The price of the benchmark, none where it made no trade.
    pub ce_price: Option<i64>,
}

/// What an agent that traded outside the benchmark adds to the extramarginal
/// term: the benchmark price less its value, on its own scale.
pub open spec fn extra_gain(agent: Agent, price: int) -> int {
    if agent.traded && !agent.ce_traded {
        agent.spec_sign() * (price - agent.value)
    } else {
        0
    }
}

/// What an agent that the benchmark traded and the market did not adds to
/// the intramarginal term: its value less the benchmark price, on its own
/// scale.
pub open spec fn missed_gain(agent: Agent, price: int) -> int {
    if !agent.traded && agent.ce_traded {
        agent.spec_sign() * (agent.value - price)
    } else {
        0
    }
}

/// The extramarginal term of a population against a benchmark price.
pub open spec fn extra_gains(agents: Seq<Agent>, price: int) -> int
    decreases agents.len(),
{
    if agents.len() == 0 {
        0
    } else {
        extra_gains(agents.drop_last(), price) + extra_gain(agents.last(), price)
    }
}

/// The intramarginal term of a population against a benchmark price.
pub open spec fn missed_gains(agents: Seq<Agent>, price: int) -> int
    decreases agents.len(),
{
    if agents.len() == 0 {
        0
    } else {
        missed_gains(agents.drop_last(), price) + missed_gain(agents.last(), price)
    }
}

/// The two terms of the decomposition, the intramarginal first. With a
/// benchmark price they are summed agent by agent; without one the whole gap
/// is extramarginal.
pub open spec fn decomposition(
    agents: Seq<Agent>,
    ce_price: Option<i64>,
    ce_surplus: int,
    surplus: int,
) -> (int, int) {
    match ce_price {
        Some(price) => (missed_gains(agents, price as int), extra_gains(agents, price as int)),
        None => (0, ce_surplus - surplus),
    }
}

/// The sum of the utilities of a population.
pub fn sum_utility(agents: &[Agent<'_>]) -> (sum: i128)
    ensures
        sum == total_utility(agents@),
{
    let n: usize = agents.len();
    let mut sum: i128 = 0;
    let mut i: usize = 0;
    while i < n
        invariant
            n == agents@.len(),
            i <= n,
            sum == total_utility(agents@.take(i as int)),
            -0x8000_0000_0000_0000 * i <= sum <= 0x8000_0000_0000_0000 * i,
        decreases n - i,
    {
        proof {
            assert(agents@.take(i + 1).drop_last() =~= agents@.take(i as int));
            assert(0x8000_0000_0000_0000 * (i + 1) <= 0x8000_0000_0000_0000
                * 0xffff_ffff_ffff_ffff) by (nonlinear_arith)
                requires
                    i + 1 <= 0xffff_ffff_ffff_ffff,
            ;
        }
        sum = sum + agents[i].utility as i128;
        i += 1;
    }
    assert(agents@.take(n as int) =~= agents@);
    sum
}

/// Splits the gap between benchmark and market into its two terms, the
/// intramarginal first.
pub fn decompose(
    agents: &[Agent<'_>],
    ce_price: Option<i64>,
    ce_surplus: i128,
    surplus: i128,
) -> (parts: (i128, i128))
    requires
        ready(agents@),
        match ce_price {
            Some(price) => -BID_LIMIT <= price <= BID_LIMIT,
            None => i128::MIN <= ce_surplus - surplus <= i128::MAX,
        },
    ensures
        (parts.0 as int, parts.1 as int) == decomposition(
            agents@,
            ce_price,
            ce_surplus as int,
            surplus as int,
        ),
{
    match ce_price {
        Some(price) => {
            let n: usize = agents.len();
            let mut missed: i128 = 0;
            let mut extra: i128 = 0;
            let mut i: usize = 0;
            while i < n
                invariant
                    n == agents@.len(),
                    i <= n,
                    ready(agents@),
                    -BID_LIMIT <= price <= BID_LIMIT,
                    missed == missed_gains(agents@.take(i as int), price as int),
                    extra == extra_gains(agents@.take(i as int), price as int),
                    -3_000_000_000 * i <= missed <= 3_000_000_000 * i,
                    -3_000_000_000 * i <= extra <= 3_000_000_000 * i,
                decreases n - i,
            {
                proof {
                    assert(agents@.take(i + 1).drop_last() =~= agents@.take(i as int));
                    assert(agents@[i as int].priced());
                }
                let value: i64 = agents[i].value;
                let gap: i64 = if agents[i].buyer {
                    price - value
                } else {
                    value - price
                };
                proof {
                    let agent = agents@[i as int];
                    let sign = agent.spec_sign();
                    assert(sign * (price - value) == gap) by (nonlinear_arith)
                        requires
                            gap == if sign == 1 {
                                price - value
                            } else {
                                value - price
                            },
                            sign == 1 || sign == -1,
                    ;
                    assert(sign * (value - price) == -gap) by (nonlinear_arith)
                        requires
                            gap == if sign == 1 {
                                price - value
                            } else {
                                value - price
                            },
                            sign == 1 || sign == -1,
                    ;
                    assert(extra_gain(agent, price as int) == if agent.traded && !agent.ce_traded {
                        gap as int
                    } else {
                        0
                    });
                    assert(missed_gain(agent, price as int) == if !agent.traded
                        && agent.ce_traded {
                        -gap
                    } else {
                        0
                    });
                    assert(agents@.take(i + 1).last() == agent);
                }
                if agents[i].traded && !agents[i].ce_traded {
                    extra = extra + gap as i128;
                } else if !agents[i].traded && agents[i].ce_traded {
                    missed = missed - gap as i128;
                }
                i += 1;
            }
            assert(agents@.take(n as int) =~= agents@);
            (missed, extra)
        },
        None => (0, ce_surplus - surplus),
    }
}

/// The benchmark and the market disagree on an agent only in ways that the
/// two terms account for: traded value and the two terms make up the
/// benchmark value, but for the price times the difference of the balances.
pub proof fn lemma_gap_accounted(agents: Seq<Agent>, price: int)
    ensures
        traded_value(agents) + missed_gains(agents, price) + extra_gains(agents, price)
            == benchmark_value(agents) + price * (traded_balance(agents) - benchmark_balance(
            agents,
        )),
    decreases agents.len(),
{
    if agents.len() == 0 {
        assert(price * 0 == 0);
    } else {
        let shorter = agents.drop_last();
        let last = agents.last();
        lemma_gap_accounted(shorter, price);
        let sign = last.spec_sign();
        let value = last.value as int;
        let moved = (if last.traded {
            sign
        } else {
            0
        }) - (if last.ce_traded {
            sign
        } else {
            0
        });
        let balance = traded_balance(shorter) - benchmark_balance(shorter);
        assert(price * (balance + moved) == price * balance + price * moved) by (nonlinear_arith);
        assert(sign * (price - value) == price * sign - sign * value) by (nonlinear_arith);
        assert(sign * (value - price) == sign * value - price * sign) by (nonlinear_arith);
        assert(price * (0 - sign) == -(price * sign)) by (nonlinear_arith);
        assert(price * 0 == 0);
    }
}

/// The population with each agent's benchmark flag set to whether it has
/// traded.
pub open spec fn marked(agents: Seq<Agent>) -> Seq<Agent> {
    Seq::new(agents.len(), |i: int| Agent { ce_traded: agents[i].traded, ..agents[i] })
}

/// The population as it goes from the benchmark to the market: each agent
/// remembers whether the benchmark traded it, bids its shaded bid, and holds
/// no outcome.
pub open spec fn handed_over(benchmark: Seq<Agent>) -> Seq<Agent> {
    Seq::new(benchmark.len(), |i: int| marked(benchmark)[i].shaded())
}

/// `start` is `before` with a value in the unit interval drawn for every
/// agent.
pub open spec fn drawn(before: Seq<Agent>, start: Seq<Agent>) -> bool {
    &&& start.len() == before.len()
    &&& forall|i: int|
        0 <= i < before.len() ==> 0 <= (#[trigger] start[i]).value <= UNIT && start[i]
            == before[i].valued(start[i].value)
}

/// A round that began with the population `start` ended with `end` and
/// reported `features`, the benchmark having matched `buys` with `sells` and
/// the market having named `price`: the benchmark is the call market on
/// `start`, the market cleared what the benchmark handed over, and the
/// features are the sums and the decomposition of the two outcomes.
pub open spec fn round_went<M: Market>(
    market: M,
    start: Seq<Agent>,
    end: Seq<Agent>,
    features: Features,
    buys: Seq<int>,
    sells: Seq<int>,
    price: Option<i64>,
) -> bool {
    let benchmark = call_outcome(start, buys, sells);
    &&& is_call_matching(start, buys, sells)
    &&& features.ce_price == call_price(start, buys, sells)
    &&& features.ce_surplus == total_utility(benchmark)
    &&& market.clears(handed_over(benchmark), end, price)
    &&& settled(handed_over(benchmark), end)
    &&& features.surplus == total_utility(end)
    &&& (features.im_surplus as int, features.em_surplus as int) == decomposition(
        end,
        features.ce_price,
        features.ce_surplus as int,
        features.surplus as int,
    )
}

/// A round that began with the population `start` ended with `end` and
/// reported `features`.
pub open spec fn round_played<M: Market>(
    market: M,
    start: Seq<Agent>,
    end: Seq<Agent>,
    features: Features,
) -> bool {
    exists|buys: Seq<int>, sells: Seq<int>, price: Option<i64>|
        round_went(market, start, end, features, buys, sells, price)
}

/// Welfare is conserved: whatever market cleared the round, the surplus of
/// the benchmark is the realised surplus plus the two terms of the
/// decomposition.
pub proof fn lemma_welfare_conserved<M: Market>(
    market: M,
    start: Seq<Agent>,
    end: Seq<Agent>,
    features: Features,
)
    requires
        configured(start),
        ready(start),
        fresh(start),
        round_played(market, start, end, features),
    ensures
        features.ce_surplus == features.surplus + features.im_surplus + features.em_surplus,
{
    let (buys, sells, price) = choose|buys: Seq<int>, sells: Seq<int>, price: Option<i64>|
        round_went(market, start, end, features, buys, sells, price);
    let benchmark = call_outcome(start, buys, sells);
    let handed = handed_over(benchmark);
    lemma_call_settled(start, buys, sells);
    assert(fresh(handed));
    assert forall|i: int| 0 <= i < end.len() implies {
        &&& (#[trigger] end[i]).ce_traded == benchmark[i].traded
        &&& end[i].truthful_bid() == benchmark[i].truthful_bid()
        &&& end[i].spec_sign() == benchmark[i].spec_sign()
    } by {
        assert(end[i].cleared() == handed[i].cleared());
        assert(handed[i] == marked(benchmark)[i].shaded());
    }
    lemma_sum_pointwise(
        end,
        |a: Agent| if a.ce_traded { a.truthful_bid() } else { 0 },
        benchmark,
        |a: Agent| if a.traded { a.truthful_bid() } else { 0 },
    );
    lemma_sum_pointwise(
        end,
        |a: Agent| if a.ce_traded { a.spec_sign() } else { 0 },
        benchmark,
        |a: Agent| if a.traded { a.spec_sign() } else { 0 },
    );
    match features.ce_price {
        Some(price) => {
            lemma_gap_accounted(end, price as int);
            assert(price * (0 - 0) == 0);
        },
        None => {},
    }
}

/// Plays a round on a population whose values are set: clears the benchmark,
/// records who traded in it, shades the bids, clears the market, and
/// decomposes the welfare. The price that the market returns is not used.
pub fn play_round<M: Market>(agents: &mut [Agent<'_>], market: &M) -> (features: Features)
    requires
        configured(old(agents)@),
        ready(old(agents)@),
        fresh(old(agents)@),
    ensures
        round_played(*market, old(agents)@, final(agents)@, features),
        features.ce_surplus == features.surplus + features.im_surplus + features.em_surplus,
{
    let n: usize = agents.len();
    let ce_price: Option<i64> = Call.simulate(agents);
    let ghost benchmark = agents@;
    let ghost (buys, sells) = choose|buys: Seq<int>, sells: Seq<int>|
        is_call_matching(old(agents)@, buys, sells) && ce_price == call_price(
            old(agents)@,
            buys,
            sells,
        ) && benchmark == call_outcome(old(agents)@, buys, sells);
    let mut i: usize = 0;
    while i < n
        invariant
            n == benchmark.len(),
            agents@.len() == n,
            i <= n,
            forall|j: int| 0 <= j < i ==> #[trigger] agents@[j] == marked(benchmark)[j],
            forall|j: int| i <= j < n ==> #[trigger] agents@[j] == benchmark[j],
        decreases n - i,
    {
        agents[i].ce_traded = agents[i].traded;
        i += 1;
    }
    assert(agents@ =~= marked(benchmark));
    let ce_surplus: i128 = sum_utility(agents);
    proof {
        lemma_sum_pointwise(
            marked(benchmark),
            |a: Agent| a.utility as int,
            benchmark,
            |a: Agent| a.utility as int,
        );
        assert forall|j: int| 0 <= j < n implies (#[trigger] marked(benchmark)[j]).configured()
            && 0 <= marked(benchmark)[j].value <= UNIT by {
            assert(benchmark[j].cleared() == old(agents)@[j].cleared());
            assert(old(agents)@[j].configured() && old(agents)@[j].priced());
        }
    }
    i = 0;
    while i < n
        invariant
            n == benchmark.len(),
            agents@.len() == n,
            i <= n,
            forall|j: int|
                0 <= j < n ==> (#[trigger] marked(benchmark)[j]).configured() && 0 <= marked(
                    benchmark,
                )[j].value <= UNIT,
            forall|j: int| 0 <= j < i ==> #[trigger] agents@[j] == handed_over(benchmark)[j],
            forall|j: int| i <= j < n ==> #[trigger] agents@[j] == marked(benchmark)[j],
        decreases n - i,
    {
        assert(marked(benchmark)[i as int].configured());
        agents[i].shade();
        i += 1;
    }
    let ghost handed = handed_over(benchmark);
    assert(agents@ =~= handed);
    assert forall|j: int| 0 <= j < n implies (#[trigger] handed[j]).priced() by {
        assert(marked(benchmark)[j].configured());
        lemma_shaded_bid_range(marked(benchmark)[j]);
    }
    let price: Option<i64> = market.simulate(agents);
    let surplus: i128 = sum_utility(agents);
    proof {
        lemma_call_settled(old(agents)@, buys, sells);
        assert(fresh(handed));
        assert forall|j: int| 0 <= j < n implies (#[trigger] agents@[j]).priced() by {
            assert(agents@[j].cleared() == handed[j].cleared());
            assert(handed[j].priced());
        }
        assert forall|j: int| 0 <= j < n implies (#[trigger] benchmark[j]).priced() by {
            assert(benchmark[j].cleared() == old(agents)@[j].cleared());
            assert(old(agents)@[j].priced());
        }
        lemma_traded_value_bound(agents@);
        lemma_traded_value_bound(benchmark);
        assert(UNIT * n <= 1_000_000_000 * 0x1_0000_0000_0000_0000) by (nonlinear_arith)
            requires
                n <= 0x1_0000_0000_0000_0000,
                UNIT == 1_000_000_000,
        ;
        if ce_price.is_some() {
            lemma_call_price_range(old(agents)@, buys, sells);
        }
    }
    let parts: (i128, i128) = decompose(agents, ce_price, ce_surplus, surplus);
    let features = Features {
        surplus,
        ce_surplus,
        im_surplus: parts.0,
        em_surplus: parts.1,
        ce_price,
    };
    proof {
        assert(round_went(*market, old(agents)@, agents@, features, buys, sells, price));
        lemma_welfare_conserved(*market, old(agents)@, agents@, features);
    }
    features
}

/// The traded value of a population of priced agents is at most one unit for
/// each of them.
proof fn lemma_traded_value_bound(agents: Seq<Agent>)
    requires
        ready(agents),
    ensures
        -(UNIT * agents.len()) <= traded_value(agents) <= UNIT * agents.len(),
{
    assert forall|i: int| 0 <= i < agents.len() implies -UNIT <= (|a: Agent|
        if a.traded {
            a.truthful_bid()
        } else {
            0
        })(#[trigger] agents[i]) <= UNIT by {
        assert(agents[i].priced());
    }
    lemma_sum_bound(agents, |a: Agent| if a.traded { a.truthful_bid() } else { 0 }, UNIT as int);
}

/// Plays one round: draws a fresh value for every agent and plays the round
/// as [`play_round`] does. Which values are drawn is left to chance.
pub fn run_sim<M: Market>(agents: &mut [Agent<'_>], market: &M) -> (features: Features)
    requires
        configured(old(agents)@),
    ensures
        exists|start: Seq<Agent>| #[trigger]
            drawn(old(agents)@, start) && round_played(*market, start, final(agents)@, features),
        features.ce_surplus == features.surplus + features.im_surplus + features.em_surplus,
{
    let n: usize = agents.len();
    let mut i: usize = 0;
    while i < n
        invariant
            agents@.len() == n,
            n == old(agents)@.len(),
            i <= n,
            forall|j: int| 0 <= j < n ==> (#[trigger] old(agents)@[j]).configured(),
            forall|j: int|
                0 <= j < i ==> 0 <= (#[trigger] agents@[j]).value <= UNIT && agents@[j]
                    == old(agents)@[j].valued(agents@[j].value),
            forall|j: int| i <= j < n ==> #[trigger] agents@[j] == old(agents)@[j],
        decreases n - i,
    {
        assert(old(agents)@[i as int].configured());
        agents[i].resample();
        i += 1;
    }
    let ghost start = agents@;
    proof {
        assert(drawn(old(agents)@, start));
        assert forall|j: int| 0 <= j < n implies (#[trigger] start[j]).configured()
            && start[j].priced() && start[j].utility == 0 && !start[j].traded by {
            assert(old(agents)@[j].configured());
        }
    }
    play_round(agents, market)
}

} // verus!
