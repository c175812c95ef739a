//! Traders: their configuration, their private value, and the bidding model.

use crate::chance::draw_up_to;
use crate::fixed::{decay, decay_factor, floor_div, lemma_decay_bounds, BID_LIMIT, UNIT};
use crate::style::Style;
use vstd::prelude::*;

verus! {

/// One trader. The role and the shading rule are fixed; the value, the bid and
/// the outcome fields are rewritten every round.
#[derive(Debug)]
pub struct Agent<'a> {
    /// The role: a buyer, or else a seller.
    pub buyer: bool,
    /// The label of the strategy, kept for the record of the round only.
    pub strat: &'a str,
    /// The rule by which the agent shades.
    pub style: Style,
    /// How strongly it shades, in the unit interval.
    pub shading: i64,
    /// The private value of the round, in the unit interval.
    pub value: i64,
    /// The offer on the signed scale: the price a buyer would pay, or minus
    /// the price a seller would accept.
    pub bid: i64,
    /// The payoff of the round; zero until a trade clears.
    pub utility: i64,
    /// Whether the agent traded in the market this round.
    pub traded: bool,
    /// Whether the agent traded in the benchmark this round.
    pub ce_traded: bool,
}

impl<'a> Agent<'a> {
    /// `+1` for a buyer, `-1` for a seller.
    pub open spec fn spec_sign(&self) -> int {
        if self.buyer {
            1
        } else {
            -1
        }
    }

    /// The shading strength lies in the unit interval.
    pub open spec fn configured(&self) -> bool {
        0 <= self.shading <= UNIT
    }

    /// The value lies in the unit interval and the bid is within the limit
    /// that price arithmetic relies on.
    pub open spec fn priced(&self) -> bool {
        &&& 0 <= self.value <= UNIT
        &&& -BID_LIMIT <= self.bid <= BID_LIMIT
    }

    /// The agent is configured and priced.
    pub open spec fn wf(&self) -> bool {
        &&& self.configured()
        &&& self.priced()
    }

    /// The bid of an agent that does not shade: its value on the signed scale.
    pub open spec fn truthful_bid(&self) -> int {
        self.spec_sign() * self.value
    }

    /// The bid that the agent's style and strength make of its value. Each
    /// product is exact and is rounded down to the grid once.
    pub open spec fn shaded_bid(&self) -> int {
        let sign = self.spec_sign();
        match self.style {
            Style::Standard => (self.value * (sign * UNIT - self.shading)) / (UNIT as int),
            Style::Correct => if self.buyer {
                (self.value * (UNIT - self.shading)) / (UNIT as int)
            } else {
                ((self.value - UNIT) * self.shading) / (UNIT as int) - self.value
            },
            Style::Exponential => (sign * self.value * decay(self.shading as int)) / (UNIT as int),
            Style::Shift => sign * self.value - self.shading,
        }
    }

    /// What a trade at `price` is worth to the agent.
    pub open spec fn payoff(&self, price: int) -> int {
        (self.value - price) * self.spec_sign()
    }

    /// The agent with its outcome of the round forgotten.
    pub open spec fn cleared(self) -> Self {
        Agent { utility: 0, traded: false, ..self }
    }

    /// The agent after a trade at `price`.
    pub open spec fn transacted(self, price: int) -> Self {
        Agent { utility: self.payoff(price) as i64, traded: true, ..self }
    }

    /// The agent with a fresh value, a truthful bid and no outcome.
    pub open spec fn valued(self, value: i64) -> Self {
        Agent {
            value,
            bid: (self.spec_sign() * value) as i64,
            utility: 0,
            traded: false,
            ..self
        }
    }

    /// The agent with its shaded bid and no outcome.
    pub open spec fn shaded(self) -> Self {
        Agent { bid: self.shaded_bid() as i64, utility: 0, traded: false, ..self }
    }

    /// A buyer's bid, or a seller's ask: the price the agent offers to trade at.
    pub open spec fn quote(&self) -> int {
        self.spec_sign() * self.bid
    }

    /// The agents whose shaded quote cannot pass their value: the buyers,
    /// the sellers of the exponential style, and the sellers whose rule
    /// leaves their ask at their value.
    pub open spec fn shades_inward(&self) -> bool {
        ||| self.buyer
        ||| self.style == Style::Exponential
        ||| self.shading == 0
        ||| self.style == Style::Standard && self.value == 0
        ||| self.style == Style::Correct && self.value == UNIT
    }

    /// An agent of the given role and strategy that holds no value, no bid
    /// and no outcome yet.
    pub fn new(buyer: bool, strat: &'a str, style: Style, shading: i64) -> (agent: Agent<'a>)
        requires
            0 <= shading <= UNIT,
        ensures
            agent == (Agent {
                buyer,
                strat,
                style,
                shading,
                value: 0,
                bid: 0,
                utility: 0,
                traded: false,
                ce_traded: false,
            }),
            agent.wf(),
    {
        Agent {
            buyer,
            strat,
            style,
            shading,
            value: 0,
            bid: 0,
            utility: 0,
            traded: false,
            ce_traded: false,
        }
    }

    /// `+1` for a buyer, `-1` for a seller.
    pub fn sign(&self) -> (s: i64)
        ensures
            s == self.spec_sign(),
    {
        if self.buyer {
            1
        } else {
            -1
        }
    }

    /// Records a trade at `price`: a buyer gains its value less the price, a
    /// seller the price less its value.
    pub fn transact(&mut self, price: i64)
        requires
            0 <= old(self).value <= UNIT,
            -BID_LIMIT <= price <= BID_LIMIT,
        ensures
            *final(self) == old(self).transacted(price as int),
            final(self).utility == old(self).payoff(price as int),
    {
        let sign: i64 = self.sign();
        let margin: i64 = self.value - price;
        assert(margin * sign == if sign == 1 { margin as int } else { -margin }) by (nonlinear_arith)
            requires
                sign == 1 || sign == -1,
        ;
        self.utility = margin * sign;
        self.traded = true;
    }

    /// Forgets the outcome of the round.
    pub fn reset(&mut self)
        ensures
            *final(self) == old(self).cleared(),
    {
        self.utility = 0;
        self.traded = false;
    }

    /// Gives the agent `value` as its private value and a truthful bid, and
    /// forgets the outcome of the round.
    pub fn set_value(&mut self, value: i64)
        requires
            0 <= value <= UNIT,
        ensures
            *final(self) == old(self).valued(value),
            final(self).bid == final(self).truthful_bid(),
            final(self).priced(),
    {
        let sign: i64 = self.sign();
        assert(value * sign == if sign == 1 { value as int } else { -value }) by (nonlinear_arith)
            requires
                sign == 1 || sign == -1,
        ;
        self.value = value;
        self.bid = value * sign;
        self.reset();
    }

    /// Draws a fresh value from the unit interval and installs it as
    /// [`Agent::set_value`] does. Which value is drawn is left to chance.
    pub fn resample(&mut self)
        ensures
            0 <= final(self).value <= UNIT,
            *final(self) == old(self).valued(final(self).value),
            final(self).bid == final(self).truthful_bid(),
            final(self).priced(),
    {
        let drawn: u64 = draw_up_to(UNIT as u64);
        self.set_value(drawn as i64);
    }

    /// Replaces the bid by the shaded bid and forgets the outcome of the
    /// round. The shaded quote stays within the value exactly where the agent
    /// shades inward; the shaded bid does not exceed the truthful bid unless
    /// the agent is a seller of the exponential style.
    pub fn shade(&mut self)
        requires
            old(self).configured(),
            0 <= old(self).value <= UNIT,
        ensures
            *final(self) == old(self).shaded(),
            final(self).bid == old(self).shaded_bid(),
            final(self).wf(),
            final(self).quote() <= final(self).value <==> old(self).shades_inward(),
            old(self).buyer || old(self).style != Style::Exponential ==> final(self).bid
                <= final(self).truthful_bid(),
    {
        proof {
            lemma_shaded_bid_range(*self);
            lemma_shading_inward(*self);
            if self.buyer || self.style != Style::Exponential {
                lemma_shading_weakens(*self);
            }
        }
        let sign: i64 = self.sign();
        let value: i64 = self.value;
        let shading: i64 = self.shading;
        assert(sign * value == if sign == 1 { value as int } else { -value }) by (nonlinear_arith)
            requires
                sign == 1 || sign == -1,
        ;
        assert(sign * UNIT == if sign == 1 { UNIT as int } else { -UNIT }) by (nonlinear_arith)
            requires
                sign == 1 || sign == -1,
        ;
        let bid: i64 = match self.style {
            Style::Standard => scaled(value, sign * UNIT - shading),
            Style::Correct => if self.buyer {
                scaled(value, UNIT - shading)
            } else {
                scaled(value - UNIT, shading) - value
            },
            Style::Exponential => {
                let factor: i64 = decay_factor(shading);
                scaled(sign * value, factor)
            },
            Style::Shift => sign * value - shading,
        };
        self.bid = bid;
        self.reset();
    }
}

/// The product of two fixed-point numbers, rounded down to the grid.
fn scaled(a: i64, b: i64) -> (r: i64)
    requires
        -BID_LIMIT <= a <= BID_LIMIT,
        -BID_LIMIT <= b <= BID_LIMIT,
    ensures
        r == (a * b) / (UNIT as int),
{
    proof {
        assert(-4_000_000_000_000_000_000 <= a * b <= 4_000_000_000_000_000_000) by (nonlinear_arith)
            requires
                -2_000_000_000 <= a <= 2_000_000_000,
                -2_000_000_000 <= b <= 2_000_000_000,
        ;
    }
    let product: i128 = (a as i128) * (b as i128);
    let q: i128 = floor_div(product, UNIT as i128);
    q as i64
}

/// A shaded bid never leaves the range between minus twice the unit and the
/// unit.
pub proof fn lemma_shaded_bid_range(agent: Agent)
    requires
        agent.configured(),
        0 <= agent.value <= UNIT,
    ensures
        -BID_LIMIT <= agent.shaded_bid() <= UNIT,
{
    let v = agent.value as int;
    let s = agent.shading as int;
    let u = UNIT as int;
    lemma_decay_bounds(s);
    let d = decay(s);
    assert(0 <= (v * (u - s)) / u <= u) by (nonlinear_arith)
        requires
            0 <= v <= u,
            0 <= s <= u,
            u == 1_000_000_000,
    ;
    assert(-2 * u <= (v * (-u - s)) / u <= 0) by (nonlinear_arith)
        requires
            0 <= v <= u,
            0 <= s <= u,
            u == 1_000_000_000,
    ;
    assert(-u <= ((v - u) * s) / u <= 0) by (nonlinear_arith)
        requires
            0 <= v <= u,
            0 <= s <= u,
            u == 1_000_000_000,
    ;
    assert(0 <= (1 * v * d) / u <= u) by (nonlinear_arith)
        requires
            0 <= v <= u,
            0 <= d <= u,
            u == 1_000_000_000,
    ;
    assert(-u <= (-1 * v * d) / u <= 0) by (nonlinear_arith)
        requires
            0 <= v <= u,
            0 <= d <= u,
            u == 1_000_000_000,
    ;
}

/// Without shading every style bids the truth.
pub proof fn lemma_no_shading_is_truthful(agent: Agent)
    requires
        agent.shading == 0,
        0 <= agent.value <= UNIT,
    ensures
        agent.shaded_bid() == agent.truthful_bid(),
{
    let v = agent.value as int;
    let u = UNIT as int;
    lemma_decay_bounds(0);
    assert((v * u) / u == v) by (nonlinear_arith)
        requires
            u > 0,
    ;
    assert((v * (-u)) / u == -v) by (nonlinear_arith)
        requires
            u > 0,
    ;
    assert(((v - u) * 0) / u == 0) by (nonlinear_arith)
        requires
            u > 0,
    ;
    assert(1 * v * u == v * u) by (nonlinear_arith);
    assert(-1 * v * u == v * (-u)) by (nonlinear_arith);
    assert(v * (1 * u - 0) == v * u) by (nonlinear_arith);
    assert(v * (-1 * u - 0) == v * (-u)) by (nonlinear_arith);
    assert(v * (u - 0) == v * u) by (nonlinear_arith);
}

/// Shading weakens an offer: the shaded bid of a buyer, and of a seller of
/// any style but the exponential, does not exceed the truthful bid.
pub proof fn lemma_shading_weakens(agent: Agent)
    requires
        agent.configured(),
        0 <= agent.value <= UNIT,
        agent.buyer || agent.style != Style::Exponential,
    ensures
        agent.shaded_bid() <= agent.truthful_bid(),
{
    let v = agent.value as int;
    let s = agent.shading as int;
    let u = UNIT as int;
    lemma_decay_bounds(s);
    let d = decay(s);
    assert(agent.truthful_bid() == if agent.buyer {
        v
    } else {
        -v
    });
    assert(-1 * u - s == -u - s && 1 * u - s == u - s);
    assert((v * (1 * u - s)) / u <= v) by (nonlinear_arith)
        requires
            0 <= v,
            0 <= s <= u,
            u > 0,
    ;
    assert((v * (u - s)) / u <= v) by (nonlinear_arith)
        requires
            0 <= v,
            0 <= s <= u,
            u > 0,
    ;
    assert((v * (-1 * u - s)) / u <= -v) by (nonlinear_arith)
        requires
            0 <= v,
            0 <= s <= u,
            u > 0,
    ;
    assert(((v - u) * s) / u <= 0) by (nonlinear_arith)
        requires
            0 <= v <= u,
            0 <= s <= u,
            u > 0,
    ;
    assert((1 * v * d) / u <= v) by (nonlinear_arith)
        requires
            0 <= v,
            0 <= d <= u,
            u > 0,
    ;
}

/// The shaded quote of an agent, its bid as a buyer or its ask as a seller,
/// stays within its value exactly where the agent shades inward.
pub proof fn lemma_shading_inward(agent: Agent)
    requires
        agent.configured(),
        0 <= agent.value <= UNIT,
    ensures
        agent.spec_sign() * agent.shaded_bid() <= agent.value <==> agent.shades_inward(),
{
    let v = agent.value as int;
    let s = agent.shading as int;
    let u = UNIT as int;
    lemma_decay_bounds(s);
    let d = decay(s);
    let bid = agent.shaded_bid();
    if agent.buyer {
        lemma_shading_weakens(agent);
        assert(1 * bid == bid);
    } else {
        assert(-1 * bid == -bid);
        match agent.style {
            Style::Standard => {
                assert((v * (-1 * u - s)) / u >= -v <==> v * s == 0) by (nonlinear_arith)
                    requires
                        0 <= v,
                        0 <= s,
                        u > 0,
                ;
                assert(v * s == 0 <==> v == 0 || s == 0) by (nonlinear_arith);
            },
            Style::Correct => {
                assert(((v - u) * s) / u >= 0 <==> (u - v) * s == 0) by (nonlinear_arith)
                    requires
                        0 <= v <= u,
                        0 <= s,
                        u > 0,
                ;
                assert((u - v) * s == 0 <==> v == u || s == 0) by (nonlinear_arith);
            },
            Style::Exponential => {
                assert((-1 * v * d) / u >= -v) by (nonlinear_arith)
                    requires
                        0 <= v,
                        0 <= d <= u,
                        u > 0,
                ;
            },
            Style::Shift => {},
        }
    }
}

} // verus!
