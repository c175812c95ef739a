use double_auction::agent::Agent;
use double_auction::fixed::UNIT;
use double_auction::cda::Trading;
use double_auction::{Call, Cda, Market};
use double_auction::style::Style;

fn price_of(x: f64) -> i64 {
    (x * UNIT as f64).round() as i64
}

fn truthful(buyer: bool, value: f64) -> Agent<'static> {
    let mut agent = Agent::new(buyer, "", Style::Correct, price_of(0.0));
    agent.value = price_of(value);
    agent.shade();
    agent
}

fn bidding(buyer: bool, value: f64, quote: f64) -> Agent<'static> {
    let mut agent = truthful(buyer, value);
    agent.bid = if buyer { price_of(quote) } else { -price_of(quote) };
    agent
}

fn untouched(agents: &[Agent<'_>]) -> bool {
    agents.iter().all(|a| !a.traded && a.utility == 0)
}

#[test]
fn test_simple_call() {
    let mut agents = [
        truthful(true, 1.0),
        truthful(false, 0.7),
        truthful(true, 0.3),
        truthful(false, 0.0),
    ];
    let price = Call.simulate(&mut agents);
    let [one, two, three, four] = agents;

    assert_eq!(price, Some(price_of(0.5)));
    assert!(one.traded);
    assert!(!two.traded);
    assert!(!three.traded);
    assert!(four.traded);
}

#[test]
fn call_pays_every_trader_at_the_one_price() {
    let mut agents = [
        truthful(true, 1.0),
        truthful(false, 0.7),
        truthful(true, 0.3),
        truthful(false, 0.0),
    ];
    Call.simulate(&mut agents);
    assert_eq!(agents[0].utility, price_of(0.5));
    assert_eq!(agents[3].utility, price_of(0.5));
    assert_eq!(agents[1].utility, 0);
    assert_eq!(agents[2].utility, 0);
}

#[test]
fn call_prices_at_the_midpoint_of_the_last_pair() {
    let mut agents = [
        truthful(true, 0.9),
        truthful(true, 0.8),
        truthful(true, 0.2),
        truthful(false, 0.1),
        truthful(false, 0.4),
        truthful(false, 0.85),
    ];
    let price = Call.simulate(&mut agents);
    assert_eq!(price, Some(price_of(0.6)));
    let traded: Vec<bool> = agents.iter().map(|a| a.traded).collect();
    assert_eq!(traded, vec![true, true, false, true, true, false]);
    assert_eq!(agents[0].utility, price_of(0.3));
    assert_eq!(agents[1].utility, price_of(0.2));
    assert_eq!(agents[3].utility, price_of(0.5));
    assert_eq!(agents[4].utility, price_of(0.2));
}

#[test]
fn call_counts_a_tie_of_bid_and_ask_as_a_match() {
    let mut agents = [truthful(true, 0.5), truthful(false, 0.5)];
    let price = Call.simulate(&mut agents);
    assert_eq!(price, Some(price_of(0.5)));
    assert!(agents[0].traded && agents[1].traded);
    assert_eq!(agents[0].utility, 0);
    assert_eq!(agents[1].utility, 0);
}

#[test]
fn call_breaks_ties_among_equal_bids_by_place() {
    let mut agents = [
        truthful(true, 0.6),
        truthful(true, 0.6),
        truthful(false, 0.2),
    ];
    let price = Call.simulate(&mut agents);
    assert_eq!(price, Some(price_of(0.4)));
    assert!(agents[0].traded);
    assert!(!agents[1].traded);
    assert!(agents[2].traded);
}

#[test]
fn call_rounds_the_midpoint_down() {
    let mut agents = [bidding(true, 0.5, 0.0), bidding(false, 0.5, 0.0)];
    agents[0].bid = 4;
    agents[1].bid = -1;
    assert_eq!(Call.simulate(&mut agents), Some(2));
    let mut agents = [bidding(true, 0.5, 0.0), bidding(false, 0.5, 0.0)];
    agents[0].bid = -1;
    agents[1].bid = 4;
    assert_eq!(Call.simulate(&mut agents), Some(-3));
}

#[test]
fn call_leaves_the_unmatched_as_they_were() {
    let mut agents = [
        truthful(true, 1.0),
        truthful(false, 0.7),
        truthful(true, 0.3),
        truthful(false, 0.0),
    ];
    agents[1].utility = 77;
    agents[1].traded = true;
    Call.simulate(&mut agents);
    assert_eq!(agents[1].utility, 77);
    assert!(agents[1].traded);
    assert_eq!(agents[2].utility, 0);
    assert!(!agents[2].traded);
}

#[test]
fn no_match_leaves_both_markets_without_a_price() {
    let make = || {
        vec![
            truthful(true, 0.1),
            truthful(false, 0.5),
            truthful(true, 0.3),
            truthful(false, 0.9),
            truthful(true, 0.49),
        ]
    };
    let mut agents = make();
    assert_eq!(Call.simulate(&mut agents), None);
    assert!(untouched(&agents));
    for _ in 0..20 {
        let mut agents = make();
        assert_eq!(Cda.simulate(&mut agents), None);
        assert!(untouched(&agents));
    }
    let mut agents = make();
    assert_eq!(Cda::clear_in_order(&mut agents, &[4, 3, 2, 1, 0]).mean_price, None);
    assert!(untouched(&agents));
}

#[test]
fn markets_do_nothing_on_an_empty_or_one_sided_population() {
    let mut nobody: Vec<Agent> = Vec::new();
    assert_eq!(Call.simulate(&mut nobody), None);
    assert_eq!(Cda.simulate(&mut nobody), None);
    let mut buyers = vec![truthful(true, 0.9), truthful(true, 0.8)];
    assert_eq!(Call.simulate(&mut buyers), None);
    assert_eq!(Cda.simulate(&mut buyers), None);
    assert!(untouched(&buyers));
    let mut sellers = vec![truthful(false, 0.1)];
    assert_eq!(Call.simulate(&mut sellers), None);
    assert_eq!(Cda.simulate(&mut sellers), None);
    assert!(untouched(&sellers));
}

#[test]
fn cda_trades_an_arriving_buyer_at_the_resting_ask() {
    let mut agents = [truthful(false, 0.3), truthful(true, 0.5)];
    let price = Cda::clear_in_order(&mut agents, &[0, 1]).mean_price;
    assert_eq!(price, Some(price_of(0.3)));
    assert_eq!(agents[0].utility, 0);
    assert_eq!(agents[1].utility, price_of(0.2));
    assert!(agents[0].traded && agents[1].traded);
}

#[test]
fn cda_trades_an_arriving_seller_at_the_resting_bid() {
    let mut agents = [truthful(false, 0.3), truthful(true, 0.5)];
    let price = Cda::clear_in_order(&mut agents, &[1, 0]).mean_price;
    assert_eq!(price, Some(price_of(0.5)));
    assert_eq!(agents[0].utility, price_of(0.2));
    assert_eq!(agents[1].utility, 0);
}

#[test]
fn cda_serves_the_best_resting_order_first() {
    let mut agents = [
        truthful(false, 0.4),
        truthful(false, 0.2),
        truthful(false, 0.3),
        truthful(true, 0.9),
        truthful(true, 0.35),
        truthful(true, 0.35),
    ];
    let price = Cda::clear_in_order(&mut agents, &[0, 1, 2, 3, 4, 5]).mean_price;
    assert_eq!(price, Some(price_of(0.25)));
    let traded: Vec<bool> = agents.iter().map(|a| a.traded).collect();
    assert_eq!(traded, vec![false, true, true, true, true, false]);
    assert_eq!(agents[3].utility, price_of(0.7));
    assert_eq!(agents[1].utility, 0);
    assert_eq!(agents[4].utility, price_of(0.05));
    assert_eq!(agents[2].utility, 0);
}

#[test]
fn cda_averages_the_prices_of_its_trades() {
    let mut agents = [
        truthful(true, 0.9),
        truthful(false, 0.1),
        truthful(false, 0.2),
        truthful(true, 0.6),
        truthful(true, 1.0),
        truthful(false, 0.5),
    ];
    let price = Cda::clear_in_order(&mut agents, &[0, 1, 2, 3, 4, 5]).mean_price;
    assert_eq!(price, Some((price_of(0.9) + price_of(0.2) + price_of(1.0)) / 3));
    assert_eq!(agents[1].utility, price_of(0.8));
    assert_eq!(agents[0].utility, 0);
    assert_eq!(agents[3].utility, price_of(0.4));
    assert_eq!(agents[5].utility, price_of(0.5));
}

#[test]
fn cda_rounds_the_mean_down() {
    let mut agents = [
        bidding(true, 0.5, 0.0),
        bidding(false, 0.5, 0.0),
        bidding(true, 0.5, 0.0),
        bidding(false, 0.5, 0.0),
    ];
    agents[0].bid = 3;
    agents[1].bid = 0;
    agents[2].bid = 4;
    agents[3].bid = 0;
    assert_eq!(Cda::clear_in_order(&mut agents, &[0, 1, 2, 3]).mean_price, Some(3));
    for agent in agents.iter_mut() {
        agent.reset();
    }
    agents[0].bid = -3;
    agents[1].bid = 5;
    agents[2].bid = -4;
    agents[3].bid = 5;
    assert_eq!(Cda::clear_in_order(&mut agents, &[0, 1, 2, 3]).mean_price, Some(-4));
}

#[test]
fn cda_reports_the_number_of_its_trades() {
    let mut agents = [
        truthful(true, 0.9),
        truthful(false, 0.1),
        truthful(false, 0.2),
        truthful(true, 0.6),
        truthful(true, 1.0),
        truthful(false, 0.5),
    ];
    let report = Cda::clear_in_order(&mut agents, &[0, 1, 2, 3, 4, 5]);
    assert_eq!(report.trades, 3);
    for agent in agents.iter_mut() {
        agent.reset();
    }
    let report = Cda::clear_in_order(&mut agents, &[1, 2, 5, 0, 3, 4]);
    assert_eq!(
        report,
        Trading {
            trades: 3,
            mean_price: Some((price_of(0.1) + price_of(0.2) + price_of(0.5)) / 3)
        }
    );
    for agent in agents.iter_mut() {
        agent.reset();
    }
    let report = Cda::clear_in_order(&mut agents, &[0, 3, 4]);
    assert_eq!(report, Trading { trades: 0, mean_price: None });
}

#[test]
fn cda_leaves_out_the_agents_that_never_arrive() {
    let mut agents = [
        truthful(false, 0.3),
        truthful(true, 0.5),
        truthful(true, 0.9),
    ];
    let price = Cda::clear_in_order(&mut agents, &[1, 0]).mean_price;
    assert_eq!(price, Some(price_of(0.5)));
    assert!(!agents[2].traded);
    assert_eq!(Cda::clear_in_order(&mut agents, &[]).mean_price, None);
}

#[test]
fn cda_keeps_the_agents_in_their_places() {
    let mut agents: Vec<Agent> = (0..12)
        .map(|i| truthful(i % 2 == 0, (i as f64) / 12.0))
        .collect();
    let values: Vec<i64> = agents.iter().map(|a| a.value).collect();
    let bids: Vec<i64> = agents.iter().map(|a| a.bid).collect();
    Cda.simulate(&mut agents);
    assert_eq!(values, agents.iter().map(|a| a.value).collect::<Vec<i64>>());
    assert_eq!(bids, agents.iter().map(|a| a.bid).collect::<Vec<i64>>());
}

#[test]
fn cda_draws_a_new_order_of_arrival_each_time() {
    let mut prices = Vec::new();
    for _ in 0..200 {
        let mut agents = [
            truthful(false, 0.1),
            truthful(true, 0.5),
            truthful(true, 0.9),
        ];
        let price = Cda.simulate(&mut agents).unwrap();
        assert!(agents[0].traded);
        if !prices.contains(&price) {
            prices.push(price);
        }
    }
    prices.sort();
    assert_eq!(prices, vec![price_of(0.1), price_of(0.5), price_of(0.9)]);
}

#[test]
fn cda_trades_at_most_half_the_population() {
    let mut seed: u64 = 99;
    for round in 0..200 {
        let n = 1 + round % 9;
        let mut agents: Vec<Agent> = Vec::new();
        for _ in 0..n {
            seed = seed.wrapping_mul(6364136223846793005).wrapping_add(1442695040888963407);
            let buyer = (seed >> 20) % 2 == 0;
            let value = ((seed >> 30) % 1001) as f64 / 1000.0;
            agents.push(truthful(buyer, value));
        }
        let price = Cda.simulate(&mut agents);
        let traders: Vec<&Agent> = agents.iter().filter(|a| a.traded).collect();
        let buyers = traders.iter().filter(|a| a.buyer).count();
        assert_eq!(traders.len(), 2 * buyers);
        assert!(buyers <= n / 2);
        match price {
            None => assert!(traders.is_empty()),
            Some(mean) => {
                let low = traders.iter().map(|a| a.sign() * a.bid).min().unwrap();
                let high = traders.iter().map(|a| a.sign() * a.bid).max().unwrap();
                assert!(low <= mean && mean <= high);
            }
        }
        let welfare: i64 = agents.iter().map(|a| a.utility).sum();
        let value: i64 = traders.iter().map(|a| a.sign() * a.value).sum();
        assert_eq!(welfare, value);
    }
}

#[test]
fn call_matches_as_many_buyers_as_sellers() {
    let mut seed: u64 = 7;
    for round in 0..200 {
        let n = round % 10;
        let mut agents: Vec<Agent> = Vec::new();
        for _ in 0..n {
            seed = seed.wrapping_mul(6364136223846793005).wrapping_add(1442695040888963407);
            let buyer = (seed >> 20) % 2 == 0;
            let value = ((seed >> 30) % 11) as f64 / 10.0;
            agents.push(truthful(buyer, value));
        }
        let price = Call.simulate(&mut agents);
        let bought = agents.iter().filter(|a| a.traded && a.buyer).count();
        let sold = agents.iter().filter(|a| a.traded && !a.buyer).count();
        assert_eq!(bought, sold);
        assert_eq!(price.is_some(), bought > 0);
        let mut bids: Vec<i64> = agents.iter().filter(|a| a.buyer).map(|a| a.bid).collect();
        let mut asks: Vec<i64> = agents.iter().filter(|a| !a.buyer).map(|a| -a.bid).collect();
        bids.sort_by_key(|bid| -bid);
        asks.sort();
        let matched = bids.iter().zip(asks.iter()).take_while(|(b, a)| a <= b).count();
        assert_eq!(bought, matched);
        if matched > 0 {
            assert_eq!(price, Some((bids[matched - 1] + asks[matched - 1]).div_euclid(2)));
        }
        let welfare: i64 = agents.iter().map(|a| a.utility).sum();
        let value: i64 = agents.iter().filter(|a| a.traded).map(|a| a.sign() * a.value).sum();
        assert_eq!(welfare, value);
    }
}
