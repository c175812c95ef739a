use double_auction::agent::Agent;
use double_auction::fixed::UNIT;
use double_auction::{Call, Cda, Market};
use double_auction::style::Style;
use double_auction::welfare::{decompose, play_round, run_sim, sum_utility, Features};
use rand::distributions::{Distribution, Uniform};
use rand::seq::SliceRandom;

fn grid(x: f64) -> i64 {
    (x * UNIT as f64).round() as i64
}

fn as_units(x: i128) -> f64 {
    x as f64 / UNIT as f64
}

fn valued(buyer: bool, style: Style, shading: f64, value: f64) -> Agent<'static> {
    let mut agent = Agent::new(buyer, "", style, grid(shading));
    agent.set_value(grid(value));
    agent
}

#[test]
fn test_features() {
    let styles = [
        Style::Standard,
        Style::Exponential,
        Style::Shift,
        Style::Correct,
    ];
    let mut rng = rand::thread_rng();
    let num_dist = Uniform::from(5..10);
    let shade_dist = Uniform::from(0.0..=1.0);
    for _ in 0..100 {
        let mut agents: Vec<Agent> = Vec::new();
        let num = num_dist.sample(&mut rng);
        for buyer in [false, true] {
            for _ in 0..num {
                agents.push(Agent::new(
                    buyer,
                    "",
                    *styles.choose(&mut rng).unwrap(),
                    grid(shade_dist.sample(&mut rng)),
                ));
            }
        }

        for _ in 0..100 {
            let features = run_sim(&mut agents, &Cda);
            let ce_surplus_other = features.surplus + features.im_surplus + features.em_surplus;
            assert!((as_units(features.ce_surplus) - as_units(ce_surplus_other)).abs() < 1e-6);
            assert_eq!(features.ce_surplus, ce_surplus_other);
        }
    }
}

#[test]
fn welfare_is_conserved_under_the_call_market_too() {
    let styles = [
        Style::Standard,
        Style::Exponential,
        Style::Shift,
        Style::Correct,
    ];
    let mut rng = rand::thread_rng();
    let shade_dist = Uniform::from(0.0..=1.0);
    for size in 0..12 {
        let mut agents: Vec<Agent> = Vec::new();
        for i in 0..size {
            agents.push(Agent::new(
                i % 3 != 0,
                "",
                *styles.choose(&mut rng).unwrap(),
                grid(shade_dist.sample(&mut rng)),
            ));
        }
        for _ in 0..50 {
            let features = run_sim(&mut agents, &Call);
            assert_eq!(
                features.ce_surplus,
                features.surplus + features.im_surplus + features.em_surplus
            );
            assert_eq!(features.surplus, sum_utility(&agents));
            assert_eq!(features.ce_price.is_none(), agents.iter().all(|a| !a.ce_traded));
            for agent in agents.iter() {
                assert!(0 <= agent.value && agent.value <= UNIT);
            }
        }
    }
}

#[test]
fn truthful_round_realises_the_benchmark() {
    let mut agents = [
        valued(true, Style::Correct, 0.0, 1.0),
        valued(false, Style::Correct, 0.0, 0.7),
        valued(true, Style::Correct, 0.0, 0.3),
        valued(false, Style::Correct, 0.0, 0.0),
    ];
    let features: Features = play_round(&mut agents, &Call);
    assert_eq!(features.ce_price, Some(grid(0.5)));
    assert_eq!(features.ce_surplus, grid(1.0) as i128);
    assert_eq!(features.surplus, grid(1.0) as i128);
    assert_eq!(features.im_surplus, 0);
    assert_eq!(features.em_surplus, 0);
    let marks: Vec<bool> = agents.iter().map(|a| a.ce_traded).collect();
    assert_eq!(marks, vec![true, false, false, true]);
    assert_eq!(agents[0].utility, grid(0.5));
    assert_eq!(agents[3].utility, grid(0.5));
}

#[test]
fn shading_that_stops_a_trade_shows_as_intramarginal_loss() {
    let mut agents = [
        valued(true, Style::Shift, 0.5, 0.6),
        valued(false, Style::Shift, 0.0, 0.4),
    ];
    let features = play_round(&mut agents, &Call);
    assert_eq!(features.ce_price, Some(grid(0.5)));
    assert_eq!(features.ce_surplus, grid(0.2) as i128);
    assert_eq!(features.surplus, 0);
    assert_eq!(features.im_surplus, grid(0.2) as i128);
    assert_eq!(features.em_surplus, 0);
    assert_eq!(agents[0].bid, grid(0.1));
    assert!(agents[0].ce_traded && !agents[0].traded);
    assert_eq!(agents[0].utility, 0);
}

#[test]
fn a_trade_outside_the_benchmark_shows_as_extramarginal() {
    let mut agents = [
        valued(true, Style::Correct, 0.0, 0.9),
        valued(true, Style::Correct, 0.0, 0.5),
        valued(false, Style::Correct, 0.0, 0.2),
        valued(false, Style::Correct, 0.0, 0.6),
    ];
    let ce_price = Call.simulate(&mut agents);
    assert_eq!(ce_price, Some(grid(0.55)));
    for agent in agents.iter_mut() {
        agent.ce_traded = agent.traded;
    }
    let ce_surplus = sum_utility(&agents);
    assert_eq!(ce_surplus, grid(0.7) as i128);
    for agent in agents.iter_mut() {
        agent.shade();
    }
    let price = Cda::clear_in_order(&mut agents, &[2, 1, 3, 0]).mean_price;
    assert_eq!(price, Some((grid(0.2) + grid(0.6)) / 2));
    let surplus = sum_utility(&agents);
    assert_eq!(surplus, grid(0.6) as i128);
    let (im, em) = decompose(&agents, ce_price, ce_surplus, surplus);
    assert_eq!(im, 0);
    assert_eq!(em, grid(0.1) as i128);
    assert_eq!(ce_surplus, surplus + im + em);
}

#[test]
fn without_a_benchmark_price_the_gap_is_extramarginal() {
    let agents = [
        valued(true, Style::Correct, 0.0, 0.9),
        valued(false, Style::Correct, 0.0, 0.2),
    ];
    assert_eq!(decompose(&agents, None, 10, 4), (0, 6));
    assert_eq!(decompose(&agents, None, 0, 0), (0, 0));
    assert_eq!(decompose(&agents, None, -3, 4), (0, -7));
}

#[test]
fn decompose_values_disagreements_at_the_benchmark_price() {
    let mut agents = [
        valued(true, Style::Correct, 0.0, 0.9),
        valued(false, Style::Correct, 0.0, 0.2),
        valued(true, Style::Correct, 0.0, 0.4),
        valued(false, Style::Correct, 0.0, 0.7),
        valued(true, Style::Correct, 0.0, 0.8),
    ];
    agents[0].ce_traded = true;
    agents[1].ce_traded = true;
    agents[1].traded = true;
    agents[2].traded = true;
    agents[3].traded = true;
    agents[4].traded = true;
    agents[4].ce_traded = true;
    let (im, em) = decompose(&agents, Some(grid(0.5)), 0, 0);
    assert_eq!(im, grid(0.4) as i128);
    assert_eq!(em, (grid(0.1) + grid(0.2)) as i128);
}

#[test]
fn sum_utility_adds_the_utilities() {
    let mut agents = [
        valued(true, Style::Correct, 0.0, 0.9),
        valued(false, Style::Correct, 0.0, 0.2),
        valued(false, Style::Correct, 0.0, 0.2),
    ];
    assert_eq!(sum_utility(&agents), 0);
    agents[0].utility = i64::MAX;
    agents[1].utility = i64::MAX;
    agents[2].utility = -5;
    assert_eq!(sum_utility(&agents), 2 * (i64::MAX as i128) - 5);
    assert_eq!(sum_utility(&[]), 0);
}

#[test]
fn a_round_keeps_the_configuration_of_every_agent() {
    let mut agents = vec![
        Agent::new(true, "0.5", Style::Standard, grid(0.5)),
        Agent::new(false, "0.25_Shift", Style::Shift, grid(0.25)),
        Agent::new(false, "1_Exponential", Style::Exponential, grid(1.0)),
    ];
    for _ in 0..20 {
        run_sim(&mut agents, &Cda);
        assert_eq!(agents[0].strat, "0.5");
        assert_eq!(agents[1].strat, "0.25_Shift");
        assert_eq!(agents[2].style, Style::Exponential);
        assert_eq!(agents[1].shading, grid(0.25));
        assert!(agents[0].buyer && !agents[1].buyer && !agents[2].buyer);
    }
}

#[test]
fn an_empty_population_plays_an_empty_round() {
    let mut agents: Vec<Agent> = Vec::new();
    let features = run_sim(&mut agents, &Cda);
    assert_eq!(features.surplus, 0);
    assert_eq!(features.ce_surplus, 0);
    assert_eq!(features.im_surplus, 0);
    assert_eq!(features.em_surplus, 0);
    assert_eq!(features.ce_price, None);
}
