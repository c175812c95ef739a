use double_auction::agent::Agent;
use double_auction::fixed::{decay_factor, floor_div, UNIT};
use double_auction::style::Style;

const STYLES: [Style; 4] = [
    Style::Standard,
    Style::Exponential,
    Style::Shift,
    Style::Correct,
];

fn fixed(x: f64) -> i64 {
    (x * UNIT as f64).round() as i64
}

fn shaded(buyer: bool, style: Style, shading: f64, value: f64) -> Agent<'static> {
    let mut agent = Agent::new(buyer, "", style, fixed(shading));
    agent.set_value(fixed(value));
    agent.shade();
    agent
}

#[test]
fn test_shading_invariant() {
    let strat = "";
    for buyer in [false, true] {
        for style in [
            Style::Standard,
            Style::Exponential,
            Style::Shift,
            Style::Correct,
        ] {
            for shading in (0..11).map(|s| s as f64 / 10.0) {
                let mut agent = Agent::new(buyer, &strat, style, fixed(shading));
                for _ in 0..100 {
                    agent.reset();
                    agent.shade();
                    assert!(agent.bid <= agent.sign() * agent.value);
                }
            }
        }
    }
}

#[test]
fn test_inverse_enum() {
    for style in [
        Style::Standard,
        Style::Exponential,
        Style::Shift,
        Style::Correct,
    ] {
        let string = format!("{:?}", style);
        let copy: Style = string.parse().unwrap();
        assert_eq!(copy, style);
    }
}

#[test]
fn label_and_parse_are_inverse() {
    for style in STYLES {
        assert_eq!(Style::parse(style.label()), Ok(style));
        assert_eq!(style.label(), format!("{:?}", style));
    }
}

#[test]
fn parse_refuses_other_text() {
    assert_eq!(
        Style::parse("standard"),
        Err("unknown style: \"standard\"".to_string())
    );
    assert_eq!(Style::parse(""), Err("unknown style: \"\"".to_string()));
    assert_eq!(
        Style::parse("Shift "),
        Err("unknown style: \"Shift \"".to_string())
    );
    assert!("Exponentia".parse::<Style>().is_err());
}

#[test]
fn new_agent_holds_nothing() {
    let agent = Agent::new(true, "0.5_Shift", Style::Shift, fixed(0.5));
    assert!(agent.buyer);
    assert_eq!(agent.strat, "0.5_Shift");
    assert_eq!(agent.style, Style::Shift);
    assert_eq!(agent.shading, 500_000_000);
    assert_eq!(agent.value, 0);
    assert_eq!(agent.bid, 0);
    assert_eq!(agent.utility, 0);
    assert!(!agent.traded);
    assert!(!agent.ce_traded);
}

#[test]
fn sign_is_plus_for_buyers_and_minus_for_sellers() {
    assert_eq!(Agent::new(true, "", Style::Standard, 0).sign(), 1);
    assert_eq!(Agent::new(false, "", Style::Standard, 0).sign(), -1);
}

#[test]
fn transact_pays_value_less_price_to_a_buyer() {
    let mut buyer = Agent::new(true, "", Style::Standard, 0);
    buyer.set_value(fixed(0.8));
    buyer.transact(fixed(0.5));
    assert_eq!(buyer.utility, fixed(0.3));
    assert!(buyer.traded);
    let mut seller = Agent::new(false, "", Style::Standard, 0);
    seller.set_value(fixed(0.2));
    seller.transact(fixed(0.5));
    assert_eq!(seller.utility, fixed(0.3));
    assert!(seller.traded);
    seller.transact(fixed(0.1));
    assert_eq!(seller.utility, -fixed(0.1));
}

#[test]
fn reset_forgets_the_outcome_only() {
    let mut agent = shaded(true, Style::Standard, 0.5, 0.6);
    agent.transact(fixed(0.1));
    agent.ce_traded = true;
    agent.reset();
    assert_eq!(agent.utility, 0);
    assert!(!agent.traded);
    assert!(agent.ce_traded);
    assert_eq!(agent.value, fixed(0.6));
    assert_eq!(agent.bid, fixed(0.3));
}

#[test]
fn set_value_bids_the_truth() {
    let mut buyer = Agent::new(true, "", Style::Shift, fixed(0.4));
    buyer.transact(0);
    buyer.set_value(fixed(0.7));
    assert_eq!(buyer.bid, fixed(0.7));
    assert_eq!(buyer.utility, 0);
    assert!(!buyer.traded);
    let mut seller = Agent::new(false, "", Style::Shift, fixed(0.4));
    seller.set_value(fixed(0.7));
    assert_eq!(seller.bid, -fixed(0.7));
}

#[test]
fn resample_draws_from_the_unit_interval() {
    let mut agent = Agent::new(false, "", Style::Standard, fixed(0.3));
    let mut seen_below = false;
    let mut seen_distinct = false;
    let mut last = -1;
    for _ in 0..200 {
        agent.transact(fixed(0.5));
        agent.resample();
        assert!(0 <= agent.value && agent.value <= UNIT);
        assert_eq!(agent.bid, -agent.value);
        assert_eq!(agent.utility, 0);
        assert!(!agent.traded);
        if agent.value < UNIT {
            seen_below = true;
        }
        if last >= 0 && last != agent.value {
            seen_distinct = true;
        }
        last = agent.value;
    }
    assert!(seen_below);
    assert!(seen_distinct);
}

#[test]
fn standard_scales_the_value() {
    assert_eq!(shaded(true, Style::Standard, 0.2, 0.5).bid, fixed(0.4));
    assert_eq!(shaded(false, Style::Standard, 0.2, 0.5).bid, -fixed(0.6));
    assert_eq!(shaded(true, Style::Standard, 1.0, 0.5).bid, 0);
    assert_eq!(shaded(false, Style::Standard, 1.0, 1.0).bid, -2 * UNIT);
}

#[test]
fn correct_shades_sellers_towards_one() {
    assert_eq!(shaded(true, Style::Correct, 0.2, 0.5).bid, fixed(0.4));
    assert_eq!(shaded(false, Style::Correct, 0.2, 0.5).bid, -fixed(0.6));
    assert_eq!(shaded(false, Style::Correct, 0.5, 0.2).bid, -fixed(0.6));
    assert_eq!(shaded(false, Style::Correct, 1.0, 0.2).bid, -UNIT);
    assert_eq!(shaded(false, Style::Correct, 0.7, 1.0).bid, -UNIT);
}

#[test]
fn shift_moves_the_bid_by_the_strength() {
    assert_eq!(shaded(true, Style::Shift, 0.2, 0.5).bid, fixed(0.3));
    assert_eq!(shaded(false, Style::Shift, 0.2, 0.5).bid, -fixed(0.7));
    assert_eq!(shaded(true, Style::Shift, 1.0, 0.0).bid, -UNIT);
    assert_eq!(shaded(false, Style::Shift, 1.0, 1.0).bid, -2 * UNIT);
}

#[test]
fn exponential_scales_by_the_decay() {
    let factor = decay_factor(fixed(0.2));
    assert!((factor - 818_730_753).abs() <= 2);
    let buyer = shaded(true, Style::Exponential, 0.2, 0.5);
    assert_eq!(buyer.bid, floor_div(fixed(0.5) as i128 * factor as i128, UNIT as i128) as i64);
    assert!((buyer.bid - 409_365_376).abs() <= 2);
    let seller = shaded(false, Style::Exponential, 0.2, 0.5);
    assert_eq!(
        seller.bid,
        floor_div(-(fixed(0.5) as i128) * factor as i128, UNIT as i128) as i64
    );
    assert!((seller.bid + 409_365_377).abs() <= 2);
}

#[test]
fn decay_follows_the_exponential() {
    assert_eq!(decay_factor(0), UNIT);
    for step in 0..=100 {
        let s = fixed(step as f64 / 100.0);
        let exact = (-(step as f64) / 100.0).exp() * UNIT as f64;
        let factor = decay_factor(s);
        assert!((factor as f64 - exact).abs() <= 4.0);
        assert!(UNIT - s <= factor && factor <= UNIT);
    }
    assert!((decay_factor(UNIT) - 367_879_441).abs() <= 2);
}

#[test]
fn floor_div_rounds_down() {
    assert_eq!(floor_div(7, 2), 3);
    assert_eq!(floor_div(-7, 2), -4);
    assert_eq!(floor_div(-8, 2), -4);
    assert_eq!(floor_div(-1, 1_000_000_000), -1);
    assert_eq!(floor_div(0, 5), 0);
    assert_eq!(floor_div(i128::MIN, 1), i128::MIN);
    assert_eq!(floor_div(i128::MIN, 2), i128::MIN / 2);
    assert_eq!(floor_div(i128::MIN + 1, 2), i128::MIN / 2);
    assert_eq!(floor_div(i128::MAX, i128::MAX), 1);
}

#[test]
fn no_shading_is_truthful_in_every_style() {
    for style in STYLES {
        for buyer in [false, true] {
            for value in [0.0, 0.123456789, 0.5, 1.0] {
                let agent = shaded(buyer, style, 0.0, value);
                assert_eq!(agent.bid, agent.sign() * agent.value);
            }
        }
    }
}

#[test]
fn shaded_quote_stays_within_value_where_the_agent_shades_inward() {
    for style in STYLES {
        for buyer in [false, true] {
            for s in 0..=10 {
                for v in 0..=10 {
                    let agent = shaded(buyer, style, s as f64 / 10.0, v as f64 / 10.0);
                    let inward = buyer
                        || style == Style::Exponential
                        || s == 0
                        || (style == Style::Standard && v == 0)
                        || (style == Style::Correct && v == 10);
                    assert_eq!(agent.sign() * agent.bid <= agent.value, inward);
                    if buyer || style != Style::Exponential {
                        assert!(agent.bid <= agent.sign() * agent.value);
                    }
                    assert!(-2 * UNIT <= agent.bid && agent.bid <= UNIT);
                }
            }
        }
    }
}

#[test]
fn shading_survives_repeated_rounds() {
    for style in STYLES {
        let mut agent = Agent::new(true, "", style, fixed(0.35));
        for _ in 0..50 {
            agent.resample();
            agent.shade();
            assert!(agent.sign() * agent.bid <= agent.value);
            assert_eq!(agent.utility, 0);
            assert!(!agent.traded);
        }
    }
}
