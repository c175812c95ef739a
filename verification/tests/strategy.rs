use double_auction::agent::Agent;
use double_auction::strategy::{enlist, parse_strategy, parse_strength, LabelError};
use double_auction::style::Style;

#[test]
fn strength_reads_plain_decimals() {
    assert_eq!(parse_strength("0"), Some(0));
    assert_eq!(parse_strength("1"), Some(1_000_000_000));
    assert_eq!(parse_strength("0.5"), Some(500_000_000));
    assert_eq!(parse_strength("0.25"), Some(250_000_000));
    assert_eq!(parse_strength(".5"), Some(500_000_000));
    assert_eq!(parse_strength("1."), Some(1_000_000_000));
    assert_eq!(parse_strength("1.000"), Some(1_000_000_000));
    assert_eq!(parse_strength("000.125"), Some(125_000_000));
    assert_eq!(parse_strength("0.000000001"), Some(1));
    assert_eq!(parse_strength("0.123456789"), Some(123_456_789));
}

#[test]
fn strength_drops_what_follows_the_ninth_place() {
    assert_eq!(parse_strength("0.3333333333"), Some(333_333_333));
    assert_eq!(parse_strength("0.9999999999999"), Some(999_999_999));
    assert_eq!(parse_strength("0.0000000009"), Some(0));
    assert_eq!(parse_strength("1.0000000000000"), Some(1_000_000_000));
    assert_eq!(parse_strength("1.0000000009"), Some(1_000_000_000));
}

#[test]
fn strength_refuses_what_is_no_decimal_in_the_unit_interval() {
    for text in [
        "", ".", "abc", "0.5a", "a0.5", "-0.5", "+0.5", "1e-1", "0.5.5", "0,5", " 0.5", "0.5 ",
        "inf", "NaN", "1.5", "2", "10", "1.000000001", "11111111111111111111111", "0.5x9",
        "0.\u{663}",
    ] {
        assert_eq!(parse_strength(text), None, "{:?}", text);
    }
}

#[test]
fn strategy_without_underscore_takes_the_default_style() {
    assert_eq!(
        parse_strategy("0.5", Style::Standard),
        Ok((500_000_000, Style::Standard))
    );
    assert_eq!(parse_strategy("1", Style::Shift), Ok((1_000_000_000, Style::Shift)));
    assert_eq!(parse_strategy("0", Style::Correct), Ok((0, Style::Correct)));
}

#[test]
fn strategy_with_underscore_names_its_style() {
    assert_eq!(
        parse_strategy("0.25_Shift", Style::Standard),
        Ok((250_000_000, Style::Shift))
    );
    assert_eq!(
        parse_strategy("0.1_Exponential", Style::Standard),
        Ok((100_000_000, Style::Exponential))
    );
    assert_eq!(
        parse_strategy("1_Correct", Style::Standard),
        Ok((1_000_000_000, Style::Correct))
    );
    assert_eq!(
        parse_strategy("0.75_Standard", Style::Shift),
        Ok((750_000_000, Style::Standard))
    );
}

#[test]
fn strategy_reports_a_bad_strength() {
    for label in ["", "_Shift", "x_Shift", "1.5", "1.5_Shift", "0.5a_Shift", "-1", "x_y"] {
        assert_eq!(
            parse_strategy(label, Style::Standard),
            Err(LabelError::Strength),
            "{:?}",
            label
        );
    }
}

#[test]
fn strategy_reports_an_unknown_style() {
    for label in ["0.5_", "0.5_shift", "0.5_Shift_", "0.5__Shift", "0.5_Shift_Shift", "0_\u{e9}"] {
        assert_eq!(
            parse_strategy(label, Style::Standard),
            Err(LabelError::Style),
            "{:?}",
            label
        );
    }
}

#[test]
fn enlist_adds_as_many_agents_as_asked() {
    let mut agents: Vec<Agent> = Vec::new();
    assert_eq!(enlist(&mut agents, true, "0.5", 3, Style::Standard), Ok(()));
    assert_eq!(enlist(&mut agents, false, "0.25_Shift", 2, Style::Standard), Ok(()));
    assert_eq!(enlist(&mut agents, false, "1", 0, Style::Correct), Ok(()));
    assert_eq!(agents.len(), 5);
    for agent in &agents[..3] {
        assert!(agent.buyer);
        assert_eq!(agent.strat, "0.5");
        assert_eq!(agent.style, Style::Standard);
        assert_eq!(agent.shading, 500_000_000);
        assert_eq!((agent.value, agent.bid, agent.utility), (0, 0, 0));
        assert!(!agent.traded && !agent.ce_traded);
    }
    for agent in &agents[3..] {
        assert!(!agent.buyer);
        assert_eq!(agent.strat, "0.25_Shift");
        assert_eq!(agent.style, Style::Shift);
        assert_eq!(agent.shading, 250_000_000);
    }
}

#[test]
fn enlist_adds_nothing_for_a_refused_label() {
    let mut agents: Vec<Agent> = Vec::new();
    assert_eq!(enlist(&mut agents, true, "0.5", 1, Style::Standard), Ok(()));
    assert_eq!(
        enlist(&mut agents, true, "half", 4, Style::Standard),
        Err(LabelError::Strength)
    );
    assert_eq!(
        enlist(&mut agents, true, "0.5_Bold", 4, Style::Standard),
        Err(LabelError::Style)
    );
    assert_eq!(agents.len(), 1);
}
