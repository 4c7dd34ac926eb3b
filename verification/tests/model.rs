use portfel::amount::{Amount, Currency};
use portfel::error::PortfolioReadError;
use portfel::portfolio::{
    accumulate_market_value, fill_positions, market_value_of, ChangeRequest, Config, Portfolio,
    Position, PositionChange,
};

/// Quanta per currency unit.
const U: i128 = 1_000_000_000;

fn position(name: &str, ticker: &str, group: &str, amount: Option<Amount>, target: i64) -> Position {
    Position {
        name: name.to_string(),
        ticker: ticker.to_string(),
        group: group.to_string(),
        amount,
        target,
    }
}

fn change(group: &str, currency: Currency, value: i128) -> PositionChange {
    PositionChange {
        position: position("P", "P", group, Some(Amount::new(currency, 0)), 500_000),
        amount: Amount::new(currency, value),
    }
}

#[test]
fn change_per_group_sums_by_group() {
    let cr = ChangeRequest {
        changes: vec![
            change("a", Currency::USD, 100 * U),
            change("b", Currency::EUR, 200 * U),
            change("a", Currency::USD, 50 * U),
        ],
    };
    let per_group = cr.change_per_group();
    assert_eq!(per_group.len(), 2);
    let a = per_group.iter().find(|(g, _)| g == "a").unwrap();
    assert_eq!(a.1, Amount::new(Currency::USD, 150 * U));
    let b = per_group.iter().find(|(g, _)| g == "b").unwrap();
    assert_eq!(b.1, Amount::new(Currency::EUR, 200 * U));
}

#[test]
fn change_per_group_keeps_the_first_currency() {
    // The documented limitation: magnitudes of a group are summed raw, and
    // the group's amount carries the first change's currency.
    let cr = ChangeRequest {
        changes: vec![change("a", Currency::USD, 100 * U), change("a", Currency::EUR, 50 * U)],
    };
    let per_group = cr.change_per_group();
    assert_eq!(per_group.len(), 1);
    assert_eq!(per_group[0].1, Amount::new(Currency::USD, 150 * U));
}

#[test]
fn total_change_converts_and_sums() {
    let rates = portfel::fx::Rates {
        entries: vec![(Currency::USD, 1_000_000), (Currency::EUR, 1_200_000)],
    };
    let cr = ChangeRequest {
        changes: vec![change("a", Currency::USD, 100 * U), change("b", Currency::EUR, 100 * U)],
    };
    let total = cr.total_change(&rates, Currency::USD).unwrap();
    assert_eq!(total, Amount::new(Currency::USD, 220 * U));
}

#[test]
fn market_values_fill_unresolved_positions() {
    let mut positions = vec![
        position("P1", "AAA", "G", Some(Amount::new(Currency::USD, 5 * U)), 500_000),
        position("P2", "BBB", "G", None, 500_000),
    ];
    let values = vec![("BBB".to_string(), Amount::new(Currency::USD, 77 * U))];
    fill_positions(&mut positions, &values).unwrap();
    assert_eq!(positions[0].amount, Some(Amount::new(Currency::USD, 5 * U)));
    assert_eq!(positions[1].amount, Some(Amount::new(Currency::USD, 77 * U)));
}

#[test]
fn fill_reports_a_position_without_a_value() {
    let mut positions = vec![position("P2", "BBB", "G", None, 500_000)];
    let values = vec![("CCC".to_string(), Amount::new(Currency::USD, 77 * U))];
    let r = fill_positions(&mut positions, &values);
    assert!(matches!(r, Err(PortfolioReadError::AmountMissing)));
}

#[test]
fn market_value_lookup_takes_the_first_entry() {
    let values = vec![
        ("AAA".to_string(), Amount::new(Currency::USD, 100 * U)),
        ("AAA".to_string(), Amount::new(Currency::USD, 200 * U)),
    ];
    assert_eq!(
        market_value_of(&values, &"AAA".to_string()),
        Some(Amount::new(Currency::USD, 100 * U))
    );
    assert_eq!(market_value_of(&values, &"ZZZ".to_string()), None);
}

#[test]
fn example_portfolio_has_the_sample_shape() {
    let p = Portfolio::example(None, None);
    assert_eq!(p.config.base_currency, Currency::USD);
    assert_eq!(p.groups.len(), 2);
    assert_eq!(p.groups[0].id, "xtb_usd");
    assert_eq!(p.groups[1].id, "cash_eur");
    assert_eq!(p.positions.len(), 2);
    assert_eq!(p.positions[0].ticker, "SPX500");
    assert_eq!(p.positions[0].amount, Some(Amount::new(Currency::USD, 100 * U)));
    assert_eq!(p.positions[1].amount, Some(Amount::new(Currency::EUR, 100 * U)));
}

#[test]
fn example_with_broker_leaves_the_index_unresolved() {
    let account = portfel::xtb::XtbAccount::new("1".to_string(), None, None);
    let p = Portfolio::example(None, Some(account));
    assert_eq!(p.positions[0].amount, None);
}

#[test]
fn default_config_uses_the_native_currency() {
    let c = Config::default();
    assert!(c.xtb.is_none());
    assert_eq!(c.base_currency, Currency::NATIVE);
}

#[test]
fn new_value_applies_the_delta() {
    let pc = PositionChange {
        position: position("P", "P", "G", Some(Amount::new(Currency::USD, 100 * U)), 500_000),
        amount: Amount::new(Currency::USD, 40 * U),
    };
    assert_eq!(pc.new_value(), Amount::new(Currency::USD, 140 * U));
}

#[test]
fn accumulated_market_values_add_up() {
    let mut values: Vec<(String, Amount)> = Vec::new();
    accumulate_market_value(&mut values, "AAA".to_string(), Amount::new(Currency::USD, 100 * U))
        .unwrap();
    accumulate_market_value(&mut values, "BBB".to_string(), Amount::new(Currency::EUR, 5 * U))
        .unwrap();
    accumulate_market_value(&mut values, "AAA".to_string(), Amount::new(Currency::USD, 20 * U))
        .unwrap();
    assert_eq!(values.len(), 2);
    assert_eq!(values[0], ("AAA".to_string(), Amount::new(Currency::USD, 120 * U)));
    assert_eq!(values[1], ("BBB".to_string(), Amount::new(Currency::EUR, 5 * U)));
    let r = accumulate_market_value(
        &mut values,
        "AAA".to_string(),
        Amount::new(Currency::EUR, U),
    );
    assert_eq!(
        r,
        Err(PortfolioReadError::CurrencyMismatch(Currency::USD, Currency::EUR))
    );
}
