use portfel::amount::{Amount, Currency, CENT_TOLERANCE};
use portfel::error::{FxError, PortfolioOpsError};
use portfel::fx::Rates;
use portfel::portfolio::{Config, Group, Portfolio, Position, PositionChange};

/// Quanta per currency unit.
const U: i128 = 1_000_000_000;

fn mock_rates() -> Rates {
    Rates {
        entries: vec![
            (Currency::USD, 1_000_000),
            (Currency::EUR, 1_200_000),
            (Currency::GBP, 1_300_000),
            (Currency::CHF, 1_400_000),
            (Currency::PLN, 1_000_000),
        ],
    }
}

fn position(name: &str, ticker: &str, group: &str, amount: Option<Amount>, target: i64) -> Position {
    Position {
        name: name.to_string(),
        ticker: ticker.to_string(),
        group: group.to_string(),
        amount,
        target,
    }
}

#[test]
fn test_total_value() {
    let mut portfolio = Portfolio {
        rates: mock_rates(),
        config: Config::default(),
        groups: vec![
            Group::new("TEST1".to_string(), Currency::USD),
            Group::new("TEST2".to_string(), Currency::EUR),
        ],
        positions: Vec::new(),
    };
    portfolio.positions.push(position(
        "Test",
        "TEST",
        "TEST1",
        Some(Amount::new(Currency::USD, 100 * U)),
        500_000,
    ));
    portfolio.positions.push(position(
        "Test",
        "TEST",
        "TEST2",
        Some(Amount::new(Currency::EUR, 100 * U)),
        500_000,
    ));
    // 100 USD * 1.0 + 100 EUR * 1.2 = 220 USD
    assert_eq!(
        portfolio.total_value(Currency::USD).unwrap(),
        Amount::new(Currency::USD, 220 * U)
    );
}

#[test]
fn test_balance_empty() {
    let portfolio = Portfolio {
        rates: mock_rates(),
        config: Config::default(),
        groups: vec![
            Group::new("TEST1".to_string(), Currency::USD),
            Group::new("TEST2".to_string(), Currency::EUR),
        ],
        positions: vec![
            position("Test 1", "TEST1", "TEST1", Some(Amount::new(Currency::USD, 0)), 300_000),
            position("Test 2", "TEST2", "TEST2", Some(Amount::new(Currency::EUR, 0)), 700_000),
        ],
    };
    let investment = Amount::new(Currency::USD, 1000 * U);
    let balanced = portfolio.balance(investment).unwrap();
    assert_eq!(
        balanced.changes,
        vec![
            PositionChange {
                position: position(
                    "Test 1",
                    "TEST1",
                    "TEST1",
                    Some(Amount::new(Currency::USD, 0)),
                    300_000,
                ),
                // 300 USD
                amount: Amount::new(Currency::USD, 300 * U),
            },
            PositionChange {
                position: position(
                    "Test 2",
                    "TEST2",
                    "TEST2",
                    Some(Amount::new(Currency::EUR, 0)),
                    700_000,
                ),
                // 700 USD / 1.2 = 583.33 EUR
                amount: Amount::new(Currency::EUR, 583_333_333_333),
            },
        ]
    );
}

#[test]
fn test_balance_non_empty() {
    let rates = Rates { entries: vec![(Currency::USD, 1_000_000)] };
    let portfolio = Portfolio {
        rates,
        config: Config::default(),
        groups: vec![Group::new("TEST1".to_string(), Currency::USD)],
        positions: vec![
            position("Test 1", "TEST1", "TEST1", Some(Amount::new(Currency::USD, 500 * U)), 500_000),
            position("Test 2", "TEST2", "TEST1", Some(Amount::new(Currency::USD, 500 * U)), 500_000),
        ],
    };
    let investment = Amount::new(Currency::USD, 1000 * U);
    let balanced = portfolio.balance(investment).unwrap();
    assert_eq!(
        balanced.changes,
        vec![
            PositionChange {
                position: position(
                    "Test 1",
                    "TEST1",
                    "TEST1",
                    Some(Amount::new(Currency::USD, 500 * U)),
                    500_000,
                ),
                amount: Amount::new(Currency::USD, 500 * U),
            },
            PositionChange {
                position: position(
                    "Test 2",
                    "TEST2",
                    "TEST1",
                    Some(Amount::new(Currency::USD, 500 * U)),
                    500_000,
                ),
                amount: Amount::new(Currency::USD, 500 * U),
            },
        ]
    );
}

#[test]
fn test_balance_unbalancable() {
    let rates = Rates { entries: vec![(Currency::USD, 1_000_000)] };
    let portfolio = Portfolio {
        rates,
        config: Config::default(),
        groups: vec![Group::new("TEST1".to_string(), Currency::USD)],
        positions: vec![
            position("Test 1", "TEST1", "TEST1", Some(Amount::new(Currency::USD, 100 * U)), 500_000),
            position("Test 2", "TEST2", "TEST1", Some(Amount::new(Currency::USD, 500 * U)), 500_000),
        ],
    };
    let investment = Amount::new(Currency::USD, 300 * U);
    let balanced = portfolio.balance(investment).unwrap();
    assert_eq!(
        balanced.changes,
        vec![
            PositionChange {
                position: position(
                    "Test 1",
                    "TEST1",
                    "TEST1",
                    Some(Amount::new(Currency::USD, 100 * U)),
                    500_000,
                ),
                // The under-target position takes the whole investment.
                amount: Amount::new(Currency::USD, 300 * U),
            },
            PositionChange {
                position: position(
                    "Test 2",
                    "TEST2",
                    "TEST1",
                    Some(Amount::new(Currency::USD, 500 * U)),
                    500_000,
                ),
                amount: Amount::new(Currency::USD, 0),
            },
        ]
    );
}

#[test]
fn equal_currency_split_follows_targets() {
    let rates = Rates { entries: vec![(Currency::USD, 1_000_000)] };
    let portfolio = Portfolio {
        rates,
        config: Config::default(),
        groups: vec![Group::new("G".to_string(), Currency::USD)],
        positions: vec![
            position("P1", "P1", "G", Some(Amount::new(Currency::USD, 0)), 300_000),
            position("P2", "P2", "G", Some(Amount::new(Currency::USD, 0)), 700_000),
        ],
    };
    let balanced = portfolio.balance(Amount::new(Currency::USD, 1000 * U)).unwrap();
    let deltas: Vec<i128> = balanced.changes.iter().map(|c| c.amount.value).collect();
    assert_eq!(deltas, vec![300 * U, 700 * U]);
}

#[test]
fn single_position_takes_everything() {
    let rates = Rates { entries: vec![(Currency::USD, 1_000_000)] };
    let portfolio = Portfolio {
        rates,
        config: Config::default(),
        groups: vec![Group::new("G".to_string(), Currency::USD)],
        positions: vec![position("P1", "P1", "G", Some(Amount::new(Currency::USD, 0)), 1_000_000)],
    };
    let balanced = portfolio.balance(Amount::new(Currency::USD, 1000 * U)).unwrap();
    let deltas: Vec<i128> = balanced.changes.iter().map(|c| c.amount.value).collect();
    assert_eq!(deltas, vec![1000 * U]);
}

#[test]
fn balanced_portfolio_with_no_investment_is_a_no_op() {
    let rates = Rates { entries: vec![(Currency::USD, 1_000_000)] };
    let portfolio = Portfolio {
        rates,
        config: Config::default(),
        groups: vec![Group::new("G".to_string(), Currency::USD)],
        positions: vec![
            position("P1", "P1", "G", Some(Amount::new(Currency::USD, 500 * U)), 500_000),
            position("P2", "P2", "G", Some(Amount::new(Currency::USD, 500 * U)), 500_000),
        ],
    };
    let balanced = portfolio.balance(Amount::new(Currency::USD, 0)).unwrap();
    let deltas: Vec<i128> = balanced.changes.iter().map(|c| c.amount.value).collect();
    assert_eq!(deltas, vec![0, 0]);
}

#[test]
fn conservation_and_bounds_hold_in_an_uneven_case() {
    let rates = mock_rates();
    let portfolio = Portfolio {
        rates: mock_rates(),
        config: Config::default(),
        groups: vec![Group::new("G".to_string(), Currency::USD)],
        positions: vec![
            position("P1", "P1", "G", Some(Amount::new(Currency::USD, 123_456_789_012)), 200_000),
            position("P2", "P2", "G", Some(Amount::new(Currency::EUR, 7_770_000_001)), 350_000),
            position("P3", "P3", "G", Some(Amount::new(Currency::PLN, 987_654_321_098)), 450_000),
        ],
    };
    let investment = Amount::new(Currency::USD, 543_210_987_654);
    let balanced = portfolio.balance(investment).unwrap();
    // Deltas come back in each position's own currency; converting them
    // back into the investment currency reproduces the investment within
    // the one-cent tolerance.
    let mut back: i128 = 0;
    for change in &balanced.changes {
        let w = rates
            .convert(change.amount.currency, Currency::USD, change.amount.value)
            .unwrap();
        assert!(w >= 0);
        assert!(w <= investment.value);
        back += w;
    }
    assert!(investment.value - back >= 0);
    assert!(investment.value - back < CENT_TOLERANCE);
}

#[test]
fn unresolved_amount_fails_the_balance() {
    let portfolio = Portfolio {
        rates: mock_rates(),
        config: Config::default(),
        groups: vec![Group::new("G".to_string(), Currency::USD)],
        positions: vec![position("P1", "P1", "G", None, 1_000_000)],
    };
    let r = portfolio.balance(Amount::new(Currency::USD, 100 * U));
    assert!(matches!(r, Err(PortfolioOpsError::AmountMissing)));
}

#[test]
fn missing_rate_fails_the_balance() {
    let rates = Rates { entries: vec![(Currency::USD, 1_000_000)] };
    let portfolio = Portfolio {
        rates,
        config: Config::default(),
        groups: vec![Group::new("G".to_string(), Currency::GBP)],
        positions: vec![
            position("P1", "P1", "G", Some(Amount::new(Currency::GBP, 100 * U)), 1_000_000),
        ],
    };
    let r = portfolio.balance(Amount::new(Currency::USD, 100 * U));
    assert!(matches!(
        r,
        Err(PortfolioOpsError::Fx(FxError::MissingRate(Currency::GBP)))
    ));
}

#[test]
fn zero_targets_make_an_investment_infeasible() {
    let rates = Rates { entries: vec![(Currency::USD, 1_000_000)] };
    let portfolio = Portfolio {
        rates,
        config: Config::default(),
        groups: vec![Group::new("G".to_string(), Currency::USD)],
        positions: vec![position("P1", "P1", "G", Some(Amount::new(Currency::USD, 0)), 0)],
    };
    let r = portfolio.balance(Amount::new(Currency::USD, 1000 * U));
    assert!(matches!(r, Err(PortfolioOpsError::Infeasible)));
}

#[test]
fn position_sub_checks_currencies() {
    let p1 = position("P", "P", "G", Some(Amount::new(Currency::USD, 500 * U)), 500_000);
    let p2 = position("P", "P", "G", Some(Amount::new(Currency::USD, 200 * U)), 500_000);
    let d = p1.sub(&p2).unwrap();
    assert_eq!(d.amount, Some(Amount::new(Currency::USD, 300 * U)));
    let p3 = position("P", "P", "G", Some(Amount::new(Currency::EUR, 200 * U)), 500_000);
    assert!(matches!(
        p1.sub(&p3),
        Err(PortfolioOpsError::Fx(FxError::CurrencyMismatch(Currency::USD, Currency::EUR)))
    ));
    let p4 = position("P", "P", "G", None, 500_000);
    assert!(matches!(p1.sub(&p4), Err(PortfolioOpsError::AmountMissing)));
}
