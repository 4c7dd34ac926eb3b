use portfel::amount::{Amount, Currency};
use portfel::error::FxError;
use portfel::fx::Rates;

/// Quanta per currency unit.
const U: i128 = 1_000_000_000;

fn mock_rates() -> Rates {
    Rates {
        entries: vec![
            (Currency::USD, 1_000_000),
            (Currency::EUR, 1_200_000),
            (Currency::GBP, 1_300_000),
            (Currency::CHF, 1_400_000),
            (Currency::PLN, 1_000_000),
        ],
    }
}

#[test]
fn test_rates() {
    let rates = Rates {
        entries: vec![
            (Currency::USD, 4_020_000),
            (Currency::EUR, 4_340_000),
            (Currency::GBP, 1_300_000),
            (Currency::CHF, 1_400_000),
            (Currency::PLN, 1_000_000),
        ],
    };
    assert_eq!(rates.convert(Currency::USD, Currency::USD, 100 * U).unwrap(), 100 * U);
    assert_eq!(rates.convert(Currency::USD, Currency::PLN, 100 * U).unwrap(), 402 * U);
    assert_eq!(rates.convert(Currency::EUR, Currency::PLN, 100 * U).unwrap(), 434 * U);
    // 100 EUR = 107.96 USD, within the one-cent tolerance.
    let w = rates.convert(Currency::EUR, Currency::USD, 100 * U).unwrap();
    assert_eq!(Amount::new(Currency::USD, w), Amount::new(Currency::USD, 107_960_000_000));
}

#[test]
fn missing_rate_is_reported() {
    let rates = Rates { entries: vec![(Currency::USD, 1_000_000)] };
    let r = rates.convert(Currency::USD, Currency::GBP, 100 * U);
    assert_eq!(r, Err(FxError::MissingRate(Currency::GBP)));
    let r = rates.convert(Currency::EUR, Currency::USD, 100 * U);
    assert_eq!(r, Err(FxError::MissingRate(Currency::EUR)));
}

#[test]
fn unknown_currency_is_unusable() {
    let rates = mock_rates();
    let r = rates.convert(Currency::UNKNOWN, Currency::USD, 100 * U);
    assert_eq!(r, Err(FxError::UnusableCurrency(Currency::UNKNOWN)));
    let r = rates.convert(Currency::USD, Currency::UNKNOWN, 100 * U);
    assert_eq!(r, Err(FxError::UnusableCurrency(Currency::UNKNOWN)));
}

#[test]
fn conversion_round_trip_stays_within_a_cent() {
    let rates = Rates { entries: vec![(Currency::USD, 1_000_000), (Currency::EUR, 3_000_000)] };
    // An amount that does not convert exactly: the round trip loses far
    // less than the one-cent tolerance.
    let a = Amount::new(Currency::USD, 12_345_678_901);
    let there = a.convert(Currency::EUR, &rates).unwrap();
    let back = there.convert(Currency::USD, &rates).unwrap();
    assert_eq!(back, a);
    assert!(a.value - back.value >= 0);
    assert!(a.value - back.value <= portfel::fx::BACK_LOSS_LIMIT);
}

#[test]
fn amount_add_converts_the_right_hand_side() {
    let rates = mock_rates();
    let a = Amount::new(Currency::USD, 100 * U);
    let b = Amount::new(Currency::EUR, 100 * U);
    let sum = a.add(&b, &rates).unwrap();
    assert_eq!(sum, Amount::new(Currency::USD, 220 * U));
}

#[test]
fn amount_sub_requires_same_currency() {
    let a = Amount::new(Currency::USD, 100 * U);
    let b = Amount::new(Currency::EUR, 40 * U);
    assert_eq!(a.sub(&b), Err(FxError::CurrencyMismatch(Currency::USD, Currency::EUR)));
    let c = Amount::new(Currency::USD, 40 * U);
    assert_eq!(a.sub(&c).unwrap(), Amount::new(Currency::USD, 60 * U));
}

#[test]
fn amount_div_gives_a_scaled_ratio() {
    let rates = mock_rates();
    let a = Amount::new(Currency::USD, 500 * U);
    let b = Amount::new(Currency::USD, 1000 * U);
    assert_eq!(a.div(&b, &rates).unwrap(), 500_000);
    let zero = Amount::new(Currency::USD, 0);
    assert_eq!(a.div(&zero, &rates), Err(FxError::DivisionByZero));
}

#[test]
fn amount_div_converts_the_divisor() {
    let rates = mock_rates();
    // 300 USD against 500 EUR = 600 USD: a 0.5 share.
    let a = Amount::new(Currency::USD, 300 * U);
    let b = Amount::new(Currency::EUR, 500 * U);
    assert_eq!(a.div(&b, &rates).unwrap(), 500_000);
}

#[test]
fn amount_convert_uses_the_table() {
    let rates = mock_rates();
    let a = Amount::new(Currency::EUR, 100 * U);
    let c = a.convert(Currency::USD, &rates).unwrap();
    assert_eq!(c.currency, Currency::USD);
    assert_eq!(c.value, 120 * U);
}

#[test]
fn amount_equality_is_within_a_cent() {
    let a = Amount::new(Currency::USD, 1_000_000_000);
    assert_eq!(a, Amount::new(Currency::USD, 1_010_000_000));
    assert_ne!(a, Amount::new(Currency::USD, 1_010_000_001));
    assert_ne!(a, Amount::new(Currency::EUR, 1_000_000_000));
}

#[test]
fn currency_codes_parse() {
    assert_eq!(Currency::from_code("USD"), Currency::USD);
    assert_eq!(Currency::from_code("PLN"), Currency::PLN);
    assert_eq!(Currency::from_code("XYZ"), Currency::UNKNOWN);
    assert_eq!(Currency::native(), Currency::NATIVE);
}
