//! Currencies and currency-tagged monetary amounts.
//!
//! Magnitudes are held as integers counting billionths of a currency unit,
//! so every arithmetic step has an exact meaning and conversion between
//! currencies stays well inside the one-cent display tolerance.

use vstd::prelude::*;

use crate::error::FxError;
use crate::fx::Rates;

verus! {

/// Fixed-point scale for rates and shares: values are parts per million.
pub const SCALE: i64 = 1_000_000;

/// Quanta per currency unit: magnitudes count billionths of a unit.
pub const UNIT: i128 = 1_000_000_000;

/// Largest magnitude an amount may have where it feeds conversion or the
/// balancing engine: ten billion currency units.
pub const AMOUNT_LIMIT: i128 = 10_000_000_000_000_000_000;

/// Display tolerance of approximate amount equality: one hundredth of a
/// unit (one cent).
pub const CENT_TOLERANCE: i128 = 10_000_000;

/// The closed set of supported currency codes, a pivot-relative `NATIVE`
/// sentinel, and an `UNKNOWN` fallback for unrecognized input.  `UNKNOWN` is
/// never usable in arithmetic or conversion.
#[derive(PartialEq, Eq, Structural, Hash, Clone, Copy, Debug)]
pub enum Currency {
    USD,
    EUR,
    GBP,
    JPY,
    CHF,
    PLN,
    NATIVE,
    UNKNOWN,
}

impl Currency {
    /// The base currency that rate tables pivot on.
    pub fn native() -> (c: Currency)
        ensures
            c == Currency::NATIVE,
    {
        Currency::NATIVE
    }

    /// Parse a currency code, falling back to `UNKNOWN` for anything else.
    pub fn from_code(code: &str) -> (c: Currency)
        ensures
            c == spec_currency_of_code(code@),
    {
        if str_eq(code, "USD") {
            Currency::USD
        } else if str_eq(code, "EUR") {
            Currency::EUR
        } else if str_eq(code, "GBP") {
            Currency::GBP
        } else if str_eq(code, "JPY") {
            Currency::JPY
        } else if str_eq(code, "CHF") {
            Currency::CHF
        } else if str_eq(code, "PLN") {
            Currency::PLN
        } else if str_eq(code, "NATIVE") {
            Currency::NATIVE
        } else {
            Currency::UNKNOWN
        }
    }
}

/// Equality of string slices by their character sequences.
pub fn str_eq(a: &str, b: &str) -> (r: bool)
    ensures
        r == (a@ == b@),
{
    let ao: String = a.to_owned();
    let bo: String = b.to_owned();
    ao == bo
}

/// The currency a textual code denotes, `UNKNOWN` for unrecognized ones.
pub open spec fn spec_currency_of_code(code: Seq<char>) -> Currency {
    if code == "USD"@ {
        Currency::USD
    } else if code == "EUR"@ {
        Currency::EUR
    } else if code == "GBP"@ {
        Currency::GBP
    } else if code == "JPY"@ {
        Currency::JPY
    } else if code == "CHF"@ {
        Currency::CHF
    } else if code == "PLN"@ {
        Currency::PLN
    } else if code == "NATIVE"@ {
        Currency::NATIVE
    } else {
        Currency::UNKNOWN
    }
}

/// A currency-tagged monetary magnitude, counted in billionths of a unit.
#[derive(Debug, Clone, Copy)]
pub struct Amount {
    pub currency: Currency,
    pub value: i128,
}

impl PartialEq for Amount {
    /// Currency-exact, magnitude-approximate equality: magnitudes are equal
    /// within the one-cent display tolerance.
    fn eq(&self, other: &Self) -> (r: bool) {
        let hi: i128 = if self.value >= other.value {
            self.value
        } else {
            other.value
        };
        let lo: i128 = if self.value >= other.value {
            other.value
        } else {
            self.value
        };
        self.currency == other.currency && (hi < i128::MIN + CENT_TOLERANCE || lo >= hi
            - CENT_TOLERANCE)
    }
}

impl vstd::std_specs::cmp::PartialEqSpecImpl for Amount {
    open spec fn obeys_eq_spec() -> bool {
        true
    }

    open spec fn eq_spec(&self, other: &Amount) -> bool {
        self.currency == other.currency && -CENT_TOLERANCE <= self.value - other.value
            <= CENT_TOLERANCE
    }
}

impl Amount {
    pub fn new(currency: Currency, value: i128) -> (a: Amount)
        ensures
            a.currency == currency,
            a.value == value,
    {
        Amount { currency, value }
    }

    /// Convert into `currency` through the rate table.
    pub fn convert(&self, currency: Currency, rates: &Rates) -> (r: Result<Amount, FxError>)
        requires
            rates.wf(),
            -AMOUNT_LIMIT <= self.value <= AMOUNT_LIMIT,
        ensures
            match r {
                Ok(a) => rates.spec_has(self.currency) && rates.spec_has(currency) && a.currency
                    == currency && a.value == rates.spec_convert(
                    self.currency,
                    currency,
                    self.value as int,
                ),
                Err(_) => !rates.spec_has(self.currency) || !rates.spec_has(currency),
            },
    {
        let v = rates.convert(self.currency, currency, self.value)?;
        Ok(Amount { currency, value: v })
    }

    /// Add another amount, converting it into this amount's currency first
    /// where the currencies differ.
    pub fn add(&self, other: &Amount, rates: &Rates) -> (r: Result<Amount, FxError>)
        requires
            rates.wf(),
            -AMOUNT_LIMIT <= self.value <= AMOUNT_LIMIT,
            -AMOUNT_LIMIT <= other.value <= AMOUNT_LIMIT,
        ensures
            match r {
                Ok(a) => a.currency == self.currency && a.value == self.value + (
                if self.currency == other.currency {
                    other.value as int
                } else {
                    rates.spec_convert(other.currency, self.currency, other.value as int)
                }),
                Err(_) => self.currency != other.currency && (!rates.spec_has(other.currency)
                    || !rates.spec_has(self.currency)),
            },
    {
        if self.currency == other.currency {
            Ok(Amount { currency: self.currency, value: self.value + other.value })
        } else {
            let w = rates.convert(other.currency, self.currency, other.value)?;
            Ok(Amount { currency: self.currency, value: self.value + w })
        }
    }

    /// Subtract a same-currency amount; differing currencies are a checked
    /// failure, since no conversion context is available here.
    pub fn sub(&self, other: &Amount) -> (r: Result<Amount, FxError>)
        requires
            -AMOUNT_LIMIT <= self.value <= AMOUNT_LIMIT,
            -AMOUNT_LIMIT <= other.value <= AMOUNT_LIMIT,
        ensures
            match r {
                Ok(a) => self.currency == other.currency && a.currency == self.currency && a.value
                    == self.value - other.value,
                Err(e) => self.currency != other.currency && e == FxError::CurrencyMismatch(
                    self.currency,
                    other.currency,
                ),
            },
    {
        if self.currency == other.currency {
            Ok(Amount { currency: self.currency, value: self.value - other.value })
        } else {
            Err(FxError::CurrencyMismatch(self.currency, other.currency))
        }
    }

    /// The ratio of this amount to another, scaled by [`SCALE`]; the divisor
    /// is converted into this amount's currency first.  Fails exactly where
    /// the divisor cannot be converted or its converted magnitude is zero.
    pub fn div(&self, other: &Amount, rates: &Rates) -> (r: Result<i128, FxError>)
        requires
            rates.wf(),
            -AMOUNT_LIMIT <= self.value <= AMOUNT_LIMIT,
            -AMOUNT_LIMIT <= other.value <= AMOUNT_LIMIT,
        ensures
            ({
                let convertible = self.currency == other.currency || (rates.spec_has(
                    other.currency,
                ) && rates.spec_has(self.currency));
                let d = if self.currency == other.currency {
                    other.value as int
                } else {
                    rates.spec_convert(other.currency, self.currency, other.value as int)
                };
                match r {
                    Ok(q) => convertible && d != 0 && q == spec_ratio(self.value as int, d),
                    Err(e) => if !convertible {
                        e == rates.spec_convert_err(other.currency, self.currency)
                    } else {
                        d == 0 && e == FxError::DivisionByZero
                    },
                }
            }),
    {
        let d: i128 = if self.currency == other.currency {
            other.value
        } else {
            rates.convert(other.currency, self.currency, other.value)?
        };
        if d == 0 {
            return Err(FxError::DivisionByZero);
        }
        let sn = self.value < 0;
        let sd = d < 0;
        let nmag: u128 = if sn {
            (-self.value) as u128
        } else {
            self.value as u128
        };
        let dmag: u128 = if sd {
            (-d) as u128
        } else {
            d as u128
        };
        let q: u128 = (nmag * (SCALE as u128)) / dmag;
        proof {
            lemma_ratio_bound(self.value as int, d as int);
        }
        if sn == sd {
            Ok(q as i128)
        } else {
            Ok(-(q as i128))
        }
    }
}

/// `a * SCALE / d`, rounded toward zero, for `d != 0`.
pub open spec fn spec_ratio(a: int, d: int) -> int {
    let am = if a >= 0 {
        a
    } else {
        -a
    };
    let dm = if d >= 0 {
        d
    } else {
        -d
    };
    let q = (am * SCALE) / dm;
    if (a >= 0) == (d >= 0) {
        q
    } else {
        -q
    }
}

proof fn lemma_ratio_bound(a: int, d: int)
    requires
        -AMOUNT_LIMIT <= a <= AMOUNT_LIMIT,
        d != 0,
    ensures
        ({
            let am = if a >= 0 {
                a
            } else {
                -a
            };
            let dm = if d >= 0 {
                d
            } else {
                -d
            };
            0 <= (am * SCALE) / dm <= AMOUNT_LIMIT * SCALE
        }),
{
    let am = if a >= 0 {
        a
    } else {
        -a
    };
    let dm = if d >= 0 {
        d
    } else {
        -d
    };
    assert(0 <= am * SCALE <= AMOUNT_LIMIT * SCALE) by (nonlinear_arith)
        requires
            0 <= am <= AMOUNT_LIMIT,
    ;
    vstd::arithmetic::div_mod::lemma_div_pos_is_pos(am * SCALE, dm);
    vstd::arithmetic::div_mod::lemma_div_is_ordered_by_denominator(am * SCALE, 1, dm);
    vstd::arithmetic::div_mod::lemma_div_basics(am * SCALE);
}

} // verus!
