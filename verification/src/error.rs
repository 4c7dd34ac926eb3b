//! Typed failures surfaced by the library.
//!
//! Every failure a caller can reach is a value of one of these enums; the
//! verified functions never panic.

use vstd::prelude::*;

use crate::amount::Currency;

verus! {

/// Failures of currency conversion and amount arithmetic.
#[derive(Debug, Clone, PartialEq)]
pub enum FxError {
    /// The rate table has no entry for this currency.
    MissingRate(Currency),
    /// The currency is the `UNKNOWN` fallback, which no arithmetic accepts.
    UnusableCurrency(Currency),
    /// Same-currency arithmetic was asked of two different currencies.
    CurrencyMismatch(Currency, Currency),
    /// A ratio against an amount of magnitude zero.
    DivisionByZero,
}

/// Failures while resolving a stored portfolio into a usable one.
#[derive(Debug, Clone, PartialEq)]
pub enum PortfolioReadError {
    /// A position reached use without its amount filled in.
    AmountMissing,
    /// The same symbol was delivered by more than one account.
    DuplicateSymbolError(String),
    /// Market values for one symbol arrived in two different currencies.
    CurrencyMismatch(Currency, Currency),
    /// Summed market values left the representable range.
    ValueOverflow,
}

/// Failures of one balancing call.
#[derive(Debug, Clone, PartialEq)]
pub enum PortfolioOpsError {
    /// A position reached the engine without a resolved amount.
    AmountMissing,
    /// A conversion failed while valuing or emitting positions.
    Fx(FxError),
    /// The allocation constraints admit no solution.
    Infeasible,
}

/// Failures of the secret-protection helpers.
#[derive(Debug, Clone, PartialEq)]
pub enum CryptError {
    /// The input was not valid base64.
    Base64Error,
    /// The decrypted bytes were not valid UTF-8.
    Utf8Error,
    /// The cipher refused the operation.
    CipherError,
    /// The payload is too short to hold an initialisation vector.
    TruncatedInput,
}

/// Failures of broker-account handling.
#[derive(Debug, Clone, PartialEq)]
pub enum XtbError {
    AuthenticationError,
    PasswordMissing,
    NotConnected,
    /// An error reported by the broker API: code and description.
    XtbApiError(String, String),
    CryptError(CryptError),
    UnknownError,
}

} // verus!
