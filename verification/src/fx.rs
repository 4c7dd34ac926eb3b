//! The rate table: pivot-relative exchange rates and conversion.
//!
//! A rate is a fixed-point number scaled by [`SCALE`]: the value of one unit
//! of a currency, measured in the pivot currency.  Conversion follows
//! `convert(from, to, v) = v * rate[from] / rate[to]`, rounded toward zero.

use vstd::prelude::*;
use vstd::arithmetic::div_mod::{
    lemma_div_is_ordered, lemma_div_is_ordered_by_denominator, lemma_div_pos_is_pos,
};
use crate::amount::{Currency, AMOUNT_LIMIT, SCALE};
use crate::error::FxError;

verus! {

/// Smallest admissible rate: one hundredth of the pivot unit.
pub const RATE_MIN: i64 = 10_000;

/// Largest admissible rate: one hundred pivot units.
pub const RATE_MAX: i64 = 100_000_000;

/// Largest magnitude a conversion result can reach for an input within
/// [`AMOUNT_LIMIT`]: the rate ratio is at most `RATE_MAX / RATE_MIN`.
pub const CONVERTED_LIMIT: i128 = 100_000_000_000_000_000_000_000;

/// Largest shortfall, in quanta, of converting a non-negative magnitude
/// into another currency and back: one quantum of the intermediate
/// currency, worth at most `RATE_MAX / RATE_MIN` quanta, plus the final
/// truncation.
pub const BACK_LOSS_LIMIT: i128 = 10_001;

/// A pivot-relative exchange-rate table.
///
/// Entries pair a currency with its fixed-point rate.  Well-formedness
/// ([`Rates::wf`]) asks that currencies are unique and usable, rates lie in
/// `[RATE_MIN, RATE_MAX]`, and the pivot itself, if present, maps to exactly
/// one (`SCALE`).
#[derive(Debug, Clone)]
pub struct Rates {
    pub entries: Vec<(Currency, i64)>,
}

/// The first rate stored for `c`, if any.
pub open spec fn spec_lookup(entries: Seq<(Currency, i64)>, c: Currency) -> Option<i64>
    decreases entries.len(),
{
    if entries.len() == 0 {
        None
    } else if entries[0].0 == c {
        Some(entries[0].1)
    } else {
        spec_lookup(entries.drop_first(), c)
    }
}

/// `v * rf / rt`, rounded toward zero (exact for non-negative `v`, mirrored
/// for negative `v`).
pub open spec fn spec_convert_value(v: int, rf: int, rt: int) -> int {
    if v >= 0 {
        (v * rf) / rt
    } else {
        -(((-v) * rf) / rt)
    }
}

proof fn lemma_lookup_skip(entries: Seq<(Currency, i64)>, c: Currency, i: int)
    requires
        0 <= i < entries.len(),
        entries[i].0 != c,
    ensures
        spec_lookup(entries.skip(i), c) == spec_lookup(entries.skip(i + 1), c),
{
    assert(entries.skip(i)[0] == entries[i]);
    assert(entries.skip(i).drop_first() =~= entries.skip(i + 1));
}

/// Bound on a non-negative conversion: if `v <= vmax`, `rf <= RATE_MAX` and
/// `rt >= RATE_MIN`, the result is at most `vmax * RATE_MAX / RATE_MIN`.
proof fn lemma_convert_bound(v: int, rf: int, rt: int, vmax: int)
    requires
        0 <= v <= vmax,
        0 < rf <= RATE_MAX,
        RATE_MIN <= rt,
    ensures
        0 <= spec_convert_value(v, rf, rt),
        spec_convert_value(v, rf, rt) * RATE_MIN <= vmax * RATE_MAX,
{
    lemma_div_pos_is_pos(v * rf, rt);
    assert(v * rf >= 0) by (nonlinear_arith)
        requires v >= 0, rf > 0;
    assert(v * rf <= vmax * RATE_MAX) by (nonlinear_arith)
        requires 0 <= v <= vmax, 0 < rf <= RATE_MAX;
    lemma_div_is_ordered_by_denominator(v * rf, RATE_MIN as int, rt);
    lemma_div_is_ordered(v * rf, vmax * RATE_MAX, RATE_MIN as int);
    assert(((vmax * RATE_MAX) / (RATE_MIN as int)) * RATE_MIN <= vmax * RATE_MAX) by {
        vstd::arithmetic::div_mod::lemma_fundamental_div_mod(vmax * RATE_MAX, RATE_MIN as int);
        vstd::arithmetic::div_mod::lemma_remainder_lower(vmax * RATE_MAX, RATE_MIN as int);
    }
    assert(spec_convert_value(v, rf, rt) * RATE_MIN <= ((vmax * RATE_MAX) / (RATE_MIN as int)) * RATE_MIN)
        by (nonlinear_arith)
        requires
            spec_convert_value(v, rf, rt) <= (vmax * RATE_MAX) / (RATE_MIN as int),
            RATE_MIN > 0;
}

impl Default for Rates {
    /// An empty table.
    fn default() -> (r: Rates)
        ensures
            r.wf(),
            r.entries@.len() == 0,
    {
        Rates { entries: Vec::new() }
    }
}

impl Rates {
    /// Currencies are unique and usable, rates bounded, pivot exact.
    pub open spec fn wf(self) -> bool {
        &&& forall|i: int, j: int|
            0 <= i < j < self.entries@.len() ==> (#[trigger] self.entries@[i]).0 != (
            #[trigger] self.entries@[j]).0
        &&& forall|i: int|
            0 <= i < self.entries@.len() ==> RATE_MIN <= (#[trigger] self.entries@[i]).1
                <= RATE_MAX
        &&& forall|i: int|
            0 <= i < self.entries@.len() ==> (#[trigger] self.entries@[i]).0 != Currency::UNKNOWN
        &&& forall|i: int|
            0 <= i < self.entries@.len() ==> ((#[trigger] self.entries@[i]).0 == Currency::NATIVE
                ==> self.entries@[i].1 == SCALE)
    }

    /// The rate stored for `c`, if any.
    pub open spec fn spec_rate(self, c: Currency) -> Option<i64> {
        spec_lookup(self.entries@, c)
    }

    /// `c` can take part in conversions: it is usable and has a rate.
    pub open spec fn spec_has(self, c: Currency) -> bool {
        c != Currency::UNKNOWN && self.spec_rate(c) is Some
    }

    /// The conversion of `v` from `from` to `to` under this table.
    pub open spec fn spec_convert(self, from: Currency, to: Currency, v: int) -> int {
        spec_convert_value(v, self.spec_rate(from)->Some_0 as int, self.spec_rate(to)->Some_0 as int)
    }

    /// The failure [`Rates::convert`] reports when a conversion cannot be
    /// made: the first offending currency, unusable before missing.
    pub open spec fn spec_convert_err(self, from: Currency, to: Currency) -> FxError {
        if from == Currency::UNKNOWN {
            FxError::UnusableCurrency(from)
        } else if self.spec_rate(from) is None {
            FxError::MissingRate(from)
        } else if to == Currency::UNKNOWN {
            FxError::UnusableCurrency(to)
        } else {
            FxError::MissingRate(to)
        }
    }


    /// Look up the rate for `c`, failing on the `UNKNOWN` fallback and on
    /// currencies the table does not cover.
    pub fn rate_of(&self, c: Currency) -> (r: Result<i64, FxError>)
        requires
            self.wf(),
        ensures
            match r {
                Ok(v) => self.spec_has(c) && self.spec_rate(c) == Some(v) && RATE_MIN <= v
                    <= RATE_MAX,
                Err(e) => !self.spec_has(c) && e == (if c == Currency::UNKNOWN {
                    FxError::UnusableCurrency(c)
                } else {
                    FxError::MissingRate(c)
                }),
            },
    {
        if c == Currency::UNKNOWN {
            proof {
                Self::lemma_lookup_absent(self.entries@, Currency::UNKNOWN);
            }
            return Err(FxError::UnusableCurrency(c));
        }
        let n = self.entries.len();
        let mut i: usize = 0;
        assert(self.entries@.skip(0) =~= self.entries@);
        while i < n
            invariant
                n == self.entries@.len(),
                0 <= i <= n,
                c != Currency::UNKNOWN,
                self.spec_rate(c) == spec_lookup(self.entries@.skip(i as int), c),
                forall|k: int|
                    0 <= k < self.entries@.len() ==> RATE_MIN <= (#[trigger] self.entries@[k]).1
                        <= RATE_MAX,
            decreases n - i,
        {
            let (cur, rate) = self.entries[i];
            if cur == c {
                assert(self.entries@.skip(i as int)[0] == self.entries@[i as int]);
                return Ok(rate);
            }
            proof {
                lemma_lookup_skip(self.entries@, c, i as int);
            }
            i = i + 1;
        }
        assert(self.entries@.skip(n as int) =~= Seq::<(Currency, i64)>::empty());
        Err(FxError::MissingRate(c))
    }

    proof fn lemma_lookup_absent(s: Seq<(Currency, i64)>, c: Currency)
        requires
            forall|i: int| 0 <= i < s.len() ==> (#[trigger] s[i]).0 != c,
        ensures
            spec_lookup(s, c) is None,
        decreases s.len(),
    {
        if s.len() > 0 {
            Self::lemma_lookup_absent(s.drop_first(), c);
        }
    }

    /// Convert a magnitude between currencies: `v * rate[from] / rate[to]`,
    /// rounded toward zero.  Fails exactly when either currency is unusable
    /// or uncovered.
    pub fn convert(&self, from: Currency, to: Currency, v: i128) -> (r: Result<i128, FxError>)
        requires
            self.wf(),
            -AMOUNT_LIMIT <= v <= AMOUNT_LIMIT,
        ensures
            r is Ok <==> (self.spec_has(from) && self.spec_has(to)),
            r matches Ok(w) ==> w == self.spec_convert(from, to, v as int),
            r matches Ok(w) ==> -CONVERTED_LIMIT <= w <= CONVERTED_LIMIT,
            r matches Ok(w) ==> (v >= 0 ==> w >= 0) && (v <= 0 ==> w <= 0),
            r matches Err(e) ==> e == self.spec_convert_err(from, to),
    {
        let rf = match self.rate_of(from) {
            Ok(x) => x,
            Err(e) => {
                return Err(e);
            },
        };
        let rt = match self.rate_of(to) {
            Ok(x) => x,
            Err(e) => {
                return Err(e);
            },
        };
        let neg = v < 0;
        let mag: u128 = if neg {
            (-v) as u128
        } else {
            v as u128
        };
        proof {
            assert(mag * (rf as u128) <= (AMOUNT_LIMIT as u128) * (RATE_MAX as u128))
                by (nonlinear_arith)
                requires
                    0 <= mag <= AMOUNT_LIMIT as u128,
                    0 < rf <= RATE_MAX as u128,
            ;
        }
        let num: u128 = mag * (rf as u128);
        let q: u128 = num / (rt as u128);
        proof {
            lemma_convert_bound(mag as int, rf as int, rt as int, AMOUNT_LIMIT as int);
            assert(spec_convert_value(mag as int, rf as int, rt as int) <= CONVERTED_LIMIT)
                by (nonlinear_arith)
                requires
                    spec_convert_value(mag as int, rf as int, rt as int) * RATE_MIN <= AMOUNT_LIMIT
                        * RATE_MAX,
                    spec_convert_value(mag as int, rf as int, rt as int) >= 0;
            assert(q == spec_convert_value(mag as int, rf as int, rt as int));
            if v == 0 {
                vstd::arithmetic::div_mod::lemma_div_of0(rt as int);
                assert(mag * (rf as u128) == 0) by (nonlinear_arith)
                    requires mag == 0;
            }
        }
        let w: i128 = if neg {
            -(q as i128)
        } else {
            q as i128
        };
        Ok(w)
    }
}

/// A rate found by lookup lies within the bounds the entries obey.
proof fn lemma_lookup_value_bounds(entries: Seq<(Currency, i64)>, c: Currency)
    requires
        forall|i: int|
            0 <= i < entries.len() ==> RATE_MIN <= (#[trigger] entries[i]).1 <= RATE_MAX,
        spec_lookup(entries, c) is Some,
    ensures
        RATE_MIN <= spec_lookup(entries, c)->Some_0 <= RATE_MAX,
    decreases entries.len(),
{
    if entries.len() > 0 && entries[0].0 != c {
        assert forall|i: int|
            0 <= i < entries.drop_first().len() implies RATE_MIN <= (
        #[trigger] entries.drop_first()[i]).1 <= RATE_MAX by {
            assert(entries.drop_first()[i] == entries[i + 1]);
        }
        lemma_lookup_value_bounds(entries.drop_first(), c);
    }
}

impl Rates {
    /// Every covered currency's rate lies in `[RATE_MIN, RATE_MAX]`.
    pub proof fn lemma_rate_in_range(self, c: Currency)
        requires
            self.wf(),
            self.spec_rate(c) is Some,
        ensures
            RATE_MIN <= self.spec_rate(c)->Some_0 <= RATE_MAX,
    {
        lemma_lookup_value_bounds(self.entries@, c);
    }
}

/// Converting a non-negative magnitude into another currency and back never
/// gains, and loses at most [`BACK_LOSS_LIMIT`] quanta.
pub proof fn lemma_convert_back_loss(x: int, rf: int, rt: int)
    requires
        0 <= x,
        RATE_MIN <= rf <= RATE_MAX,
        RATE_MIN <= rt <= RATE_MAX,
    ensures
        ({
            let d = spec_convert_value(x, rf, rt);
            let back = spec_convert_value(d, rt, rf);
            0 <= back <= x && x - back <= BACK_LOSS_LIMIT
        }),
{
    let d = (x * rf) / rt;
    vstd::arithmetic::div_mod::lemma_div_pos_is_pos(x * rf, rt);
    assert(x * rf >= 0) by (nonlinear_arith)
        requires
            x >= 0,
            rf > 0,
    ;
    assert(d >= 0);
    let back = (d * rt) / rf;
    vstd::arithmetic::div_mod::lemma_div_pos_is_pos(d * rt, rf);
    assert(d * rt >= 0) by (nonlinear_arith)
        requires
            d >= 0,
            rt > 0,
    ;
    vstd::arithmetic::div_mod::lemma_fundamental_div_mod(x * rf, rt);
    vstd::arithmetic::div_mod::lemma_remainder_upper(x * rf, rt);
    vstd::arithmetic::div_mod::lemma_remainder_lower(x * rf, rt);
    assert(x * rf - (rt - 1) <= d * rt <= x * rf);
    vstd::arithmetic::div_mod::lemma_fundamental_div_mod(d * rt, rf);
    vstd::arithmetic::div_mod::lemma_remainder_upper(d * rt, rf);
    vstd::arithmetic::div_mod::lemma_remainder_lower(d * rt, rf);
    assert(d * rt - (rf - 1) <= back * rf <= d * rt);
    assert(back * rf <= x * rf);
    assert(back <= x) by (nonlinear_arith)
        requires
            back * rf <= x * rf,
            rf > 0,
    ;
    assert(back * rf >= x * rf - (rt - 1) - (rf - 1));
    assert((x - back) * rf <= rt + rf - 2) by (nonlinear_arith)
        requires
            back * rf >= x * rf - (rt - 1) - (rf - 1),
    ;
    assert(x - back <= BACK_LOSS_LIMIT) by (nonlinear_arith)
        requires
            (x - back) * rf <= rt + rf - 2,
            RATE_MIN <= rf,
            rt <= RATE_MAX,
            rf <= RATE_MAX,
            x - back >= 0,
        ;
}

/// Converting an amount's magnitude into another covered currency and back
/// reproduces it within [`BACK_LOSS_LIMIT`] quanta — far inside the
/// one-cent display tolerance of amount equality.
pub proof fn lemma_convert_round_trip(rates: Rates, c1: Currency, c2: Currency, v: int)
    requires
        rates.wf(),
        rates.spec_has(c1),
        rates.spec_has(c2),
        -AMOUNT_LIMIT <= v <= AMOUNT_LIMIT,
    ensures
        ({
            let back = rates.spec_convert(c2, c1, rates.spec_convert(c1, c2, v));
            let loss = if v >= 0 {
                v - back
            } else {
                back - v
            };
            0 <= loss <= BACK_LOSS_LIMIT
        }),
{
    rates.lemma_rate_in_range(c1);
    rates.lemma_rate_in_range(c2);
    let rf = rates.spec_rate(c1)->Some_0 as int;
    let rt = rates.spec_rate(c2)->Some_0 as int;
    if v >= 0 {
        lemma_convert_back_loss(v, rf, rt);
    } else {
        lemma_convert_back_loss(-v, rf, rt);
        let d = spec_convert_value(-v, rf, rt);
        assert(spec_convert_value(v, rf, rt) == -d);
        if d == 0 {
            vstd::arithmetic::div_mod::lemma_div_of0(rf);
            assert(0 * rt == 0) by (nonlinear_arith);
            assert(spec_convert_value(0, rt, rf) == 0);
        }
        assert(spec_convert_value(-d, rt, rf) == -spec_convert_value(d, rt, rf));
    }
}

} // verus!
