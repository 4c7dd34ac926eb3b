//! The portfolio model and the balancing call.
//!
//! A portfolio owns its positions, groups, rate table and configuration;
//! one balancing call values every position in the investment currency,
//! hands the plain numbers to the allocation engine, and emits the solved
//! allocations as per-position deltas in each position's own currency.

use vstd::prelude::*;

use crate::amount::{Amount, Currency, AMOUNT_LIMIT, SCALE};
use crate::amount::CENT_TOLERANCE;
use crate::balance::{
    alloc_at, alloc_post, allocate, as_ints, feasible, lemma_conservation, lemma_sum_diff_bounded,
    sum_prefix, wf_inputs, MAX_POSITIONS,
};
use crate::error::{FxError, PortfolioOpsError, PortfolioReadError};
use crate::fx::{lemma_convert_back_loss, Rates, BACK_LOSS_LIMIT, CONVERTED_LIMIT};
use crate::xtb::{XtbAccount, XtbConfig};

verus! {

/// A holding: identity, group membership, a current amount that may still
/// await resolution, and a target share in millionths.
#[derive(Debug, PartialEq)]
pub struct Position {
    pub name: String,
    pub group: String,
    pub ticker: String,
    pub amount: Option<Amount>,
    pub target: i64,
}

impl Clone for Position {
    fn clone(&self) -> (r: Self)
        ensures
            r == *self,
    {
        Position {
            name: self.name.clone(),
            group: self.group.clone(),
            ticker: self.ticker.clone(),
            amount: match &self.amount {
                Some(a) => Some(*a),
                None => None,
            },
            target: self.target,
        }
    }
}

impl Position {
    /// Target in range; a resolved amount within the engine's capacity.
    pub open spec fn wf(self) -> bool {
        &&& 0 <= self.target <= SCALE
        &&& (self.amount matches Some(a) ==> 0 <= a.value <= AMOUNT_LIMIT)
    }

    /// Subtract another position's amount from this one's, keeping this
    /// position's identity.  Both amounts must be resolved and share a
    /// currency; either defect is a checked failure.
    pub fn sub(&self, rhs: &Position) -> (r: Result<Position, PortfolioOpsError>)
        requires
            self.wf(),
            rhs.wf(),
        ensures
            match r {
                Ok(p) => match (self.amount, rhs.amount, p.amount) {
                    (Option::Some(a), Option::Some(b), Option::Some(d)) => a.currency == b.currency
                        && d.currency == a.currency && d.value == a.value - b.value && p.name
                        == self.name && p.group == self.group && p.ticker == self.ticker
                        && p.target == self.target,
                    _ => false,
                },
                Err(e) => match (self.amount, rhs.amount) {
                    (Option::Some(a), Option::Some(b)) => a.currency != b.currency && e
                        == PortfolioOpsError::Fx(FxError::CurrencyMismatch(a.currency, b.currency)),
                    _ => e == PortfolioOpsError::AmountMissing,
                },
            },
    {
        let a = match &self.amount {
            Some(a) => *a,
            None => {
                return Err(PortfolioOpsError::AmountMissing);
            },
        };
        let b = match &rhs.amount {
            Some(b) => *b,
            None => {
                return Err(PortfolioOpsError::AmountMissing);
            },
        };
        match a.sub(&b) {
            Ok(d) => Ok(
                Position {
                    name: self.name.clone(),
                    group: self.group.clone(),
                    ticker: self.ticker.clone(),
                    amount: Some(d),
                    target: self.target,
                },
            ),
            Err(e) => Err(PortfolioOpsError::Fx(e)),
        }
    }
}

/// A reporting label: positions name it, aggregation keys on it.
#[derive(Debug)]
pub struct Group {
    pub id: String,
    pub currency: Currency,
    pub xtb: Option<XtbAccount>,
}

impl Group {
    pub fn new(id: String, currency: Currency) -> (g: Group)
        ensures
            g.id == id,
            g.currency == currency,
            g.xtb is None,
    {
        Group { id, currency, xtb: None }
    }
}

/// Portfolio-wide settings: an optional broker endpoint and the base
/// currency reports are shown in.
#[derive(Debug, Clone)]
pub struct Config {
    pub xtb: Option<XtbConfig>,
    pub base_currency: Currency,
}

impl Default for Config {
    fn default() -> (c: Self)
        ensures
            c.xtb is None,
            c.base_currency == Currency::NATIVE,
    {
        Config { xtb: None, base_currency: Currency::native() }
    }
}

/// One position's share of a balancing outcome: the position and the delta
/// to apply, in the position's own currency.
#[derive(Debug, Clone, PartialEq)]
pub struct PositionChange {
    pub position: Position,
    pub amount: Amount,
}

impl PositionChange {
    /// The position's value after applying the delta.
    pub fn new_value(&self) -> (r: Amount)
        requires
            self.position.amount matches Some(a) && -AMOUNT_LIMIT <= a.value <= AMOUNT_LIMIT,
            -AMOUNT_LIMIT <= self.amount.value <= AMOUNT_LIMIT,
        ensures
            r.currency == self.position.amount->Some_0.currency,
            r.value == self.position.amount->Some_0.value + self.amount.value,
    {
        let a = match &self.position.amount {
            Some(a) => *a,
            None => {
                proof {
                    assert(false);
                }
                Amount::new(Currency::UNKNOWN, 0)
            },
        };
        Amount { currency: a.currency, value: a.value + self.amount.value }
    }
}

/// The outcome of one balancing call: the ordered per-position deltas.
#[derive(Debug)]
pub struct ChangeRequest {
    pub changes: Vec<PositionChange>,
}

/// The sum, over the first `k` changes, of the deltas whose position names
/// group `gid` — raw magnitudes, no conversion.
pub open spec fn spec_group_total(changes: Seq<PositionChange>, gid: Seq<char>, k: int) -> int
    decreases k,
{
    if k <= 0 {
        0
    } else {
        spec_group_total(changes, gid, k - 1) + (if changes[k - 1].position.group@ == gid {
            changes[k - 1].amount.value as int
        } else {
            0
        })
    }
}

/// The currency of the first change whose position names group `gid`.
pub open spec fn spec_first_currency(changes: Seq<PositionChange>, gid: Seq<char>) -> Currency
    decreases changes.len(),
{
    if changes.len() == 0 {
        Currency::UNKNOWN
    } else if changes[0].position.group@ == gid {
        changes[0].amount.currency
    } else {
        spec_first_currency(changes.drop_first(), gid)
    }
}

proof fn lemma_first_currency_at(changes: Seq<PositionChange>, i: int)
    requires
        0 <= i < changes.len(),
        forall|m: int| 0 <= m < i ==> (#[trigger] changes[m]).position.group@
            != changes[i].position.group@,
    ensures
        spec_first_currency(changes, changes[i].position.group@) == changes[i].amount.currency,
    decreases i,
{
    if i > 0 {
        assert(changes.drop_first()[i - 1] == changes[i]);
        assert forall|m: int| 0 <= m < i - 1 implies (#[trigger] changes.drop_first()[m]).position.group@
            != changes.drop_first()[i - 1].position.group@ by {
            assert(changes.drop_first()[m] == changes[m + 1]);
        }
        lemma_first_currency_at(changes.drop_first(), i - 1);
    }
}

/// The first conversion failure met while totalling the changes in `cur`.
pub open spec fn spec_change_err(changes: Seq<PositionChange>, rates: Rates, cur: Currency)
    -> Option<FxError>
    decreases changes.len(),
{
    if changes.len() == 0 {
        None
    } else if !(rates.spec_has(changes[0].amount.currency) && rates.spec_has(cur)) {
        Some(rates.spec_convert_err(changes[0].amount.currency, cur))
    } else {
        spec_change_err(changes.drop_first(), rates, cur)
    }
}

/// The changes' total, each converted into `cur` first.
pub open spec fn spec_total_change(changes: Seq<PositionChange>, rates: Rates, cur: Currency)
    -> int {
    sum_prefix(
        Seq::new(
            changes.len(),
            |i: int| rates.spec_convert(changes[i].amount.currency, cur, changes[i].amount.value as int),
        ),
        changes.len() as int,
    )
}

proof fn lemma_change_err_skip(changes: Seq<PositionChange>, rates: Rates, cur: Currency, i: int)
    requires
        0 <= i < changes.len(),
        rates.spec_has(changes[i].amount.currency),
        rates.spec_has(cur),
    ensures
        spec_change_err(changes.skip(i), rates, cur) == spec_change_err(
            changes.skip(i + 1),
            rates,
            cur,
        ),
{
    assert(changes.skip(i)[0] == changes[i]);
    assert(changes.skip(i).drop_first() =~= changes.skip(i + 1));
}

impl ChangeRequest {
    /// Within capacity, with every delta's magnitude bounded.
    pub open spec fn wf(self) -> bool {
        &&& self.changes@.len() <= MAX_POSITIONS
        &&& forall|i: int|
            0 <= i < self.changes@.len() ==> -AMOUNT_LIMIT <= (
            #[trigger] self.changes@[i]).amount.value <= AMOUNT_LIMIT
    }

    /// Fold the changes into one amount per group, keyed by the group of
    /// each position.  Magnitudes are summed as they stand — the group's
    /// amount carries the currency of the group's first change, and other
    /// currencies in the same group are not converted into it.
    pub fn change_per_group(&self) -> (r: Vec<(String, Amount)>)
        requires
            self.wf(),
        ensures
            group_fold_ok(self.changes@, r@, self.changes@.len() as int),
    {
        let n = self.changes.len();
        let mut result: Vec<(String, Amount)> = Vec::new();
        let mut i: usize = 0;
        while i < n
            invariant
                n == self.changes@.len(),
                self.wf(),
                0 <= i <= n,
                group_fold_ok(self.changes@, result@, i as int),
            decreases n - i,
        {
            absorb_change(&mut result, &self.changes, i);
            i = i + 1;
        }
        result
    }
}

impl ChangeRequest {
    /// The changes' grand total in `currency`: every delta converted
    /// through the rate table and summed.  Fails on the first delta whose
    /// currency cannot be converted.
    pub fn total_change(&self, rates: &Rates, currency: Currency) -> (r: Result<Amount, FxError>)
        requires
            self.wf(),
            rates.wf(),
        ensures
            match r {
                Ok(a) => {
                    &&& spec_change_err(self.changes@, *rates, currency) is None
                    &&& a.currency == currency
                    &&& a.value == spec_total_change(self.changes@, *rates, currency)
                },
                Err(e) => spec_change_err(self.changes@, *rates, currency) == Some(e),
            },
    {
        let ghost vals = Seq::new(
            self.changes@.len(),
            |i: int| rates.spec_convert(
                self.changes@[i].amount.currency,
                currency,
                self.changes@[i].amount.value as int,
            ),
        );
        let n = self.changes.len();
        let mut acc: i128 = 0;
        let mut i: usize = 0;
        assert(self.changes@.skip(0) =~= self.changes@);
        while i < n
            invariant
                n == self.changes@.len(),
                self.wf(),
                rates.wf(),
                vals == Seq::new(
                    self.changes@.len(),
                    |j: int| rates.spec_convert(
                        self.changes@[j].amount.currency,
                        currency,
                        self.changes@[j].amount.value as int,
                    ),
                ),
                0 <= i <= n,
                acc == sum_prefix(vals, i as int),
                -(i as int) * CONVERTED_LIMIT <= acc <= (i as int) * CONVERTED_LIMIT,
                spec_change_err(self.changes@, *rates, currency) == spec_change_err(
                    self.changes@.skip(i as int),
                    *rates,
                    currency,
                ),
            decreases n - i,
        {
            let a = self.changes[i].amount;
            let w = match rates.convert(a.currency, currency, a.value) {
                Ok(w) => w,
                Err(e) => {
                    assert(self.changes@.skip(i as int)[0] == self.changes@[i as int]);
                    return Err(e);
                },
            };
            proof {
                assert(self.changes@.skip(i as int)[0] == self.changes@[i as int]);
                lemma_change_err_skip(self.changes@, *rates, currency, i as int);
                assert(vals[i as int] == w as int);
            }
            acc = acc + w;
            i = i + 1;
        }
        assert(self.changes@.skip(n as int) =~= Seq::<PositionChange>::empty());
        Ok(Amount { currency, value: acc })
    }
}

/// The amount stored for `symbol`, scanning from the front.
pub open spec fn spec_symbol_value(values: Seq<(String, Amount)>, symbol: Seq<char>) -> Option<
    Amount,
>
    decreases values.len(),
{
    if values.len() == 0 {
        None
    } else if values[0].0@ == symbol {
        Some(values[0].1)
    } else {
        spec_symbol_value(values.drop_first(), symbol)
    }
}

/// Look a symbol's market value up, first entry winning.
pub fn market_value_of(values: &Vec<(String, Amount)>, symbol: &String) -> (r: Option<Amount>)
    ensures
        r == spec_symbol_value(values@, symbol@),
{
    let n = values.len();
    let mut i: usize = 0;
    assert(values@.skip(0) =~= values@);
    while i < n
        invariant
            n == values@.len(),
            0 <= i <= n,
            spec_symbol_value(values@, symbol@) == spec_symbol_value(
                values@.skip(i as int),
                symbol@,
            ),
        decreases n - i,
    {
        proof {
            assert(values@.skip(i as int)[0] == values@[i as int]);
            assert(values@.skip(i as int).drop_first() =~= values@.skip(i as int + 1));
        }
        if values[i].0 == *symbol {
            return Some(values[i].1);
        }
        i = i + 1;
    }
    assert(values@.skip(n as int) =~= Seq::<(String, Amount)>::empty());
    None
}

/// The index of the first entry keyed by `symbol`, tied to the first-match
/// lookup.
fn symbol_index(values: &Vec<(String, Amount)>, symbol: &String) -> (r: Option<usize>)
    ensures
        match r {
            Some(k) => k < values@.len() && values@[k as int].0@ == symbol@ && (forall|j: int|
                0 <= j < k ==> (#[trigger] values@[j]).0@ != symbol@) && spec_symbol_value(
                values@,
                symbol@,
            ) == Some(values@[k as int].1),
            None => spec_symbol_value(values@, symbol@) is None,
        },
{
    let n = values.len();
    let mut i: usize = 0;
    assert(values@.skip(0) =~= values@);
    while i < n
        invariant
            n == values@.len(),
            0 <= i <= n,
            forall|j: int| 0 <= j < i ==> (#[trigger] values@[j]).0@ != symbol@,
            spec_symbol_value(values@, symbol@) == spec_symbol_value(
                values@.skip(i as int),
                symbol@,
            ),
        decreases n - i,
    {
        proof {
            assert(values@.skip(i as int)[0] == values@[i as int]);
            assert(values@.skip(i as int).drop_first() =~= values@.skip(i as int + 1));
        }
        if values[i].0 == *symbol {
            return Some(i);
        }
        i = i + 1;
    }
    assert(values@.skip(n as int) =~= Seq::<(String, Amount)>::empty());
    None
}

/// Add one fetched market value into the running collection: a new symbol
/// is appended, a seen one has its magnitude added to the first entry —
/// same currency only, within the representable range, both checked.
pub fn accumulate_market_value(values: &mut Vec<(String, Amount)>, symbol: String, value: Amount)
    -> (r: Result<(), PortfolioReadError>)
    ensures
        ({
            let prior = old(values)@;
            match spec_symbol_value(prior, symbol@) {
                Option::None => r is Ok && final(values)@ == prior.push((symbol, value)),
                Option::Some(a) => {
                    if a.currency != value.currency {
                        r == Err::<(), PortfolioReadError>(
                            PortfolioReadError::CurrencyMismatch(a.currency, value.currency),
                        ) && final(values)@ == prior
                    } else if a.value + value.value < i128::MIN || a.value + value.value
                        > i128::MAX {
                        r == Err::<(), PortfolioReadError>(PortfolioReadError::ValueOverflow)
                            && final(values)@ == prior
                    } else {
                        r is Ok && exists|k: int|
                            0 <= k < prior.len() && (#[trigger] prior[k]).0@ == symbol@ && (
                            forall|j: int| 0 <= j < k ==> (#[trigger] prior[j]).0@ != symbol@)
                                && final(values)@ == prior.update(
                                k,
                                (
                                    prior[k].0,
                                    Amount {
                                        currency: a.currency,
                                        value: (a.value + value.value) as i128,
                                    },
                                ),
                            )
                    }
                },
            }
        }),
{
    match symbol_index(values, &symbol) {
        None => {
            values.push((symbol, value));
            Ok(())
        },
        Some(k) => {
            let ghost prior = values@;
            let prev = values[k].1;
            if prev.currency != value.currency {
                return Err(PortfolioReadError::CurrencyMismatch(prev.currency, value.currency));
            }
            let overflow: bool = if value.value > 0 {
                prev.value > i128::MAX - value.value
            } else {
                prev.value < i128::MIN - value.value
            };
            if overflow {
                return Err(PortfolioReadError::ValueOverflow);
            }
            let sum: i128 = prev.value + value.value;
            let key = values[k].0.clone();
            values.set(k, (key, Amount { currency: prev.currency, value: sum }));
            proof {
                assert(values@ =~= prior.update(
                    k as int,
                    (
                        prior[k as int].0,
                        Amount { currency: prev.currency, value: (prev.value + value.value) as i128 },
                    ),
                ));
            }
            Ok(())
        },
    }
}

/// Fill every unresolved position from the fetched market values, keyed by
/// ticker.  Resolved positions are untouched; a position whose ticker no
/// value covers is left unresolved and reported as a failure.
pub fn fill_positions(positions: &mut Vec<Position>, values: &Vec<(String, Amount)>) -> (r: Result<
    (),
    PortfolioReadError,
>)
    ensures
        final(positions)@.len() == old(positions)@.len(),
        forall|i: int|
            0 <= i < old(positions)@.len() && (#[trigger] old(positions)@[i]).amount is Some
                ==> final(positions)@[i] == old(positions)@[i],
        forall|i: int|
            0 <= i < old(positions)@.len() && (#[trigger] old(positions)@[i]).amount is None ==> {
                let p = final(positions)@[i];
                let q = old(positions)@[i];
                &&& p.name == q.name && p.group == q.group && p.ticker == q.ticker && p.target
                    == q.target
                &&& p.amount == spec_symbol_value(values@, q.ticker@)
            },
        r is Ok <==> (forall|i: int|
            0 <= i < old(positions)@.len() ==> (#[trigger] old(positions)@[i]).amount is Some
                || spec_symbol_value(values@, old(positions)@[i].ticker@) is Some),
        r matches Err(e) ==> e == PortfolioReadError::AmountMissing,
{
    let n = positions.len();
    let mut missing: bool = false;
    let mut i: usize = 0;
    while i < n
        invariant
            n == positions@.len() == old(positions)@.len(),
            0 <= i <= n,
            forall|j: int| i <= j < n ==> #[trigger] positions@[j] == old(positions)@[j],
            forall|j: int|
                0 <= j < i && (#[trigger] old(positions)@[j]).amount is Some ==> positions@[j]
                    == old(positions)@[j],
            forall|j: int|
                0 <= j < i && (#[trigger] old(positions)@[j]).amount is None ==> {
                    let p = positions@[j];
                    let q = old(positions)@[j];
                    &&& p.name == q.name && p.group == q.group && p.ticker == q.ticker && p.target
                        == q.target
                    &&& p.amount == spec_symbol_value(values@, q.ticker@)
                },
            missing == !(forall|j: int|
                0 <= j < i ==> (#[trigger] old(positions)@[j]).amount is Some || spec_symbol_value(
                    values@,
                    old(positions)@[j].ticker@,
                ) is Some),
        decreases n - i,
    {
        let resolved = match &positions[i].amount {
            Some(_) => true,
            None => false,
        };
        if !resolved {
            match market_value_of(values, &positions[i].ticker) {
                Some(a) => {
                    let p = positions[i].clone();
                    positions.set(
                        i,
                        Position {
                            name: p.name,
                            group: p.group,
                            ticker: p.ticker,
                            amount: Some(a),
                            target: p.target,
                        },
                    );
                },
                None => {
                    missing = true;
                },
            }
        }
        i = i + 1;
    }
    if missing {
        Err(PortfolioReadError::AmountMissing)
    } else {
        Ok(())
    }
}

/// The state of the per-group fold after the first `i` changes: one entry
/// per group seen, keyed uniquely, holding the group's running total and
/// its first change's currency.
pub open spec fn group_fold_ok(
    changes: Seq<PositionChange>,
    result: Seq<(String, Amount)>,
    i: int,
) -> bool {
    &&& forall|j1: int, j2: int|
        0 <= j1 < j2 < result.len() ==> (#[trigger] result[j1]).0@ != (#[trigger] result[j2]).0@
    &&& forall|j: int|
        0 <= j < result.len() ==> exists|m: int|
            0 <= m < i && (#[trigger] result[j]).0@ == changes[m].position.group@
    &&& forall|m: int|
        0 <= m < i ==> exists|j: int|
            0 <= j < result.len() && result[j].0@ == (#[trigger] changes[m]).position.group@
    &&& forall|j: int|
        0 <= j < result.len() ==> (#[trigger] result[j]).1.value == spec_group_total(
            changes,
            result[j].0@,
            i,
        ) && result[j].1.currency == spec_first_currency(changes, result[j].0@)
    &&& forall|j: int|
        0 <= j < result.len() ==> -i * AMOUNT_LIMIT <= (#[trigger] result[j]).1.value <= i
            * AMOUNT_LIMIT
}

/// Add change `i` into the running per-group fold.
fn absorb_change(result: &mut Vec<(String, Amount)>, changes: &Vec<PositionChange>, i: usize)
    requires
        i < changes@.len(),
        changes@.len() <= MAX_POSITIONS,
        forall|m: int|
            0 <= m < changes@.len() ==> -AMOUNT_LIMIT <= (#[trigger] changes@[m]).amount.value
                <= AMOUNT_LIMIT,
        group_fold_ok(changes@, old(result)@, i as int),
    ensures
        group_fold_ok(changes@, final(result)@, i as int + 1),
{
    let change = &changes[i];
    match find_group(result, &change.position.group) {
        Some(k) => bump_group(result, changes, i, k),
        None => push_group(result, changes, i),
    }
}

/// The change's group is already folded at index `k`: add its magnitude.
#[verifier::rlimit(100)]
fn bump_group(result: &mut Vec<(String, Amount)>, changes: &Vec<PositionChange>, i: usize, k: usize)
    requires
        i < changes@.len(),
        changes@.len() <= MAX_POSITIONS,
        forall|m: int|
            0 <= m < changes@.len() ==> -AMOUNT_LIMIT <= (#[trigger] changes@[m]).amount.value
                <= AMOUNT_LIMIT,
        group_fold_ok(changes@, old(result)@, i as int),
        k < old(result)@.len(),
        old(result)@[k as int].0@ == changes@[i as int].position.group@,
    ensures
        group_fold_ok(changes@, final(result)@, i as int + 1),
{
    let ghost g = changes@[i as int].position.group@;
    let ghost before = result@;
    let change = &changes[i];
    let key = result[k].0.clone();
    let prev = result[k].1;
    result.set(
        k,
        (key, Amount { currency: prev.currency, value: prev.value + change.amount.value }),
    );
    proof {
        assert(forall|j: int|
            0 <= j < result@.len() ==> (#[trigger] result@[j]).0@ == before[j].0@);
        assert forall|m: int| 0 <= m < i + 1 implies exists|j: int|
            0 <= j < result@.len() && result@[j].0@ == (
            #[trigger] changes@[m]).position.group@ by {
            if m < i {
                let j = choose|j: int|
                    0 <= j < before.len() && before[j].0@ == changes@[m].position.group@;
                assert(result@[j].0@ == changes@[m].position.group@);
            } else {
                assert(result@[k as int].0@ == g);
            }
        }
        assert forall|j: int| 0 <= j < result@.len() implies (
        #[trigger] result@[j]).1.value == spec_group_total(
            changes@,
            result@[j].0@,
            i as int + 1,
        ) && result@[j].1.currency == spec_first_currency(changes@, result@[j].0@) by {
            if j == k {
                assert(result@[j].0@ == g);
            } else {
                assert(result@[j] == before[j]);
                assert(before[j].0@ != g);
            }
        }
    }
}

/// The change's group is new: append it with the change's own magnitude
/// and currency.
#[verifier::rlimit(100)]
fn push_group(result: &mut Vec<(String, Amount)>, changes: &Vec<PositionChange>, i: usize)
    requires
        i < changes@.len(),
        changes@.len() <= MAX_POSITIONS,
        forall|m: int|
            0 <= m < changes@.len() ==> -AMOUNT_LIMIT <= (#[trigger] changes@[m]).amount.value
                <= AMOUNT_LIMIT,
        group_fold_ok(changes@, old(result)@, i as int),
        forall|j: int|
            0 <= j < old(result)@.len() ==> (#[trigger] old(result)@[j]).0@ != changes@[i as int].position.group@,
    ensures
        group_fold_ok(changes@, final(result)@, i as int + 1),
{
    let ghost g = changes@[i as int].position.group@;
    let ghost before = result@;
    let change = &changes[i];
    proof {
        assert forall|m: int| 0 <= m < i implies (#[trigger] changes@[m]).position.group@
            != g by {
            if changes@[m].position.group@ == g {
                let j = choose|j: int|
                    0 <= j < result@.len() && result@[j].0@ == changes@[m].position.group@;
                assert(result@[j].0@ == g);
            }
        }
        lemma_first_currency_at(changes@, i as int);
        lemma_group_total_absent(changes@, g, i as int);
    }
    result.push(
        (
            change.position.group.clone(),
            Amount { currency: change.amount.currency, value: change.amount.value },
        ),
    );
    proof {
        let last = result@.len() - 1;
        assert(result@[last].0@ == g);
        assert(forall|j: int| 0 <= j < last ==> result@[j] == before[j]);
        assert forall|m: int| 0 <= m < i + 1 implies exists|j: int|
            0 <= j < result@.len() && result@[j].0@ == (
            #[trigger] changes@[m]).position.group@ by {
            if m < i {
                let j = choose|j: int|
                    0 <= j < before.len() && before[j].0@ == changes@[m].position.group@;
                assert(result@[j].0@ == changes@[m].position.group@);
            } else {
                assert(result@[last].0@ == g);
            }
        }
        assert forall|j: int| 0 <= j < result@.len() implies (
        #[trigger] result@[j]).1.value == spec_group_total(
            changes@,
            result@[j].0@,
            i as int + 1,
        ) && result@[j].1.currency == spec_first_currency(changes@, result@[j].0@) by {
            if j == last {
                assert(spec_group_total(changes@, g, i as int) == 0);
            } else {
                assert(result@[j] == before[j]);
                assert(before[j].0@ != g);
            }
        }
    }
}

/// Where `gid` names no group of the first `k` changes, their group total
/// is nothing.
proof fn lemma_group_total_absent(changes: Seq<PositionChange>, gid: Seq<char>, k: int)
    requires
        0 <= k <= changes.len(),
        forall|m: int| 0 <= m < k ==> (#[trigger] changes[m]).position.group@ != gid,
    ensures
        spec_group_total(changes, gid, k) == 0,
    decreases k,
{
    if k > 0 {
        lemma_group_total_absent(changes, gid, k - 1);
    }
}

/// The index of the entry keyed by `gid`, scanning from the front.
fn find_group(entries: &Vec<(String, Amount)>, gid: &String) -> (r: Option<usize>)
    ensures
        match r {
            Some(k) => k < entries@.len() && entries@[k as int].0@ == gid@,
            None => forall|j: int| 0 <= j < entries@.len() ==> (#[trigger] entries@[j]).0@ != gid@,
        },
{
    let m = entries.len();
    let mut k: usize = 0;
    while k < m
        invariant
            m == entries@.len(),
            0 <= k <= m,
            forall|j: int| 0 <= j < k ==> (#[trigger] entries@[j]).0@ != gid@,
        decreases m - k,
    {
        if entries[k].0 == *gid {
            return Some(k);
        }
        k = k + 1;
    }
    None
}

/// A portfolio: the rate table it was loaded with, its settings, its
/// reporting groups and its positions.
#[derive(Debug)]
pub struct Portfolio {
    pub rates: Rates,
    pub config: Config,
    pub groups: Vec<Group>,
    pub positions: Vec<Position>,
}

/// A position's current value in `cur`, under `rates`.
pub open spec fn spec_converted(p: Position, rates: Rates, cur: Currency) -> int {
    rates.spec_convert(p.amount->Some_0.currency, cur, p.amount->Some_0.value as int)
}

/// All positions' current values in `cur`, in order.
pub open spec fn spec_values(positions: Seq<Position>, rates: Rates, cur: Currency) -> Seq<int> {
    Seq::new(positions.len(), |i: int| spec_converted(positions[i], rates, cur))
}

/// All positions' target shares, in order.
pub open spec fn spec_targets(positions: Seq<Position>) -> Seq<int> {
    Seq::new(positions.len(), |i: int| positions[i].target as int)
}

/// The first failure met while valuing the positions in `cur`: an
/// unresolved amount, or a conversion failure.
pub open spec fn spec_value_err(positions: Seq<Position>, rates: Rates, cur: Currency) -> Option<
    PortfolioOpsError,
>
    decreases positions.len(),
{
    if positions.len() == 0 {
        None
    } else {
        let p = positions[0];
        if p.amount is None {
            Some(PortfolioOpsError::AmountMissing)
        } else if !(rates.spec_has(p.amount->Some_0.currency) && rates.spec_has(cur)) {
            Some(
                PortfolioOpsError::Fx(rates.spec_convert_err(p.amount->Some_0.currency, cur)),
            )
        } else {
            spec_value_err(positions.drop_first(), rates, cur)
        }
    }
}

/// The portfolio's total current value in `cur`.
pub open spec fn spec_total_value(positions: Seq<Position>, rates: Rates, cur: Currency) -> int {
    sum_prefix(spec_values(positions, rates, cur), positions.len() as int)
}

/// What each emitted delta is worth back in the investment currency: the
/// allocation converted into the position's currency and back.
pub open spec fn spec_back_values(
    positions: Seq<Position>,
    rates: Rates,
    inv_currency: Currency,
    inv: int,
) -> Seq<int> {
    let vs = spec_values(positions, rates, inv_currency);
    let ts = spec_targets(positions);
    Seq::new(
        positions.len(),
        |i: int|
            rates.spec_convert(
                positions[i].amount->Some_0.currency,
                inv_currency,
                rates.spec_convert(
                    inv_currency,
                    positions[i].amount->Some_0.currency,
                    alloc_at(vs, ts, inv, i),
                ),
            ),
    )
}

proof fn lemma_value_err_skip(positions: Seq<Position>, rates: Rates, cur: Currency, i: int)
    requires
        0 <= i < positions.len(),
        positions[i].amount is Some,
        rates.spec_has(positions[i].amount->Some_0.currency),
        rates.spec_has(cur),
    ensures
        spec_value_err(positions.skip(i), rates, cur) == spec_value_err(
            positions.skip(i + 1),
            rates,
            cur,
        ),
{
    assert(positions.skip(i)[0] == positions[i]);
    assert(positions.skip(i).drop_first() =~= positions.skip(i + 1));
}

impl Portfolio {
    /// Rates well-formed, positions within capacity and each well-formed.
    pub open spec fn wf(self) -> bool {
        &&& self.rates.wf()
        &&& self.positions@.len() <= MAX_POSITIONS
        &&& forall|i: int| 0 <= i < self.positions@.len() ==> (#[trigger] self.positions@[i]).wf()
    }

    /// The portfolio's total current value in `currency`: every position
    /// converted and summed.  Fails on the first unresolved amount or
    /// unconvertible currency.
    pub fn total_value(&self, currency: Currency) -> (r: Result<Amount, PortfolioOpsError>)
        requires
            self.wf(),
        ensures
            match r {
                Ok(a) => {
                    &&& spec_value_err(self.positions@, self.rates, currency) is None
                    &&& a.currency == currency
                    &&& a.value == spec_total_value(self.positions@, self.rates, currency)
                },
                Err(e) => spec_value_err(self.positions@, self.rates, currency) == Some(e),
            },
    {
        let ghost vals = spec_values(self.positions@, self.rates, currency);
        let n = self.positions.len();
        let mut acc: i128 = 0;
        let mut i: usize = 0;
        assert(self.positions@.skip(0) =~= self.positions@);
        while i < n
            invariant
                n == self.positions@.len(),
                self.wf(),
                vals == spec_values(self.positions@, self.rates, currency),
                0 <= i <= n,
                acc == sum_prefix(vals, i as int),
                -(i as int) * CONVERTED_LIMIT <= acc <= (i as int) * CONVERTED_LIMIT,
                spec_value_err(self.positions@, self.rates, currency) == spec_value_err(
                    self.positions@.skip(i as int),
                    self.rates,
                    currency,
                ),
            decreases n - i,
        {
            let a = match &self.positions[i].amount {
                Some(a) => *a,
                None => {
                    assert(self.positions@.skip(i as int)[0] == self.positions@[i as int]);
                    return Err(PortfolioOpsError::AmountMissing);
                },
            };
            let w = match self.rates.convert(a.currency, currency, a.value) {
                Ok(w) => w,
                Err(e) => {
                    assert(self.positions@.skip(i as int)[0] == self.positions@[i as int]);
                    return Err(PortfolioOpsError::Fx(e));
                },
            };
            proof {
                assert(self.positions@.skip(i as int)[0] == self.positions@[i as int]);
                lemma_value_err_skip(self.positions@, self.rates, currency, i as int);
                assert(vals[i as int] == w as int);
            }
            acc = acc + w;
            i = i + 1;
        }
        assert(self.positions@.skip(n as int) =~= Seq::<Position>::empty());
        Ok(Amount { currency, value: acc })
    }

    /// Balance the portfolio to the given investment: value every position
    /// in the investment's currency, solve the allocation, and emit each
    /// position's delta in its own currency.
    ///
    /// Fails with the first valuation failure (an unresolved amount, a
    /// missing or unusable rate), or with `Infeasible` where the allocation
    /// constraints admit no solution.
    pub fn balance(&self, investment: Amount) -> (r: Result<ChangeRequest, PortfolioOpsError>)
        requires
            self.wf(),
            0 <= investment.value <= AMOUNT_LIMIT,
        ensures
            ({
                let vs = spec_values(self.positions@, self.rates, investment.currency);
                let ts = spec_targets(self.positions@);
                let inv = investment.value as int;
                match r {
                    Ok(cr) => {
                        &&& spec_value_err(self.positions@, self.rates, investment.currency)
                            is None
                        &&& feasible(vs, ts, inv)
                        &&& cr.changes@.len() == self.positions@.len()
                        &&& alloc_post(vs, ts, inv, Seq::new(vs.len(), |i: int| alloc_at(vs, ts, inv, i)))
                        &&& ({
                            let backs = spec_back_values(
                                self.positions@,
                                self.rates,
                                investment.currency,
                                inv,
                            );
                            let back_total = sum_prefix(backs, self.positions@.len() as int);
                            &&& 0 <= inv - back_total <= self.positions@.len() * BACK_LOSS_LIMIT
                            &&& inv - back_total < CENT_TOLERANCE
                        })
                        &&& forall|i: int|
                            0 <= i < cr.changes@.len() ==> (#[trigger] cr.changes@[i]).position
                                == self.positions@[i]
                        &&& forall|i: int|
                            0 <= i < cr.changes@.len() ==> (#[trigger] cr.changes@[i]).amount.currency
                                == self.positions@[i].amount->Some_0.currency
                        &&& forall|i: int|
                            0 <= i < cr.changes@.len() ==> (#[trigger] cr.changes@[i]).amount.value
                                == self.rates.spec_convert(
                                investment.currency,
                                self.positions@[i].amount->Some_0.currency,
                                alloc_at(vs, ts, inv, i),
                            )
                    },
                    Err(e) => match spec_value_err(
                        self.positions@,
                        self.rates,
                        investment.currency,
                    ) {
                        Option::Some(pe) => e == pe,
                        Option::None => e == PortfolioOpsError::Infeasible && !feasible(
                            vs,
                            ts,
                            inv,
                        ),
                    },
                }
            }),
    {
        let ghost vs = spec_values(self.positions@, self.rates, investment.currency);
        let ghost ts = spec_targets(self.positions@);
        let ghost inv = investment.value as int;
        let n = self.positions.len();
        let mut values: Vec<i128> = Vec::new();
        let mut targets: Vec<i128> = Vec::new();
        let mut i: usize = 0;
        assert(self.positions@.skip(0) =~= self.positions@);
        while i < n
            invariant
                n == self.positions@.len(),
                self.wf(),
                0 <= investment.value <= AMOUNT_LIMIT,
                vs == spec_values(self.positions@, self.rates, investment.currency),
                ts == spec_targets(self.positions@),
                0 <= i <= n,
                values@.len() == i && targets@.len() == i,
                forall|j: int| 0 <= j < i ==> #[trigger] values@[j] as int == vs[j],
                forall|j: int| 0 <= j < i ==> #[trigger] targets@[j] as int == ts[j],
                forall|j: int| 0 <= j < i ==> 0 <= #[trigger] values@[j] <= CONVERTED_LIMIT,
                forall|j: int|
                    0 <= j < i ==> (#[trigger] self.positions@[j]).amount is Some
                        && self.rates.spec_has(self.positions@[j].amount->Some_0.currency)
                        && self.rates.spec_has(investment.currency),
                spec_value_err(self.positions@, self.rates, investment.currency)
                    == spec_value_err(
                    self.positions@.skip(i as int),
                    self.rates,
                    investment.currency,
                ),
            decreases n - i,
        {
            let a = match &self.positions[i].amount {
                Some(a) => *a,
                None => {
                    assert(self.positions@.skip(i as int)[0] == self.positions@[i as int]);
                    return Err(PortfolioOpsError::AmountMissing);
                },
            };
            let w = match self.rates.convert(a.currency, investment.currency, a.value) {
                Ok(w) => w,
                Err(e) => {
                    assert(self.positions@.skip(i as int)[0] == self.positions@[i as int]);
                    return Err(PortfolioOpsError::Fx(e));
                },
            };
            proof {
                assert(self.positions@.skip(i as int)[0] == self.positions@[i as int]);
                lemma_value_err_skip(
                    self.positions@,
                    self.rates,
                    investment.currency,
                    i as int,
                );
                assert(vs[i as int] == w as int);
            }
            values.push(w);
            targets.push(self.positions[i].target as i128);
            i = i + 1;
        }
        proof {
            assert(self.positions@.skip(n as int) =~= Seq::<Position>::empty());
            assert(as_ints(values@) =~= vs);
            assert(as_ints(targets@) =~= ts);
            assert(wf_inputs(vs, ts, inv));
        }
        let alloc = match allocate(&values, &targets, investment.value) {
            Some(a) => a,
            None => {
                return Err(PortfolioOpsError::Infeasible);
            },
        };
        proof {
            assert(alloc_post(vs, ts, inv, as_ints(alloc@)));
            assert(Seq::new(vs.len(), |i: int| alloc_at(vs, ts, inv, i)) =~= as_ints(alloc@));
            assert forall|j: int| 0 <= j < n implies 0 <= #[trigger] alloc@[j]
                <= investment.value by {
                assert(as_ints(alloc@)[j] == alloc@[j] as int);
            }
            assert forall|j: int| 0 <= j < n implies #[trigger] alloc@[j] as int == alloc_at(
                vs,
                ts,
                inv,
                j,
            ) by {
                assert(as_ints(alloc@)[j] == alloc@[j] as int);
            }
        }
        let mut changes: Vec<PositionChange> = Vec::new();
        let mut i: usize = 0;
        while i < n
            invariant
                n == self.positions@.len(),
                self.wf(),
                0 <= investment.value <= AMOUNT_LIMIT,
                vs == spec_values(self.positions@, self.rates, investment.currency),
                ts == spec_targets(self.positions@),
                inv == investment.value as int,
                spec_value_err(self.positions@, self.rates, investment.currency) is None,
                alloc@.len() == n,
                forall|j: int| 0 <= j < n ==> #[trigger] alloc@[j] as int == alloc_at(vs, ts, inv, j),
                forall|j: int| 0 <= j < n ==> 0 <= #[trigger] alloc@[j] <= investment.value,
                forall|j: int|
                    0 <= j < n ==> (#[trigger] self.positions@[j]).amount is Some
                        && self.rates.spec_has(self.positions@[j].amount->Some_0.currency)
                        && self.rates.spec_has(investment.currency),
                0 <= i <= n,
                changes@.len() == i,
                forall|j: int|
                    0 <= j < i ==> (#[trigger] changes@[j]).position == self.positions@[j],
                forall|j: int|
                    0 <= j < i ==> (#[trigger] changes@[j]).amount.currency
                        == self.positions@[j].amount->Some_0.currency,
                forall|j: int|
                    0 <= j < i ==> (#[trigger] changes@[j]).amount.value
                        == self.rates.spec_convert(
                        investment.currency,
                        self.positions@[j].amount->Some_0.currency,
                        alloc_at(vs, ts, inv, j),
                    ),
            decreases n - i,
        {
            let position = self.positions[i].clone();
            let pos_currency = match &position.amount {
                Some(a) => a.currency,
                None => {
                    proof {
                        assert(false);
                    }
                    Currency::UNKNOWN
                },
            };
            let w = match self.rates.convert(investment.currency, pos_currency, alloc[i]) {
                Ok(w) => w,
                Err(_) => {
                    proof {
                        assert(false);
                    }
                    0
                },
            };
            changes.push(
                PositionChange { position, amount: Amount { currency: pos_currency, value: w } },
            );
            i = i + 1;
        }
        proof {
            let xs = Seq::new(vs.len(), |i: int| alloc_at(vs, ts, inv, i));
            let backs = spec_back_values(self.positions@, self.rates, investment.currency, inv);
            lemma_conservation(vs, ts, inv);
            assert forall|i: int| 0 <= i < n implies 0 <= #[trigger] (xs[i] - backs[i])
                <= BACK_LOSS_LIMIT by {
                let pos_currency = self.positions@[i].amount->Some_0.currency;
                self.rates.lemma_rate_in_range(investment.currency);
                self.rates.lemma_rate_in_range(pos_currency);
                lemma_convert_back_loss(
                    alloc_at(vs, ts, inv, i),
                    self.rates.spec_rate(investment.currency)->Some_0 as int,
                    self.rates.spec_rate(pos_currency)->Some_0 as int,
                );
            }
            lemma_sum_diff_bounded(xs, backs, n as int, BACK_LOSS_LIMIT as int);
        }
        Ok(ChangeRequest { changes })
    }

    /// A sample portfolio: a broker-held index position and a cash
    /// position, half-and-half targets, reported in US dollars.  Where a
    /// broker account is given, the index position's amount is left for the
    /// broker to resolve.
    pub fn example(xtb_config: Option<XtbConfig>, xtb_account: Option<XtbAccount>) -> (p:
        Portfolio)
        ensures
            p.rates.entries@.len() == 0,
            p.config.xtb == xtb_config,
            p.config.base_currency == Currency::USD,
            p.groups@.len() == 2,
            p.groups@[0].id@ == "xtb_usd"@ && p.groups@[0].currency == Currency::USD,
            p.groups@[1].id@ == "cash_eur"@ && p.groups@[1].currency == Currency::EUR,
            p.positions@.len() == 2,
            p.positions@[0].name@ == "S&P 500"@ && p.positions@[0].ticker@ == "SPX500"@
                && p.positions@[0].group@ == "xtb_usd"@ && p.positions@[0].target == 500_000,
            p.positions@[0].amount == (if xtb_account is Some {
                Option::<Amount>::None
            } else {
                Option::<Amount>::Some(Amount { currency: Currency::USD, value: 100_000_000_000 })
            }),
            p.positions@[1].name@ == "Cash"@ && p.positions@[1].ticker@ == "CASH"@
                && p.positions@[1].group@ == "cash_eur"@ && p.positions@[1].target == 500_000,
            p.positions@[1].amount == Option::<Amount>::Some(
                Amount { currency: Currency::EUR, value: 100_000_000_000 },
            ),
            p.wf(),
    {
        let index_amount: Option<Amount> = if xtb_account.is_some() {
            None
        } else {
            Some(Amount { currency: Currency::USD, value: 100_000_000_000 })
        };
        let groups = vec![
            Group { id: "xtb_usd".to_owned(), currency: Currency::USD, xtb: xtb_account },
            Group { id: "cash_eur".to_owned(), currency: Currency::EUR, xtb: None },
        ];
        let positions = vec![
            Position {
                name: "S&P 500".to_owned(),
                ticker: "SPX500".to_owned(),
                group: "xtb_usd".to_owned(),
                amount: index_amount,
                target: 500_000,
            },
            Position {
                name: "Cash".to_owned(),
                ticker: "CASH".to_owned(),
                group: "cash_eur".to_owned(),
                amount: Some(Amount { currency: Currency::EUR, value: 100_000_000_000 }),
                target: 500_000,
            },
        ];
        Portfolio {
            rates: Rates::default(),
            config: Config { xtb: xtb_config, base_currency: Currency::USD },
            groups,
            positions,
        }
    }
}

} // verus!
