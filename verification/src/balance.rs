//! The balancing engine's allocation core.
//!
//! Given each position's current value and target share (both already in the
//! investment currency and the common fixed-point scale) and an investment
//! magnitude, it chooses a non-negative allocation per position such that the
//! whole investment is placed, no position absorbs more than the whole, and
//! the post-investment share of every position approaches its target.
//!
//! The constraint set mirrors a linear program with a sign-oriented
//! objective: a position whose current share is below its target (or whose
//! portfolio is empty) must not be pushed past its target, and a position at
//! or above its target must at least reach the share its target demands of
//! the grown portfolio.  The optimum is reached greedily: under-target
//! positions are filled first, in position order; only what they cannot take
//! flows to the remaining positions.  Position order is this engine's
//! tie-break between equally good optima.

use vstd::prelude::*;

use crate::amount::{AMOUNT_LIMIT, SCALE};
use crate::fx::CONVERTED_LIMIT;

verus! {

/// Most positions one balancing call accepts.
pub const MAX_POSITIONS: usize = 100;

/// The smaller of two integers.
pub open spec fn min_int(a: int, b: int) -> int {
    if a <= b {
        a
    } else {
        b
    }
}

/// The larger of two integers.
pub open spec fn max_int(a: int, b: int) -> int {
    if a >= b {
        a
    } else {
        b
    }
}

/// `a / b` rounded up, for `a >= 0 < b`.
pub open spec fn ceil_div(a: int, b: int) -> int {
    (a + b - 1) / b
}

/// The sum of the first `k` elements.
pub open spec fn sum_prefix(s: Seq<int>, k: int) -> int
    decreases k,
{
    if k <= 0 {
        0
    } else {
        sum_prefix(s, k - 1) + s[k - 1]
    }
}

/// A sequence of `i128` read as mathematical integers.
pub open spec fn as_ints(s: Seq<i128>) -> Seq<int> {
    s.map_values(|v: i128| v as int)
}

/// How much greedy left-to-right filling of `rooms` with `budget` has placed
/// into the first `k` slots.
pub open spec fn filled(rooms: Seq<int>, budget: int, k: int) -> int
    decreases k,
{
    if k <= 0 {
        0
    } else {
        let f = filled(rooms, budget, k - 1);
        f + min_int(rooms[k - 1], budget - f)
    }
}

/// What greedy filling gives slot `i`.
pub open spec fn give(rooms: Seq<int>, budget: int, i: int) -> int {
    min_int(rooms[i], budget - filled(rooms, budget, i))
}

/// Greedy filling places between nothing and the whole budget, and each step
/// gives a non-negative amount within its room.
pub proof fn lemma_filled_bounds(rooms: Seq<int>, budget: int, k: int)
    requires
        0 <= k <= rooms.len(),
        budget >= 0,
        forall|i: int| 0 <= i < rooms.len() ==> rooms[i] >= 0,
    ensures
        forall|i: int| 0 <= i <= k ==> 0 <= #[trigger] filled(rooms, budget, i) <= budget,
        forall|i: int|
            0 <= i < k ==> 0 <= #[trigger] give(rooms, budget, i) <= rooms[i],
        forall|i: int| 0 <= i < k ==> #[trigger] give(rooms, budget, i) <= budget,
        forall|i: int|
            0 <= i < k ==> filled(rooms, budget, i + 1) == filled(rooms, budget, i) + give(
                rooms,
                budget,
                i,
            ),
    decreases k,
{
    if k > 0 {
        lemma_filled_bounds(rooms, budget, k - 1);
        let f = filled(rooms, budget, k - 1);
        assert(filled(rooms, budget, k) == f + min_int(rooms[k - 1], budget - f));
    } else {
        assert(filled(rooms, budget, 0) == 0);
    }
}

/// If some slot was not filled to its room, the whole budget was placed.
pub proof fn lemma_filled_exhausts(rooms: Seq<int>, budget: int, i: int)
    requires
        0 <= i < rooms.len(),
        budget >= 0,
        forall|j: int| 0 <= j < rooms.len() ==> rooms[j] >= 0,
        give(rooms, budget, i) < rooms[i],
    ensures
        filled(rooms, budget, rooms.len() as int) == budget,
    decreases rooms.len() - i,
{
    lemma_filled_bounds(rooms, budget, i + 1);
    assert(give(rooms, budget, i) == budget - filled(rooms, budget, i));
    assert(filled(rooms, budget, i + 1) == budget);
    let n = rooms.len() as int;
    lemma_filled_monotone(rooms, budget, i + 1, n);
    lemma_filled_bounds(rooms, budget, n);
}

/// Greedy filling never shrinks as more slots are considered.
pub proof fn lemma_filled_monotone(rooms: Seq<int>, budget: int, k1: int, k2: int)
    requires
        0 <= k1 <= k2 <= rooms.len(),
        budget >= 0,
        forall|i: int| 0 <= i < rooms.len() ==> rooms[i] >= 0,
    ensures
        filled(rooms, budget, k1) <= filled(rooms, budget, k2),
    decreases k2 - k1,
{
    if k1 < k2 {
        lemma_filled_monotone(rooms, budget, k1, k2 - 1);
        lemma_filled_bounds(rooms, budget, k2 - 1);
    }
}

/// With no budget, greedy filling gives every slot nothing.
pub proof fn lemma_filled_zero_budget(rooms: Seq<int>, k: int)
    requires
        0 <= k <= rooms.len(),
        forall|i: int| 0 <= i < rooms.len() ==> rooms[i] >= 0,
    ensures
        filled(rooms, 0, k) == 0,
        forall|i: int| 0 <= i < k ==> #[trigger] give(rooms, 0, i) == 0,
    decreases k,
{
    if k > 0 {
        lemma_filled_zero_budget(rooms, k - 1);
    }
}

/// The portfolio's current total value: the sum of all position values.
pub open spec fn total_of(vs: Seq<int>) -> int {
    sum_prefix(vs, vs.len() as int)
}

/// Position `i` sits below its target share.  An empty portfolio counts as
/// below target, since a positive target is unreachable from zero.
pub open spec fn is_under(vs: Seq<int>, ts: Seq<int>, i: int) -> bool {
    total_of(vs) == 0 || vs[i] * SCALE < ts[i] * total_of(vs)
}

/// How much an under-target position may receive before passing its target
/// share of the grown portfolio.
pub open spec fn target_cap(vs: Seq<int>, ts: Seq<int>, inv: int, i: int) -> int {
    max_int(0, (ts[i] * (total_of(vs) + inv)) / (SCALE as int) - vs[i])
}

/// How much an at-or-over-target position must receive so its share does not
/// fall below its target share of the grown portfolio.
pub open spec fn target_floor(vs: Seq<int>, ts: Seq<int>, inv: int, i: int) -> int {
    max_int(0, ceil_div(ts[i] * (total_of(vs) + inv), SCALE as int) - vs[i])
}

/// The obligatory part of each position's allocation: its floor where it is
/// at or over target, nothing where it is under.
pub open spec fn base_at(vs: Seq<int>, ts: Seq<int>, inv: int, i: int) -> int {
    if is_under(vs, ts, i) {
        0
    } else {
        target_floor(vs, ts, inv, i)
    }
}

/// All obligatory parts, by position.
pub open spec fn bases(vs: Seq<int>, ts: Seq<int>, inv: int) -> Seq<int> {
    Seq::new(vs.len(), |i: int| base_at(vs, ts, inv, i))
}

/// The room the first greedy pass sees: the cap of each under-target
/// position, nothing elsewhere.
pub open spec fn under_rooms(vs: Seq<int>, ts: Seq<int>, inv: int) -> Seq<int> {
    Seq::new(
        vs.len(),
        |i: int|
            if is_under(vs, ts, i) {
                target_cap(vs, ts, inv, i)
            } else {
                0
            },
    )
}

/// The room the second greedy pass sees: what each at-or-over-target
/// position can still take before reaching the whole investment.
pub open spec fn over_rooms(vs: Seq<int>, ts: Seq<int>, inv: int) -> Seq<int> {
    Seq::new(
        vs.len(),
        |i: int|
            if is_under(vs, ts, i) {
                0
            } else {
                inv - base_at(vs, ts, inv, i)
            },
    )
}

/// The sum of all obligatory parts.
pub open spec fn base_total(vs: Seq<int>, ts: Seq<int>, inv: int) -> int {
    sum_prefix(bases(vs, ts, inv), vs.len() as int)
}

/// What the first greedy pass may distribute.
pub open spec fn first_budget(vs: Seq<int>, ts: Seq<int>, inv: int) -> int {
    inv - base_total(vs, ts, inv)
}

/// What the first greedy pass could not place.
pub open spec fn second_budget(vs: Seq<int>, ts: Seq<int>, inv: int) -> int {
    first_budget(vs, ts, inv) - filled(
        under_rooms(vs, ts, inv),
        first_budget(vs, ts, inv),
        vs.len() as int,
    )
}

/// What neither pass could place.
pub open spec fn leftover(vs: Seq<int>, ts: Seq<int>, inv: int) -> int {
    second_budget(vs, ts, inv) - filled(
        over_rooms(vs, ts, inv),
        second_budget(vs, ts, inv),
        vs.len() as int,
    )
}

/// The engine's allocation for position `i`.
pub open spec fn alloc_at(vs: Seq<int>, ts: Seq<int>, inv: int, i: int) -> int {
    base_at(vs, ts, inv, i) + give(under_rooms(vs, ts, inv), first_budget(vs, ts, inv), i) + give(
        over_rooms(vs, ts, inv),
        second_budget(vs, ts, inv),
        i,
    )
}

/// The constraints admit a solution: the obligatory parts fit within the
/// investment, and the whole investment can be placed.
pub open spec fn feasible(vs: Seq<int>, ts: Seq<int>, inv: int) -> bool {
    base_total(vs, ts, inv) <= inv && leftover(vs, ts, inv) == 0
}

/// What the engine asks of its inputs: matching lengths within capacity,
/// values and targets non-negative and bounded, investment non-negative.
pub open spec fn wf_inputs(vs: Seq<int>, ts: Seq<int>, inv: int) -> bool {
    &&& vs.len() == ts.len()
    &&& vs.len() <= MAX_POSITIONS
    &&& forall|i: int| 0 <= i < vs.len() ==> 0 <= #[trigger] vs[i] <= CONVERTED_LIMIT
    &&& forall|i: int| 0 <= i < ts.len() ==> 0 <= #[trigger] ts[i] <= SCALE
    &&& 0 <= inv <= AMOUNT_LIMIT
}

/// An at-or-over-target position's floor never exceeds the investment: its
/// target share of the grown portfolio is at most its value plus the whole
/// investment.
pub proof fn lemma_floor_le_inv(vs: Seq<int>, ts: Seq<int>, inv: int, i: int)
    requires
        wf_inputs(vs, ts, inv),
        0 <= i < vs.len(),
        !is_under(vs, ts, i),
    ensures
        0 <= target_floor(vs, ts, inv, i) <= inv,
{
    let v = vs[i];
    let t = ts[i];
    let vtot = total_of(vs);
    let newtot = vtot + inv;
    assert(t * vtot <= v * SCALE);
    assert(t * newtot == t * vtot + t * inv) by (nonlinear_arith)
        requires
            newtot == vtot + inv,
    ;
    assert(t * inv <= SCALE * inv) by (nonlinear_arith)
        requires
            0 <= t <= SCALE,
            0 <= inv,
    ;
    assert(t * newtot <= v * SCALE + SCALE * inv);
    assert(v * SCALE + SCALE * inv == SCALE * (v + inv)) by (nonlinear_arith)
        requires
            true,
    ;
    lemma_ceil_div_le(t * newtot, v + inv, SCALE as int);
}

/// `a <= m * d` implies `ceil_div(a, d) <= m`, for positive `d`.
proof fn lemma_ceil_div_le(a: int, m: int, d: int)
    requires
        0 < d,
        a <= m * d,
    ensures
        ceil_div(a, d) <= m,
{
    assert(a + d - 1 <= d * m + (d - 1)) by (nonlinear_arith)
        requires
            a <= m * d,
    ;
    vstd::arithmetic::div_mod::lemma_div_multiples_vanish_fancy(m, d - 1, d);
    vstd::arithmetic::div_mod::lemma_div_is_ordered(a + d - 1, d * m + (d - 1), d);
}

/// `t * n / d <= n` for `0 <= t <= d`, `n >= 0`: a share never exceeds the
/// whole.
proof fn lemma_share_le_whole(t: int, n: int, d: int)
    requires
        0 <= t <= d,
        0 <= n,
        0 < d,
    ensures
        0 <= (t * n) / d <= n,
{
    assert(t * n <= d * n) by (nonlinear_arith)
        requires
            0 <= t <= d,
            0 <= n,
    ;
    assert(t * n >= 0) by (nonlinear_arith)
        requires
            0 <= t,
            0 <= n,
    ;
    vstd::arithmetic::div_mod::lemma_div_is_ordered(t * n, d * n, d);
    vstd::arithmetic::div_mod::lemma_div_multiples_vanish(n, d);
    vstd::arithmetic::div_mod::lemma_div_pos_is_pos(t * n, d);
}

/// The sum of a prefix of pointwise sums splits into the three sums.
proof fn lemma_sum_split3(a: Seq<int>, b: Seq<int>, c: Seq<int>, d: Seq<int>, k: int)
    requires
        0 <= k <= a.len(),
        a.len() == b.len() == c.len() == d.len(),
        forall|i: int| 0 <= i < a.len() ==> a[i] == b[i] + c[i] + d[i],
    ensures
        sum_prefix(a, k) == sum_prefix(b, k) + sum_prefix(c, k) + sum_prefix(d, k),
    decreases k,
{
    if k > 0 {
        lemma_sum_split3(a, b, c, d, k - 1);
    }
}

/// The greedy gives over a prefix sum to what greedy filling placed there.
proof fn lemma_sum_of_gives(rooms: Seq<int>, budget: int, gs: Seq<int>, k: int)
    requires
        0 <= k <= rooms.len(),
        gs.len() == rooms.len(),
        forall|i: int| 0 <= i < rooms.len() ==> gs[i] == give(rooms, budget, i),
    ensures
        sum_prefix(gs, k) == filled(rooms, budget, k),
    decreases k,
{
    if k > 0 {
        lemma_sum_of_gives(rooms, budget, gs, k - 1);
    }
}

/// A prefix of non-negative elements sums to something non-negative.
proof fn lemma_sum_nonneg(s: Seq<int>, k: int)
    requires
        0 <= k <= s.len(),
        forall|j: int| 0 <= j < k ==> s[j] >= 0,
    ensures
        sum_prefix(s, k) >= 0,
    decreases k,
{
    if k > 0 {
        lemma_sum_nonneg(s, k - 1);
    }
}

/// Where each element of `a` exceeds its partner in `b` by at most `loss`
/// and never falls below it, the prefix sums differ by at most `k * loss`.
pub proof fn lemma_sum_diff_bounded(a: Seq<int>, b: Seq<int>, k: int, loss: int)
    requires
        0 <= k <= a.len(),
        a.len() == b.len(),
        loss >= 0,
        forall|i: int| 0 <= i < a.len() ==> 0 <= #[trigger] (a[i] - b[i]) <= loss,
    ensures
        0 <= sum_prefix(a, k) - sum_prefix(b, k) <= k * loss,
    decreases k,
{
    if k > 0 {
        lemma_sum_diff_bounded(a, b, k - 1, loss);
        assert(0 <= a[k - 1] - b[k - 1] <= loss);
        assert((k - 1) * loss + loss == k * loss) by (nonlinear_arith);
    }
}

/// A prefix of zeroes sums to zero.
proof fn lemma_sum_zero(s: Seq<int>, k: int)
    requires
        0 <= k <= s.len(),
        forall|j: int| 0 <= j < k ==> s[j] == 0,
    ensures
        sum_prefix(s, k) == 0,
    decreases k,
{
    if k > 0 {
        lemma_sum_zero(s, k - 1);
    }
}

/// Balancing is a no-op on a balanced portfolio: where every position's
/// current share already equals its target and nothing is being invested,
/// the allocation is solvable and gives every position nothing.
pub proof fn lemma_balanced_no_op(vs: Seq<int>, ts: Seq<int>)
    requires
        wf_inputs(vs, ts, 0),
        forall|i: int| 0 <= i < vs.len() ==> #[trigger] vs[i] * SCALE == ts[i] * total_of(vs),
    ensures
        feasible(vs, ts, 0),
        forall|i: int| 0 <= i < vs.len() ==> alloc_at(vs, ts, 0, i) == 0,
{
    let n = vs.len() as int;
    let vtot = total_of(vs);
    assert forall|i: int| 0 <= i < n implies bases(vs, ts, 0)[i] == 0 && under_rooms(vs, ts, 0)[i]
        == 0 && over_rooms(vs, ts, 0)[i] == 0 by {
        assert(vs[i] * SCALE == ts[i] * vtot);
        if vtot == 0 {
            assert(is_under(vs, ts, i));
            assert(vs[i] * SCALE == ts[i] * 0);
            assert(ts[i] * 0 == 0) by (nonlinear_arith);
            assert(vs[i] * SCALE == 0);
            assert(vs[i] == 0) by (nonlinear_arith)
                requires
                    vs[i] * SCALE == 0,
                    SCALE > 0,
            ;
            assert(ts[i] * (vtot + 0) == 0) by (nonlinear_arith)
                requires
                    vtot == 0,
            ;
            vstd::arithmetic::div_mod::lemma_div_of0(SCALE as int);
            assert(target_cap(vs, ts, 0, i) == 0);
        } else {
            assert(!is_under(vs, ts, i));
            assert(ts[i] * (vtot + 0) == vs[i] * SCALE);
            assert(vs[i] * SCALE == SCALE * vs[i]) by (nonlinear_arith);
            vstd::arithmetic::div_mod::lemma_div_multiples_vanish_fancy(
                vs[i],
                SCALE - 1,
                SCALE as int,
            );
            assert(ceil_div(ts[i] * (vtot + 0), SCALE as int) == vs[i]);
            assert(target_floor(vs, ts, 0, i) == 0);
        }
    }
    lemma_sum_zero(bases(vs, ts, 0), n);
    assert(base_total(vs, ts, 0) == 0);
    assert(first_budget(vs, ts, 0) == 0);
    lemma_filled_zero_budget(under_rooms(vs, ts, 0), n);
    assert(second_budget(vs, ts, 0) == 0);
    lemma_filled_zero_budget(over_rooms(vs, ts, 0), n);
    assert(leftover(vs, ts, 0) == 0);
}

/// A single position with a full target share absorbs the whole
/// investment: the allocation is solvable and gives it everything.
pub proof fn lemma_single_position_full(vs: Seq<int>, ts: Seq<int>, inv: int)
    requires
        wf_inputs(vs, ts, inv),
        vs.len() == 1,
        ts[0] == SCALE,
    ensures
        feasible(vs, ts, inv),
        alloc_at(vs, ts, inv, 0) == inv,
{
    let vtot = total_of(vs);
    assert(sum_prefix(vs, 0) == 0);
    assert(vtot == sum_prefix(vs, 0) + vs[0]);
    assert(vtot == vs[0]);
    assert(sum_prefix(bases(vs, ts, inv), 1) == sum_prefix(bases(vs, ts, inv), 0) + bases(
        vs,
        ts,
        inv,
    )[0]);
    assert(sum_prefix(bases(vs, ts, inv), 0) == 0);
    let t = vtot + inv;
    assert(ts[0] * t == SCALE * t) by (nonlinear_arith)
        requires
            ts[0] == SCALE,
    ;
    vstd::arithmetic::div_mod::lemma_div_multiples_vanish(t, SCALE as int);
    vstd::arithmetic::div_mod::lemma_div_multiples_vanish_fancy(t, SCALE - 1, SCALE as int);
    if vtot == 0 {
        assert(is_under(vs, ts, 0));
        assert(target_cap(vs, ts, inv, 0) == inv);
        assert(bases(vs, ts, inv)[0] == 0);
        assert(base_total(vs, ts, inv) == 0);
        assert(first_budget(vs, ts, inv) == inv);
        let ur = under_rooms(vs, ts, inv);
        assert(ur[0] == inv);
        assert(filled(ur, inv, 0) == 0);
        assert(filled(ur, inv, 1) == inv);
        assert(give(ur, inv, 0) == inv);
        assert(second_budget(vs, ts, inv) == 0);
        let or = over_rooms(vs, ts, inv);
        assert(or[0] == 0);
        lemma_filled_zero_budget(or, 1);
        assert(leftover(vs, ts, inv) == 0);
    } else {
        assert(vs[0] * SCALE == SCALE * vs[0]) by (nonlinear_arith);
        assert(ts[0] * vtot == SCALE * vs[0]) by (nonlinear_arith)
            requires
                ts[0] == SCALE,
                vtot == vs[0],
        ;
        assert(!is_under(vs, ts, 0));
        assert(ceil_div(ts[0] * t, SCALE as int) == t);
        assert(target_floor(vs, ts, inv, 0) == t - vs[0]);
        assert(t - vs[0] == inv);
        assert(bases(vs, ts, inv)[0] == inv);
        assert(base_total(vs, ts, inv) == inv);
        assert(first_budget(vs, ts, inv) == 0);
        let ur = under_rooms(vs, ts, inv);
        assert(ur[0] == 0);
        lemma_filled_zero_budget(ur, 1);
        assert(second_budget(vs, ts, inv) == 0);
        let or = over_rooms(vs, ts, inv);
        assert(or[0] == 0);
        lemma_filled_zero_budget(or, 1);
        assert(leftover(vs, ts, inv) == 0);
    }
}

/// The two passes' rooms are never negative, and the obligatory parts lie
/// within `[0, inv]`.
proof fn lemma_rooms_nonneg(vs: Seq<int>, ts: Seq<int>, inv: int)
    requires
        wf_inputs(vs, ts, inv),
    ensures
        forall|i: int| 0 <= i < vs.len() ==> 0 <= #[trigger] under_rooms(vs, ts, inv)[i],
        forall|i: int| 0 <= i < vs.len() ==> 0 <= #[trigger] over_rooms(vs, ts, inv)[i] <= inv,
        forall|i: int| 0 <= i < vs.len() ==> 0 <= #[trigger] bases(vs, ts, inv)[i] <= inv,
{
    assert forall|i: int| 0 <= i < vs.len() implies 0 <= #[trigger] over_rooms(vs, ts, inv)[i]
        <= inv by {
        if !is_under(vs, ts, i) {
            lemma_floor_le_inv(vs, ts, inv, i);
        }
    }
    assert forall|i: int| 0 <= i < vs.len() implies 0 <= #[trigger] bases(vs, ts, inv)[i]
        <= inv by {
        if !is_under(vs, ts, i) {
            lemma_floor_le_inv(vs, ts, inv, i);
        }
    }
}

/// Conservation: where the constraints admit a solution, the allocations
/// sum to exactly the investment — all of the new cash is placed.
pub proof fn lemma_conservation(vs: Seq<int>, ts: Seq<int>, inv: int)
    requires
        wf_inputs(vs, ts, inv),
        feasible(vs, ts, inv),
    ensures
        sum_prefix(
            Seq::new(vs.len(), |i: int| alloc_at(vs, ts, inv, i)),
            vs.len() as int,
        ) == inv,
{
    let n = vs.len() as int;
    let ur = under_rooms(vs, ts, inv);
    let or = over_rooms(vs, ts, inv);
    let b1 = first_budget(vs, ts, inv);
    let sb = second_budget(vs, ts, inv);
    lemma_rooms_nonneg(vs, ts, inv);
    lemma_filled_bounds(ur, b1, n);
    lemma_filled_bounds(or, sb, n);
    let gs1 = Seq::new(n as nat, |i: int| give(ur, b1, i));
    let gs2 = Seq::new(n as nat, |i: int| give(or, sb, i));
    lemma_sum_of_gives(ur, b1, gs1, n);
    lemma_sum_of_gives(or, sb, gs2, n);
    let a = Seq::new(vs.len(), |i: int| alloc_at(vs, ts, inv, i));
    lemma_sum_split3(a, bases(vs, ts, inv), gs1, gs2, n);
}

/// Bounds: where the constraints admit a solution, every allocation is
/// non-negative and no position absorbs more than the whole investment.
pub proof fn lemma_bounds(vs: Seq<int>, ts: Seq<int>, inv: int)
    requires
        wf_inputs(vs, ts, inv),
        feasible(vs, ts, inv),
    ensures
        forall|i: int| 0 <= i < vs.len() ==> 0 <= #[trigger] alloc_at(vs, ts, inv, i) <= inv,
{
    let n = vs.len() as int;
    let ur = under_rooms(vs, ts, inv);
    let or = over_rooms(vs, ts, inv);
    let b1 = first_budget(vs, ts, inv);
    let sb = second_budget(vs, ts, inv);
    lemma_rooms_nonneg(vs, ts, inv);
    lemma_sum_nonneg(bases(vs, ts, inv), n);
    lemma_filled_bounds(ur, b1, n);
    lemma_filled_bounds(or, sb, n);
    assert forall|i: int| 0 <= i < n implies 0 <= #[trigger] alloc_at(vs, ts, inv, i) <= inv by {
        if is_under(vs, ts, i) {
            assert(bases(vs, ts, inv)[i] == 0);
            assert(or[i] == 0);
            assert(give(or, sb, i) == 0);
            assert(give(ur, b1, i) <= b1);
        } else {
            assert(ur[i] == 0);
            assert(give(ur, b1, i) == 0);
            assert(give(or, sb, i) <= or[i]);
        }
    }
}

/// Everything the engine promises of a successful allocation `a`:
/// it is exactly the greedy optimum, it conserves the investment, it keeps
/// every position within `[0, inv]`, it never pushes an under-target
/// position past its target nor leaves an at-or-over-target position under
/// its floor, and it favours under-target positions: while any of them has
/// room left, the others receive only their floors.
pub open spec fn alloc_post(vs: Seq<int>, ts: Seq<int>, inv: int, a: Seq<int>) -> bool {
    &&& a.len() == vs.len()
    &&& forall|i: int| 0 <= i < a.len() ==> #[trigger] a[i] == alloc_at(vs, ts, inv, i)
    &&& sum_prefix(a, a.len() as int) == inv
    &&& forall|i: int| 0 <= i < a.len() ==> 0 <= #[trigger] a[i] <= inv
    &&& forall|i: int|
        0 <= i < a.len() && is_under(vs, ts, i) ==> #[trigger] a[i] <= target_cap(vs, ts, inv, i)
    &&& forall|i: int|
        0 <= i < a.len() && !is_under(vs, ts, i) ==> #[trigger] a[i] >= target_floor(
            vs,
            ts,
            inv,
            i,
        )
    &&& ((exists|i: int|
        0 <= i < a.len() && #[trigger] is_under(vs, ts, i) && a[i] < target_cap(vs, ts, inv, i))
        ==> (forall|j: int|
        0 <= j < a.len() && !(#[trigger] is_under(vs, ts, j)) ==> a[j] == target_floor(
            vs,
            ts,
            inv,
            j,
        )))
}

/// The portfolio's current total value, summed without conversion.
fn portfolio_total(values: &Vec<i128>) -> (vtot: i128)
    requires
        values@.len() <= MAX_POSITIONS,
        forall|i: int| 0 <= i < values@.len() ==> 0 <= #[trigger] values@[i] <= CONVERTED_LIMIT,
    ensures
        vtot == total_of(as_ints(values@)),
        0 <= vtot <= values@.len() * CONVERTED_LIMIT,
{
    let ghost vs = as_ints(values@);
    let n = values.len();
    let mut vtot: i128 = 0;
    let mut i: usize = 0;
    while i < n
        invariant
            n == values@.len() <= MAX_POSITIONS,
            vs == as_ints(values@),
            0 <= i <= n,
            forall|j: int| 0 <= j < n ==> 0 <= #[trigger] values@[j] <= CONVERTED_LIMIT,
            vtot == sum_prefix(vs, i as int),
            0 <= vtot <= i * CONVERTED_LIMIT,
        decreases n - i,
    {
        vtot = vtot + values[i];
        i = i + 1;
    }
    vtot
}

/// Classify each position and precompute the obligatory parts and the two
/// passes' rooms; also returns the sum of the obligatory parts.
#[verifier::rlimit(30)]
fn prepare(values: &Vec<i128>, targets: &Vec<i128>, investment: i128, vtot: i128) -> (r: (
    Vec<i128>,
    Vec<i128>,
    Vec<i128>,
    i128,
))
    requires
        wf_inputs(as_ints(values@), as_ints(targets@), investment as int),
        vtot == total_of(as_ints(values@)),
        0 <= vtot <= values@.len() * CONVERTED_LIMIT,
    ensures
        ({
            let vs = as_ints(values@);
            let ts = as_ints(targets@);
            let inv = investment as int;
            &&& r.0@.len() == vs.len() && r.1@.len() == vs.len() && r.2@.len() == vs.len()
            &&& forall|i: int| 0 <= i < vs.len() ==> #[trigger] r.0@[i] == bases(vs, ts, inv)[i]
            &&& forall|i: int|
                0 <= i < vs.len() ==> #[trigger] r.1@[i] == under_rooms(vs, ts, inv)[i]
            &&& forall|i: int|
                0 <= i < vs.len() ==> #[trigger] r.2@[i] == over_rooms(vs, ts, inv)[i]
            &&& r.3 == base_total(vs, ts, inv)
            &&& 0 <= r.3 <= vs.len() * AMOUNT_LIMIT
        }),
{
    let ghost vs = as_ints(values@);
    let ghost ts = as_ints(targets@);
    let ghost inv = investment as int;
    let n = values.len();
    let newtot: i128 = vtot + investment;
    let mut base: Vec<i128> = Vec::new();
    let mut urooms: Vec<i128> = Vec::new();
    let mut orooms: Vec<i128> = Vec::new();
    let mut ftot: i128 = 0;
    let mut i: usize = 0;
    while i < n
        invariant
            n == values@.len(),
            targets@.len() == n,
            vs == as_ints(values@),
            ts == as_ints(targets@),
            inv == investment as int,
            wf_inputs(vs, ts, inv),
            vtot == total_of(vs),
            0 <= vtot <= n * CONVERTED_LIMIT,
            newtot == vtot + investment,
            0 <= i <= n,
            base@.len() == i && urooms@.len() == i && orooms@.len() == i,
            forall|j: int| 0 <= j < i ==> #[trigger] base@[j] == bases(vs, ts, inv)[j],
            forall|j: int| 0 <= j < i ==> #[trigger] urooms@[j] == under_rooms(vs, ts, inv)[j],
            forall|j: int| 0 <= j < i ==> #[trigger] orooms@[j] == over_rooms(vs, ts, inv)[j],
            ftot == sum_prefix(bases(vs, ts, inv), i as int),
            0 <= ftot <= i * AMOUNT_LIMIT,
        decreases n - i,
    {
        let v = values[i];
        let t = targets[i];
        proof {
            assert(vs[i as int] == v as int);
            assert(ts[i as int] == t as int);
            assert(0 <= v <= CONVERTED_LIMIT);
            assert(0 <= t <= SCALE);
            assert(0 <= (v as int) * (SCALE as int) <= CONVERTED_LIMIT * SCALE)
                by (nonlinear_arith)
                requires
                    0 <= v <= CONVERTED_LIMIT,
            ;
            assert(0 <= (t as int) * (vtot as int) <= SCALE * (MAX_POSITIONS * CONVERTED_LIMIT))
                by (nonlinear_arith)
                requires
                    0 <= t <= SCALE,
                    0 <= vtot <= MAX_POSITIONS * CONVERTED_LIMIT,
            ;
            assert(0 <= (t as int) * (newtot as int) <= SCALE * (MAX_POSITIONS * CONVERTED_LIMIT
                + AMOUNT_LIMIT)) by (nonlinear_arith)
                requires
                    0 <= t <= SCALE,
                    0 <= newtot <= MAX_POSITIONS * CONVERTED_LIMIT + AMOUNT_LIMIT,
            ;
        }
        let under: bool = vtot == 0 || v * (SCALE as i128) < t * vtot;
        assert(under == is_under(vs, ts, i as int));
        let num: u128 = (t as u128) * (newtot as u128);
        proof {
            lemma_share_le_whole(t as int, newtot as int, SCALE as int);
        }
        if under {
            let q: u128 = num / (SCALE as u128);
            let cap: i128 = if q > (v as u128) {
                (q - (v as u128)) as i128
            } else {
                0
            };
            assert(cap == target_cap(vs, ts, inv, i as int));
            base.push(0);
            urooms.push(cap);
            orooms.push(0);
        } else {
            let q: u128 = (num + (SCALE as u128 - 1)) / (SCALE as u128);
            assert(q == ceil_div((t as int) * (newtot as int), SCALE as int));
            proof {
                lemma_floor_le_inv(vs, ts, inv, i as int);
            }
            let flo: i128 = if q > (v as u128) {
                (q - (v as u128)) as i128
            } else {
                0
            };
            assert(flo == target_floor(vs, ts, inv, i as int));
            base.push(flo);
            urooms.push(0);
            orooms.push(investment - flo);
            ftot = ftot + flo;
        }
        i = i + 1;
    }
    (base, urooms, orooms, ftot)
}

/// Distribute `investment` over the positions: values are given in the
/// investment currency's quanta, targets in millionths of the whole.
/// Returns the allocations, or nothing where the constraints admit no
/// solution.
pub fn allocate(values: &Vec<i128>, targets: &Vec<i128>, investment: i128) -> (r: Option<Vec<i128>>)
    requires
        wf_inputs(as_ints(values@), as_ints(targets@), investment as int),
    ensures
        r is Some <==> feasible(as_ints(values@), as_ints(targets@), investment as int),
        r matches Some(a) ==> alloc_post(
            as_ints(values@),
            as_ints(targets@),
            investment as int,
            as_ints(a@),
        ),
{
    let ghost vs = as_ints(values@);
    let ghost ts = as_ints(targets@);
    let ghost inv = investment as int;
    let ghost n = vs.len() as int;
    proof {
        assert forall|i: int| 0 <= i < values@.len() implies 0 <= #[trigger] values@[i]
            <= CONVERTED_LIMIT by {
            assert(vs[i] == values@[i] as int);
        }
    }
    let vtot = portfolio_total(values);
    let (base, urooms, orooms, ftot) = prepare(values, targets, investment, vtot);
    let ghost ur = under_rooms(vs, ts, inv);
    let ghost or = over_rooms(vs, ts, inv);
    proof {
        assert(as_ints(urooms@) =~= ur);
        assert(as_ints(orooms@) =~= or);
        assert forall|i: int| 0 <= i < n implies 0 <= #[trigger] bases(vs, ts, inv)[i] <= inv by {
            if !is_under(vs, ts, i) {
                lemma_floor_le_inv(vs, ts, inv, i);
            }
        }
        assert forall|i: int| 0 <= i < n implies 0 <= #[trigger] ur[i] by {}
        assert forall|i: int| 0 <= i < n implies 0 <= #[trigger] or[i] <= inv by {
            if !is_under(vs, ts, i) {
                lemma_floor_le_inv(vs, ts, inv, i);
            }
        }
    }
    if ftot > investment {
        return None;
    }
    let b1: i128 = investment - ftot;
    assert(b1 == first_budget(vs, ts, inv));
    let mut alloc = base;
    proof {
        assert forall|i: int| 0 <= i < n implies 0 <= #[trigger] alloc@[i] <= AMOUNT_LIMIT by {
            assert(alloc@[i] == bases(vs, ts, inv)[i]);
        }
    }
    let rem1 = fill(&mut alloc, &urooms, b1);
    assert(rem1 == second_budget(vs, ts, inv));
    proof {
        lemma_filled_bounds(ur, b1 as int, n);
        assert forall|i: int| 0 <= i < n implies 0 <= #[trigger] alloc@[i] <= AMOUNT_LIMIT by {
            assert(alloc@[i] == bases(vs, ts, inv)[i] + give(ur, b1 as int, i));
            assert(0 <= give(ur, b1 as int, i) <= ur[i]);
            if is_under(vs, ts, i) {
                assert(bases(vs, ts, inv)[i] == 0);
                assert(give(ur, b1 as int, i) <= b1);
            } else {
                assert(ur[i] == 0);
            }
        }
    }
    let rem2 = fill(&mut alloc, &orooms, rem1);
    assert(rem2 == leftover(vs, ts, inv));
    if rem2 > 0 {
        return None;
    }
    proof {
        lemma_filled_bounds(or, rem1 as int, n);
        let a = as_ints(alloc@);
        let gs1 = Seq::new(n as nat, |i: int| give(ur, b1 as int, i));
        let gs2 = Seq::new(n as nat, |i: int| give(or, rem1 as int, i));
        assert forall|i: int| 0 <= i < n implies #[trigger] a[i] == alloc_at(vs, ts, inv, i) by {
            assert(alloc@[i] == bases(vs, ts, inv)[i] + give(ur, b1 as int, i) + give(
                or,
                rem1 as int,
                i,
            ));
        }
        lemma_sum_of_gives(ur, b1 as int, gs1, n);
        lemma_sum_of_gives(or, rem1 as int, gs2, n);
        lemma_sum_split3(a, bases(vs, ts, inv), gs1, gs2, n);
        assert(sum_prefix(a, n) == inv);
        assert forall|i: int| 0 <= i < n implies 0 <= #[trigger] a[i] <= inv by {
            if is_under(vs, ts, i) {
                assert(bases(vs, ts, inv)[i] == 0);
                assert(or[i] == 0);
                assert(give(or, rem1 as int, i) == 0);
            } else {
                assert(ur[i] == 0);
                assert(give(ur, b1 as int, i) == 0);
                assert(give(or, rem1 as int, i) <= or[i]);
            }
        }
        assert forall|i: int|
            0 <= i < n && is_under(vs, ts, i) implies #[trigger] a[i] <= target_cap(
            vs,
            ts,
            inv,
            i,
        ) by {
            assert(bases(vs, ts, inv)[i] == 0);
            assert(give(or, rem1 as int, i) == 0);
            assert(give(ur, b1 as int, i) <= ur[i]);
        }
        assert forall|i: int|
            0 <= i < n && !is_under(vs, ts, i) implies #[trigger] a[i] >= target_floor(
            vs,
            ts,
            inv,
            i,
        ) by {
            assert(give(ur, b1 as int, i) == 0);
            assert(give(or, rem1 as int, i) >= 0);
        }
        if exists|i: int|
            0 <= i < n && #[trigger] is_under(vs, ts, i) && a[i] < target_cap(vs, ts, inv, i) {
            let i = choose|i: int|
                0 <= i < n && #[trigger] is_under(vs, ts, i) && a[i] < target_cap(vs, ts, inv, i);
            assert(give(or, rem1 as int, i) == 0);
            assert(give(ur, b1 as int, i) < ur[i]);
            lemma_filled_exhausts(ur, b1 as int, i);
            assert(rem1 == 0);
            lemma_filled_zero_budget(or, n);
            assert forall|j: int|
                0 <= j < n && !(#[trigger] is_under(vs, ts, j)) implies a[j] == target_floor(
                vs,
                ts,
                inv,
                j,
            ) by {
                assert(give(ur, b1 as int, j) == 0);
                assert(give(or, 0, j) == 0);
            }
        }
    }
    Some(alloc)
}

/// Greedily place `budget` into `alloc`, each slot taking at most its room,
/// in slot order.  Returns what could not be placed.
fn fill(alloc: &mut Vec<i128>, rooms: &Vec<i128>, budget: i128) -> (rem: i128)
    requires
        old(alloc)@.len() == rooms@.len(),
        0 <= budget <= AMOUNT_LIMIT,
        forall|i: int| 0 <= i < rooms@.len() ==> 0 <= #[trigger] rooms@[i],
        forall|i: int| 0 <= i < old(alloc)@.len() ==> 0 <= #[trigger] old(alloc)@[i] <= AMOUNT_LIMIT,
    ensures
        final(alloc)@.len() == old(alloc)@.len(),
        forall|i: int|
            0 <= i < final(alloc)@.len() ==> final(alloc)@[i] == old(alloc)@[i] + give(
                as_ints(rooms@),
                budget as int,
                i,
            ),
        rem == budget - filled(as_ints(rooms@), budget as int, rooms@.len() as int),
        0 <= rem <= budget,
{
    let ghost rs = as_ints(rooms@);
    let n = rooms.len();
    let mut i: usize = 0;
    let mut budget_left: i128 = budget;
    proof {
        lemma_filled_bounds(rs, budget as int, n as int);
    }
    while i < n
        invariant
            n == rooms@.len(),
            alloc@.len() == n,
            old(alloc)@.len() == n,
            rs == as_ints(rooms@),
            0 <= i <= n,
            0 <= budget <= AMOUNT_LIMIT,
            forall|j: int| 0 <= j < n ==> 0 <= #[trigger] rooms@[j],
            forall|j: int| 0 <= j < n ==> 0 <= #[trigger] old(alloc)@[j] <= AMOUNT_LIMIT,
            budget_left == budget - filled(rs, budget as int, i as int),
            0 <= budget_left <= budget,
            forall|j: int|
                0 <= j < i ==> alloc@[j] == old(alloc)@[j] + give(rs, budget as int, j),
            forall|j: int| i <= j < n ==> alloc@[j] == old(alloc)@[j],
        decreases n - i,
    {
        proof {
            lemma_filled_bounds(rs, budget as int, i as int + 1);
        }
        let room = rooms[i];
        let g: i128 = if budget_left <= room {
            budget_left
        } else {
            room
        };
        assert(g == give(rs, budget as int, i as int));
        let cur = alloc[i];
        alloc.set(i, cur + g);
        budget_left = budget_left - g;
        i = i + 1;
    }
    budget_left
}

} // verus!
