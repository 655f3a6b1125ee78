use vstd::prelude::*;

use crate::fixed::{div_trunc, fixed_ratio, lemma_mul_within, ratio_fixed, trunc_div, BPS, FIXED_ONE};
use crate::types::{Fill, InstrumentId, MakerTaker, Millis, Price, Qty, Side, Trade};

verus! {

/// Range of the `u64` counters of fills, market trades and adverse-selection
/// samples: a counter that has reached it counts no more, and what it counts
/// is then left out of the figures. Before that every sum fits its integer.
pub const MAX_RECORDED: u64 = 0xFFFF_FFFF_FFFF_FFFF;

/// Largest magnitude of a sum of adverse-selection moves, which saturates
/// there.
pub const MAX_MOVE_SUM: i128 = 0x7FFF_FFFF_FFFF_FFFF_FFFF_FFFF_FFFF_FFFF;

/// A sum of moves held within `[-MAX_MOVE_SUM, MAX_MOVE_SUM]`.
pub open spec fn saturated(x: int) -> int {
    if x > MAX_MOVE_SUM {
        MAX_MOVE_SUM as int
    } else if x < -MAX_MOVE_SUM {
        -MAX_MOVE_SUM
    } else {
        x
    }
}

/// Horizons, in milliseconds, at which the mid-price move after a fill is
/// measured: one, five and thirty seconds.
pub open spec fn spec_horizons() -> Seq<i64> {
    seq![1000i64, 5000i64, 30000i64]
}

/// Largest magnitude of one mid-price move in fixed-point basis points.
pub open spec fn max_move() -> int {
    (u32::MAX as int) * BPS * FIXED_ONE
}

/// A fill whose adverse selection is still being measured.
pub struct PendingAdverse {
    pub ts: Millis,
    pub mid_price: Price,
    pub side: Side,
    pub horizons: [i64; 3],
    pub recorded: [bool; 3],
}

pub struct InstrumentMetrics {
    pub instrument: InstrumentId,
    pub side: Side,
    pub decision_price: Price,
    pub target_qty: Qty,
    pub executed_qty: u128,
    /// Sum of price times quantity over our fills.
    pub execution_value: u128,
    pub maker_qty: u128,
    pub taker_qty: u128,
    pub market_trade_qty: u128,
    pub market_trade_value: u128,
    pub fill_count: u64,
    pub trade_count: u64,
    pub adverse_pending: Vec<PendingAdverse>,
    /// Sums of mid-price moves (fixed-point basis points), per horizon.
    pub adverse_sum: [i128; 3],
    pub adverse_count: [u64; 3],
}

/// Performance figures of one instrument; prices and ratios are fixed-point
/// values scaled by `FIXED_ONE`.
pub struct InstrumentReport {
    pub instrument: InstrumentId,
    pub side: Side,
    pub decision_price: Price,
    /// Average fill price in ticks, fixed-point.
    pub avg_execution_price: i128,
    pub implementation_shortfall_bps: i128,
    pub vwap_bps: i128,
    pub fill_rate: i128,
    pub maker_ratio: i128,
    pub taker_ratio: i128,
    pub adverse_1s_bps: i128,
    pub adverse_5s_bps: i128,
    pub adverse_30s_bps: i128,
}

impl InstrumentMetrics {
    /// Internal consistency of the accumulated figures.
    pub open spec fn wf(&self) -> bool {
        &&& self.fill_count <= MAX_RECORDED
        &&& self.trade_count <= MAX_RECORDED
        &&& self.executed_qty == self.maker_qty + self.taker_qty
        &&& self.executed_qty <= self.fill_count * (u32::MAX as int)
        &&& self.execution_value <= self.executed_qty * (u32::MAX as int)
        &&& self.market_trade_qty <= self.trade_count * (u32::MAX as int)
        &&& self.market_trade_value <= self.market_trade_qty * (u32::MAX as int)
        &&& forall|i: int| 0 <= i < 3 ==> -MAX_MOVE_SUM <= #[trigger] self.adverse_sum@[i]
        &&& forall|i: int|
            0 <= i < 3 ==> #[trigger] self.adverse_count@[i] + unrecorded(self.adverse_pending@, i)
                <= self.fill_count
        &&& forall|k: int|
            0 <= k < self.adverse_pending@.len() ==> #[trigger] self.adverse_pending@[k].horizons@
                == spec_horizons()
    }

    /// Fixed-point average fill price (ticks), zero before any fill.
    pub open spec fn spec_avg_price(&self) -> int {
        if self.executed_qty > 0 {
            self.execution_value * FIXED_ONE / (self.executed_qty as int)
        } else {
            0
        }
    }

    /// Fixed-point volume-weighted average price of market trades.
    pub open spec fn spec_market_vwap(&self) -> int {
        if self.market_trade_qty > 0 {
            self.market_trade_value * FIXED_ONE / (self.market_trade_qty as int)
        } else {
            0
        }
    }
}

/// The side sign applied to a figure.
pub open spec fn signed(side: Side, x: int) -> int {
    side.spec_sign() * x
}

/// Implementation shortfall in fixed-point basis points: the average fill
/// price against the decision price, signed so that paying more as a buyer
/// (or receiving less as a seller) is positive; zero without fills or
/// without a decision price.
pub open spec fn spec_is_bps(m: InstrumentMetrics) -> int {
    if m.executed_qty == 0 || m.decision_price == 0 {
        0
    } else {
        signed(
            m.side,
            trunc_div(
                (m.spec_avg_price() - m.decision_price * FIXED_ONE) * BPS,
                m.decision_price as int,
            ),
        )
    }
}

/// Average fill price against the market VWAP, in signed fixed-point basis
/// points; zero without fills, without market volume or without a positive
/// market VWAP.
pub open spec fn spec_vwap_bps(m: InstrumentMetrics) -> int {
    if m.executed_qty == 0 || m.market_trade_qty == 0 || m.spec_market_vwap() <= 0 {
        0
    } else {
        signed(
            m.side,
            fixed_ratio(
                (m.spec_avg_price() - m.spec_market_vwap()) * BPS,
                m.spec_market_vwap(),
            ),
        )
    }
}

/// `numerator / denominator` as a fixed-point ratio rounded down, zero for
/// a zero denominator.
pub open spec fn spec_ratio(numerator: int, denominator: int) -> int {
    if denominator <= 0 {
        0
    } else {
        numerator * FIXED_ONE / denominator
    }
}

/// Mean adverse-selection move at horizon `idx`, zero without samples.
pub open spec fn spec_avg_adverse(m: InstrumentMetrics, idx: int) -> int {
    if m.adverse_count@[idx] == 0 {
        0
    } else {
        trunc_div(m.adverse_sum@[idx] as int, m.adverse_count@[idx] as int)
    }
}

/// The report of one instrument's metrics.
pub open spec fn spec_report(m: InstrumentMetrics) -> InstrumentReport {
    InstrumentReport {
        instrument: m.instrument,
        side: m.side,
        decision_price: m.decision_price,
        avg_execution_price: m.spec_avg_price() as i128,
        implementation_shortfall_bps: spec_is_bps(m) as i128,
        vwap_bps: spec_vwap_bps(m) as i128,
        fill_rate: spec_ratio(m.executed_qty as int, m.target_qty as int) as i128,
        maker_ratio: spec_ratio(m.maker_qty as int, m.executed_qty as int) as i128,
        taker_ratio: spec_ratio(m.taker_qty as int, m.executed_qty as int) as i128,
        adverse_1s_bps: spec_avg_adverse(m, 0) as i128,
        adverse_5s_bps: spec_avg_adverse(m, 1) as i128,
        adverse_30s_bps: spec_avg_adverse(m, 2) as i128,
    }
}

pub proof fn lemma_avg_bounded(value: int, qty: int)
    requires
        qty > 0,
        0 <= value <= qty * (u32::MAX as int),
    ensures
        0 <= value * FIXED_ONE / qty <= (u32::MAX as int) * FIXED_ONE,
{
    assert(value * FIXED_ONE <= (qty * (u32::MAX as int)) * FIXED_ONE) by (nonlinear_arith)
        requires
            0 <= value <= qty * (u32::MAX as int),
    ;
    assert((qty * (u32::MAX as int)) * FIXED_ONE == qty * ((u32::MAX as int) * FIXED_ONE))
        by (nonlinear_arith);
    vstd::arithmetic::div_mod::lemma_div_is_ordered(
        value * FIXED_ONE,
        qty * ((u32::MAX as int) * FIXED_ONE),
        qty,
    );
    vstd::arithmetic::div_mod::lemma_div_multiples_vanish((u32::MAX as int) * FIXED_ONE, qty);
    assert(0 <= value * FIXED_ONE) by (nonlinear_arith)
        requires
            0 <= value,
    ;
    vstd::arithmetic::div_mod::lemma_div_pos_is_pos(value * FIXED_ONE, qty);
}

/// Fixed-point `numerator / denominator` rounded down for quantities that
/// stay below 2^96.
fn ratio(numerator: u128, denominator: u128) -> (r: i128)
    requires
        numerator <= 0x1_0000_0000_0000_0000_0000_0000,
    ensures
        r == spec_ratio(numerator as int, denominator as int),
{
    if denominator == 0 {
        return 0;
    }
    proof {
        assert(numerator * FIXED_ONE <= 0x1_0000_0000_0000_0000_0000_0000 * FIXED_ONE)
            by (nonlinear_arith)
            requires
                numerator <= 0x1_0000_0000_0000_0000_0000_0000,
        ;
        vstd::arithmetic::div_mod::lemma_div_is_ordered(
            numerator * FIXED_ONE,
            0x1_0000_0000_0000_0000_0000_0000 * FIXED_ONE,
            denominator as int,
        );
        vstd::arithmetic::div_mod::lemma_div_is_ordered_by_denominator(
            0x1_0000_0000_0000_0000_0000_0000 * FIXED_ONE,
            1,
            denominator as int,
        );
    }
    (numerator * (FIXED_ONE as u128) / denominator) as i128
}

/// Whether horizon `idx` of a pending fill has been reached at `now` and is
/// not yet recorded.
pub open spec fn due(p: PendingAdverse, idx: int, now: Millis) -> bool {
    !p.recorded@[idx] && now - p.ts >= p.horizons@[idx]
}

/// Mid-price move since a fill, in fixed-point basis points of the mid at
/// the fill; zero when that mid was zero.
pub open spec fn spec_move(p: PendingAdverse, mid: Price) -> int {
    if p.mid_price > 0 {
        fixed_ratio((mid - p.mid_price) * BPS, p.mid_price as int)
    } else {
        0
    }
}

/// Number of pending fills whose horizon `idx` is not yet recorded.
pub open spec fn unrecorded(ps: Seq<PendingAdverse>, idx: int) -> int
    decreases ps.len(),
{
    if ps.len() == 0 {
        0
    } else {
        unrecorded(ps.drop_last(), idx) + if ps.last().recorded@[idx] {
            0int
        } else {
            1int
        }
    }
}

pub proof fn lemma_unrecorded_nonneg(ps: Seq<PendingAdverse>, idx: int)
    ensures
        unrecorded(ps, idx) >= 0,
    decreases ps.len(),
{
    if ps.len() > 0 {
        lemma_unrecorded_nonneg(ps.drop_last(), idx);
    }
}

pub proof fn lemma_unrecorded_push(ps: Seq<PendingAdverse>, p: PendingAdverse, idx: int)
    ensures
        unrecorded(ps.push(p), idx) == unrecorded(ps, idx) + if p.recorded@[idx] {
            0int
        } else {
            1int
        },
{
    assert(ps.push(p).drop_last() =~= ps);
}

/// A mid-price observation never counts more samples at a horizon than it
/// records of the pending fills.
pub proof fn lemma_absorbed_count(
    sum: int,
    count: int,
    ps: Seq<PendingAdverse>,
    mid: Price,
    now: Millis,
    idx: int,
)
    requires
        0 <= idx < 3,
    ensures
        absorbed(sum, count, ps, mid, now, idx).1 + unrecorded(settle(ps, now), idx) <= count
            + unrecorded(ps, idx),
    decreases ps.len(),
{
    if ps.len() > 0 {
        lemma_absorbed_count(sum, count, ps.drop_last(), mid, now, idx);
        let q = step_pending(ps.last(), now);
        let prev = settle(ps.drop_last(), now);
        if still_pending(q) {
            lemma_unrecorded_push(prev, q, idx);
        }
    }
}

/// A pending fill after looking at the clock: every reached horizon is
/// recorded.
pub open spec fn step_pending(p: PendingAdverse, now: Millis) -> PendingAdverse {
    PendingAdverse {
        recorded: [
            p.recorded@[0] || due(p, 0, now),
            p.recorded@[1] || due(p, 1, now),
            p.recorded@[2] || due(p, 2, now),
        ],
        ..p
    }
}

/// Whether some horizon of a pending fill is still to be recorded.
pub open spec fn still_pending(p: PendingAdverse) -> bool {
    !(p.recorded@[0] && p.recorded@[1] && p.recorded@[2])
}

/// Pending fills after looking at the clock: each is stepped, and those with
/// every horizon recorded leave.
pub open spec fn settle(ps: Seq<PendingAdverse>, now: Millis) -> Seq<PendingAdverse>
    decreases ps.len(),
{
    if ps.len() == 0 {
        Seq::empty()
    } else {
        let prev = settle(ps.drop_last(), now);
        let q = step_pending(ps.last(), now);
        if still_pending(q) {
            prev.push(q)
        } else {
            prev
        }
    }
}

/// Sum and count of adverse-selection samples at horizon `idx` after the
/// pending fills that reach it contribute their moves, in order, while the
/// count is below `MAX_RECORDED`; the sum saturates at `MAX_MOVE_SUM`.
pub open spec fn absorbed(
    sum: int,
    count: int,
    ps: Seq<PendingAdverse>,
    mid: Price,
    now: Millis,
    idx: int,
) -> (int, int)
    decreases ps.len(),
{
    if ps.len() == 0 {
        (sum, count)
    } else {
        let prev = absorbed(sum, count, ps.drop_last(), mid, now, idx);
        if due(ps.last(), idx, now) && prev.1 < MAX_RECORDED {
            (saturated(prev.0 + spec_move(ps.last(), mid)), prev.1 + 1)
        } else {
            prev
        }
    }
}

/// `new` is `old` after a mid-price observation at `now`.
pub open spec fn mid_absorbed(
    old_m: InstrumentMetrics,
    new_m: InstrumentMetrics,
    mid: Price,
    now: Millis,
) -> bool {
    &&& new_m.adverse_pending@ == settle(old_m.adverse_pending@, now)
    &&& forall|i: int|
        0 <= i < 3 ==> (#[trigger] new_m.adverse_sum@[i] as int, new_m.adverse_count@[i] as int)
            == absorbed(
            old_m.adverse_sum@[i] as int,
            old_m.adverse_count@[i] as int,
            old_m.adverse_pending@,
            mid,
            now,
            i,
        )
    &&& new_m.instrument == old_m.instrument
    &&& new_m.side == old_m.side
    &&& new_m.decision_price == old_m.decision_price
    &&& new_m.target_qty == old_m.target_qty
    &&& new_m.executed_qty == old_m.executed_qty
    &&& new_m.execution_value == old_m.execution_value
    &&& new_m.maker_qty == old_m.maker_qty
    &&& new_m.taker_qty == old_m.taker_qty
    &&& new_m.market_trade_qty == old_m.market_trade_qty
    &&& new_m.market_trade_value == old_m.market_trade_value
    &&& new_m.fill_count == old_m.fill_count
    &&& new_m.trade_count == old_m.trade_count
}

/// `new` is `old` after taking in a fill (when there is room for it).
pub open spec fn fill_absorbed(old_m: InstrumentMetrics, new_m: InstrumentMetrics, fill: Fill) -> bool {
    if old_m.fill_count < MAX_RECORDED {
        &&& new_m.executed_qty == old_m.executed_qty + fill.qty
        &&& new_m.execution_value == old_m.execution_value + fill.price * fill.qty
        &&& new_m.maker_qty == old_m.maker_qty + if fill.maker_taker == MakerTaker::Maker {
            fill.qty as int
        } else {
            0
        }
        &&& new_m.taker_qty == old_m.taker_qty + if fill.maker_taker == MakerTaker::Taker {
            fill.qty as int
        } else {
            0
        }
        &&& new_m.fill_count == old_m.fill_count + 1
        &&& new_m.adverse_pending@.len() == old_m.adverse_pending@.len() + 1
        &&& new_m.adverse_pending@.drop_last() == old_m.adverse_pending@
        &&& new_m.adverse_pending@.last().ts == fill.ts
        &&& new_m.adverse_pending@.last().mid_price == fill.mid_price
        &&& new_m.adverse_pending@.last().side == fill.side
        &&& new_m.adverse_pending@.last().horizons@ == spec_horizons()
        &&& new_m.adverse_pending@.last().recorded@ == seq![false, false, false]
        &&& new_m.instrument == old_m.instrument
        &&& new_m.side == old_m.side
        &&& new_m.decision_price == old_m.decision_price
        &&& new_m.target_qty == old_m.target_qty
        &&& new_m.market_trade_qty == old_m.market_trade_qty
        &&& new_m.market_trade_value == old_m.market_trade_value
        &&& new_m.trade_count == old_m.trade_count
        &&& new_m.adverse_sum == old_m.adverse_sum
        &&& new_m.adverse_count == old_m.adverse_count
    } else {
        new_m == old_m
    }
}

/// Index of the metrics of `instrument`, or -1.
pub open spec fn metrics_index(ms: Seq<InstrumentMetrics>, instrument: InstrumentId) -> int
    decreases ms.len(),
{
    if ms.len() == 0 {
        -1
    } else if ms[0].instrument@ == instrument@ {
        0
    } else {
        let k = metrics_index(ms.drop_first(), instrument);
        if k < 0 {
            -1
        } else {
            k + 1
        }
    }
}

pub proof fn lemma_metrics_index(ms: Seq<InstrumentMetrics>, instrument: InstrumentId)
    ensures
        -1 <= metrics_index(ms, instrument) < ms.len(),
        metrics_index(ms, instrument) >= 0 ==> ms[metrics_index(ms, instrument)].instrument@
            == instrument@,
        forall|j: int|
            0 <= j < ms.len() && (metrics_index(ms, instrument) < 0 || j < metrics_index(
                ms,
                instrument,
            )) ==> #[trigger] ms[j].instrument@ != instrument@,
    decreases ms.len(),
{
    if ms.len() > 0 && ms[0].instrument@ != instrument@ {
        lemma_metrics_index(ms.drop_first(), instrument);
        assert forall|j: int|
            0 <= j < ms.len() && (metrics_index(ms, instrument) < 0 || j < metrics_index(
                ms,
                instrument,
            )) implies #[trigger] ms[j].instrument@ != instrument@ by {
            if j > 0 {
                assert(ms[j] == ms.drop_first()[j - 1]);
            }
        }
    }
}

fn find_metrics(ms: &Vec<InstrumentMetrics>, instrument: &InstrumentId) -> (r: Option<usize>)
    ensures
        match r {
            Some(k) => k == metrics_index(ms@, *instrument),
            None => metrics_index(ms@, *instrument) == -1,
        },
{
    let mut i: usize = 0;
    while i < ms.len()
        invariant
            i <= ms@.len(),
            forall|j: int| 0 <= j < i ==> #[trigger] ms@[j].instrument@ != instrument@,
        decreases ms@.len() - i,
    {
        if ms[i].instrument.same_as(instrument) {
            proof {
                lemma_metrics_index(ms@, *instrument);
                let idx = metrics_index(ms@, *instrument);
                if 0 <= idx < i {
                    assert(ms@[idx].instrument@ != instrument@);
                }
                assert(ms@[i as int].instrument@ == instrument@);
            }
            return Some(i);
        }
        i = i + 1;
    }
    proof {
        lemma_metrics_index(ms@, *instrument);
        let idx = metrics_index(ms@, *instrument);
        if idx >= 0 {
            assert(ms@[idx].instrument@ != instrument@);
        }
    }
    None
}

proof fn lemma_trunc_div_within(a: int, b: int)
    requires
        b >= 1,
    ensures
        -(if a >= 0 { a } else { -a }) <= trunc_div(a, b) <= (if a >= 0 { a } else { -a }),
{
    if a >= 0 {
        vstd::arithmetic::div_mod::lemma_div_is_ordered_by_denominator(a, 1, b);
        vstd::arithmetic::div_mod::lemma_div_pos_is_pos(a, b);
    } else {
        vstd::arithmetic::div_mod::lemma_div_is_ordered_by_denominator(-a, 1, b);
        vstd::arithmetic::div_mod::lemma_div_pos_is_pos(-a, b);
    }
}

/// Mid-price move since a fill (see `spec_move`).
fn movement_bps(fill_mid: Price, mid: Price) -> (r: i128)
    ensures
        r == spec_move(
            PendingAdverse {
                ts: 0,
                mid_price: fill_mid,
                side: Side::Buy,
                horizons: [0, 0, 0],
                recorded: [false, false, false],
            },
            mid,
        ),
        -max_move() <= r <= max_move(),
{
    if fill_mid == 0 {
        return 0;
    }
    let diff: i128 = mid as i128 - fill_mid as i128;
    let r = ratio_fixed(diff * BPS, fill_mid as i128);
    proof {
        lemma_trunc_div_within(diff * BPS * FIXED_ONE, fill_mid as int);
        let a = diff * BPS * FIXED_ONE;
        assert(-max_move() <= a <= max_move()) by (nonlinear_arith)
            requires
                -(u32::MAX as int) <= diff <= u32::MAX,
                a == diff * BPS * FIXED_ONE,
        ;
    }
    r
}

/// One horizon of one pending fill: when due, it is recorded and, while the
/// count has room, its move is added to the (saturating) sum.
fn absorb_one(sum: i128, count: u64, recorded: bool, is_due: bool, mv: i128) -> (r: (i128, u64, bool))
    requires
        -MAX_MOVE_SUM <= sum,
        -max_move() <= mv <= max_move(),
    ensures
        r == (if is_due && count < MAX_RECORDED {
            (saturated(sum + mv) as i128, (count + 1) as u64, true)
        } else if is_due {
            (sum, count, true)
        } else {
            (sum, count, recorded)
        }),
        -MAX_MOVE_SUM <= r.0,
{
    if is_due {
        if count < MAX_RECORDED {
            let total: i128 = if mv > 0 && sum > MAX_MOVE_SUM - mv {
                MAX_MOVE_SUM
            } else if mv < 0 && sum < -MAX_MOVE_SUM - mv {
                -MAX_MOVE_SUM
            } else {
                sum + mv
            };
            (total, count + 1, true)
        } else {
            (sum, count, true)
        }
    } else {
        (sum, count, recorded)
    }
}

proof fn lemma_wf_bounds(m: InstrumentMetrics)
    requires
        m.wf(),
    ensures
        m.executed_qty <= 0x1_0000_0000_0000_0000_0000_0000,
        m.market_trade_qty <= 0x1_0000_0000_0000_0000_0000_0000,
        m.maker_qty <= m.executed_qty,
        m.taker_qty <= m.executed_qty,
        m.fill_count < MAX_RECORDED ==> (m.executed_qty + u32::MAX) * (u32::MAX as int)
            <= u128::MAX,
        m.trade_count < MAX_RECORDED ==> (m.market_trade_qty + u32::MAX) * (u32::MAX as int)
            <= u128::MAX,
{
    let w = u32::MAX as int;
    assert(m.fill_count * w <= (MAX_RECORDED as int) * w) by (nonlinear_arith)
        requires
            m.fill_count <= MAX_RECORDED,
            w >= 0,
    ;
    assert(m.trade_count * w <= (MAX_RECORDED as int) * w) by (nonlinear_arith)
        requires
            m.trade_count <= MAX_RECORDED,
            w >= 0,
    ;
    if m.fill_count < MAX_RECORDED {
        assert(m.fill_count * w + w <= (MAX_RECORDED as int) * w) by (nonlinear_arith)
            requires
                m.fill_count + 1 <= MAX_RECORDED,
                w >= 0,
        ;
        assert((m.executed_qty + w) * w <= ((MAX_RECORDED as int) * w) * w) by (nonlinear_arith)
            requires
                0 <= m.executed_qty + w <= (MAX_RECORDED as int) * w,
                w >= 0,
        ;
    }
    if m.trade_count < MAX_RECORDED {
        assert(m.trade_count * w + w <= (MAX_RECORDED as int) * w) by (nonlinear_arith)
            requires
                m.trade_count + 1 <= MAX_RECORDED,
                w >= 0,
        ;
        assert((m.market_trade_qty + w) * w <= ((MAX_RECORDED as int) * w) * w) by (nonlinear_arith)
            requires
                0 <= m.market_trade_qty + w <= (MAX_RECORDED as int) * w,
                w >= 0,
        ;
    }
}

/// Fixed-point average of `value / qty` for figures that stay within the
/// metrics' bounds.
fn average_price(value: u128, qty: u128) -> (r: i128)
    requires
        qty > 0,
        value <= qty * (u32::MAX as int),
        qty <= 0x1_0000_0000_0000_0000_0000_0000,
    ensures
        r == value * FIXED_ONE / (qty as int),
        0 <= r <= (u32::MAX as int) * FIXED_ONE,
{
    let whole: u128 = value / qty;
    let rest: u128 = value % qty;
    proof {
        lemma_avg_bounded(value as int, qty as int);
        crate::fixed::lemma_scaled_div(value as int, FIXED_ONE as int, qty as int);
        vstd::arithmetic::div_mod::lemma_div_is_ordered(value as int, qty * (u32::MAX as int), qty as int);
        vstd::arithmetic::div_mod::lemma_div_multiples_vanish(u32::MAX as int, qty as int);
        assert(qty * (u32::MAX as int) == (u32::MAX as int) * qty) by (nonlinear_arith);
        vstd::arithmetic::div_mod::lemma_mod_pos_bound(value as int, qty as int);
        assert(rest * FIXED_ONE <= 0x1_0000_0000_0000_0000_0000_0000 * FIXED_ONE) by (nonlinear_arith)
            requires
                0 <= rest < qty,
                qty <= 0x1_0000_0000_0000_0000_0000_0000,
        ;
        vstd::arithmetic::div_mod::lemma_div_pos_is_pos(rest * FIXED_ONE, qty as int);
    }
    let part: u128 = rest * (FIXED_ONE as u128) / qty;
    proof {
        assert(whole * FIXED_ONE + part == value * FIXED_ONE / (qty as int));
    }
    (whole * (FIXED_ONE as u128) + part) as i128
}

/// Implementation shortfall of one instrument (see `spec_is_bps`).
pub fn compute_is_bps(metrics: &InstrumentMetrics) -> (r: i128)
    requires
        metrics.wf(),
    ensures
        r == spec_is_bps(*metrics),
{
    if metrics.executed_qty == 0 || metrics.decision_price == 0 {
        return 0;
    }
    proof {
        lemma_wf_bounds(*metrics);
    }
    let avg = average_price(metrics.execution_value, metrics.executed_qty);
    let dp: i128 = metrics.decision_price as i128;
    let num: i128 = (avg - dp * FIXED_ONE) * BPS;
    let r = div_trunc(num, dp);
    proof {
        lemma_trunc_div_within(num as int, dp as int);
    }
    match metrics.side {
        Side::Buy => r,
        Side::Sell => -r,
    }
}

/// Comparison with the market VWAP of one instrument (see `spec_vwap_bps`).
pub fn compute_vwap_bps(metrics: &InstrumentMetrics) -> (r: i128)
    requires
        metrics.wf(),
    ensures
        r == spec_vwap_bps(*metrics),
{
    if metrics.executed_qty == 0 || metrics.market_trade_qty == 0 {
        return 0;
    }
    proof {
        lemma_wf_bounds(*metrics);
    }
    let avg = average_price(metrics.execution_value, metrics.executed_qty);
    let market_vwap = average_price(metrics.market_trade_value, metrics.market_trade_qty);
    if market_vwap <= 0 {
        return 0;
    }
    let r = ratio_fixed((avg - market_vwap) * BPS, market_vwap);
    proof {
        lemma_trunc_div_within((avg - market_vwap) * BPS * FIXED_ONE, market_vwap as int);
        lemma_mul_within(
            (avg - market_vwap) as int,
            BPS * FIXED_ONE,
            (u32::MAX as int) * FIXED_ONE,
            BPS * FIXED_ONE,
        );
    }
    match metrics.side {
        Side::Buy => r,
        Side::Sell => -r,
    }
}

/// Mean adverse-selection move at horizon `idx` (see `spec_avg_adverse`).
pub fn avg_adverse(metrics: &InstrumentMetrics, idx: usize) -> (r: i128)
    requires
        metrics.wf(),
        idx < 3,
    ensures
        r == spec_avg_adverse(*metrics, idx as int),
{
    let count = metrics.adverse_count[idx];
    if count == 0 {
        return 0;
    }
    assert(-MAX_MOVE_SUM <= metrics.adverse_sum@[idx as int]);
    div_trunc(metrics.adverse_sum[idx], count as i128)
}

/// The report of one instrument.
fn report_of(metrics: &InstrumentMetrics) -> (r: InstrumentReport)
    requires
        metrics.wf(),
    ensures
        r == spec_report(*metrics),
{
    proof {
        lemma_wf_bounds(*metrics);
    }
    let avg_execution_price: i128 = if metrics.executed_qty > 0 {
        average_price(metrics.execution_value, metrics.executed_qty)
    } else {
        0
    };
    InstrumentReport {
        instrument: metrics.instrument.clone(),
        side: metrics.side,
        decision_price: metrics.decision_price,
        avg_execution_price,
        implementation_shortfall_bps: compute_is_bps(metrics),
        vwap_bps: compute_vwap_bps(metrics),
        fill_rate: ratio(metrics.executed_qty, metrics.target_qty as u128),
        maker_ratio: ratio(metrics.maker_qty, metrics.executed_qty),
        taker_ratio: ratio(metrics.taker_qty, metrics.executed_qty),
        adverse_1s_bps: avg_adverse(metrics, 0),
        adverse_5s_bps: avg_adverse(metrics, 1),
        adverse_30s_bps: avg_adverse(metrics, 2),
    }
}

/// Execution quality bookkeeping, one entry per instrument.
pub struct PerformanceTracker {
    pub instruments: Vec<InstrumentMetrics>,
}

impl PerformanceTracker {
    /// Every entry is consistent and no two entries share an instrument.
    pub open spec fn wf(&self) -> bool {
        &&& forall|j: int| 0 <= j < self.instruments@.len() ==> #[trigger] self.instruments@[j].wf()
        &&& forall|j: int|
            0 <= j < self.instruments@.len() ==> metrics_index(
                self.instruments@,
                #[trigger] self.instruments@[j].instrument,
            ) == j
    }

    pub fn new() -> (r: Self)
        ensures
            r.wf(),
            r.instruments@.len() == 0,
    {
        PerformanceTracker { instruments: Vec::new() }
    }
}

/// `metrics_index` only looks at the instruments of the entries.
pub proof fn lemma_metrics_index_same_instruments(
    s1: Seq<InstrumentMetrics>,
    s2: Seq<InstrumentMetrics>,
    instrument: InstrumentId,
)
    requires
        s1.len() == s2.len(),
        forall|j: int| 0 <= j < s1.len() ==> #[trigger] s1[j].instrument@ == s2[j].instrument@,
    ensures
        metrics_index(s1, instrument) == metrics_index(s2, instrument),
    decreases s1.len(),
{
    if s1.len() > 0 {
        assert forall|j: int| 0 <= j < s1.drop_first().len() implies #[trigger] s1.drop_first()[j].instrument@
            == s2.drop_first()[j].instrument@ by {
            assert(s1.drop_first()[j] == s1[j + 1]);
            assert(s2.drop_first()[j] == s2[j + 1]);
        }
        lemma_metrics_index_same_instruments(s1.drop_first(), s2.drop_first(), instrument);
        assert(s1[0].instrument@ == s2[0].instrument@);
    }
}

/// `metrics_index` only looks at the view of the instrument sought.
pub proof fn lemma_metrics_index_views_equal(ms: Seq<InstrumentMetrics>, a: InstrumentId, b: InstrumentId)
    requires
        a@ == b@,
    ensures
        metrics_index(ms, a) == metrics_index(ms, b),
    decreases ms.len(),
{
    if ms.len() > 0 {
        lemma_metrics_index_views_equal(ms.drop_first(), a, b);
    }
}

/// Where an instrument is found after an entry joins the end.
pub proof fn lemma_metrics_index_push(ms: Seq<InstrumentMetrics>, x: InstrumentMetrics, instrument: InstrumentId)
    ensures
        metrics_index(ms.push(x), instrument) == if metrics_index(ms, instrument) >= 0 {
            metrics_index(ms, instrument)
        } else if x.instrument@ == instrument@ {
            ms.len() as int
        } else {
            -1
        },
    decreases ms.len(),
{
    if ms.len() > 0 {
        assert(ms.push(x).drop_first() =~= ms.drop_first().push(x));
        assert(ms.push(x)[0] == ms[0]);
        lemma_metrics_index_push(ms.drop_first(), x, instrument);
    } else {
        assert(ms.push(x).drop_first() =~= Seq::<InstrumentMetrics>::empty());
        assert(ms.push(x)[0] == x);
        assert(metrics_index(Seq::<InstrumentMetrics>::empty(), instrument) == -1);
    }
}

/// Replacing an entry by one for the same instrument keeps the tracker's
/// instruments distinct.
proof fn lemma_replace_keeps_distinct(old_ms: Seq<InstrumentMetrics>, k: int, m: InstrumentMetrics)
    requires
        0 <= k < old_ms.len(),
        m.instrument@ == old_ms[k].instrument@,
        forall|j: int| 0 <= j < old_ms.len() ==> metrics_index(old_ms, #[trigger] old_ms[j].instrument) == j,
    ensures
        forall|j: int|
            0 <= j < old_ms.len() ==> metrics_index(
                old_ms.update(k, m),
                #[trigger] old_ms.update(k, m)[j].instrument,
            ) == j,
{
    let new_ms = old_ms.update(k, m);
    assert forall|j: int| 0 <= j < old_ms.len() implies #[trigger] old_ms[j].instrument@
        == new_ms[j].instrument@ by {}
    assert forall|j: int| 0 <= j < old_ms.len() implies metrics_index(new_ms, #[trigger] new_ms[j].instrument) == j by {
        lemma_metrics_index_same_instruments(old_ms, new_ms, new_ms[j].instrument);
        lemma_metrics_index_views_equal(old_ms, new_ms[j].instrument, old_ms[j].instrument);
    }
}

/// Metrics of an instrument before anything is recorded.
pub open spec fn is_fresh(
    m: InstrumentMetrics,
    instrument: InstrumentId,
    side: Side,
    target_qty: Qty,
    decision_price: Price,
) -> bool {
    &&& m.instrument == instrument
    &&& m.side == side
    &&& m.decision_price == decision_price
    &&& m.target_qty == target_qty
    &&& m.executed_qty == 0
    &&& m.execution_value == 0
    &&& m.maker_qty == 0
    &&& m.taker_qty == 0
    &&& m.market_trade_qty == 0
    &&& m.market_trade_value == 0
    &&& m.fill_count == 0
    &&& m.trade_count == 0
    &&& m.adverse_pending@.len() == 0
    &&& m.adverse_sum@ == seq![0i128, 0i128, 0i128]
    &&& m.adverse_count@ == seq![0u64, 0u64, 0u64]
}

/// Metrics after a market trade, when there is room for it.
pub open spec fn with_trade(m: InstrumentMetrics, trade: Trade) -> InstrumentMetrics {
    if m.trade_count < MAX_RECORDED {
        InstrumentMetrics {
            market_trade_qty: (m.market_trade_qty + trade.qty) as u128,
            market_trade_value: (m.market_trade_value + trade.price * trade.qty) as u128,
            trade_count: (m.trade_count + 1) as u64,
            ..m
        }
    } else {
        m
    }
}

impl PerformanceTracker {
    /// `new` is `old` after `record_trade(trade)`.
    pub open spec fn took_trade(old_t: PerformanceTracker, new_t: PerformanceTracker, trade: Trade) -> bool {
        let k = metrics_index(old_t.instruments@, trade.instrument);
        if k >= 0 {
            new_t.instruments@ == old_t.instruments@.update(k, with_trade(old_t.instruments@[k], trade))
        } else {
            new_t.instruments@ == old_t.instruments@
        }
    }

    /// `new` is `old` after `record_fill(fill)`.
    pub open spec fn took_fill(old_t: PerformanceTracker, new_t: PerformanceTracker, fill: Fill) -> bool {
        let k = metrics_index(old_t.instruments@, fill.instrument);
        if k >= 0 {
            &&& new_t.instruments@.len() == old_t.instruments@.len()
            &&& fill_absorbed(old_t.instruments@[k], new_t.instruments@[k], fill)
            &&& forall|j: int|
                0 <= j < old_t.instruments@.len() && j != k
                    ==> #[trigger] new_t.instruments@[j] == old_t.instruments@[j]
        } else {
            new_t.instruments@ == old_t.instruments@
        }
    }

    /// `new` is `old` after `update_mid_price(instrument, mid, now)`.
    pub open spec fn took_mid(
        old_t: PerformanceTracker,
        new_t: PerformanceTracker,
        instrument: InstrumentId,
        mid: Price,
        now: Millis,
    ) -> bool {
        let k = metrics_index(old_t.instruments@, instrument);
        if k >= 0 {
            &&& new_t.instruments@.len() == old_t.instruments@.len()
            &&& mid_absorbed(old_t.instruments@[k], new_t.instruments@[k], mid, now)
            &&& forall|j: int|
                0 <= j < old_t.instruments@.len() && j != k
                    ==> #[trigger] new_t.instruments@[j] == old_t.instruments@[j]
        } else {
            new_t.instruments@ == old_t.instruments@
        }
    }

    /// `new` is `old` after `register_instrument(instrument, side, target_qty, decision_price)`.
    pub open spec fn took_registration(
        old_t: PerformanceTracker,
        new_t: PerformanceTracker,
        instrument: InstrumentId,
        side: Side,
        target_qty: Qty,
        decision_price: Price,
    ) -> bool {
        let k = metrics_index(old_t.instruments@, instrument);
        if k >= 0 {
            &&& new_t.instruments@.len() == old_t.instruments@.len()
            &&& is_fresh(new_t.instruments@[k], instrument, side, target_qty, decision_price)
            &&& forall|j: int|
                0 <= j < old_t.instruments@.len() && j != k
                    ==> #[trigger] new_t.instruments@[j] == old_t.instruments@[j]
        } else {
            &&& new_t.instruments@.drop_last() == old_t.instruments@
            &&& new_t.instruments@.len() == old_t.instruments@.len() + 1
            &&& is_fresh(new_t.instruments@.last(), instrument, side, target_qty, decision_price)
        }
    }
}

impl PerformanceTracker {
    /// Starts (or restarts) the metrics of an instrument.
    pub fn register_instrument(
        &mut self,
        instrument: InstrumentId,
        side: Side,
        target_qty: Qty,
        decision_price: Price,
    )
        requires
            old(self).wf(),
        ensures
            final(self).wf(),
            Self::took_registration(*old(self), *final(self), instrument, side, target_qty, decision_price),
    {
        let metrics = InstrumentMetrics {
            instrument: instrument.clone(),
            side,
            decision_price,
            target_qty,
            executed_qty: 0,
            execution_value: 0,
            maker_qty: 0,
            taker_qty: 0,
            market_trade_qty: 0,
            market_trade_value: 0,
            fill_count: 0,
            trade_count: 0,
            adverse_pending: Vec::new(),
            adverse_sum: [0, 0, 0],
            adverse_count: [0, 0, 0],
        };
        assert(metrics.wf());
        let ghost old_ms = self.instruments@;
        proof {
            lemma_metrics_index(old_ms, instrument);
        }
        match find_metrics(&self.instruments, &instrument) {
            Some(k) => {
                self.instruments.set(k, metrics);
                proof {
                    lemma_replace_keeps_distinct(old_ms, k as int, metrics);
                    assert(self.instruments@ == old_ms.update(k as int, metrics));
                }
            },
            None => {
                self.instruments.push(metrics);
                proof {
                    let new_ms = self.instruments@;
                    assert(new_ms == old_ms.push(metrics));
                    assert forall|j: int| 0 <= j < new_ms.len() implies metrics_index(new_ms, #[trigger] new_ms[j].instrument) == j by {
                        lemma_metrics_index_push(old_ms, metrics, new_ms[j].instrument);
                        if j < old_ms.len() {
                            assert(new_ms[j] == old_ms[j]);
                        } else {
                            lemma_metrics_index_views_equal(old_ms, new_ms[j].instrument, instrument);
                        }
                    }
                    assert(new_ms.drop_last() =~= old_ms);
                }
            },
        }
    }

    /// Takes in a market trade of a tracked instrument.
    pub fn record_trade(&mut self, trade: &Trade)
        requires
            old(self).wf(),
        ensures
            final(self).wf(),
            Self::took_trade(*old(self), *final(self), *trade),
    {
        let ghost old_ms = self.instruments@;
        proof {
            lemma_metrics_index(old_ms, trade.instrument);
        }
        match find_metrics(&self.instruments, &trade.instrument) {
            Some(k) => {
                let ghost m0 = old_ms[k as int];
                assert(m0.wf());
                let metrics = &mut self.instruments[k];
                if metrics.trade_count < MAX_RECORDED {
                    proof {
                        lemma_wf_bounds(m0);
                        assert(trade.price * trade.qty <= trade.qty * (u32::MAX as int)) by (nonlinear_arith)
                            requires
                                0 <= trade.price <= u32::MAX,
                                0 <= trade.qty,
                        ;
                        assert(0 <= trade.price * trade.qty) by (nonlinear_arith)
                            requires
                                0 <= trade.price,
                                0 <= trade.qty,
                        ;
                        assert((m0.market_trade_qty + trade.qty) * (u32::MAX as int) == m0.market_trade_qty
                            * (u32::MAX as int) + trade.qty * (u32::MAX as int)) by (nonlinear_arith);
                        assert((m0.trade_count + 1) * (u32::MAX as int) == m0.trade_count * (u32::MAX as int)
                            + (u32::MAX as int)) by (nonlinear_arith);
                    }
                    metrics.market_trade_qty = metrics.market_trade_qty + trade.qty as u128;
                    metrics.market_trade_value = metrics.market_trade_value + (trade.price as u128)
                        * (trade.qty as u128);
                    metrics.trade_count = metrics.trade_count + 1;
                }
                proof {
                    let new_ms = self.instruments@;
                    assert(new_ms == old_ms.update(k as int, with_trade(m0, *trade)));
                    lemma_replace_keeps_distinct(old_ms, k as int, with_trade(m0, *trade));
                    assert forall|j: int| 0 <= j < new_ms.len() implies #[trigger] new_ms[j].wf() by {
                        if j != k {
                            assert(new_ms[j] == old_ms[j]);
                        }
                    }
                }
            },
            None => {},
        }
    }
}

impl PerformanceTracker {
    /// Takes in one of our fills: volume, value, maker/taker split, and a new
    /// pending adverse-selection measurement at 1 s, 5 s and 30 s.
    pub fn record_fill(&mut self, fill: &Fill)
        requires
            old(self).wf(),
        ensures
            final(self).wf(),
            Self::took_fill(*old(self), *final(self), *fill),
    {
        let ghost old_ms = self.instruments@;
        proof {
            lemma_metrics_index(old_ms, fill.instrument);
        }
        match find_metrics(&self.instruments, &fill.instrument) {
            Some(k) => {
                let ghost m0 = old_ms[k as int];
                assert(m0.wf());
                let metrics = &mut self.instruments[k];
                if metrics.fill_count < MAX_RECORDED {
                    proof {
                        lemma_wf_bounds(m0);
                        assert(fill.price * fill.qty <= fill.qty * (u32::MAX as int)) by (nonlinear_arith)
                            requires
                                0 <= fill.price <= u32::MAX,
                                0 <= fill.qty,
                        ;
                        assert(0 <= fill.price * fill.qty) by (nonlinear_arith)
                            requires
                                0 <= fill.price,
                                0 <= fill.qty,
                        ;
                        assert((m0.executed_qty + fill.qty) * (u32::MAX as int) == m0.executed_qty
                            * (u32::MAX as int) + fill.qty * (u32::MAX as int)) by (nonlinear_arith);
                        assert((m0.fill_count + 1) * (u32::MAX as int) == m0.fill_count * (u32::MAX as int)
                            + (u32::MAX as int)) by (nonlinear_arith);
                    }
                    metrics.executed_qty = metrics.executed_qty + fill.qty as u128;
                    metrics.execution_value = metrics.execution_value + (fill.price as u128)
                        * (fill.qty as u128);
                    match fill.maker_taker {
                        MakerTaker::Maker => metrics.maker_qty = metrics.maker_qty + fill.qty as u128,
                        MakerTaker::Taker => metrics.taker_qty = metrics.taker_qty + fill.qty as u128,
                    }
                    metrics.fill_count = metrics.fill_count + 1;
                    let pending = PendingAdverse {
                        ts: fill.ts,
                        mid_price: fill.mid_price,
                        side: fill.side,
                        horizons: [1000, 5000, 30000],
                        recorded: [false, false, false],
                    };
                    let ghost p0 = metrics.adverse_pending@;
                    metrics.adverse_pending.push(pending);
                    proof {
                        assert(metrics.adverse_pending@.drop_last() =~= p0);
                        assert(pending.horizons@ =~= spec_horizons());
                        assert(pending.recorded@ =~= seq![false, false, false]);
                        assert forall|q: int| 0 <= q < metrics.adverse_pending@.len() implies #[trigger] metrics.adverse_pending@[q].horizons@
                            == spec_horizons() by {
                            if q < p0.len() {
                                assert(metrics.adverse_pending@[q] == p0[q]);
                            }
                        }
                    }
                }
                proof {
                    let new_ms = self.instruments@;
                    lemma_replace_keeps_distinct(old_ms, k as int, new_ms[k as int]);
                    assert(new_ms == old_ms.update(k as int, new_ms[k as int]));
                    assert forall|j: int| 0 <= j < new_ms.len() implies #[trigger] new_ms[j].wf() by {
                        if j != k {
                            assert(new_ms[j] == old_ms[j]);
                        }
                    }
                }
            },
            None => {},
        }
    }
}

impl PerformanceTracker {
    /// Takes in a mid-price of an instrument observed at `now`: every pending
    /// fill whose horizon has passed records the move since the fill.
    pub fn update_mid_price(&mut self, instrument: &InstrumentId, mid: Price, now: Millis)
        requires
            old(self).wf(),
        ensures
            final(self).wf(),
            Self::took_mid(*old(self), *final(self), *instrument, mid, now),
    {
        let ghost old_ms = self.instruments@;
        proof {
            lemma_metrics_index(old_ms, *instrument);
        }
        match find_metrics(&self.instruments, instrument) {
            Some(k) => {
                let ghost m0 = old_ms[k as int];
                assert(m0.wf());
                let metrics = &mut self.instruments[k];
                let ghost ps = m0.adverse_pending@;
                let mut sums: [i128; 3] = metrics.adverse_sum;
                let mut counts: [u64; 3] = metrics.adverse_count;
                let mut kept: Vec<PendingAdverse> = Vec::new();
                let n = metrics.adverse_pending.len();
                let mut j: usize = 0;
                assert(absorbed(m0.adverse_sum@[0] as int, m0.adverse_count@[0] as int, ps.take(0), mid, now, 0) == (m0.adverse_sum@[0] as int, m0.adverse_count@[0] as int));
                while j < n
                    invariant
                        *metrics == m0,
                        m0.wf(),
                        ps == m0.adverse_pending@,
                        n == ps.len(),
                        j <= n,
                        kept@ == settle(ps.take(j as int), now),
                        forall|q: int| 0 <= q < kept@.len() ==> #[trigger] kept@[q].horizons@ == spec_horizons(),
                        forall|i: int|
                            0 <= i < 3 ==> (#[trigger] sums@[i] as int, counts@[i] as int) == absorbed(
                                m0.adverse_sum@[i] as int,
                                m0.adverse_count@[i] as int,
                                ps.take(j as int),
                                mid,
                                now,
                                i,
                            ) && -MAX_MOVE_SUM <= sums@[i],
                    decreases n - j,
                {
                    let p = &metrics.adverse_pending[j];
                    let elapsed: i128 = now as i128 - p.ts as i128;
                    let mv = movement_bps(p.mid_price, mid);
                    proof {
                        assert(sums@[0] == sums@[0] && sums@[1] == sums@[1] && sums@[2] == sums@[2]);
                    }
                    let d0 = !p.recorded[0] && elapsed >= p.horizons[0] as i128;
                    let d1 = !p.recorded[1] && elapsed >= p.horizons[1] as i128;
                    let d2 = !p.recorded[2] && elapsed >= p.horizons[2] as i128;
                    let (s0, c0, r0) = absorb_one(sums[0], counts[0], p.recorded[0], d0, mv);
                    let (s1, c1, r1) = absorb_one(sums[1], counts[1], p.recorded[1], d1, mv);
                    let (s2, c2, r2) = absorb_one(sums[2], counts[2], p.recorded[2], d2, mv);
                    let ghost old_sums = sums;
                    let ghost old_counts = counts;
                    sums = [s0, s1, s2];
                    counts = [c0, c1, c2];
                    let q = PendingAdverse {
                        ts: p.ts,
                        mid_price: p.mid_price,
                        side: p.side,
                        horizons: p.horizons,
                        recorded: [r0, r1, r2],
                    };
                    let ghost kept0 = kept@;
                    proof {
                        assert(ps.take(j + 1).drop_last() =~= ps.take(j as int));
                        assert(ps.take(j + 1).last() == *p);
                        assert(q == step_pending(*p, now));
                    }
                    if !(r0 && r1 && r2) {
                        kept.push(q);
                    }
                    proof {
                        assert(kept@ == settle(ps.take(j + 1), now));
                        assert forall|qq: int| 0 <= qq < kept@.len() implies #[trigger] kept@[qq].horizons@ == spec_horizons() by {
                            if qq < kept0.len() {
                                assert(kept@[qq] == kept0[qq]);
                            }
                        }
                        assert forall|i: int| 0 <= i < 3 implies (#[trigger] sums@[i] as int, counts@[i] as int) == absorbed(
                            m0.adverse_sum@[i] as int,
                            m0.adverse_count@[i] as int,
                            ps.take(j + 1),
                            mid,
                            now,
                            i,
                        ) && -MAX_MOVE_SUM <= sums@[i] by {
                            assert(old_sums@[i] == old_sums@[i]);
                            assert(old_counts@[i] == old_counts@[i]);
                        }
                    }
                    j = j + 1;
                }
                assert(ps.take(n as int) =~= ps);
                metrics.adverse_pending = kept;
                metrics.adverse_sum = sums;
                metrics.adverse_count = counts;
                proof {
                    let new_ms = self.instruments@;
                    let m1 = new_ms[k as int];
                    assert(mid_absorbed(m0, m1, mid, now));
                    assert forall|i: int| 0 <= i < 3 implies -MAX_MOVE_SUM <= #[trigger] m1.adverse_sum@[i] by {
                        assert(sums@[i] == m1.adverse_sum@[i]);
                    }
                    assert forall|q: int| 0 <= q < m1.adverse_pending@.len() implies #[trigger] m1.adverse_pending@[q].horizons@
                        == spec_horizons() by {
                        assert(m1.adverse_pending@[q] == kept@[q]);
                    }
                    lemma_replace_keeps_distinct(old_ms, k as int, m1);
                    assert(new_ms == old_ms.update(k as int, m1));
                    assert forall|i: int| 0 <= i < 3 implies #[trigger] m1.adverse_count@[i]
                        + unrecorded(m1.adverse_pending@, i) <= m1.fill_count by {
                        lemma_absorbed_count(
                            m0.adverse_sum@[i] as int,
                            m0.adverse_count@[i] as int,
                            m0.adverse_pending@,
                            mid,
                            now,
                            i,
                        );
                        assert((m1.adverse_sum@[i] as int, m1.adverse_count@[i] as int) == absorbed(
                            m0.adverse_sum@[i] as int,
                            m0.adverse_count@[i] as int,
                            m0.adverse_pending@,
                            mid,
                            now,
                            i,
                        ));
                        assert(m0.adverse_count@[i] + unrecorded(m0.adverse_pending@, i) <= m0.fill_count);
                    }
                    assert(m1.wf());
                    assert forall|jj: int| 0 <= jj < new_ms.len() implies #[trigger] new_ms[jj].wf() by {
                        if jj != k {
                            assert(new_ms[jj] == old_ms[jj]);
                        }
                    }
                }
            },
            None => {},
        }
    }

    /// Closes the books: one report per tracked instrument, in the order the
    /// instruments were registered.
    pub fn finalize(self) -> (r: Vec<InstrumentReport>)
        requires
            self.wf(),
        ensures
            r@.len() == self.instruments@.len(),
            forall|j: int| 0 <= j < r@.len() ==> #[trigger] r@[j] == spec_report(self.instruments@[j]),
    {
        let mut reports: Vec<InstrumentReport> = Vec::new();
        let mut j: usize = 0;
        while j < self.instruments.len()
            invariant
                self.wf(),
                j <= self.instruments@.len(),
                reports@.len() == j,
                forall|q: int| 0 <= q < j ==> #[trigger] reports@[q] == spec_report(self.instruments@[q]),
            decreases self.instruments@.len() - j,
        {
            assert(self.instruments@[j as int].wf());
            reports.push(report_of(&self.instruments[j]));
            j = j + 1;
        }
        reports
    }
}

} // verus!
