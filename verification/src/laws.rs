use vstd::prelude::*;

use crate::config::{ExecutionConfig, SimulationConfig};
use crate::decision::{order_ids, spec_child_qty, spec_urgency, DecisionContext, DecisionEngine};
use crate::exchange::{
    holder_index, index_of_id, lemma_holder_index, lemma_index_of_id, levels_laid_out,
    matched_fills, matched_orders, spec_ask_price, spec_bid_price, state_index, upsert,
    SimInstrumentState, MIN_FILL_QTY, SPREAD_DENOM,
};
use crate::fill_analytics::{decided_types, lemma_totals_bounds, spec_maker_ratio, DecisionInfo};
use crate::fixed::{lemma_fixed_ratio_unit, trunc_div, FIXED_ONE};
use crate::market_data::{lemma_side_volume_bound, lemma_sum_sizes_bound, pruned, MarketDataState};
use crate::performance::{settle, still_pending, spec_ratio, InstrumentMetrics, PendingAdverse};
use crate::signals::Signals;
use crate::fill_analytics::spec_price_move_bps;
use crate::market_data::side_volume;
use crate::performance::{spec_is_bps, spec_vwap_bps};
use crate::types::Price;
use crate::types::{
    BookLevel, BookSnapshot, Fill, InstrumentId, Millis, Order, OrderAction, OrderRequest, Side,
    Trade,
};

verus! {

/// Order-book imbalance always lies between -1 (all size on the ask side)
/// and 1 (all size on the bid side).
pub proof fn law_imbalance_within_unit(book: BookSnapshot, top_levels: int)
    ensures
        MarketDataState::spec_imbalance(book, top_levels) matches Some(v) ==> -FIXED_ONE <= v
            <= FIXED_ONE,
{
    let nb = if top_levels < book.bids@.len() {
        top_levels
    } else {
        book.bids@.len() as int
    };
    let na = if top_levels < book.asks@.len() {
        top_levels
    } else {
        book.asks@.len() as int
    };
    lemma_sum_sizes_bound(book.bids@.take(nb));
    lemma_sum_sizes_bound(book.asks@.take(na));
    let b = crate::market_data::sum_sizes(book.bids@.take(nb));
    let a = crate::market_data::sum_sizes(book.asks@.take(na));
    if b + a != 0 {
        lemma_fixed_ratio_unit(b - a, b + a);
    }
}

/// Trade-flow imbalance always lies between -1 (only selling) and 1 (only
/// buying).
pub proof fn law_trade_flow_within_unit(trades: Seq<Trade>)
    ensures
        MarketDataState::spec_trade_flow_imbalance(trades) matches Some(v) ==> -FIXED_ONE <= v
            <= FIXED_ONE,
{
    lemma_side_volume_bound(trades, crate::types::Side::Buy);
    lemma_side_volume_bound(trades, crate::types::Side::Sell);
    let b = crate::market_data::side_volume(trades, crate::types::Side::Buy);
    let s = crate::market_data::side_volume(trades, crate::types::Side::Sell);
    if b + s != 0 {
        lemma_fixed_ratio_unit(b - s, b + s);
    }
}

/// Pruning keeps a suffix of the trades: everything dropped is older than
/// the cutoff, and the oldest trade kept (if any) is not.
pub proof fn law_prune_keeps_recent_suffix(trades: Seq<Trade>, cutoff: int)
    ensures
        exists|k: int|
            0 <= k <= trades.len() && #[trigger] trades.skip(k) == pruned(trades, cutoff) && (forall|j: int|
                0 <= j < k ==> #[trigger] trades[j].ts < cutoff),
        pruned(trades, cutoff).len() > 0 ==> pruned(trades, cutoff)[0].ts >= cutoff,
    decreases trades.len(),
{
    if trades.len() > 0 && trades[0].ts < cutoff {
        law_prune_keeps_recent_suffix(trades.drop_first(), cutoff);
        let k = choose|k: int|
            0 <= k <= trades.drop_first().len() && #[trigger] trades.drop_first().skip(k) == pruned(
                trades.drop_first(),
                cutoff,
            ) && (forall|j: int| 0 <= j < k ==> #[trigger] trades.drop_first()[j].ts < cutoff);
        assert(trades.skip(k + 1) =~= trades.drop_first().skip(k));
        assert forall|j: int| 0 <= j < k + 1 implies #[trigger] trades[j].ts < cutoff by {
            if j > 0 {
                assert(trades[j] == trades.drop_first()[j - 1]);
            }
        }
    } else {
        assert(trades.skip(0) =~= trades);
    }
}

/// Pruning twice with the same cutoff is pruning once.
pub proof fn law_prune_idempotent(trades: Seq<Trade>, cutoff: int)
    ensures
        pruned(pruned(trades, cutoff), cutoff) == pruned(trades, cutoff),
    decreases trades.len(),
{
    if trades.len() > 0 && trades[0].ts < cutoff {
        law_prune_idempotent(trades.drop_first(), cutoff);
    }
}

/// A post-only child order always rests at our own side of the book: the
/// best bid for a buyer, the best ask for a seller.
pub proof fn law_post_only_rests_passively(
    engine: DecisionEngine,
    instrument: InstrumentId,
    signals: Signals,
    ctx: DecisionContext,
    side: Side,
    bid: BookLevel,
    ask: BookLevel,
)
    ensures
        ({
            let o = engine.spec_child_order(instrument, signals, ctx, side, bid, ask);
            o.post_only ==> o.price == Some(
                match side {
                    Side::Buy => bid.price,
                    Side::Sell => ask.price,
                },
            )
        }),
{
}

/// Post-only orders go out only when the spread is above the configured
/// post-only threshold, and never when the decision is to cross or an
/// iceberg is in the book.
pub proof fn law_post_only_needs_wide_spread(
    engine: DecisionEngine,
    state: MarketDataState,
    signals: Signals,
    ctx: DecisionContext,
    side: Side,
    action: OrderAction,
)
    requires
        engine.action_follows(state, signals, ctx, side, action),
    ensures
        action.new_order matches Some(o) && o.post_only ==> {
            &&& signals.spread_bps > engine.config.post_only_spread_bps
            &&& !signals.iceberg_detected
            &&& !engine.spec_should_cross(
                signals,
                spec_urgency(ctx.start_time, ctx.now, ctx.window_secs),
                side,
            )
        },
{
}

/// With toxic flow early in the window (urgency below the crossing
/// threshold) a decision places nothing and cancels every open order.
pub proof fn law_toxic_flow_withdraws(
    engine: DecisionEngine,
    state: MarketDataState,
    signals: Signals,
    ctx: DecisionContext,
    side: Side,
    action: OrderAction,
)
    requires
        engine.action_follows(state, signals, ctx, side, action),
        signals.toxic_flow,
        spec_urgency(ctx.start_time, ctx.now, ctx.window_secs)
            < engine.config.cross_spread_aggression,
    ensures
        action.new_order is None,
        action.cancel_ids@ == order_ids(ctx.open_orders@),
{
}

/// Once urgency reaches the crossing threshold, any child order that is sent
/// while the spread is narrow enough to cross takes liquidity: it is priced
/// at the opposite touch and is not post-only.
pub proof fn law_urgent_orders_cross(
    engine: DecisionEngine,
    state: MarketDataState,
    signals: Signals,
    ctx: DecisionContext,
    side: Side,
    action: OrderAction,
)
    requires
        engine.action_follows(state, signals, ctx, side, action),
        spec_urgency(ctx.start_time, ctx.now, ctx.window_secs)
            >= engine.config.cross_spread_aggression,
        signals.spread_bps <= engine.config.max_spread_bps_to_cross,
    ensures
        action.new_order matches Some(o) ==> {
            &&& !o.post_only
            &&& o.price == Some(
                match side {
                    Side::Buy => state.book.asks@[0].price,
                    Side::Sell => state.book.bids@[0].price,
                },
            )
        },
{
}

/// A child order never asks for more than a quarter of the liquidity at the
/// top of the book when there is any, nor more than the larger of the child
/// size limits.
pub proof fn law_child_size_limits(config: ExecutionConfig, remaining: crate::types::Qty, bid: BookLevel, ask: BookLevel)
    ensures
        bid.size + ask.size > 0 ==> spec_child_qty(config, remaining, bid, ask) <= (bid.size + ask.size) / 4,
        spec_child_qty(config, remaining, bid, ask) <= config.max_child_order_qty || spec_child_qty(
            config,
            remaining,
            bid,
            ask,
        ) <= config.min_child_order_qty,
{
}

/// An order the venue accepted can be cancelled: some venue state holds it.
pub proof fn law_accepted_order_is_cancellable(
    before: Seq<SimInstrumentState>,
    after: Seq<SimInstrumentState>,
    request: OrderRequest,
    order: Order,
)
    requires
        state_index(before, request.instrument) >= 0,
        after.len() == before.len(),
        after[state_index(before, request.instrument)].open_orders@ == upsert(
            before[state_index(before, request.instrument)].open_orders@,
            order,
        ),
    ensures
        holder_index(after, order.id) >= 0,
{
    crate::exchange::lemma_state_index(before, request.instrument);
    let k = state_index(before, request.instrument);
    let orders = before[k].open_orders@;
    lemma_index_of_id(orders, order.id);
    let after_orders = upsert(orders, order);
    if index_of_id(orders, order.id) >= 0 {
        assert(after_orders[index_of_id(orders, order.id)].id == order.id);
        lemma_index_of_id(after_orders, order.id);
        if index_of_id(after_orders, order.id) < 0 {
            assert(after_orders[index_of_id(orders, order.id)].id != order.id);
        }
    } else {
        assert(after_orders[orders.len() as int].id == order.id);
        lemma_index_of_id(after_orders, order.id);
        if index_of_id(after_orders, order.id) < 0 {
            assert(after_orders[orders.len() as int].id != order.id);
        }
    }
    lemma_holder_index(after, order.id);
    if holder_index(after, order.id) < 0 {
        assert(index_of_id(after[k].open_orders@, order.id) < 0);
    }
}

/// Cancelling the one resting order that holds an identifier leaves no order
/// with it: a second cancellation finds nothing.
pub proof fn law_cancel_is_final(
    before: Seq<SimInstrumentState>,
    after: Seq<SimInstrumentState>,
    id: crate::types::OrderId,
)
    requires
        holder_index(before, id) >= 0,
        forall|j1: int, a: int, j2: int, b: int|
            0 <= j1 < before.len() && 0 <= j2 < before.len() && 0 <= a
                < before[j1].open_orders@.len() && 0 <= b < before[j2].open_orders@.len()
                && #[trigger] before[j1].open_orders@[a].id == id
                && #[trigger] before[j2].open_orders@[b].id == id ==> j1 == j2 && a == b,
        after.len() == before.len(),
        after[holder_index(before, id)].open_orders@ == before[holder_index(
            before,
            id,
        )].open_orders@.remove(index_of_id(before[holder_index(before, id)].open_orders@, id)),
        forall|j: int|
            0 <= j < before.len() && j != holder_index(before, id) ==> #[trigger] after[j]
                == before[j],
    ensures
        holder_index(after, id) < 0,
{
    lemma_holder_index(before, id);
    let h = holder_index(before, id);
    let os = before[h].open_orders@;
    lemma_index_of_id(os, id);
    let i0 = index_of_id(os, id);
    assert(os[i0].id == id);
    assert forall|j: int| 0 <= j < after.len() implies index_of_id(
        #[trigger] after[j].open_orders@,
        id,
    ) < 0 by {
        lemma_index_of_id(after[j].open_orders@, id);
        let x = index_of_id(after[j].open_orders@, id);
        if x >= 0 {
            if j == h {
                if x < i0 {
                    assert(after[j].open_orders@[x] == os[x]);
                    assert(before[h].open_orders@[x].id == id);
                } else {
                    assert(after[j].open_orders@[x] == os[x + 1]);
                    assert(before[h].open_orders@[x + 1].id == id);
                }
            } else {
                assert(after[j] == before[j]);
                assert(before[j].open_orders@[x].id == id);
                assert(before[h].open_orders@[i0].id == id);
            }
        }
    }
    lemma_holder_index(after, id);
}

/// A matching round never reports more fills than there are orders, never
/// keeps more orders than there were, and every fill is at least the minimum
/// fill size.
pub proof fn law_matching_round_sizes(
    orders: Seq<Order>,
    hits: Seq<bool>,
    best_bid: crate::types::Price,
    best_ask: crate::types::Price,
    now: Millis,
)
    requires
        hits.len() == orders.len(),
    ensures
        matched_fills(orders, hits, best_bid, best_ask, now).len() <= orders.len(),
        matched_orders(orders, hits, now).len() <= orders.len(),
        forall|i: int|
            0 <= i < matched_fills(orders, hits, best_bid, best_ask, now).len()
                ==> #[trigger] matched_fills(orders, hits, best_bid, best_ask, now)[i].qty
                >= MIN_FILL_QTY,
    decreases orders.len(),
{
    if orders.len() > 0 {
        law_matching_round_sizes(orders.drop_last(), hits.drop_last(), best_bid, best_ask, now);
        let prev = matched_fills(orders.drop_last(), hits.drop_last(), best_bid, best_ask, now);
        let cur = matched_fills(orders, hits, best_bid, best_ask, now);
        assert forall|i: int| 0 <= i < cur.len() implies #[trigger] cur[i].qty >= MIN_FILL_QTY by {
            if i < prev.len() {
                assert(cur[i] == prev[i]);
            }
        }
    }
}

proof fn lemma_trunc_div_monotone(a: int, b: int, d: int)
    requires
        a <= b,
        d > 0,
    ensures
        trunc_div(a, d) <= trunc_div(b, d),
{
    if a >= 0 {
        vstd::arithmetic::div_mod::lemma_div_is_ordered(a, b, d);
    } else if b < 0 {
        vstd::arithmetic::div_mod::lemma_div_is_ordered(-b, -a, d);
    } else {
        vstd::arithmetic::div_mod::lemma_div_pos_is_pos(-a, d);
        vstd::arithmetic::div_mod::lemma_div_pos_is_pos(b, d);
    }
}

/// With a non-negative spread, a simulated book is ordered: bid prices never
/// rise and ask prices never fall going down the book, and no bid level is
/// priced above any ask level.
pub proof fn law_simulated_book_is_ordered(
    bids: Seq<BookLevel>,
    asks: Seq<BookLevel>,
    mid: crate::types::Price,
    config: SimulationConfig,
)
    requires
        levels_laid_out(bids, asks, mid, config),
        config.base_spread_bps >= 0,
    ensures
        forall|i: int, j: int| 0 <= i <= j < bids.len() ==> #[trigger] bids[i].price >= #[trigger] bids[j].price,
        forall|i: int, j: int| 0 <= i <= j < asks.len() ==> #[trigger] asks[i].price <= #[trigger] asks[j].price,
        forall|i: int, j: int| 0 <= i < bids.len() && 0 <= j < asks.len() ==> #[trigger] bids[i].price <= #[trigger] asks[j].price,
{
    let bps = config.base_spread_bps as int;
    let m = mid as int;
    let d = 10 * SPREAD_DENOM;
    assert forall|i: int, j: int| 0 <= i <= j < bids.len() implies #[trigger] bids[i].price >= #[trigger] bids[j].price by {
        assert(bids[i].price == spec_bid_price(mid, config.base_spread_bps, i));
        assert(bids[j].price == spec_bid_price(mid, config.base_spread_bps, j));
        assert((5 + 2 * i) * m * bps <= (5 + 2 * j) * m * bps) by (nonlinear_arith)
            requires
                0 <= i <= j,
                m >= 0,
                bps >= 0,
        ;
        lemma_trunc_div_monotone(
            10 * m * SPREAD_DENOM - (5 + 2 * j) * m * bps,
            10 * m * SPREAD_DENOM - (5 + 2 * i) * m * bps,
            d,
        );
    }
    assert forall|i: int, j: int| 0 <= i <= j < asks.len() implies #[trigger] asks[i].price <= #[trigger] asks[j].price by {
        assert(asks[i].price == spec_ask_price(mid, config.base_spread_bps, i));
        assert(asks[j].price == spec_ask_price(mid, config.base_spread_bps, j));
        assert((5 + 2 * i) * m * bps <= (5 + 2 * j) * m * bps) by (nonlinear_arith)
            requires
                0 <= i <= j,
                m >= 0,
                bps >= 0,
        ;
        lemma_trunc_div_monotone(
            10 * m * SPREAD_DENOM + (5 + 2 * i) * m * bps,
            10 * m * SPREAD_DENOM + (5 + 2 * j) * m * bps,
            d,
        );
    }
    assert forall|i: int, j: int| 0 <= i < bids.len() && 0 <= j < asks.len() implies #[trigger] bids[i].price <= #[trigger] asks[j].price by {
        assert(bids[i].price == spec_bid_price(mid, config.base_spread_bps, i));
        assert(asks[j].price == spec_ask_price(mid, config.base_spread_bps, j));
        assert(0 <= (5 + 2 * i) * m * bps) by (nonlinear_arith)
            requires
                0 <= i,
                m >= 0,
                bps >= 0,
        ;
        assert(0 <= (5 + 2 * j) * m * bps) by (nonlinear_arith)
            requires
                0 <= j,
                m >= 0,
                bps >= 0,
        ;
        lemma_trunc_div_monotone(
            10 * m * SPREAD_DENOM - (5 + 2 * i) * m * bps,
            10 * m * SPREAD_DENOM + (5 + 2 * j) * m * bps,
            d,
        );
    }
}

proof fn lemma_div_step(a: int, b: int, d: int)
    requires
        0 <= a,
        a + d <= b,
        d > 0,
    ensures
        a / d < b / d,
{
    vstd::arithmetic::div_mod::lemma_fundamental_div_mod(a, d);
    vstd::arithmetic::div_mod::lemma_fundamental_div_mod(b, d);
    vstd::arithmetic::div_mod::lemma_mod_pos_bound(a, d);
    vstd::arithmetic::div_mod::lemma_mod_pos_bound(b, d);
    let qa = a / d;
    let qb = b / d;
    assert(qa < qb) by (nonlinear_arith)
        requires
            a == d * qa + a % d,
            b == d * qb + b % d,
            0 <= a % d < d,
            0 <= b % d < d,
            a + d <= b,
            d > 0,
    ;
}

/// When one level step of the spread is at least a tick and no level is
/// clamped (the deepest bid is not below zero, the deepest ask not above the
/// largest price), a simulated book is strictly ordered: bid prices fall and
/// ask prices rise going down the book. With a step under one tick, prices
/// in whole ticks can repeat.
pub proof fn law_simulated_book_is_strictly_ordered(
    bids: Seq<BookLevel>,
    asks: Seq<BookLevel>,
    mid: crate::types::Price,
    config: SimulationConfig,
)
    requires
        levels_laid_out(bids, asks, mid, config),
        2 * mid * config.base_spread_bps >= 10 * SPREAD_DENOM,
        10 * mid * SPREAD_DENOM - (5 + 2 * (bids.len() - 1)) * mid * config.base_spread_bps >= 0,
        trunc_div(
            10 * mid * SPREAD_DENOM + (5 + 2 * (asks.len() - 1)) * mid * config.base_spread_bps,
            10 * SPREAD_DENOM,
        ) <= u32::MAX,
    ensures
        forall|i: int, j: int| 0 <= i < j < bids.len() ==> #[trigger] bids[i].price > #[trigger] bids[j].price,
        forall|i: int, j: int| 0 <= i < j < asks.len() ==> #[trigger] asks[i].price < #[trigger] asks[j].price,
{
    let bps = config.base_spread_bps as int;
    let m = mid as int;
    let d = 10 * SPREAD_DENOM;
    let nb = bids.len() as int;
    let na = asks.len() as int;
    assert(m * bps >= 0) by (nonlinear_arith)
        requires
            2 * m * bps >= 10 * SPREAD_DENOM,
    ;
    assert forall|i: int, j: int| 0 <= i < j < bids.len() implies #[trigger] bids[i].price > #[trigger] bids[j].price by {
        assert(bids[i].price == spec_bid_price(mid, config.base_spread_bps, i));
        assert(bids[j].price == spec_bid_price(mid, config.base_spread_bps, j));
        let ni = 10 * m * SPREAD_DENOM - (5 + 2 * i) * m * bps;
        let nj = 10 * m * SPREAD_DENOM - (5 + 2 * j) * m * bps;
        let nl = 10 * m * SPREAD_DENOM - (5 + 2 * (nb - 1)) * m * bps;
        assert(nj >= nl && ni >= nj + d) by (nonlinear_arith)
            requires
                0 <= i < j <= nb - 1,
                m * bps >= 0,
                2 * m * bps >= d,
                ni == 10 * m * SPREAD_DENOM - (5 + 2 * i) * m * bps,
                nj == 10 * m * SPREAD_DENOM - (5 + 2 * j) * m * bps,
                nl == 10 * m * SPREAD_DENOM - (5 + 2 * (nb - 1)) * m * bps,
        ;
        lemma_div_step(nj, ni, d);
        vstd::arithmetic::div_mod::lemma_div_pos_is_pos(nj, d);
        assert(ni <= 10 * m * SPREAD_DENOM) by (nonlinear_arith)
            requires
                ni == 10 * m * SPREAD_DENOM - (5 + 2 * i) * m * bps,
                0 <= i,
                m * bps >= 0,
        ;
        vstd::arithmetic::div_mod::lemma_div_is_ordered(ni, 10 * m * SPREAD_DENOM, d);
        assert(10 * m * SPREAD_DENOM == d * m) by (nonlinear_arith)
            requires
                d == 10 * SPREAD_DENOM,
        ;
        vstd::arithmetic::div_mod::lemma_div_multiples_vanish(m, d);
    }
    assert forall|i: int, j: int| 0 <= i < j < asks.len() implies #[trigger] asks[i].price < #[trigger] asks[j].price by {
        assert(asks[i].price == spec_ask_price(mid, config.base_spread_bps, i));
        assert(asks[j].price == spec_ask_price(mid, config.base_spread_bps, j));
        let ni = 10 * m * SPREAD_DENOM + (5 + 2 * i) * m * bps;
        let nj = 10 * m * SPREAD_DENOM + (5 + 2 * j) * m * bps;
        let nl = 10 * m * SPREAD_DENOM + (5 + 2 * (na - 1)) * m * bps;
        assert(ni >= 0 && nj >= ni + d && nl >= nj) by (nonlinear_arith)
            requires
                0 <= i < j <= na - 1,
                m >= 0,
                m * bps >= 0,
                2 * m * bps >= d,
                ni == 10 * m * SPREAD_DENOM + (5 + 2 * i) * m * bps,
                nj == 10 * m * SPREAD_DENOM + (5 + 2 * j) * m * bps,
                nl == 10 * m * SPREAD_DENOM + (5 + 2 * (na - 1)) * m * bps,
        ;
        lemma_div_step(ni, nj, d);
        vstd::arithmetic::div_mod::lemma_div_pos_is_pos(ni, d);
        vstd::arithmetic::div_mod::lemma_div_is_ordered(nj, nl, d);
    }
}

/// Maker and taker shares of an instrument's fills add up to one, up to the
/// rounding of the two fixed-point shares.
pub proof fn law_maker_taker_shares_add_up(m: InstrumentMetrics)
    requires
        m.wf(),
        m.executed_qty > 0,
    ensures
        FIXED_ONE - 1 <= spec_ratio(m.maker_qty as int, m.executed_qty as int) + spec_ratio(
            m.taker_qty as int,
            m.executed_qty as int,
        ) <= FIXED_ONE,
{
    let n = m.executed_qty as int;
    let a = m.maker_qty as int * FIXED_ONE;
    let b = m.taker_qty as int * FIXED_ONE;
    assert(a + b == n * FIXED_ONE) by (nonlinear_arith)
        requires
            m.maker_qty + m.taker_qty == n,
            a == m.maker_qty as int * FIXED_ONE,
            b == m.taker_qty as int * FIXED_ONE,
    ;
    vstd::arithmetic::div_mod::lemma_fundamental_div_mod(a, n);
    vstd::arithmetic::div_mod::lemma_fundamental_div_mod(b, n);
    vstd::arithmetic::div_mod::lemma_mod_pos_bound(a, n);
    vstd::arithmetic::div_mod::lemma_mod_pos_bound(b, n);
    let qa = a / n;
    let qb = b / n;
    assert(n * (qa + qb) + (a % n) + (b % n) == n * FIXED_ONE) by (nonlinear_arith)
        requires
            a == n * qa + (a % n),
            b == n * qb + (b % n),
            a + b == n * FIXED_ONE,
    ;
    assert(qa + qb <= FIXED_ONE) by (nonlinear_arith)
        requires
            n * (qa + qb) + (a % n) + (b % n) == n * FIXED_ONE,
            0 <= a % n,
            0 <= b % n,
            n > 0,
    ;
    assert(qa + qb >= FIXED_ONE - 1) by (nonlinear_arith)
        requires
            n * (qa + qb) + (a % n) + (b % n) == n * FIXED_ONE,
            a % n < n,
            b % n < n,
            n > 0,
    ;
}

/// At every horizon, an instrument's metrics hold no more adverse-selection
/// samples than fills booked since its registration (`fill_count`, which
/// registration resets and each booked fill raises by one).
pub proof fn law_adverse_samples_within_fills(m: InstrumentMetrics)
    requires
        m.wf(),
    ensures
        forall|i: int| 0 <= i < 3 ==> #[trigger] m.adverse_count@[i] <= m.fill_count,
{
    assert forall|i: int| 0 <= i < 3 implies #[trigger] m.adverse_count@[i] <= m.fill_count by {
        crate::performance::lemma_unrecorded_nonneg(m.adverse_pending@, i);
    }
}

/// After a mid-price observation, every fill still pending has a horizon
/// left to record.
pub proof fn law_settled_fills_leave(ps: Seq<PendingAdverse>, now: Millis)
    ensures
        forall|k: int| 0 <= k < settle(ps, now).len() ==> still_pending(#[trigger] settle(ps, now)[k]),
        settle(ps, now).len() <= ps.len(),
    decreases ps.len(),
{
    if ps.len() > 0 {
        law_settled_fills_leave(ps.drop_last(), now);
        let prev = settle(ps.drop_last(), now);
        let cur = settle(ps, now);
        assert forall|k: int| 0 <= k < cur.len() implies still_pending(#[trigger] cur[k]) by {
            if k < prev.len() {
                assert(cur[k] == prev[k]);
            }
        }
    }
}

/// Each instrument type appears once among the figures per type.
pub proof fn law_types_listed_once(ds: Seq<(InstrumentId, DecisionInfo)>)
    ensures
        forall|i: int, j: int|
            0 <= i < j < decided_types(ds).len() ==> #[trigger] decided_types(ds)[i] != #[trigger] decided_types(ds)[j],
    decreases ds.len(),
{
    if ds.len() > 0 {
        law_types_listed_once(ds.drop_last());
        let prev = decided_types(ds.drop_last());
        let cur = decided_types(ds);
        assert forall|i: int, j: int| 0 <= i < j < cur.len() implies #[trigger] cur[i] != #[trigger] cur[j] by {
            if j < prev.len() {
                assert(cur[i] == prev[i]);
                assert(cur[j] == prev[j]);
            } else {
                assert(cur[i] == prev[i]);
                assert(!prev.contains(cur[j]));
            }
        }
    }
}

/// The maker share of fills lies between zero and one.
pub proof fn law_maker_share_within_unit(fills: Seq<Fill>)
    ensures
        0 <= spec_maker_ratio(fills) <= FIXED_ONE,
{
    lemma_totals_bounds(fills);
    let n = crate::fill_analytics::qty_total(fills);
    if n > 0 {
        let mk = crate::fill_analytics::maker_total(fills);
        lemma_fixed_ratio_unit(mk, n);
        assert(crate::fixed::fixed_ratio(mk, n) == mk * FIXED_ONE / n);
    }
}

/// The market moves against us when prices rise with buying flow for a
/// buyer, and when they fall with selling flow for a seller. Either way, with
/// a spread narrow enough to cross, a child order that is sent takes
/// liquidity: a buyer's is priced at the best ask, a seller's at the best
/// bid, and neither is post-only.
pub proof fn law_adverse_momentum_crosses(
    engine: DecisionEngine,
    state: MarketDataState,
    signals: Signals,
    ctx: DecisionContext,
    side: Side,
    action: OrderAction,
)
    requires
        engine.action_follows(state, signals, ctx, side, action),
        signals.spread_bps <= engine.config.max_spread_bps_to_cross,
        side == Side::Buy ==> signals.momentum > 0 && signals.trade_flow_imbalance > 0,
        side == Side::Sell ==> signals.momentum < 0 && signals.trade_flow_imbalance < 0,
    ensures
        action.new_order matches Some(o) ==> {
            &&& !o.post_only
            &&& o.price == Some(
                match side {
                    Side::Buy => state.book.asks@[0].price,
                    Side::Sell => state.book.bids@[0].price,
                },
            )
        },
{
}

/// Every fill of a matching round belongs to one of the orders, is on its
/// side, and is priced at that order's limit price, or at the mid of the
/// best prices for an order without one, maker and taker fills alike; it
/// takes liquidity exactly when the order reaches the opposite best price
/// (a buy at or above the ask, a sell at or below the bid, or no limit).
pub proof fn law_fills_at_limit_or_mid(
    orders: Seq<Order>,
    hits: Seq<bool>,
    bid: Price,
    ask: Price,
    now: Millis,
)
    ensures
        forall|i: int|
            #![trigger matched_fills(orders, hits, bid, ask, now)[i]]
            0 <= i < matched_fills(orders, hits, bid, ask, now).len() ==> exists|k: int|
                #![trigger orders[k]]
                0 <= k < orders.len() && orders[k].id == matched_fills(
                    orders,
                    hits,
                    bid,
                    ask,
                    now,
                )[i].order_id && orders[k].request.side == matched_fills(
                    orders,
                    hits,
                    bid,
                    ask,
                    now,
                )[i].side && matched_fills(orders, hits, bid, ask, now)[i].price == match orders[k].request.price {
                    Some(p) => p,
                    None => ((bid + ask) / 2) as Price,
                } && (matched_fills(orders, hits, bid, ask, now)[i].maker_taker
                    == crate::types::MakerTaker::Taker <==> match orders[k].request.side {
                    Side::Buy => match orders[k].request.price {
                        Some(p) => p >= ask,
                        None => true,
                    },
                    Side::Sell => match orders[k].request.price {
                        Some(p) => p <= bid,
                        None => true,
                    },
                }),
    decreases orders.len(),
{
    if orders.len() > 0 {
        let dl = orders.drop_last();
        law_fills_at_limit_or_mid(dl, hits.drop_last(), bid, ask, now);
        let prev = matched_fills(dl, hits.drop_last(), bid, ask, now);
        let f = matched_fills(orders, hits, bid, ask, now);
        assert forall|i: int| #![trigger f[i]] 0 <= i < f.len() implies exists|k: int|
            #![trigger orders[k]]
            0 <= k < orders.len() && orders[k].id == f[i].order_id && orders[k].request.side
                == f[i].side && f[i].price == match orders[k].request.price {
                Some(p) => p,
                None => ((bid + ask) / 2) as Price,
            } && (f[i].maker_taker == crate::types::MakerTaker::Taker <==> match orders[k].request.side {
                Side::Buy => match orders[k].request.price {
                    Some(p) => p >= ask,
                    None => true,
                },
                Side::Sell => match orders[k].request.price {
                    Some(p) => p <= bid,
                    None => true,
                },
            }) by {
            if i < prev.len() {
                assert(f[i] == prev[i]);
                let k = choose|k: int|
                    #![trigger dl[k]]
                    0 <= k < dl.len() && dl[k].id == prev[i].order_id && dl[k].request.side
                        == prev[i].side && prev[i].price == match dl[k].request.price {
                        Some(p) => p,
                        None => ((bid + ask) / 2) as Price,
                    } && (prev[i].maker_taker == crate::types::MakerTaker::Taker <==> match dl[k].request.side {
                        Side::Buy => match dl[k].request.price {
                            Some(p) => p >= ask,
                            None => true,
                        },
                        Side::Sell => match dl[k].request.price {
                            Some(p) => p <= bid,
                            None => true,
                        },
                    });
                assert(orders[k] == dl[k]);
            } else {
                let k = orders.len() - 1;
                assert(orders[k] == orders.last());
            }
        }
    }
}

proof fn lemma_fixed_ratio_sign(x: int, d: int)
    requires
        d > 0,
    ensures
        x >= 0 ==> crate::fixed::fixed_ratio(x, d) >= 0,
        x <= 0 ==> crate::fixed::fixed_ratio(x, d) <= 0,
{
    if x >= 0 {
        assert(x * FIXED_ONE >= 0) by (nonlinear_arith)
            requires
                x >= 0,
        ;
        vstd::arithmetic::div_mod::lemma_div_pos_is_pos(x * FIXED_ONE, d);
    } else {
        assert(-(x * FIXED_ONE) > 0) by (nonlinear_arith)
            requires
                x < 0,
        ;
        vstd::arithmetic::div_mod::lemma_div_pos_is_pos(-(x * FIXED_ONE), d);
    }
}

/// The VWAP comparison is signed by side: for the same fills and market
/// trades, a seller's figure is the negation of a buyer's; a buyer whose
/// average price is at or above the market VWAP (paying more) gets a figure
/// of at least zero, at or below it at most zero.
pub proof fn law_vwap_comparison_signed_by_side(buy: InstrumentMetrics, sell: InstrumentMetrics)
    requires
        buy.side == Side::Buy,
        sell.side == Side::Sell,
        sell.executed_qty == buy.executed_qty,
        sell.execution_value == buy.execution_value,
        sell.market_trade_qty == buy.market_trade_qty,
        sell.market_trade_value == buy.market_trade_value,
    ensures
        spec_vwap_bps(sell) == -spec_vwap_bps(buy),
        buy.spec_avg_price() >= buy.spec_market_vwap() ==> spec_vwap_bps(buy) >= 0,
        buy.spec_avg_price() <= buy.spec_market_vwap() ==> spec_vwap_bps(buy) <= 0,
{
    if buy.executed_qty > 0 && buy.market_trade_qty > 0 && buy.spec_market_vwap() > 0 {
        lemma_fixed_ratio_sign(
            (buy.spec_avg_price() - buy.spec_market_vwap()) * crate::fixed::BPS,
            buy.spec_market_vwap(),
        );
        assert((buy.spec_avg_price() - buy.spec_market_vwap() >= 0) ==> (buy.spec_avg_price()
            - buy.spec_market_vwap()) * crate::fixed::BPS >= 0) by (nonlinear_arith);
        assert((buy.spec_avg_price() - buy.spec_market_vwap() <= 0) ==> (buy.spec_avg_price()
            - buy.spec_market_vwap()) * crate::fixed::BPS <= 0) by (nonlinear_arith);
    }
}

/// Implementation shortfall is signed by side: for the same fills and
/// decision price, a seller's figure is the negation of a buyer's; a buyer
/// whose average price is at or above the decision price gets a figure of at
/// least zero, at or below it at most zero.
pub proof fn law_shortfall_signed_by_side(buy: InstrumentMetrics, sell: InstrumentMetrics)
    requires
        buy.side == Side::Buy,
        sell.side == Side::Sell,
        sell.executed_qty == buy.executed_qty,
        sell.execution_value == buy.execution_value,
        sell.decision_price == buy.decision_price,
    ensures
        spec_is_bps(sell) == -spec_is_bps(buy),
        buy.spec_avg_price() >= buy.decision_price * FIXED_ONE ==> spec_is_bps(buy) >= 0,
        buy.spec_avg_price() <= buy.decision_price * FIXED_ONE ==> spec_is_bps(buy) <= 0,
{
    if buy.executed_qty > 0 && buy.decision_price > 0 {
        let x = (buy.spec_avg_price() - buy.decision_price * FIXED_ONE) * crate::fixed::BPS;
        let d = buy.decision_price as int;
        assert((buy.spec_avg_price() - buy.decision_price * FIXED_ONE >= 0) ==> x >= 0)
            by (nonlinear_arith)
            requires
                x == (buy.spec_avg_price() - buy.decision_price * FIXED_ONE) * crate::fixed::BPS,
        ;
        assert((buy.spec_avg_price() - buy.decision_price * FIXED_ONE <= 0) ==> x <= 0)
            by (nonlinear_arith)
            requires
                x == (buy.spec_avg_price() - buy.decision_price * FIXED_ONE) * crate::fixed::BPS,
        ;
        if x >= 0 {
            vstd::arithmetic::div_mod::lemma_div_pos_is_pos(x, d);
        } else {
            vstd::arithmetic::div_mod::lemma_div_pos_is_pos(-x, d);
        }
    }
}

/// The adverse-selection move is signed by the fill's side: for the same
/// reference price and new mid, a sell fill's move is the negation of a buy
/// fill's; for a buy fill a rising mid counts at least zero and a falling mid
/// at most zero.
pub proof fn law_adverse_move_signed_by_side(from: Price, mid: Price)
    ensures
        spec_price_move_bps(from, mid, Side::Sell) == -spec_price_move_bps(from, mid, Side::Buy),
        from > 0 && mid >= from ==> spec_price_move_bps(from, mid, Side::Buy) >= 0,
        from > 0 && mid <= from ==> spec_price_move_bps(from, mid, Side::Buy) <= 0,
{
    if from > 0 {
        lemma_fixed_ratio_sign((mid - from) * crate::fixed::BPS, from as int);
        assert((mid - from >= 0) ==> (mid - from) * crate::fixed::BPS >= 0) by (nonlinear_arith);
        assert((mid - from <= 0) ==> (mid - from) * crate::fixed::BPS <= 0) by (nonlinear_arith);
    }
}

/// The other side.
pub open spec fn opposite(side: Side) -> Side {
    match side {
        Side::Buy => Side::Sell,
        Side::Sell => Side::Buy,
    }
}

/// The same trades with every side turned around.
pub open spec fn flipped(trades: Seq<Trade>) -> Seq<Trade> {
    Seq::new(trades.len(), |i: int| Trade { side: opposite(trades[i].side), ..trades[i] })
}

proof fn lemma_flipped_volume(trades: Seq<Trade>, side: Side)
    ensures
        side_volume(flipped(trades), side) == side_volume(trades, opposite(side)),
    decreases trades.len(),
{
    if trades.len() > 0 {
        lemma_flipped_volume(trades.drop_last(), side);
        assert(flipped(trades).drop_last() =~= flipped(trades.drop_last()));
    }
}

/// Toxic flow does not depend on the direction of the flow: turning every
/// recent trade around negates the trade-flow imbalance and leaves the toxic
/// flag as it was.
pub proof fn law_toxic_flow_ignores_direction(
    s1: Signals,
    s2: Signals,
    st1: MarketDataState,
    st2: MarketDataState,
)
    requires
        s1.describes(st1),
        s2.describes(st2),
        st2.book == st1.book,
        st2.trades@ == flipped(st1.trades@),
    ensures
        s2.trade_flow_imbalance == -s1.trade_flow_imbalance,
        s2.toxic_flow == s1.toxic_flow,
{
    let t = st1.trades@;
    lemma_flipped_volume(t, Side::Buy);
    lemma_flipped_volume(t, Side::Sell);
    let b = side_volume(t, Side::Buy);
    let s = side_volume(t, Side::Sell);
    if b + s != 0 {
        let a = (b - s) * FIXED_ONE;
        assert((s - b) * FIXED_ONE == -a) by (nonlinear_arith)
            requires
                a == (b - s) * FIXED_ONE,
        ;
        lemma_side_volume_bound(t, Side::Buy);
        lemma_side_volume_bound(t, Side::Sell);
        if a > 0 {
            assert(trunc_div(-a, s + b) == -(a / (b + s)));
        } else if a < 0 {
            assert(-(-a) == a);
            assert(trunc_div(-a, s + b) == (-a) / (b + s));
            assert(trunc_div(a, b + s) == -((-a) / (b + s)));
        }
        assert(trunc_div(-a, s + b) == -trunc_div(a, b + s));
    }
}

} // verus!
