use vstd::prelude::*;

use crate::config::ExecutionConfig;
use crate::fixed::{fixed_ratio, ratio_fixed, FIXED_ONE};
use crate::market_data::MarketDataState;
use crate::signals::Signals;
use crate::types::{
    BookLevel, InstrumentId, Millis, Order, OrderAction, OrderId, OrderRequest, OrderType, Qty,
    Side,
};

verus! {

pub struct DecisionContext {
    pub remaining_qty: Qty,
    pub open_orders: Vec<Order>,
    pub start_time: Millis,
    pub now: Millis,
    pub window_secs: u64,
}

/// Whole seconds elapsed from `start` to `now`, never negative.
pub open spec fn elapsed_secs(start: Millis, now: Millis) -> int {
    if now - start > 0 {
        (now - start) / 1000
    } else {
        0
    }
}

/// Fraction of the execution window that has elapsed (fixed-point); a
/// window of zero seconds counts as fully elapsed.
pub open spec fn spec_urgency(start: Millis, now: Millis, window_secs: u64) -> int {
    if window_secs > 0 {
        fixed_ratio(elapsed_secs(start, now), window_secs as int)
    } else {
        FIXED_ONE as int
    }
}

/// Lots requested but not yet filled over all open orders.
pub open spec fn open_total(orders: Seq<Order>) -> int
    decreases orders.len(),
{
    if orders.len() == 0 {
        0
    } else {
        open_total(orders.drop_last()) + orders.last().spec_open_qty()
    }
}

/// Identifiers of a list of orders, in order.
pub open spec fn order_ids(orders: Seq<Order>) -> Seq<OrderId> {
    orders.map_values(|o: Order| o.id)
}

/// Child order size: the remaining quantity, capped at the largest child,
/// raised to the smallest child, then capped at a quarter (rounded down) of
/// the liquidity at the top of the book when there is any.
pub open spec fn spec_child_qty(
    config: ExecutionConfig,
    remaining: Qty,
    bid: BookLevel,
    ask: BookLevel,
) -> Qty {
    let capped = if remaining < config.max_child_order_qty {
        remaining
    } else {
        config.max_child_order_qty
    };
    let raised = if capped > config.min_child_order_qty {
        capped
    } else {
        config.min_child_order_qty
    };
    let top = bid.size + ask.size;
    if top > 0 && (top / 4) < raised {
        (top / 4) as Qty
    } else {
        raised
    }
}

pub proof fn lemma_open_total_bound(orders: Seq<Order>)
    ensures
        -(orders.len() * (u32::MAX as int)) <= open_total(orders) <= orders.len() * (
        u32::MAX as int),
    decreases orders.len(),
{
    if orders.len() > 0 {
        lemma_open_total_bound(orders.drop_last());
    }
}

pub struct DecisionEngine {
    pub config: ExecutionConfig,
}

impl DecisionEngine {
    pub fn new(config: ExecutionConfig) -> (r: Self)
        ensures
            r.config == config,
    {
        DecisionEngine { config }
    }

    /// Whether the market moves against us: for a buyer, rising prices with
    /// buying flow; for a seller, falling prices with selling flow.
    pub open spec fn spec_momentum_against(signals: Signals, side: Side) -> bool {
        match side {
            Side::Buy => signals.momentum > 0 && signals.trade_flow_imbalance > 0,
            Side::Sell => signals.momentum < 0 && signals.trade_flow_imbalance < 0,
        }
    }

    /// Whether to take liquidity: the window is late enough, the market moves
    /// against us, or an iceberg sits in the book.
    pub open spec fn spec_should_cross(&self, signals: Signals, urgency: int, side: Side) -> bool {
        urgency >= self.config.cross_spread_aggression || Self::spec_momentum_against(
            signals,
            side,
        ) || signals.iceberg_detected
    }

    /// The child order sent when the decision is to trade.
    pub open spec fn spec_child_order(
        &self,
        instrument: InstrumentId,
        signals: Signals,
        ctx: DecisionContext,
        side: Side,
        bid: BookLevel,
        ask: BookLevel,
    ) -> OrderRequest {
        let urgency = spec_urgency(ctx.start_time, ctx.now, ctx.window_secs);
        let should_cross = self.spec_should_cross(signals, urgency, side);
        let can_cross = signals.spread_bps <= self.config.max_spread_bps_to_cross;
        let post_only = !should_cross && signals.spread_bps > self.config.post_only_spread_bps
            && !signals.iceberg_detected;
        let price = if should_cross && can_cross {
            match side {
                Side::Buy => ask.price,
                Side::Sell => bid.price,
            }
        } else {
            match side {
                Side::Buy => bid.price,
                Side::Sell => ask.price,
            }
        };
        OrderRequest {
            instrument,
            side,
            qty: spec_child_qty(self.config, ctx.remaining_qty, bid, ask),
            price: Some(price),
            order_type: OrderType::Limit,
            post_only,
        }
    }

    /// Whether every open order is to be cancelled and nothing placed: the
    /// target is done, or flow is toxic early in the window.
    pub open spec fn spec_withdraws(&self, signals: Signals, ctx: DecisionContext) -> bool {
        ctx.remaining_qty == 0 || (signals.toxic_flow && spec_urgency(
            ctx.start_time,
            ctx.now,
            ctx.window_secs,
        ) < self.config.cross_spread_aggression)
    }

    /// Whether to wait: open orders already cover nine tenths of what
    /// remains, or a side of the book is empty.
    pub open spec fn spec_waits(state: MarketDataState, ctx: DecisionContext) -> bool {
        10 * open_total(ctx.open_orders@) >= 9 * ctx.remaining_qty || state.book.bids@.len() == 0
            || state.book.asks@.len() == 0
    }

    /// The action that a decision yields: withdraw everything, wait, or send
    /// one child order.
    pub open spec fn action_follows(
        &self,
        state: MarketDataState,
        signals: Signals,
        ctx: DecisionContext,
        side: Side,
        r: OrderAction,
    ) -> bool {
        &&& self.spec_withdraws(signals, ctx) ==> r.new_order is None && r.cancel_ids@
            == order_ids(ctx.open_orders@)
        &&& !self.spec_withdraws(signals, ctx) && Self::spec_waits(state, ctx) ==> r.new_order is None
            && r.cancel_ids@ == Seq::<OrderId>::empty()
        &&& !self.spec_withdraws(signals, ctx) && !Self::spec_waits(state, ctx) ==> r.cancel_ids@
            == Seq::<OrderId>::empty() && r.new_order == Some(
            self.spec_child_order(
                state.instrument,
                signals,
                ctx,
                side,
                state.book.bids@[0],
                state.book.asks@[0],
            ),
        )
    }

    pub fn decide(
        &self,
        state: &MarketDataState,
        signals: &Signals,
        ctx: &DecisionContext,
        side: Side,
    ) -> (r: OrderAction)
        ensures
            self.action_follows(*state, *signals, *ctx, side, r),
    {
        let remaining = ctx.remaining_qty;
        let diff: i128 = ctx.now as i128 - ctx.start_time as i128;
        let elapsed: i128 = if diff > 0 {
            diff / 1000
        } else {
            0
        };
        let urgency: i128 = if ctx.window_secs > 0 {
            ratio_fixed(elapsed, ctx.window_secs as i128)
        } else {
            FIXED_ONE
        };
        assert(urgency == spec_urgency(ctx.start_time, ctx.now, ctx.window_secs));
        if remaining == 0 || (signals.toxic_flow && urgency < self.config.cross_spread_aggression) {
            let mut cancel_ids: Vec<OrderId> = Vec::new();
            let mut i: usize = 0;
            while i < ctx.open_orders.len()
                invariant
                    i <= ctx.open_orders@.len(),
                    cancel_ids@ == order_ids(ctx.open_orders@.take(i as int)),
                decreases ctx.open_orders@.len() - i,
            {
                cancel_ids.push(ctx.open_orders[i].id);
                i = i + 1;
                assert(order_ids(ctx.open_orders@.take(i as int)) =~= cancel_ids@);
            }
            assert(ctx.open_orders@.take(i as int) =~= ctx.open_orders@);
            return OrderAction { new_order: None, cancel_ids };
        }
        let cancel_ids: Vec<OrderId> = Vec::new();
        let mut open_qty: i128 = 0;
        let mut i: usize = 0;
        while i < ctx.open_orders.len()
            invariant
                i <= ctx.open_orders@.len(),
                open_qty == open_total(ctx.open_orders@.take(i as int)),
                -(i * (u32::MAX as int)) <= open_qty <= i * (u32::MAX as int),
            decreases ctx.open_orders@.len() - i,
        {
            assert(ctx.open_orders@.take(i + 1).drop_last() =~= ctx.open_orders@.take(i as int));
            proof {
                assert(i * (u32::MAX as int) <= (usize::MAX as int) * (u32::MAX as int))
                    by (nonlinear_arith)
                    requires
                        0 <= i <= usize::MAX,
                ;
            }
            let o = &ctx.open_orders[i];
            open_qty = open_qty + (o.request.qty as i128 - o.filled_qty as i128);
            i = i + 1;
        }
        assert(ctx.open_orders@.take(i as int) =~= ctx.open_orders@);
        proof {
            assert(i * (u32::MAX as int) <= (usize::MAX as int) * (u32::MAX as int))
                by (nonlinear_arith)
                requires
                    0 <= i <= usize::MAX,
            ;
        }
        if open_qty * 10 >= (remaining as i128) * 9 {
            return OrderAction { new_order: None, cancel_ids };
        }
        let best_bid = state.best_bid();
        let best_ask = state.best_ask();
        let (bid, ask) = match (best_bid, best_ask) {
            (Some(b), Some(a)) => (b, a),
            _ => {
                return OrderAction { new_order: None, cancel_ids };
            },
        };
        let spread_bps = signals.spread_bps;
        let momentum_against = match side {
            Side::Buy => signals.momentum > 0 && signals.trade_flow_imbalance > 0,
            Side::Sell => signals.momentum < 0 && signals.trade_flow_imbalance < 0,
        };
        let should_cross = urgency >= self.config.cross_spread_aggression || momentum_against
            || signals.iceberg_detected;
        let can_cross = spread_bps <= self.config.max_spread_bps_to_cross;
        let post_only = !should_cross && spread_bps > self.config.post_only_spread_bps
            && !signals.iceberg_detected;
        let price = if should_cross && can_cross {
            match side {
                Side::Buy => ask.price,
                Side::Sell => bid.price,
            }
        } else {
            match side {
                Side::Buy => bid.price,
                Side::Sell => ask.price,
            }
        };
        let order_type = OrderType::Limit;
        let top_liquidity: u64 = bid.size as u64 + ask.size as u64;
        let mut child_qty: Qty = if remaining < self.config.max_child_order_qty {
            remaining
        } else {
            self.config.max_child_order_qty
        };
        if child_qty <= self.config.min_child_order_qty {
            child_qty = self.config.min_child_order_qty;
        }
        if top_liquidity > 0 && top_liquidity / 4 < child_qty as u64 {
            child_qty = (top_liquidity / 4) as Qty;
        }
        let new_order = OrderRequest {
            instrument: state.instrument.clone(),
            side,
            qty: child_qty,
            price: Some(price),
            order_type,
            post_only,
        };
        OrderAction { new_order: Some(new_order), cancel_ids }
    }
}

} // verus!
