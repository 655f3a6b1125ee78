use vstd::prelude::*;

use crate::market_data::MarketDataState;
use crate::types::Qty;

verus! {

/// Book levels per side that the imbalance signal looks at.
pub const IMBALANCE_LEVELS: usize = 5;

/// Size from which a trade counts as large (5 units).
pub const LARGE_TRADE_QTY: Qty = 50_000;

/// A resting level is large at this multiple (2.5) of the average level size.
pub const LARGE_ORDER_MULTIPLIER: i128 = 250_000_000;

/// Trades at one price that reveal an iceberg order.
pub const ICEBERG_MIN_TRADES: usize = 5;

/// Largest trade (0.5 units) that counts towards an iceberg.
pub const ICEBERG_MAX_TRADE_QTY: Qty = 5_000;

/// Trade-flow imbalance (0.4) beyond which flow may be toxic.
pub const TOXIC_FLOW_IMBALANCE: i128 = 40_000_000;

/// Spread (8 bps) beyond which one-sided flow is toxic.
pub const TOXIC_SPREAD_BPS: i128 = 800_000_000;

/// Microstructure signals of one instrument; ratios and basis points are
/// fixed-point values scaled by `FIXED_ONE`.
#[derive(Clone, Copy)]
pub struct Signals {
    pub imbalance: i128,
    pub trade_flow_imbalance: i128,
    pub momentum: i128,
    pub mean_reversion: i128,
    pub spread_bps: i128,
    pub large_resting_order: bool,
    pub iceberg_detected: bool,
    pub toxic_flow: bool,
}

/// The value of an optional signal, zero when it is absent.
pub open spec fn or_zero(o: Option<int>) -> int {
    match o {
        Some(x) => x,
        None => 0,
    }
}

fn unwrap_or_zero(o: Option<i128>) -> (r: i128)
    ensures
        r == match o {
            Some(x) => x,
            None => 0i128,
        },
{
    match o {
        Some(x) => x,
        None => 0,
    }
}

impl Signals {
    /// Whether flow is toxic: trade-flow imbalance beyond 0.4 in either
    /// direction while the spread is wider than 8 bps.
    pub open spec fn spec_toxic(trade_flow_imbalance: int, spread_bps: int) -> bool {
        (trade_flow_imbalance > TOXIC_FLOW_IMBALANCE || trade_flow_imbalance
            < -TOXIC_FLOW_IMBALANCE) && spread_bps > TOXIC_SPREAD_BPS
    }

    /// The signals of a market-data state.
    pub open spec fn describes(self, state: MarketDataState) -> bool {
        &&& self.imbalance == or_zero(
                MarketDataState::spec_imbalance(state.book, IMBALANCE_LEVELS as int),
            )
        &&& self.trade_flow_imbalance == or_zero(
                MarketDataState::spec_trade_flow_imbalance(state.trades@),
            )
        &&& self.momentum == or_zero(MarketDataState::spec_momentum(state.trades@))
        &&& self.mean_reversion == or_zero(
                MarketDataState::spec_mean_reversion(state.trades@, LARGE_TRADE_QTY),
            )
        &&& self.spread_bps == or_zero(MarketDataState::spec_spread_bps(state.book))
        &&& self.large_resting_order == (crate::market_data::side_has_large(
                state.book.bids@,
                LARGE_ORDER_MULTIPLIER as int,
            ) || crate::market_data::side_has_large(
                state.book.asks@,
                LARGE_ORDER_MULTIPLIER as int,
            ))
        &&& self.iceberg_detected == MarketDataState::spec_iceberg(
                state.trades@,
                ICEBERG_MIN_TRADES as int,
                ICEBERG_MAX_TRADE_QTY,
            )
        &&& self.toxic_flow == Self::spec_toxic(self.trade_flow_imbalance as int, self.spread_bps as int)
    }

    pub fn from_market_data(state: &MarketDataState) -> (r: Self)
        ensures
            r.describes(*state),
    {
        let imbalance = unwrap_or_zero(state.imbalance(IMBALANCE_LEVELS));
        let trade_flow_imbalance = unwrap_or_zero(state.trade_flow_imbalance());
        let momentum = unwrap_or_zero(state.short_term_momentum());
        let mean_reversion = unwrap_or_zero(state.mean_reversion_after_large_trade(LARGE_TRADE_QTY));
        let spread_bps = unwrap_or_zero(state.spread_bps());
        let large_resting_order = state.has_large_resting_order(LARGE_ORDER_MULTIPLIER);
        let iceberg_detected = state.detect_iceberg(ICEBERG_MIN_TRADES, ICEBERG_MAX_TRADE_QTY);
        let toxic_flow = (trade_flow_imbalance > TOXIC_FLOW_IMBALANCE || trade_flow_imbalance
            < -TOXIC_FLOW_IMBALANCE) && spread_bps > TOXIC_SPREAD_BPS;
        Signals {
            imbalance,
            trade_flow_imbalance,
            momentum,
            mean_reversion,
            spread_bps,
            large_resting_order,
            iceberg_detected,
            toxic_flow,
        }
    }
}

} // verus!
