use vstd::prelude::*;

use crate::types::{InstrumentId, Price, Qty, Side};

verus! {

pub struct Config {
    pub runtime: RuntimeConfig,
    pub logging: LoggingConfig,
    pub instruments: Vec<InstrumentConfig>,
    pub execution: ExecutionConfig,
    pub simulation: SimulationConfig,
}

pub struct RuntimeConfig {
    pub mode: RuntimeMode,
}

#[derive(Debug, Clone, Copy, PartialEq, Eq, Structural)]
pub enum RuntimeMode {
    Simulation,
    Live,
}

pub struct LoggingConfig {
    pub log_level: String,
    pub csv_fill_log_path: String,
    pub report_path: String,
}

/// Parameters of the decision loop. Ratios and basis points are fixed-point
/// values scaled by `FIXED_ONE`.
#[derive(Clone, Copy)]
pub struct ExecutionConfig {
    pub execution_window_secs: u64,
    pub decision_interval_ms: u64,
    pub max_child_order_qty: Qty,
    pub min_child_order_qty: Qty,
    pub order_ttl_ms: u64,
    pub post_only_spread_bps: i128,
    pub cross_spread_aggression: i128,
    pub max_spread_bps_to_cross: i128,
}

pub struct InstrumentConfig {
    pub instrument: InstrumentId,
    pub side: Side,
    pub target_qty: Qty,
    pub decision_price_override: Option<Price>,
}

impl Clone for InstrumentConfig {
    fn clone(&self) -> (r: Self)
        ensures
            r == *self,
    {
        InstrumentConfig {
            instrument: self.instrument.clone(),
            side: self.side,
            target_qty: self.target_qty,
            decision_price_override: self.decision_price_override,
        }
    }
}

/// Parameters of the simulated venue. Volatility, probabilities, the trade
/// rate (trades per second) and the large-order multiplier are fixed-point
/// values scaled by `FIXED_ONE`; the base spread is in fixed-point basis points.
#[derive(Clone, Copy)]
pub struct SimulationConfig {
    pub enabled: bool,
    pub seed: u64,
    pub tick_interval_ms: u64,
    pub base_price: Price,
    pub price_volatility: i64,
    pub base_spread_bps: i64,
    pub depth_levels: usize,
    pub level_liquidity: Qty,
    pub trade_rate_per_sec: i64,
    pub iceberg_probability: i64,
    pub large_order_multiplier: i64,
}

} // verus!
