use hft_execution::fill_analytics::{self, DecisionInfo};
use hft_execution::fixed::FIXED_ONE;
use hft_execution::performance::{compute_is_bps, compute_vwap_bps, PerformanceTracker};
use hft_execution::types::{Fill, InstrumentId, InstrumentType, MakerTaker, Side, Trade};

fn inst(symbol: &str, t: InstrumentType) -> InstrumentId {
    InstrumentId { symbol: symbol.to_string(), instrument_type: t }
}

fn fill(i: &InstrumentId, order_id: u128, side: Side, price: u32, qty: u32, mt: MakerTaker, ts: i64, mid: u32) -> Fill {
    Fill { order_id, instrument: i.clone(), side, price, qty, ts, maker_taker: mt, mid_price: mid }
}

fn trade(i: &InstrumentId, price: u32, qty: u32) -> Trade {
    Trade { instrument: i.clone(), price, qty, side: Side::Buy, ts: 0 }
}

#[test]
fn reports_execution_quality() {
    let a = inst("A", InstrumentType::Spot);
    let mut t = PerformanceTracker::new();
    t.register_instrument(a.clone(), Side::Buy, 40, 100);
    t.record_fill(&fill(&a, 1, Side::Buy, 101, 10, MakerTaker::Maker, 0, 100));
    t.record_fill(&fill(&a, 2, Side::Buy, 103, 10, MakerTaker::Taker, 0, 100));
    t.record_trade(&trade(&a, 100, 30));
    t.record_trade(&trade(&inst("other", InstrumentType::Spot), 1, 1));
    let m = &t.instruments[0];
    assert_eq!(m.executed_qty, 20);
    assert_eq!(m.maker_qty + m.taker_qty, m.executed_qty);
    assert_eq!(compute_is_bps(m), 200 * FIXED_ONE);
    assert_eq!(compute_vwap_bps(m), 200 * FIXED_ONE);
    let reports = t.finalize();
    assert_eq!(reports.len(), 1);
    let r = &reports[0];
    assert_eq!(r.avg_execution_price, 102 * FIXED_ONE);
    assert_eq!(r.implementation_shortfall_bps, 200 * FIXED_ONE);
    assert_eq!(r.fill_rate, FIXED_ONE / 2);
    assert_eq!(r.maker_ratio, FIXED_ONE / 2);
    assert_eq!(r.taker_ratio, FIXED_ONE / 2);
    assert_eq!(r.adverse_1s_bps, 0);
}

#[test]
fn a_seller_paid_less_has_positive_shortfall() {
    let a = inst("A", InstrumentType::Perp);
    let mut t = PerformanceTracker::new();
    t.register_instrument(a.clone(), Side::Sell, 10, 100);
    t.record_fill(&fill(&a, 1, Side::Sell, 99, 10, MakerTaker::Taker, 0, 100));
    let r = &t.finalize()[0];
    assert_eq!(r.implementation_shortfall_bps, 100 * FIXED_ONE);
    assert_eq!(r.vwap_bps, 0);
    assert_eq!(r.fill_rate, FIXED_ONE);
}

#[test]
fn maker_and_taker_shares_add_up_to_one() {
    let a = inst("A", InstrumentType::Spot);
    let mut t = PerformanceTracker::new();
    t.register_instrument(a.clone(), Side::Buy, 0, 0);
    t.record_fill(&fill(&a, 1, Side::Buy, 10, 1, MakerTaker::Maker, 0, 10));
    t.record_fill(&fill(&a, 2, Side::Buy, 10, 2, MakerTaker::Taker, 0, 10));
    let r = &t.finalize()[0];
    assert_eq!(r.maker_ratio, 33_333_333);
    assert_eq!(r.taker_ratio, 66_666_666);
    assert_eq!(r.maker_ratio + r.taker_ratio, FIXED_ONE - 1);
    // no decision price, no target: both figures are zero
    assert_eq!(r.implementation_shortfall_bps, 0);
    assert_eq!(r.fill_rate, 0);
}

#[test]
fn adverse_selection_measured_at_each_horizon_once() {
    let a = inst("A", InstrumentType::Spot);
    let mut t = PerformanceTracker::new();
    t.register_instrument(a.clone(), Side::Buy, 10, 100);
    t.record_fill(&fill(&a, 1, Side::Buy, 100, 5, MakerTaker::Maker, 1_000, 100));
    t.update_mid_price(&a, 101, 1_500);
    assert_eq!(t.instruments[0].adverse_count, [0, 0, 0]);
    t.update_mid_price(&a, 101, 2_000);
    assert_eq!(t.instruments[0].adverse_count, [1, 0, 0]);
    t.update_mid_price(&a, 102, 2_500);
    assert_eq!(t.instruments[0].adverse_count, [1, 0, 0]);
    t.update_mid_price(&a, 98, 40_000);
    assert_eq!(t.instruments[0].adverse_count, [1, 1, 1]);
    assert!(t.instruments[0].adverse_pending.is_empty());
    let r = &t.finalize()[0];
    assert_eq!(r.adverse_1s_bps, 100 * FIXED_ONE);
    assert_eq!(r.adverse_5s_bps, -200 * FIXED_ONE);
    assert_eq!(r.adverse_30s_bps, -200 * FIXED_ONE);
}

#[test]
fn registering_again_restarts_the_metrics() {
    let a = inst("A", InstrumentType::Spot);
    let mut t = PerformanceTracker::new();
    t.register_instrument(a.clone(), Side::Buy, 10, 100);
    t.record_fill(&fill(&a, 1, Side::Buy, 100, 5, MakerTaker::Maker, 0, 100));
    t.register_instrument(a.clone(), Side::Sell, 20, 90);
    assert_eq!(t.instruments.len(), 1);
    assert_eq!(t.instruments[0].executed_qty, 0);
    assert_eq!(t.instruments[0].decision_price, 90);
}

#[test]
fn fills_of_unknown_instruments_are_ignored() {
    let mut t = PerformanceTracker::new();
    t.record_fill(&fill(&inst("A", InstrumentType::Spot), 1, Side::Buy, 100, 5, MakerTaker::Maker, 0, 100));
    assert!(t.finalize().is_empty());
}

#[test]
fn analytics_group_by_instrument_type() {
    let a = inst("A", InstrumentType::Spot);
    let b = inst("B", InstrumentType::Perp);
    let c = inst("C", InstrumentType::Spot);
    let mut t = fill_analytics::PerformanceTracker::new();
    t.record_decision(a.clone(), DecisionInfo { decision_price: 100, side: Side::Buy, target_qty: 10 });
    t.record_decision(b.clone(), DecisionInfo { decision_price: 200, side: Side::Sell, target_qty: 10 });
    t.record_decision(c.clone(), DecisionInfo { decision_price: 50, side: Side::Buy, target_qty: 30 });
    t.on_fill(fill(&a, 1, Side::Buy, 101, 10, MakerTaker::Maker, 0, 100));
    t.on_fill(fill(&c, 2, Side::Buy, 51, 10, MakerTaker::Taker, 0, 50));
    t.on_fill(fill(&b, 3, Side::Sell, 198, 4, MakerTaker::Taker, 0, 200));
    t.on_trade(trade(&a, 100, 10));
    t.on_trade(trade(&c, 50, 10));
    let metrics = t.metrics_by_instrument_type();
    assert_eq!(metrics.len(), 2);
    let spot = &metrics[0];
    assert_eq!(spot.instrument_type, InstrumentType::Spot);
    // returns of 1% and 2% weighted equally
    assert_eq!(spot.implementation_shortfall_bps, 150 * FIXED_ONE);
    assert_eq!(spot.fill_rate, FIXED_ONE / 2);
    assert_eq!(spot.maker_ratio, FIXED_ONE / 2);
    // our VWAP 76 against the market's 75
    assert_eq!(spot.vwap_outperformance_bps, 13_333_333_333);
    let perp = &metrics[1];
    assert_eq!(perp.instrument_type, InstrumentType::Perp);
    assert_eq!(perp.implementation_shortfall_bps, 100 * FIXED_ONE);
    assert_eq!(perp.vwap_outperformance_bps, 0);
    assert_eq!(perp.maker_ratio, 0);
}

#[test]
fn analytics_adverse_samples_complete_at_thirty_seconds() {
    let a = inst("A", InstrumentType::Option);
    let mut t = fill_analytics::PerformanceTracker::new();
    t.record_decision(a.clone(), DecisionInfo { decision_price: 100, side: Side::Buy, target_qty: 10 });
    t.on_fill(fill(&a, 9, Side::Buy, 100, 10, MakerTaker::Maker, 0, 100));
    t.on_mid_price(1_000, 101);
    assert_eq!(t.pending_adverse[0].one_sec, Some(100 * FIXED_ONE));
    assert!(t.adverse_samples.is_empty());
    t.on_mid_price(30_000, 99);
    assert!(t.pending_adverse.is_empty());
    assert_eq!(t.adverse_samples.len(), 1);
    let m = &t.metrics_by_instrument_type()[0];
    assert_eq!(m.adverse_selection_1s, 100 * FIXED_ONE);
    assert_eq!(m.adverse_selection_5s, -100 * FIXED_ONE);
    assert_eq!(m.adverse_selection_30s, -100 * FIXED_ONE);
}

#[test]
fn analytics_adverse_moves_are_measured_from_the_mid_at_the_fill() {
    let a = inst("A", InstrumentType::Spot);
    let mut t = fill_analytics::PerformanceTracker::new();
    t.record_decision(a.clone(), DecisionInfo { decision_price: 10_000, side: Side::Buy, target_qty: 10 });
    // a buy filled at 1.0 while the mid was 2.0; two seconds later the mid is 4.0
    t.on_fill(fill(&a, 1, Side::Buy, 10_000, 10, MakerTaker::Taker, 0, 20_000));
    t.on_mid_price(2_000, 40_000);
    assert_eq!(t.pending_adverse[0].one_sec, Some(10_000 * FIXED_ONE));
    assert_eq!(t.pending_adverse[0].five_sec, None);
}
