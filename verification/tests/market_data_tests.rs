use std::collections::VecDeque;

use hft_execution::fixed::{div_trunc, ratio_fixed, FIXED_ONE};
use hft_execution::market_data::{mid_price, MarketDataState};
use hft_execution::signals::Signals;
use hft_execution::types::{BookLevel, BookSnapshot, InstrumentId, InstrumentType, Side, Trade};

fn instrument() -> InstrumentId {
    InstrumentId { symbol: "BTC-USD".to_string(), instrument_type: InstrumentType::Spot }
}

fn book(bids: &[(u32, u32)], asks: &[(u32, u32)]) -> BookSnapshot {
    BookSnapshot {
        instrument: instrument(),
        bids: bids.iter().map(|&(price, size)| BookLevel { price, size }).collect(),
        asks: asks.iter().map(|&(price, size)| BookLevel { price, size }).collect(),
        ts: 0,
    }
}

fn trade(price: u32, qty: u32, side: Side, ts: i64) -> Trade {
    Trade { instrument: instrument(), price, qty, side, ts }
}

fn state_with(b: BookSnapshot, trades: Vec<Trade>) -> MarketDataState {
    let mut s = MarketDataState::new(b);
    s.trades = trades.into_iter().collect::<VecDeque<_>>();
    s
}

#[test]
fn fixed_point_division_truncates_toward_zero() {
    assert_eq!(div_trunc(7, 2), 3);
    assert_eq!(div_trunc(-7, 2), -3);
    assert_eq!(ratio_fixed(1, 3), 33_333_333);
    assert_eq!(ratio_fixed(-1, 4), -25_000_000);
}

#[test]
fn side_sign() {
    assert_eq!(Side::Buy.sign(), 1);
    assert_eq!(Side::Sell.sign(), -1);
}

#[test]
fn mid_price_is_rounded_down_midpoint() {
    assert_eq!(mid_price(&book(&[(100, 1)], &[(103, 1)])), Some(101));
    assert_eq!(mid_price(&book(&[], &[(103, 1)])), None);
    assert_eq!(mid_price(&book(&[(100, 1)], &[])), None);
}

#[test]
fn new_state_takes_mid_or_zero() {
    let s = MarketDataState::new(book(&[(100, 1)], &[(102, 1)]));
    assert_eq!(s.last_mid, 101);
    assert!(s.trades.is_empty());
    let empty = MarketDataState::new(book(&[], &[]));
    assert_eq!(empty.last_mid, 0);
}

#[test]
fn update_book_keeps_last_mid_without_a_mid() {
    let mut s = MarketDataState::new(book(&[(100, 1)], &[(102, 1)]));
    s.update_book(book(&[], &[(200, 1)]));
    assert_eq!(s.last_mid, 101);
    assert_eq!(s.book.asks[0].price, 200);
    s.update_book(book(&[(200, 1)], &[(210, 1)]));
    assert_eq!(s.last_mid, 205);
}

#[test]
fn spread_in_basis_points_of_the_bid() {
    let s = MarketDataState::new(book(&[(10_000, 1)], &[(10_010, 1)]));
    // 10 ticks over 10000 ticks is 10 bps
    assert_eq!(s.spread_bps(), Some(10 * FIXED_ONE));
    let zero_bid = MarketDataState::new(book(&[(0, 1)], &[(10, 1)]));
    assert_eq!(zero_bid.spread_bps(), None);
    let one_sided = MarketDataState::new(book(&[(10, 1)], &[]));
    assert_eq!(one_sided.spread_bps(), None);
}

#[test]
fn imbalance_over_top_levels() {
    let s = MarketDataState::new(book(&[(100, 3), (99, 1)], &[(101, 1), (102, 5)]));
    // top 1: (3 - 1) / 4 = 0.5
    assert_eq!(s.imbalance(1), Some(FIXED_ONE / 2));
    // top 5: (4 - 6) / 10 = -0.2
    assert_eq!(s.imbalance(5), Some(-FIXED_ONE / 5));
    let empty = MarketDataState::new(book(&[(100, 0)], &[(101, 0)]));
    assert_eq!(empty.imbalance(5), None);
}

#[test]
fn imbalance_stays_within_unit() {
    let s = MarketDataState::new(book(&[(100, u32::MAX)], &[]));
    assert_eq!(s.imbalance(5), Some(FIXED_ONE));
    let t = MarketDataState::new(book(&[], &[(100, 7)]));
    assert_eq!(t.imbalance(5), Some(-FIXED_ONE));
}

#[test]
fn trade_flow_imbalance_of_recent_trades() {
    let s = state_with(
        book(&[(100, 1)], &[(101, 1)]),
        vec![trade(100, 3, Side::Buy, 0), trade(100, 1, Side::Sell, 0)],
    );
    assert_eq!(s.trade_flow_imbalance(), Some(FIXED_ONE / 2));
    let none = state_with(book(&[], &[]), vec![]);
    assert_eq!(none.trade_flow_imbalance(), None);
}

#[test]
fn momentum_from_first_to_last_trade() {
    let s = state_with(
        book(&[], &[]),
        vec![trade(100, 1, Side::Buy, 0), trade(90, 1, Side::Buy, 1), trade(110, 1, Side::Sell, 2)],
    );
    assert_eq!(s.short_term_momentum(), Some(FIXED_ONE / 10));
    let zero = state_with(book(&[], &[]), vec![trade(0, 1, Side::Buy, 0), trade(5, 1, Side::Buy, 1)]);
    assert_eq!(zero.short_term_momentum(), None);
}

#[test]
fn mean_reversion_after_the_last_large_trade() {
    let s = state_with(
        book(&[], &[]),
        vec![
            trade(100, 60_000, Side::Buy, 0),
            trade(200, 70_000, Side::Buy, 1),
            trade(190, 10, Side::Sell, 2),
            trade(180, 10, Side::Sell, 3),
        ],
    );
    // last large trade at 200, last trade at 180: -10%
    assert_eq!(s.mean_reversion_after_large_trade(50_000), Some(-FIXED_ONE / 10));
    assert_eq!(s.mean_reversion_after_large_trade(80_000), None);
}

#[test]
fn large_resting_order_against_average_depth() {
    let s = MarketDataState::new(book(&[(100, 10), (99, 10), (98, 60)], &[(101, 10)]));
    // bid average is 80 / 3; 60 > 2.5 * 26.67 = 66.7 is false
    assert!(!s.has_large_resting_order(250_000_000));
    // 60 > 2 * 26.67
    assert!(s.has_large_resting_order(200_000_000));
    // a level exactly at the multiple of the average is not large
    let flat = MarketDataState::new(book(&[(100, 10)], &[(101, 10)]));
    assert!(!flat.has_large_resting_order(100_000_000));
    assert!(flat.has_large_resting_order(99_999_999));
    let empty = MarketDataState::new(book(&[], &[]));
    assert!(!empty.has_large_resting_order(250_000_000));
    // a negative multiplier makes any level large
    assert!(s.has_large_resting_order(-1));
}

#[test]
fn iceberg_needs_enough_small_trades_at_one_price() {
    let mut trades = vec![];
    for i in 0..5 {
        trades.push(trade(100, 2_000, Side::Buy, i));
    }
    trades.push(trade(101, 2_000, Side::Buy, 9));
    let s = state_with(book(&[], &[]), trades.clone());
    assert!(s.detect_iceberg(5, 5_000));
    assert!(!s.detect_iceberg(6, 5_000));
    // trades too large do not count
    assert!(!s.detect_iceberg(5, 1_000));
}

#[test]
fn queue_ahead_at_an_exact_price() {
    let s = MarketDataState::new(book(&[(100, 5), (99, 7), (98, 9)], &[(101, 3), (102, 4)]));
    assert_eq!(s.estimate_queue_ahead(99, Side::Buy), Some(7));
    assert_eq!(s.estimate_queue_ahead(97, Side::Buy), None);
    // a price between levels stops the search
    assert_eq!(s.estimate_queue_ahead(102, Side::Sell), Some(4));
    assert_eq!(s.estimate_queue_ahead(100, Side::Buy), Some(5));
    assert_eq!(s.estimate_queue_ahead(150, Side::Buy), None);
}

#[test]
fn pruning_drops_old_trades_from_the_front() {
    let mut s = state_with(
        book(&[], &[]),
        vec![trade(1, 1, Side::Buy, 10), trade(1, 1, Side::Buy, 20), trade(1, 1, Side::Buy, 5)],
    );
    s.prune_trades_before(15);
    // only the front is examined: the later, older trade stays
    assert_eq!(s.trades.len(), 2);
    assert_eq!(s.trades[0].ts, 20);
    s.prune_trades_before(15);
    assert_eq!(s.trades.len(), 2);
}

#[test]
fn record_trade_prunes_against_the_clock() {
    let mut s = state_with(book(&[], &[]), vec![trade(1, 1, Side::Buy, 0)]);
    // the epoch is far more than thirty seconds ago
    s.record_trade(trade(2, 1, Side::Sell, i64::MAX), 30);
    assert_eq!(s.trades.len(), 1);
    assert_eq!(s.trades[0].price, 2);
}

#[test]
fn toxic_flow_signal() {
    let s = state_with(
        book(&[(10_000, 1)], &[(10_010, 1)]),
        vec![trade(10_000, 9, Side::Buy, 0), trade(10_000, 1, Side::Sell, 0)],
    );
    let sig = Signals::from_market_data(&s);
    assert_eq!(sig.spread_bps, 10 * FIXED_ONE);
    assert_eq!(sig.trade_flow_imbalance, 80_000_000);
    assert!(sig.toxic_flow);
    let calm = state_with(book(&[(10_000, 1)], &[(10_005, 1)]), vec![trade(10_000, 9, Side::Buy, 0)]);
    assert!(!Signals::from_market_data(&calm).toxic_flow);
}
