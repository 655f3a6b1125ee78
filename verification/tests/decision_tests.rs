use hft_execution::config::ExecutionConfig;
use hft_execution::decision::{DecisionContext, DecisionEngine};
use hft_execution::fixed::FIXED_ONE;
use hft_execution::market_data::MarketDataState;
use hft_execution::signals::Signals;
use hft_execution::types::{
    BookLevel, BookSnapshot, InstrumentId, InstrumentType, Order, OrderRequest, OrderStatus,
    OrderType, Side,
};

fn instrument() -> InstrumentId {
    InstrumentId { symbol: "ETH-PERP".to_string(), instrument_type: InstrumentType::Perp }
}

fn config() -> ExecutionConfig {
    ExecutionConfig {
        execution_window_secs: 100,
        decision_interval_ms: 100,
        max_child_order_qty: 50_000,
        min_child_order_qty: 1_000,
        order_ttl_ms: 2_000,
        post_only_spread_bps: 2 * FIXED_ONE,
        cross_spread_aggression: 80_000_000,
        max_spread_bps_to_cross: 20 * FIXED_ONE,
    }
}

fn state(bid: (u32, u32), ask: (u32, u32)) -> MarketDataState {
    MarketDataState::new(BookSnapshot {
        instrument: instrument(),
        bids: vec![BookLevel { price: bid.0, size: bid.1 }],
        asks: vec![BookLevel { price: ask.0, size: ask.1 }],
        ts: 0,
    })
}

fn calm_signals(spread_bps: i128) -> Signals {
    Signals {
        imbalance: 0,
        trade_flow_imbalance: 0,
        momentum: 0,
        mean_reversion: 0,
        spread_bps,
        large_resting_order: false,
        iceberg_detected: false,
        toxic_flow: false,
    }
}

fn open_order(id: u128, qty: u32, filled: u32) -> Order {
    Order {
        id,
        request: OrderRequest {
            instrument: instrument(),
            side: Side::Buy,
            qty,
            price: Some(100),
            order_type: OrderType::Limit,
            post_only: false,
        },
        status: OrderStatus::New,
        filled_qty: filled,
        create_ts: 0,
        update_ts: 0,
    }
}

fn ctx(remaining: u32, orders: Vec<Order>, elapsed_ms: i64) -> DecisionContext {
    DecisionContext { remaining_qty: remaining, open_orders: orders, start_time: 0, now: elapsed_ms, window_secs: 100 }
}

#[test]
fn done_target_cancels_everything() {
    let engine = DecisionEngine::new(config());
    let s = state((10_000, 100_000), (10_010, 100_000));
    let action = engine.decide(&s, &calm_signals(0), &ctx(0, vec![open_order(7, 10, 0), open_order(9, 10, 0)], 0), Side::Buy);
    assert!(action.new_order.is_none());
    assert_eq!(action.cancel_ids, vec![7, 9]);
}

#[test]
fn toxic_flow_early_withdraws() {
    let engine = DecisionEngine::new(config());
    let s = state((10_000, 100_000), (10_010, 100_000));
    let mut sig = calm_signals(10 * FIXED_ONE);
    sig.toxic_flow = true;
    let action = engine.decide(&s, &sig, &ctx(5_000, vec![open_order(3, 10, 0)], 10_000), Side::Buy);
    assert!(action.new_order.is_none());
    assert_eq!(action.cancel_ids, vec![3]);
    // late in the window toxic flow no longer stops the execution
    let late = engine.decide(&s, &sig, &ctx(5_000, vec![], 90_000), Side::Buy);
    assert!(late.new_order.is_some());
}

#[test]
fn enough_open_quantity_waits() {
    let engine = DecisionEngine::new(config());
    let s = state((10_000, 100_000), (10_010, 100_000));
    let action = engine.decide(&s, &calm_signals(0), &ctx(10_000, vec![open_order(1, 9_000, 0)], 0), Side::Buy);
    assert!(action.new_order.is_none());
    assert!(action.cancel_ids.is_empty());
    // partially filled orders count only their open part
    let again = engine.decide(&s, &calm_signals(0), &ctx(10_000, vec![open_order(1, 9_000, 1)], 0), Side::Buy);
    assert!(again.new_order.is_some());
}

#[test]
fn empty_book_side_waits() {
    let engine = DecisionEngine::new(config());
    let s = MarketDataState::new(BookSnapshot { instrument: instrument(), bids: vec![], asks: vec![BookLevel { price: 1, size: 1 }], ts: 0 });
    let action = engine.decide(&s, &calm_signals(0), &ctx(10_000, vec![], 0), Side::Buy);
    assert!(action.new_order.is_none());
}

#[test]
fn wide_spread_early_posts_passively() {
    let engine = DecisionEngine::new(config());
    let s = state((10_000, 100_000), (10_010, 100_000));
    let action = engine.decide(&s, &calm_signals(10 * FIXED_ONE), &ctx(10_000, vec![], 0), Side::Buy);
    let o = action.new_order.unwrap();
    assert_eq!(o.price, Some(10_000));
    assert!(o.post_only);
    assert_eq!(o.order_type, OrderType::Limit);
    assert_eq!(o.qty, 10_000);
    let sell = engine.decide(&s, &calm_signals(10 * FIXED_ONE), &ctx(10_000, vec![], 0), Side::Sell).new_order.unwrap();
    assert_eq!(sell.price, Some(10_010));
    // a spread exactly at the threshold is not above it
    let at = engine.decide(&s, &calm_signals(2 * FIXED_ONE), &ctx(10_000, vec![], 0), Side::Buy).new_order.unwrap();
    assert!(!at.post_only);
}

#[test]
fn urgency_crosses_the_spread() {
    let engine = DecisionEngine::new(config());
    let s = state((10_000, 100_000), (10_010, 100_000));
    let o = engine.decide(&s, &calm_signals(10 * FIXED_ONE), &ctx(10_000, vec![], 85_000), Side::Buy).new_order.unwrap();
    assert_eq!(o.price, Some(10_010));
    assert!(!o.post_only);
    // a spread too wide to cross keeps the order passive
    let wide = engine.decide(&s, &calm_signals(30 * FIXED_ONE), &ctx(10_000, vec![], 85_000), Side::Buy).new_order.unwrap();
    assert_eq!(wide.price, Some(10_000));
    assert!(!wide.post_only);
}

#[test]
fn adverse_momentum_crosses() {
    let engine = DecisionEngine::new(config());
    let s = state((10_000, 100_000), (10_010, 100_000));
    let mut sig = calm_signals(FIXED_ONE);
    sig.momentum = 1;
    sig.trade_flow_imbalance = 1;
    let o = engine.decide(&s, &sig, &ctx(10_000, vec![], 0), Side::Buy).new_order.unwrap();
    assert_eq!(o.price, Some(10_010));
    // the same momentum does not hurt a seller
    let sell = engine.decide(&s, &sig, &ctx(10_000, vec![], 0), Side::Sell).new_order.unwrap();
    assert_eq!(sell.price, Some(10_010));
    assert!(!sell.post_only);
}

#[test]
fn child_size_is_capped_by_limits_and_top_liquidity() {
    let engine = DecisionEngine::new(config());
    let deep = state((10_000, 1_000_000), (10_010, 1_000_000));
    assert_eq!(engine.decide(&deep, &calm_signals(0), &ctx(500_000, vec![], 0), Side::Buy).new_order.unwrap().qty, 50_000);
    assert_eq!(engine.decide(&deep, &calm_signals(0), &ctx(10, vec![], 0), Side::Buy).new_order.unwrap().qty, 1_000);
    let thin = state((10_000, 3_000), (10_010, 5_001));
    assert_eq!(engine.decide(&thin, &calm_signals(0), &ctx(500_000, vec![], 0), Side::Buy).new_order.unwrap().qty, 2_000);
}
