use hft_execution::config::{ExecutionConfig, InstrumentConfig};
use hft_execution::decision::DecisionEngine;
use hft_execution::exchange::MarketDataEvent;
use hft_execution::execution::ExecutionEngine;
use hft_execution::fixed::FIXED_ONE;
use hft_execution::performance::PerformanceTracker;
use hft_execution::types::{
    BookLevel, BookSnapshot, Fill, InstrumentId, InstrumentType, MakerTaker, OrderStatus, Side,
    Trade,
};

fn inst(symbol: &str) -> InstrumentId {
    InstrumentId { symbol: symbol.to_string(), instrument_type: InstrumentType::Spot }
}

fn config() -> ExecutionConfig {
    ExecutionConfig {
        execution_window_secs: 60,
        decision_interval_ms: 100,
        max_child_order_qty: 50_000,
        min_child_order_qty: 1_000,
        order_ttl_ms: 1_000,
        post_only_spread_bps: 2 * FIXED_ONE,
        cross_spread_aggression: 80_000_000,
        max_spread_bps_to_cross: 20 * FIXED_ONE,
    }
}

fn book(symbol: &str, bid: u32, ask: u32, ts: i64) -> BookSnapshot {
    BookSnapshot {
        instrument: inst(symbol),
        bids: vec![BookLevel { price: bid, size: 100_000 }],
        asks: vec![BookLevel { price: ask, size: 100_000 }],
        ts,
    }
}

fn engine(override_price: Option<u32>) -> ExecutionEngine {
    let cfg = InstrumentConfig { instrument: inst("A"), side: Side::Buy, target_qty: 20_000, decision_price_override: override_price };
    ExecutionEngine::new(DecisionEngine::new(config()), PerformanceTracker::new(), config(), vec![cfg])
}

#[test]
fn startup_waits_for_a_book_of_every_instrument() {
    let mut e = engine(None);
    // any book counts towards the number of books awaited
    assert!(e.collect_initial_book(book("Z", 1, 2, 0)));
    assert_eq!(e.states.len(), 1);
    let mut e2 = engine(None);
    assert!(e2.collect_initial_book(book("A", 10_000, 10_010, 0)));
    assert!(e2.collect_initial_book(book("A", 1, 2, 0)));
    assert_eq!(e2.states.len(), 1);
    assert_eq!(e2.states[0].book.bids[0].price, 10_000);
}

#[test]
fn start_registers_decision_price_and_target() {
    let mut e = engine(None);
    e.collect_initial_book(book("A", 10_000, 10_010, 0));
    e.start(5_000);
    assert_eq!(e.runtime.len(), 1);
    assert_eq!(e.runtime[0].remaining_qty, 20_000);
    assert_eq!(e.runtime[0].start_time, 5_000);
    assert_eq!(e.performance.instruments[0].decision_price, 10_005);
    let mut o = engine(Some(9_000));
    o.collect_initial_book(book("A", 10_000, 10_010, 0));
    o.start(0);
    assert_eq!(o.performance.instruments[0].decision_price, 9_000);
    assert_eq!(o.deadline(5_000), 65_000);
}

#[test]
fn a_decision_tick_places_then_books_fills() {
    let mut e = engine(None);
    e.collect_initial_book(book("A", 10_000, 10_010, 0));
    e.start(0);
    let action = e.decide_for(0, 1_000, false).unwrap();
    let request = action.new_order.unwrap();
    assert_eq!(request.qty, 20_000);
    let order = hft_execution::types::Order {
        id: 77,
        request,
        status: OrderStatus::New,
        filled_qty: 0,
        create_ts: 1_000,
        update_ts: 1_000,
    };
    e.on_order_placed(0, order);
    // the open order covers what remains: wait
    let wait = e.decide_for(0, 1_100, false).unwrap();
    assert!(wait.new_order.is_none());
    e.handle_fill(Fill {
        order_id: 77,
        instrument: inst("A"),
        side: Side::Buy,
        price: 10_000,
        qty: 5_000,
        ts: 1_200,
        maker_taker: MakerTaker::Maker,
        mid_price: 10_005,
    });
    assert_eq!(e.runtime[0].remaining_qty, 15_000);
    assert_eq!(e.runtime[0].open_orders[0].filled_qty, 5_000);
    assert_eq!(e.runtime[0].open_orders[0].status, OrderStatus::PartiallyFilled);
    assert_eq!(e.performance.instruments[0].executed_qty, 5_000);
    assert!(e.expired_orders(0, 1_500).is_empty());
    assert_eq!(e.expired_orders(0, 2_000), vec![77]);
    e.confirm_cancel(0, 77);
    assert!(e.runtime[0].open_orders.is_empty());
    assert!(!e.is_done());
    // no decision once the window is over
    assert!(e.decide_for(0, 70_000, true).is_none());
}

#[test]
fn remaining_never_goes_below_zero() {
    let mut e = engine(None);
    e.collect_initial_book(book("A", 10_000, 10_010, 0));
    e.start(0);
    e.handle_fill(Fill {
        order_id: 1,
        instrument: inst("A"),
        side: Side::Buy,
        price: 10_000,
        qty: 30_000,
        ts: 0,
        maker_taker: MakerTaker::Taker,
        mid_price: 10_005,
    });
    assert_eq!(e.runtime[0].remaining_qty, 0);
    assert!(e.is_done());
    assert!(e.decide_for(0, 1, false).is_none());
}

#[test]
fn market_events_update_state_and_performance() {
    let mut e = engine(None);
    e.collect_initial_book(book("A", 10_000, 10_010, 0));
    e.start(0);
    e.handle_market_event(MarketDataEvent::Book(book("A", 10_100, 10_110, 10)));
    assert_eq!(e.states[0].last_mid, 10_105);
    e.handle_market_event(MarketDataEvent::Trade(Trade { instrument: inst("A"), price: 10_100, qty: 7, side: Side::Sell, ts: i64::MAX }));
    assert_eq!(e.states[0].trades.len(), 1);
    assert_eq!(e.performance.instruments[0].market_trade_qty, 7);
    // a book of a new instrument opens a state for it
    e.handle_market_event(MarketDataEvent::Book(book("B", 1, 3, 0)));
    assert_eq!(e.states.len(), 2);
    let reports = e.finalize();
    assert_eq!(reports.len(), 1);
}

#[test]
fn a_repeated_instrument_goes_by_its_last_configuration() {
    let first = InstrumentConfig { instrument: inst("A"), side: Side::Buy, target_qty: 20_000, decision_price_override: None };
    let last = InstrumentConfig { instrument: inst("A"), side: Side::Sell, target_qty: 7_000, decision_price_override: Some(9_500) };
    let mut e = ExecutionEngine::new(DecisionEngine::new(config()), PerformanceTracker::new(), config(), vec![first, last]);
    e.collect_initial_book(book("A", 10_000, 10_010, 0));
    e.start(0);
    assert_eq!(e.runtime.len(), 1);
    assert_eq!(e.runtime[0].config.side, Side::Sell);
    assert_eq!(e.runtime[0].remaining_qty, 7_000);
    assert_eq!(e.performance.instruments.len(), 1);
    assert_eq!(e.performance.instruments[0].side, Side::Sell);
    assert_eq!(e.performance.instruments[0].target_qty, 7_000);
    assert_eq!(e.performance.instruments[0].decision_price, 9_500);
}

#[test]
fn an_instrument_without_a_book_is_not_started() {
    let a = InstrumentConfig { instrument: inst("A"), side: Side::Buy, target_qty: 20_000, decision_price_override: None };
    let b = InstrumentConfig { instrument: inst("B"), side: Side::Buy, target_qty: 20_000, decision_price_override: None };
    let mut e = ExecutionEngine::new(DecisionEngine::new(config()), PerformanceTracker::new(), config(), vec![a, b]);
    // the second book awaited is another instrument's
    assert!(!e.collect_initial_book(book("A", 10_000, 10_010, 0)));
    assert!(e.collect_initial_book(book("Z", 10_000, 10_010, 0)));
    e.start(0);
    assert_eq!(e.runtime.len(), 1);
    assert_eq!(e.runtime[0].config.instrument.symbol, "A");
    assert_eq!(e.performance.instruments.len(), 1);
}

#[test]
fn a_time_to_live_beyond_i64_wraps_and_expires_every_order() {
    let mut c = config();
    c.order_ttl_ms = u64::MAX;
    let cfg = InstrumentConfig { instrument: inst("A"), side: Side::Buy, target_qty: 20_000, decision_price_override: None };
    let mut e = ExecutionEngine::new(DecisionEngine::new(c), PerformanceTracker::new(), c, vec![cfg]);
    e.collect_initial_book(book("A", 10_000, 10_010, 0));
    e.start(0);
    let action = e.decide_for(0, 0, false).unwrap();
    let order = hft_execution::types::Order {
        id: 5,
        request: action.new_order.unwrap(),
        status: OrderStatus::New,
        filled_qty: 0,
        create_ts: 1_000,
        update_ts: 1_000,
    };
    e.on_order_placed(0, order);
    // read as -1 ms, the time-to-live has passed as soon as the order exists
    assert_eq!(e.expired_orders(0, 1_000), vec![5]);
    assert!(e.expired_orders(0, 998).is_empty());
}

#[test]
fn the_run_stops_once_the_window_is_over_and_nothing_rests() {
    let mut e = engine(None);
    e.collect_initial_book(book("A", 10_000, 10_010, 0));
    e.start(0);
    assert!(!e.window_closed(0, 59_999, false));
    assert!(e.window_closed(0, 60_000, false));
    assert!(e.window_closed(0, 0, true));
    assert!(!e.should_stop(false));
    // the target is not met, yet with nothing resting the run is over
    assert!(e.should_stop(true));
    let action = e.decide_for(0, 0, false).unwrap();
    let order = hft_execution::types::Order {
        id: 9,
        request: action.new_order.unwrap(),
        status: OrderStatus::New,
        filled_qty: 0,
        create_ts: 0,
        update_ts: 0,
    };
    e.on_order_placed(0, order);
    assert!(!e.should_stop(true));
    e.confirm_cancel(0, 9);
    assert!(e.should_stop(true));
}
