use hft_execution::config::SimulationConfig;
use hft_execution::exchange::{
    build_levels_from, match_orders, match_with_draws, print_tape, ExchangeError,
    MarketDataEvent, MockExchangeEngine, SimInstrumentState,
};
use hft_execution::fixed::FIXED_ONE;
use hft_execution::types::{
    BookLevel, BookSnapshot, InstrumentId, InstrumentType, MakerTaker, Order, OrderRequest,
    OrderStatus, OrderType, Side,
};
use rand::rngs::StdRng;
use rand::SeedableRng;

fn instrument(symbol: &str) -> InstrumentId {
    InstrumentId { symbol: symbol.to_string(), instrument_type: InstrumentType::Spot }
}

fn sim_config() -> SimulationConfig {
    SimulationConfig {
        enabled: true,
        seed: 42,
        tick_interval_ms: 100,
        base_price: 1_000_000,
        price_volatility: 100_000,
        base_spread_bps: 5 * FIXED_ONE as i64,
        depth_levels: 5,
        level_liquidity: 100_000,
        trade_rate_per_sec: 20 * FIXED_ONE as i64,
        iceberg_probability: 0,
        large_order_multiplier: 5 * FIXED_ONE as i64,
    }
}

fn request(symbol: &str, side: Side, price: Option<u32>, post_only: bool) -> OrderRequest {
    OrderRequest { instrument: instrument(symbol), side, qty: 10_000, price, order_type: OrderType::Limit, post_only }
}

#[test]
fn opening_book_is_laid_out_around_the_base_price() {
    let engine = MockExchangeEngine::new(sim_config(), vec![instrument("A"), instrument("B"), instrument("A")]);
    assert_eq!(engine.states.len(), 2);
    let book = &engine.states[0].book;
    assert_eq!(book.bids.len(), 5);
    assert_eq!(book.asks.len(), 5);
    // 5 bps of 100.0000 is 500 ticks: half a spread each side, a fifth per level
    assert_eq!(book.bids[0].price, 999_750);
    assert_eq!(book.asks[0].price, 1_000_250);
    assert_eq!(book.bids[1].price, 999_650);
    assert_eq!(book.asks[4].price, 1_000_650);
    for (level, l) in book.bids.iter().enumerate() {
        let base = 100_000 * (20 - level as u32) / 20;
        assert!(l.size == base || l.size == base * 5);
    }
}

#[test]
fn post_only_order_that_crosses_is_refused() {
    let mut engine = MockExchangeEngine::new(sim_config(), vec![instrument("A")]);
    let r = engine.place_order(request("A", Side::Buy, Some(1_000_250), true));
    assert_eq!(r.err(), Some(ExchangeError::PostOnlyWouldCross));
    let market = engine.place_order(request("A", Side::Sell, None, true));
    assert_eq!(market.err(), Some(ExchangeError::PostOnlyWouldCross));
    assert!(engine.states[0].open_orders.is_empty());
}

#[test]
fn unknown_instrument_is_unavailable() {
    let mut engine = MockExchangeEngine::new(sim_config(), vec![instrument("A")]);
    let r = engine.place_order(request("Z", Side::Buy, Some(1), false));
    assert_eq!(r.err(), Some(ExchangeError::Unavailable));
}

#[test]
fn accepted_order_rests_and_can_be_cancelled_once() {
    let mut engine = MockExchangeEngine::new(sim_config(), vec![instrument("A")]);
    let o1 = engine.place_order(request("A", Side::Buy, Some(999_000), true)).unwrap();
    let o2 = engine.place_order(request("A", Side::Buy, Some(999_000), true)).unwrap();
    assert_ne!(o1.id, o2.id);
    assert_eq!(o1.status, OrderStatus::New);
    assert_eq!(o1.filled_qty, 0);
    assert_eq!(o1.create_ts, o1.update_ts);
    assert!(o1.create_ts > 0);
    assert_eq!(engine.states[0].open_orders.len(), 2);
    assert_eq!(engine.cancel_order(o1.id), Ok(()));
    assert_eq!(engine.states[0].open_orders.len(), 1);
    assert_eq!(engine.cancel_order(o1.id), Err(ExchangeError::OrderNotFound));
}

fn sim_state(orders: Vec<Order>) -> SimInstrumentState {
    SimInstrumentState {
        book: BookSnapshot {
            instrument: instrument("A"),
            bids: vec![BookLevel { price: 100, size: 0 }],
            asks: vec![BookLevel { price: 102, size: 5 }],
            ts: 0,
        },
        trades: Default::default(),
        open_orders: orders,
        rng: StdRng::seed_from_u64(1),
    }
}

fn order(id: u128, side: Side, qty: u32, filled: u32, price: Option<u32>) -> Order {
    Order {
        id,
        request: OrderRequest { instrument: instrument("A"), side, qty, price, order_type: OrderType::Limit, post_only: false },
        status: OrderStatus::New,
        filled_qty: filled,
        create_ts: 0,
        update_ts: 0,
    }
}

#[test]
fn crossing_orders_fill_as_takers_and_filled_orders_leave() {
    let mut s = sim_state(vec![
        order(1, Side::Buy, 10_000, 0, Some(105)),
        order(2, Side::Sell, 10_000, 10_000, Some(50)),
        order(3, Side::Sell, 500, 0, None),
    ]);
    let fills = match_orders(&mut s);
    assert_eq!(fills.len(), 2);
    assert_eq!(fills[0].order_id, 1);
    assert_eq!(fills[0].maker_taker, MakerTaker::Taker);
    assert_eq!(fills[0].qty, 5_000);
    assert_eq!(fills[0].price, 105);
    assert_eq!(fills[0].mid_price, 101);
    // a market order fills at the mid, never below the minimum fill
    assert_eq!(fills[1].order_id, 3);
    assert_eq!(fills[1].qty, 1_000);
    assert_eq!(fills[1].price, 101);
    assert_eq!(s.open_orders.len(), 2);
    assert_eq!(s.open_orders[0].filled_qty, 5_000);
    assert_eq!(s.open_orders[0].status, OrderStatus::PartiallyFilled);
    assert_eq!(s.open_orders[1].filled_qty, 1_000);
    assert_eq!(s.open_orders[1].status, OrderStatus::Filled);
    // the filled order leaves on the next round
    let more = match_orders(&mut s);
    assert_eq!(more.len(), 1);
    assert_eq!(s.open_orders.len(), 1);
}

#[test]
fn a_tick_moves_the_book_and_prints_trades() {
    let mut engine = MockExchangeEngine::new(sim_config(), vec![instrument("A")]);
    let (events, fills) = engine.tick();
    assert!(fills.is_empty());
    assert!(matches!(events[0], MarketDataEvent::Book(_)));
    // two trade slots per 100 ms tick at 20 trades a second
    assert!(events.len() <= 3);
    let book = &engine.states[0].book;
    for e in events.iter().skip(1) {
        match e {
            MarketDataEvent::Trade(t) => {
                let touch = if t.side == Side::Buy { book.asks[0].price } else { book.bids[0].price };
                assert_eq!(t.price, touch);
                assert!(t.qty >= 2_000 && t.qty <= 10_000);
            }
            MarketDataEvent::Book(_) => panic!("only one book per tick"),
        }
    }
    assert!(book.bids[0].price < book.asks[0].price);
    assert_eq!(engine.states[0].trades.len(), events.len() - 1);
}

#[test]
fn icebergs_print_five_equal_slices() {
    let mut config = sim_config();
    config.iceberg_probability = FIXED_ONE as i64;
    config.trade_rate_per_sec = 0;
    let mut engine = MockExchangeEngine::new(config, vec![instrument("A")]);
    let (events, _) = engine.tick();
    assert_eq!(events.len(), 6);
    for e in events.iter().skip(1) {
        if let MarketDataEvent::Trade(t) = e {
            assert_eq!(t.qty, 2_000);
        }
    }
}

#[test]
fn a_deep_book_is_built_to_the_configured_depth() {
    let mut config = sim_config();
    config.depth_levels = 100_000;
    let engine = MockExchangeEngine::new(config, vec![instrument("A")]);
    let book = &engine.states[0].book;
    assert_eq!(book.bids.len(), 100_000);
    assert_eq!(book.asks.len(), 100_000);
    // a level steps a fifth of the 500-tick spread; deep bids clamp at zero
    assert_eq!(book.asks[99_999].price, 11_000_150);
    assert_eq!(book.bids[99_999].price, 0);
    // a spread too wide for any price clamps both sides
    let mut wide = sim_config();
    wide.base_spread_bps = i64::MAX;
    let w = MockExchangeEngine::new(wide, vec![instrument("A")]);
    assert_eq!(w.states[0].book.asks[0].price, u32::MAX);
    assert_eq!(w.states[0].book.bids[0].price, 0);
}

#[test]
fn a_resting_order_fills_when_its_draw_is_below_its_chance() {
    // nothing displayed ahead at 100: the chance is 0.15
    let mut s = sim_state(vec![
        order(1, Side::Buy, 10_000, 0, Some(100)),
        order(2, Side::Buy, 10_000, 0, Some(100)),
    ]);
    let fills = match_with_draws(&mut s, &vec![14_999_999, 15_000_000], 7);
    assert_eq!(fills.len(), 1);
    assert_eq!(fills[0].order_id, 1);
    assert_eq!(fills[0].maker_taker, MakerTaker::Maker);
    assert_eq!(fills[0].qty, 5_000);
    assert_eq!(fills[0].ts, 7);
    assert_eq!(s.open_orders[0].filled_qty, 5_000);
    assert_eq!(s.open_orders[1].filled_qty, 0);
}

#[test]
fn a_level_is_large_when_its_draw_is_below_five_percent() {
    let config = sim_config();
    let bid_draws = vec![0, 5_000_000, 4_999_999, 99_999_999, 50_000_000];
    let ask_draws = vec![5_000_000, 0, 99_999_999, 4_999_999, 50_000_000];
    let (bids, asks) = build_levels_from(1_000_000, &config, &bid_draws, &ask_draws);
    assert_eq!(bids.len(), 5);
    assert_eq!(bids[0], BookLevel { price: 999_750, size: 500_000 });
    assert_eq!(bids[1].size, 95_000);
    assert_eq!(bids[2].size, 90_000 * 5);
    assert_eq!(asks[0], BookLevel { price: 1_000_250, size: 100_000 });
    assert_eq!(asks[1].size, 95_000 * 5);
    assert_eq!(asks[3].size, 85_000 * 5);
    assert_eq!(asks[4].size, 80_000);
}

#[test]
fn trades_print_as_their_draws_decide() {
    let mut config = sim_config();
    config.iceberg_probability = 10_000_000;
    let mut s = sim_state(vec![]);
    let slots = vec![(0, 60_000_000, 0), (60_000_000, 0, 0), (59_999_999, 50_000_000, FIXED_ONE - 1)];
    let events = print_tape(&mut s, &config, &slots, (0, 0));
    assert_eq!(events.len(), 7);
    assert_eq!(s.trades.len(), 7);
    assert_eq!(s.trades[0].side, Side::Buy);
    assert_eq!(s.trades[0].price, 102);
    assert_eq!(s.trades[0].qty, 2_000);
    assert_eq!(s.trades[1].side, Side::Sell);
    assert_eq!(s.trades[1].price, 100);
    assert_eq!(s.trades[1].qty, 9_999);
    for t in s.trades.iter().skip(2) {
        assert_eq!(t.side, Side::Sell);
        assert_eq!(t.qty, 2_000);
    }
    // no iceberg when its draw is not below the probability
    let mut quiet = sim_state(vec![]);
    let none = print_tape(&mut quiet, &config, &vec![], (10_000_000, 0));
    assert!(none.is_empty());
}
