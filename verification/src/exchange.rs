use std::collections::VecDeque;

use rand::rngs::StdRng;
use vstd::prelude::*;

use crate::clock::{new_order_id, now_millis};
use crate::config::SimulationConfig;
use crate::fixed::{div_trunc, lemma_mul_within, trunc_div, FIXED_ONE};
use crate::market_data::{first_reaching, lemma_first_reaching, mid_price, spec_mid};
use crate::random::{draw_below, seeded_rng};
use crate::types::{
    BookLevel, BookSnapshot, Fill, InstrumentId, MakerTaker, Millis, Order, OrderId,
    OrderRequest, OrderStatus, Price, Qty, Side, Trade, QTY_SCALE,
};

verus! {

/// Lowest mid-price the simulated market moves to (0.01).
pub const MIN_SIM_PRICE: Price = 100;

/// Smallest fill the simulated venue reports (0.1 units).
pub const MIN_FILL_QTY: Qty = 1_000;

/// Size of each slice of a simulated iceberg (0.2 units).
pub const ICEBERG_TRADE_QTY: Qty = 2_000;

/// Number of slices a simulated iceberg prints.
pub const ICEBERG_TRADE_COUNT: usize = 5;

/// Chance (0.05) that a simulated level holds a large resting order.
pub const LARGE_LEVEL_PROBABILITY: i128 = 5_000_000;

/// Chance (0.6) that a trade slot of a tick prints a trade.
pub const TRADE_PROBABILITY: i128 = 60_000_000;

/// One half, fixed-point.
pub const HALF: i128 = 50_000_000;

/// Fill chance (0.15) of a passive order with an empty queue ahead of it.
pub const BASE_FILL_PROBABILITY: i128 = 15_000_000;

/// Highest fill chance (0.5) of a passive order in one tick.
pub const MAX_FILL_PROBABILITY: i128 = 50_000_000;

/// Denominator of a spread given in fixed-point basis points.
pub const SPREAD_DENOM: i128 = 1_000_000_000_000;

#[derive(Debug, Clone, Copy, PartialEq, Eq, Structural)]
pub enum ExchangeError {
    PostOnlyWouldCross,
    OrderNotFound,
    Unavailable,
}

pub enum MarketDataEvent {
    Book(BookSnapshot),
    Trade(Trade),
}

impl Clone for MarketDataEvent {
    fn clone(&self) -> (r: Self)
        ensures
            match (*self, r) {
                (MarketDataEvent::Book(a), MarketDataEvent::Book(b)) => a.instrument == b.instrument
                    && a.bids@ == b.bids@ && a.asks@ == b.asks@ && a.ts == b.ts,
                (MarketDataEvent::Trade(a), MarketDataEvent::Trade(b)) => a == b,
                _ => false,
            },
    {
        match self {
            MarketDataEvent::Book(b) => MarketDataEvent::Book(b.clone()),
            MarketDataEvent::Trade(t) => MarketDataEvent::Trade(t.clone()),
        }
    }
}

/// An integer clamped into the range of prices.
pub open spec fn clamp_price(x: int) -> Price {
    if x < 0 {
        0
    } else if x > u32::MAX {
        u32::MAX
    } else {
        x as Price
    }
}

/// Price of the bid level `level` around `mid` for a spread of `bps`
/// (fixed-point basis points of the mid): `mid - spread / 2 - spread / 5 * level`,
/// rounded toward zero and clamped.
pub open spec fn spec_bid_price(mid: Price, bps: i64, level: int) -> Price {
    clamp_price(
        trunc_div(
            10 * mid * SPREAD_DENOM - (5 + 2 * level) * mid * bps,
            10 * SPREAD_DENOM,
        ),
    )
}

/// Price of the ask level `level`: `mid + spread / 2 + spread / 5 * level`.
pub open spec fn spec_ask_price(mid: Price, bps: i64, level: int) -> Price {
    clamp_price(
        trunc_div(
            10 * mid * SPREAD_DENOM + (5 + 2 * level) * mid * bps,
            10 * SPREAD_DENOM,
        ),
    )
}

/// Ordinary size of level `level`: the liquidity scaled by
/// `max(1 - level / 20, 1 / 5)`, rounded down.
pub open spec fn spec_level_size(liquidity: Qty, level: int) -> Qty {
    let factor = if level < 16 {
        20 - level
    } else {
        4
    };
    (liquidity * factor / 20) as Qty
}

/// Size of a level holding a large resting order: the ordinary size times
/// the fixed-point multiplier, rounded toward zero and clamped.
pub open spec fn spec_large_size(size: Qty, multiplier: i64) -> Qty {
    clamp_price(trunc_div(size * multiplier, FIXED_ONE as int))
}

/// Number of levels per side that the simulated venue builds.
pub open spec fn spec_depth(config: SimulationConfig) -> int {
    if config.depth_levels > 1 {
        config.depth_levels as int
    } else {
        1
    }
}

/// A level at the given price whose size is the ordinary one or the large one.
pub open spec fn level_matches(l: BookLevel, price: Price, size: Qty, multiplier: i64) -> bool {
    l.price == price && (l.size == size || l.size == spec_large_size(size, multiplier))
}

/// Book sides laid out around `mid`: `depth` levels per side at the spread
/// steps, each with its ordinary or large size.
pub open spec fn levels_laid_out(
    bids: Seq<BookLevel>,
    asks: Seq<BookLevel>,
    mid: Price,
    config: SimulationConfig,
) -> bool {
    &&& bids.len() == spec_depth(config)
    &&& asks.len() == spec_depth(config)
    &&& forall|level: int|
        0 <= level < bids.len() ==> level_matches(
            #[trigger] bids[level],
            spec_bid_price(mid, config.base_spread_bps, level),
            spec_level_size(config.level_liquidity, level),
            config.large_order_multiplier,
        )
    &&& forall|level: int|
        0 <= level < asks.len() ==> level_matches(
            #[trigger] asks[level],
            spec_ask_price(mid, config.base_spread_bps, level),
            spec_level_size(config.level_liquidity, level),
            config.large_order_multiplier,
        )
    &&& exists|bid_draws: Seq<i128>, ask_draws: Seq<i128>|
        #[trigger] sizes_follow_draws(bids, asks, config, bid_draws, ask_draws)
}

/// Size of a level for a uniform fixed-point draw `u`: large (see
/// `spec_large_size`) when `u` is below `LARGE_LEVEL_PROBABILITY`, else
/// ordinary.
pub open spec fn drawn_size(size: Qty, multiplier: i64, u: int) -> Qty {
    if u < LARGE_LEVEL_PROBABILITY {
        spec_large_size(size, multiplier)
    } else {
        size
    }
}

/// Whether every draw lies in `[0, 1)` (fixed-point).
pub open spec fn unit_draws(draws: Seq<i128>) -> bool {
    forall|i: int| 0 <= i < draws.len() ==> 0 <= #[trigger] draws[i] < FIXED_ONE
}

/// The level sizes follow uniform draws in `[0, 1)`: bid level `l` is sized
/// by `bid_draws[l]` and ask level `l` by `ask_draws[l]`.
pub open spec fn sizes_follow_draws(
    bids: Seq<BookLevel>,
    asks: Seq<BookLevel>,
    config: SimulationConfig,
    bid_draws: Seq<i128>,
    ask_draws: Seq<i128>,
) -> bool {
    &&& bid_draws.len() == bids.len()
    &&& ask_draws.len() == asks.len()
    &&& unit_draws(bid_draws)
    &&& unit_draws(ask_draws)
    &&& forall|l: int|
        0 <= l < bids.len() ==> #[trigger] bids[l].size == drawn_size(
            spec_level_size(config.level_liquidity, l),
            config.large_order_multiplier,
            bid_draws[l] as int,
        )
    &&& forall|l: int|
        0 <= l < asks.len() ==> #[trigger] asks[l].size == drawn_size(
            spec_level_size(config.level_liquidity, l),
            config.large_order_multiplier,
            ask_draws[l] as int,
        )
}

fn clamp_to_price(x: i128) -> (r: Price)
    ensures
        r == clamp_price(x as int),
{
    if x < 0 {
        0
    } else if x > u32::MAX as i128 {
        u32::MAX
    } else {
        x as Price
    }
}

/// Base and offset of a level price far beyond the range of prices clamp to
/// the end that the offset points to.
proof fn lemma_far_level_price(base: int, x: int)
    requires
        0 <= base <= 10 * (u32::MAX as int) * SPREAD_DENOM,
        x > 0x4000000000000000000000000000000 || x < -0x4000000000000000000000000000000,
    ensures
        x > 0 ==> clamp_price(trunc_div(base + x, 10 * SPREAD_DENOM)) == u32::MAX,
        x < 0 ==> clamp_price(trunc_div(base + x, 10 * SPREAD_DENOM)) == 0,
{
    let d = 10 * SPREAD_DENOM;
    if x > 0 {
        vstd::arithmetic::div_mod::lemma_div_is_ordered(d * 0x100000000, base + x, d);
        vstd::arithmetic::div_mod::lemma_div_multiples_vanish(0x100000000, d);
        assert(d * 0x100000000 == 0x100000000 * d);
    } else {
        vstd::arithmetic::div_mod::lemma_div_pos_is_pos(-(base + x), d);
    }
}

fn level_price(mid: Price, bps: i64, level: usize, bid: bool) -> (r: Price)
    ensures
        bid ==> r == spec_bid_price(mid, bps, level as int),
        !bid ==> r == spec_ask_price(mid, bps, level as int),
{
    let m: i128 = mid as i128;
    let k: i128 = 5 + 2 * (level as i128);
    let signed: i128 = if bid {
        -(bps as i128)
    } else {
        bps as i128
    };
    proof {
        assert(0 <= m * k <= (u32::MAX as int) * (5 + 2 * (usize::MAX as int))) by (nonlinear_arith)
            requires
                0 <= m <= u32::MAX,
                5 <= k <= 5 + 2 * (usize::MAX as int),
        ;
    }
    let mk: i128 = m * k;
    let base: i128 = 10 * m * SPREAD_DENOM;
    let ghost x: int = mk * signed;
    proof {
        assert(bid ==> x == -(k * m * bps)) by (nonlinear_arith)
            requires
                x == mk * signed,
                mk == m * k,
                bid ==> signed == -bps,
        ;
        assert(!bid ==> x == k * m * bps) by (nonlinear_arith)
            requires
                x == mk * signed,
                mk == m * k,
                !bid ==> signed == bps,
        ;
        assert(0 <= base <= 10 * (u32::MAX as int) * SPREAD_DENOM);
    }
    let near: Option<i128> = match mk.checked_mul(signed) {
        Some(offset) => {
            if -0x4000000000000000000000000000000 <= offset
                && offset <= 0x4000000000000000000000000000000 {
                Some(base + offset)
            } else {
                None
            }
        },
        None => None,
    };
    match near {
        Some(num) => clamp_to_price(div_trunc(num, 10 * SPREAD_DENOM)),
        None => {
            proof {
                lemma_far_level_price(base as int, x);
            }
            if signed > 0 {
                proof {
                    assert(x > 0) by (nonlinear_arith)
                        requires
                            x == mk * signed,
                            mk >= 0,
                            signed > 0,
                            x > 0x4000000000000000000000000000000
                                || x < -0x4000000000000000000000000000000,
                    ;
                }
                u32::MAX
            } else {
                proof {
                    assert(x < 0) by (nonlinear_arith)
                        requires
                            x == mk * signed,
                            mk >= 0,
                            signed <= 0,
                            x > 0x4000000000000000000000000000000
                                || x < -0x4000000000000000000000000000000,
                    ;
                }
                0
            }
        },
    }
}

fn level_size(liquidity: Qty, level: usize) -> (r: Qty)
    ensures
        r == spec_level_size(liquidity, level as int),
{
    let factor: u64 = if level < 16 {
        20 - level as u64
    } else {
        4
    };
    proof {
        assert(0 <= liquidity * factor <= (u32::MAX as int) * 20) by (nonlinear_arith)
            requires
                0 <= liquidity <= u32::MAX,
                0 <= factor <= 20,
        ;
        assert(liquidity * factor / 20 <= u32::MAX) by (nonlinear_arith)
            requires
                0 <= liquidity * factor <= (u32::MAX as int) * 20,
        ;
    }
    ((liquidity as u64) * factor / 20) as Qty
}

fn large_size(size: Qty, multiplier: i64) -> (r: Qty)
    ensures
        r == spec_large_size(size, multiplier),
{
    proof {
        assert(-(u32::MAX as int) * 0x8000000000000000 <= size * multiplier <= (u32::MAX as int)
            * 0x8000000000000000) by (nonlinear_arith)
            requires
                0 <= size <= u32::MAX,
                -0x8000000000000000 <= multiplier < 0x8000000000000000,
        ;
    }
    clamp_to_price(div_trunc((size as i128) * (multiplier as i128), FIXED_ONE))
}

/// A fixed-point fraction drawn uniformly from `[0, 1)`.
fn unit_draw(rng: &mut StdRng) -> (r: i128)
    ensures
        0 <= r < FIXED_ONE,
{
    draw_below(rng, FIXED_ONE as u64) as i128
}

/// Bid level `l` around `mid` for a uniform draw `u`.
pub open spec fn drawn_bid_level(mid: Price, config: SimulationConfig, l: int, u: int) -> BookLevel {
    BookLevel {
        price: spec_bid_price(mid, config.base_spread_bps, l),
        size: drawn_size(spec_level_size(config.level_liquidity, l), config.large_order_multiplier, u),
    }
}

/// Ask level `l` around `mid` for a uniform draw `u`.
pub open spec fn drawn_ask_level(mid: Price, config: SimulationConfig, l: int, u: int) -> BookLevel {
    BookLevel {
        price: spec_ask_price(mid, config.base_spread_bps, l),
        size: drawn_size(spec_level_size(config.level_liquidity, l), config.large_order_multiplier, u),
    }
}

/// Lays out both sides of a book around `mid` for given draws: level `l`
/// of each side sits at its spread step and holds a large resting order
/// exactly when its draw (`bid_draws[l]`, `ask_draws[l]`) is below 0.05.
pub fn build_levels_from(
    mid: Price,
    config: &SimulationConfig,
    bid_draws: &Vec<i128>,
    ask_draws: &Vec<i128>,
) -> (r: (Vec<BookLevel>, Vec<BookLevel>))
    requires
        bid_draws@.len() == spec_depth(*config),
        ask_draws@.len() == spec_depth(*config),
        unit_draws(bid_draws@),
        unit_draws(ask_draws@),
    ensures
        r.0@.len() == spec_depth(*config),
        r.1@.len() == spec_depth(*config),
        forall|l: int|
            0 <= l < r.0@.len() ==> #[trigger] r.0@[l] == drawn_bid_level(mid, *config, l, bid_draws@[l] as int),
        forall|l: int|
            0 <= l < r.1@.len() ==> #[trigger] r.1@[l] == drawn_ask_level(mid, *config, l, ask_draws@[l] as int),
        levels_laid_out(r.0@, r.1@, mid, *config),
{
    let depth: usize = if config.depth_levels > 1 {
        config.depth_levels
    } else {
        1
    };
    let mut bids: Vec<BookLevel> = Vec::with_capacity(depth);
    let mut asks: Vec<BookLevel> = Vec::with_capacity(depth);
    let mut level: usize = 0;
    while level < depth
        invariant
            depth == spec_depth(*config),
            bid_draws@.len() == depth,
            ask_draws@.len() == depth,
            level <= depth,
            bids@.len() == level,
            asks@.len() == level,
            forall|l: int|
                0 <= l < level ==> #[trigger] bids@[l] == drawn_bid_level(mid, *config, l, bid_draws@[l] as int),
            forall|l: int|
                0 <= l < level ==> #[trigger] asks@[l] == drawn_ask_level(mid, *config, l, ask_draws@[l] as int),
        decreases depth - level,
    {
        let bid_price = level_price(mid, config.base_spread_bps, level, true);
        let ask_price = level_price(mid, config.base_spread_bps, level, false);
        let ordinary = level_size(config.level_liquidity, level);
        let mut bid_size = ordinary;
        let mut ask_size = ordinary;
        if bid_draws[level] < LARGE_LEVEL_PROBABILITY {
            bid_size = large_size(bid_size, config.large_order_multiplier);
        }
        if ask_draws[level] < LARGE_LEVEL_PROBABILITY {
            ask_size = large_size(ask_size, config.large_order_multiplier);
        }
        let ghost b0 = bids@;
        let ghost a0 = asks@;
        bids.push(BookLevel { price: bid_price, size: bid_size });
        asks.push(BookLevel { price: ask_price, size: ask_size });
        proof {
            assert forall|l: int| 0 <= l < level + 1 implies #[trigger] bids@[l] == drawn_bid_level(mid, *config, l, bid_draws@[l] as int) by {
                if l < level {
                    assert(bids@[l] == b0[l]);
                }
            }
            assert forall|l: int| 0 <= l < level + 1 implies #[trigger] asks@[l] == drawn_ask_level(mid, *config, l, ask_draws@[l] as int) by {
                if l < level {
                    assert(asks@[l] == a0[l]);
                }
            }
        }
        level = level + 1;
    }
    assert(sizes_follow_draws(bids@, asks@, *config, bid_draws@, ask_draws@));
    (bids, asks)
}

/// Lays out both sides of a simulated book around `mid`, drawing for each
/// level (bid, then ask) whether it holds a large resting order.
fn build_levels(mid: Price, config: &SimulationConfig, rng: &mut StdRng) -> (r: (
    Vec<BookLevel>,
    Vec<BookLevel>,
))
    ensures
        levels_laid_out(r.0@, r.1@, mid, *config),
{
    let depth: usize = if config.depth_levels > 1 {
        config.depth_levels
    } else {
        1
    };
    let mut bid_draws: Vec<i128> = Vec::with_capacity(depth);
    let mut ask_draws: Vec<i128> = Vec::with_capacity(depth);
    let mut level: usize = 0;
    while level < depth
        invariant
            depth == spec_depth(*config),
            level <= depth,
            bid_draws@.len() == level,
            ask_draws@.len() == level,
            unit_draws(bid_draws@),
            unit_draws(ask_draws@),
        decreases depth - level,
    {
        let b = unit_draw(rng);
        let a = unit_draw(rng);
        let ghost b0 = bid_draws@;
        let ghost a0 = ask_draws@;
        bid_draws.push(b);
        ask_draws.push(a);
        proof {
            assert forall|i: int| 0 <= i < bid_draws@.len() implies 0 <= #[trigger] bid_draws@[i]
                < FIXED_ONE by {
                if i < level {
                    assert(bid_draws@[i] == b0[i]);
                }
            }
            assert forall|i: int| 0 <= i < ask_draws@.len() implies 0 <= #[trigger] ask_draws@[i]
                < FIXED_ONE by {
                if i < level {
                    assert(ask_draws@[i] == a0[i]);
                }
            }
        }
        level = level + 1;
    }
    build_levels_from(mid, config, &bid_draws, &ask_draws)
}

/// State of one instrument at the simulated venue.
pub struct SimInstrumentState {
    pub book: BookSnapshot,
    pub trades: VecDeque<Trade>,
    pub open_orders: Vec<Order>,
    pub rng: StdRng,
}

/// Best bid price, zero when there are no bids.
pub open spec fn best_bid_price(book: BookSnapshot) -> Price {
    if book.bids@.len() > 0 {
        book.bids@[0].price
    } else {
        0
    }
}

/// Best ask price, zero when there are no asks.
pub open spec fn best_ask_price(book: BookSnapshot) -> Price {
    if book.asks@.len() > 0 {
        book.asks@[0].price
    } else {
        0
    }
}

/// The price an order is willing to trade at, or `default` for a market order.
pub open spec fn limit_or(req: OrderRequest, default: Price) -> Price {
    match req.price {
        Some(p) => p,
        None => default,
    }
}

/// Whether an order would trade against the opposite best price at once.
pub open spec fn spec_crossing(req: OrderRequest, best_bid: Price, best_ask: Price) -> bool {
    match req.side {
        Side::Buy => limit_or(req, best_ask) >= best_ask,
        Side::Sell => limit_or(req, best_bid) <= best_bid,
    }
}

/// Size of the next fill of an order with lots open: half the order or what
/// is open, whichever is smaller, but never less than the minimum fill.
pub open spec fn spec_fill_qty(o: Order) -> Qty {
    let open = (o.request.qty - o.filled_qty) as int;
    let half = (o.request.qty / 2) as int;
    let m = if open < half {
        open
    } else {
        half
    };
    if m > MIN_FILL_QTY {
        m as Qty
    } else {
        MIN_FILL_QTY
    }
}

/// An order after a fill of `qty` lots at time `now`.
pub open spec fn spec_after_fill(o: Order, qty: Qty, now: Millis) -> Order {
    let total = o.filled_qty + qty;
    let filled = if total > u32::MAX {
        u32::MAX as Qty
    } else {
        total as Qty
    };
    Order {
        filled_qty: filled,
        update_ts: now,
        status: if filled >= o.request.qty {
            OrderStatus::Filled
        } else {
            OrderStatus::PartiallyFilled
        },
        ..o
    }
}

/// The fill report of an order's next fill.
pub open spec fn spec_fill_of(o: Order, maker_taker: MakerTaker, mid: Price, now: Millis) -> Fill {
    Fill {
        order_id: o.id,
        instrument: o.request.instrument,
        side: o.request.side,
        price: limit_or(o.request, mid),
        qty: spec_fill_qty(o),
        ts: now,
        maker_taker,
        mid_price: mid,
    }
}

/// Orders left after a matching round in which `hits[k]` tells whether
/// order `k` traded: fully filled orders leave, traded ones are updated.
pub open spec fn matched_orders(orders: Seq<Order>, hits: Seq<bool>, now: Millis) -> Seq<Order>
    decreases orders.len(),
{
    if orders.len() == 0 {
        Seq::empty()
    } else {
        let prev = matched_orders(orders.drop_last(), hits.drop_last(), now);
        let o = orders.last();
        if o.spec_open_qty() <= 0 {
            prev
        } else if hits.last() {
            prev.push(spec_after_fill(o, spec_fill_qty(o), now))
        } else {
            prev.push(o)
        }
    }
}

/// Fills reported by a matching round (see `matched_orders`); an order that
/// crosses takes liquidity, any other order that trades provides it.
pub open spec fn matched_fills(
    orders: Seq<Order>,
    hits: Seq<bool>,
    best_bid: Price,
    best_ask: Price,
    now: Millis,
) -> Seq<Fill>
    decreases orders.len(),
{
    if orders.len() == 0 {
        Seq::empty()
    } else {
        let prev = matched_fills(orders.drop_last(), hits.drop_last(), best_bid, best_ask, now);
        let o = orders.last();
        let mid = ((best_bid + best_ask) / 2) as Price;
        if o.spec_open_qty() > 0 && hits.last() {
            prev.push(
                spec_fill_of(
                    o,
                    if spec_crossing(o.request, best_bid, best_ask) {
                        MakerTaker::Taker
                    } else {
                        MakerTaker::Maker
                    },
                    mid,
                    now,
                ),
            )
        } else {
            prev
        }
    }
}

/// Which orders may trade in a matching round: every crossing order with
/// lots open trades; a resting order trades by chance.
pub open spec fn hits_allowed(
    orders: Seq<Order>,
    hits: Seq<bool>,
    best_bid: Price,
    best_ask: Price,
) -> bool {
    &&& hits.len() == orders.len()
    &&& forall|k: int|
        0 <= k < orders.len() && orders[k].spec_open_qty() > 0 && spec_crossing(
            orders[k].request,
            best_bid,
            best_ask,
        ) ==> #[trigger] hits[k]
}

/// Displayed size ahead of a resting order: the size of the first level on
/// its own side of the book at or beyond its limit price (the best price of
/// that side for an order without one), zero when no level is.
pub open spec fn spec_queue_ahead(o: Order, book: BookSnapshot) -> int {
    let side = o.request.side;
    let levels = if side == Side::Buy {
        book.bids@
    } else {
        book.asks@
    };
    let price = if side == Side::Buy {
        limit_or(o.request, best_bid_price(book))
    } else {
        limit_or(o.request, best_ask_price(book))
    };
    let k = first_reaching(levels, price, side);
    if k < levels.len() {
        levels[k].size as int
    } else {
        0
    }
}

/// Fixed-point chance that a resting order fills in a matching round:
/// `0.15 / (1 + queue ahead)`, the queue counted in whole units and the
/// quotient rounded down, at most `0.5`.
pub open spec fn spec_fill_chance(o: Order, book: BookSnapshot) -> int {
    let c = BASE_FILL_PROBABILITY * (QTY_SCALE as int) / ((QTY_SCALE as int) + spec_queue_ahead(
        o,
        book,
    ));
    if c < MAX_FILL_PROBABILITY {
        c
    } else {
        MAX_FILL_PROBABILITY as int
    }
}

/// The trades of a matching round follow uniform draws in `[0, 1)`: an
/// order with lots open trades exactly when it crosses or its draw falls
/// below its fill chance.
pub open spec fn hits_follow_draws(
    orders: Seq<Order>,
    hits: Seq<bool>,
    book: BookSnapshot,
    draws: Seq<i128>,
) -> bool {
    &&& hits.len() == orders.len()
    &&& draws.len() == orders.len()
    &&& unit_draws(draws)
    &&& forall|k: int|
        0 <= k < orders.len() && orders[k].spec_open_qty() > 0 ==> #[trigger] hits[k] == (
        spec_crossing(orders[k].request, best_bid_price(book), best_ask_price(book)) || draws[k]
            < spec_fill_chance(orders[k], book))
}

/// Size of the first level that reaches `price` on the given side, zero when
/// none does.
fn size_at_first_reaching(levels: &Vec<BookLevel>, price: Price, side: Side) -> (r: Qty)
    ensures
        r == ({
            let k = first_reaching(levels@, price, side);
            if k < levels@.len() {
                levels@[k].size
            } else {
                0
            }
        }),
{
    proof {
        lemma_first_reaching(levels@, price, side);
    }
    let mut i: usize = 0;
    while i < levels.len()
        invariant
            i <= levels@.len(),
            i <= first_reaching(levels@, price, side),
            0 <= first_reaching(levels@, price, side) <= levels@.len(),
            forall|j: int|
                0 <= j < first_reaching(levels@, price, side) ==> !((side == Side::Buy
                    && #[trigger] levels@[j].price <= price) || (side == Side::Sell
                    && levels@[j].price >= price)),
            first_reaching(levels@, price, side) < levels@.len() ==> ({
                let k = first_reaching(levels@, price, side);
                (side == Side::Buy && levels@[k].price <= price) || (side == Side::Sell
                    && levels@[k].price >= price)
            }),
        decreases levels@.len() - i,
    {
        let p = levels[i].price;
        let reached: bool = match side {
            Side::Buy => p <= price,
            Side::Sell => p >= price,
        };
        if reached {
            return levels[i].size;
        }
        i = i + 1;
    }
    0
}

fn fill_qty_of(o: &Order) -> (r: Qty)
    requires
        o.spec_open_qty() > 0,
    ensures
        r == spec_fill_qty(*o),
{
    let open: Qty = o.request.qty - o.filled_qty;
    let half: Qty = o.request.qty / 2;
    let m = if open < half {
        open
    } else {
        half
    };
    if m > MIN_FILL_QTY {
        m
    } else {
        MIN_FILL_QTY
    }
}

/// Which orders trade in a matching round on `book` for given draws: an
/// order with lots open trades when it crosses or its draw is below its fill
/// chance.
pub open spec fn drawn_hits(orders: Seq<Order>, book: BookSnapshot, draws: Seq<i128>) -> Seq<bool> {
    Seq::new(
        orders.len(),
        |k: int|
            orders[k].spec_open_qty() > 0 && (spec_crossing(
                orders[k].request,
                best_bid_price(book),
                best_ask_price(book),
            ) || draws[k] < spec_fill_chance(orders[k], book)),
    )
}

/// One matching round at time `now` for given draws, one per order: an
/// order with lots open fills when it crosses (as a taker) or when its draw
/// is below its fill chance (as a maker), and fully filled orders leave.
pub fn match_with_draws(state: &mut SimInstrumentState, draws: &Vec<i128>, now: Millis) -> (r: Vec<
    Fill,
>)
    requires
        draws@.len() == old(state).open_orders@.len(),
        unit_draws(draws@),
    ensures
        final(state).book == old(state).book,
        final(state).trades@ == old(state).trades@,
        final(state).open_orders@ == matched_orders(
            old(state).open_orders@,
            drawn_hits(old(state).open_orders@, old(state).book, draws@),
            now,
        ),
        r@ == matched_fills(
            old(state).open_orders@,
            drawn_hits(old(state).open_orders@, old(state).book, draws@),
            best_bid_price(old(state).book),
            best_ask_price(old(state).book),
            now,
        ),
        hits_allowed(
            old(state).open_orders@,
            drawn_hits(old(state).open_orders@, old(state).book, draws@),
            best_bid_price(old(state).book),
            best_ask_price(old(state).book),
        ),
        hits_follow_draws(
            old(state).open_orders@,
            drawn_hits(old(state).open_orders@, old(state).book, draws@),
            old(state).book,
            draws@,
        ),
{
    let best_bid: Price = if state.book.bids.len() > 0 {
        state.book.bids[0].price
    } else {
        0
    };
    let best_ask: Price = if state.book.asks.len() > 0 {
        state.book.asks[0].price
    } else {
        0
    };
    let mid: Price = ((best_bid as u64 + best_ask as u64) / 2) as Price;
    let ghost orders0 = state.open_orders@;
    let mut kept: Vec<Order> = Vec::new();
    let mut fills: Vec<Fill> = Vec::new();
    let ghost mut hits: Seq<bool> = Seq::empty();
    let mut k: usize = 0;
    while k < state.open_orders.len()
        invariant
            state.open_orders@ == orders0,
            state.book == old(state).book,
            state.trades@ == old(state).trades@,
            orders0 == old(state).open_orders@,
            best_bid == best_bid_price(state.book),
            best_ask == best_ask_price(state.book),
            mid == ((best_bid + best_ask) / 2) as Price,
            k <= orders0.len(),
            hits_allowed(orders0.take(k as int), hits, best_bid, best_ask),
            draws@.len() == orders0.len(),
            hits.len() == k,
            forall|j: int| 0 <= j < k ==> #[trigger] hits[j] == drawn_hits(orders0, state.book, draws@)[j],
            kept@ == matched_orders(orders0.take(k as int), hits, now),
            fills@ == matched_fills(orders0.take(k as int), hits, best_bid, best_ask, now),
        decreases orders0.len() - k,
    {
        let o = state.open_orders[k].clone();
        let ghost prefix = orders0.take(k as int);
        let ghost hits_before = hits;
        assert(orders0.take(k + 1).drop_last() =~= prefix);
        assert(orders0.take(k + 1).last() == o);
        let open: i64 = o.request.qty as i64 - o.filled_qty as i64;
        if open <= 0 {
            proof {
                hits = hits.push(false);
            }
        } else {
            let crossing: bool = match o.request.side {
                Side::Buy => {
                    let p = match o.request.price {
                        Some(p) => p,
                        None => best_ask,
                    };
                    p >= best_ask
                },
                Side::Sell => {
                    let p = match o.request.price {
                        Some(p) => p,
                        None => best_bid,
                    };
                    p <= best_bid
                },
            };
            let mut fill_now = false;
            let mut maker_taker = MakerTaker::Maker;
            if crossing {
                fill_now = true;
                maker_taker = MakerTaker::Taker;
            } else {
                let queue_ahead: Qty = match o.request.side {
                    Side::Buy => {
                        let p = match o.request.price {
                            Some(p) => p,
                            None => best_bid,
                        };
                        size_at_first_reaching(&state.book.bids, p, Side::Buy)
                    },
                    Side::Sell => {
                        let p = match o.request.price {
                            Some(p) => p,
                            None => best_ask,
                        };
                        size_at_first_reaching(&state.book.asks, p, Side::Sell)
                    },
                };
                let scale: i128 = crate::types::QTY_SCALE as i128;
                let chance: i128 = BASE_FILL_PROBABILITY * scale / (scale + queue_ahead as i128);
                let fill_prob: i128 = if chance < MAX_FILL_PROBABILITY {
                    chance
                } else {
                    MAX_FILL_PROBABILITY
                };
                let u = draws[k];
                proof {
                    assert(fill_prob == spec_fill_chance(o, state.book));
                }
                if u < fill_prob {
                    fill_now = true;
                }
            }
            proof {
                hits = hits.push(fill_now);
            }
            if fill_now {
                let fill_qty = fill_qty_of(&o);
                let total: u64 = o.filled_qty as u64 + fill_qty as u64;
                let filled: Qty = if total > u32::MAX as u64 {
                    u32::MAX
                } else {
                    total as Qty
                };
                let price: Price = match o.request.price {
                    Some(p) => p,
                    None => mid,
                };
                let fill = Fill {
                    order_id: o.id,
                    instrument: o.request.instrument.clone(),
                    side: o.request.side,
                    price,
                    qty: fill_qty,
                    ts: now,
                    maker_taker,
                    mid_price: mid,
                };
                let status = if filled >= o.request.qty {
                    OrderStatus::Filled
                } else {
                    OrderStatus::PartiallyFilled
                };
                let updated = Order { filled_qty: filled, update_ts: now, status, ..o };
                assert(updated == spec_after_fill(o, spec_fill_qty(o), now));
                assert(crossing == spec_crossing(o.request, best_bid, best_ask));
                assert(fill == spec_fill_of(o, maker_taker, mid, now));
                fills.push(fill);
                kept.push(updated);
            } else {
                kept.push(o);
            }
        }
        proof {
            let p1 = orders0.take(k + 1);
            assert forall|j: int| 0 <= j < k + 1 implies #[trigger] hits[j] == drawn_hits(
                orders0,
                state.book,
                draws@,
            )[j] by {
                if j < k {
                    assert(hits[j] == hits_before[j]);
                }
            }
            assert(hits.drop_last() =~= hits_before);
            assert(p1.drop_last() =~= prefix);
            assert(matched_orders(p1, hits, now) == {
                let prev = matched_orders(prefix, hits_before, now);
                if o.spec_open_qty() <= 0 {
                    prev
                } else if hits.last() {
                    prev.push(spec_after_fill(o, spec_fill_qty(o), now))
                } else {
                    prev.push(o)
                }
            });
            assert(kept@ == matched_orders(p1, hits, now));
            assert(fills@ == matched_fills(p1, hits, best_bid, best_ask, now));
            assert forall|j: int|
                0 <= j < p1.len() && p1[j].spec_open_qty() > 0 && spec_crossing(
                    p1[j].request,
                    best_bid,
                    best_ask,
                ) implies #[trigger] hits[j] by {
                if j < k {
                    assert(p1[j] == prefix[j]);
                }
            }
        }
        k = k + 1;
    }
    assert(orders0.take(k as int) =~= orders0);
    assert(hits =~= drawn_hits(orders0, state.book, draws@));
    state.open_orders = kept;
    fills
}

/// One matching round of the simulated venue: crossing orders fill at once
/// as takers, resting orders fill as makers with a chance that shrinks with
/// the displayed size ahead of them, and fully filled orders leave the book.
/// A draw is made for each resting order with lots open.
pub fn match_orders(state: &mut SimInstrumentState) -> (r: Vec<Fill>)
    ensures
        final(state).book == old(state).book,
        final(state).trades@ == old(state).trades@,
        exists|now: Millis, draws: Seq<i128>|
            #![trigger drawn_hits(old(state).open_orders@, old(state).book, draws), matched_orders(old(state).open_orders@, drawn_hits(old(state).open_orders@, old(state).book, draws), now)]
            draws.len() == old(state).open_orders@.len() && unit_draws(draws) && hits_allowed(
                old(state).open_orders@,
                drawn_hits(old(state).open_orders@, old(state).book, draws),
                best_bid_price(old(state).book),
                best_ask_price(old(state).book),
            ) && hits_follow_draws(
                old(state).open_orders@,
                drawn_hits(old(state).open_orders@, old(state).book, draws),
                old(state).book,
                draws,
            ) && final(state).open_orders@ == matched_orders(
                old(state).open_orders@,
                drawn_hits(old(state).open_orders@, old(state).book, draws),
                now,
            ) && r@ == matched_fills(
                old(state).open_orders@,
                drawn_hits(old(state).open_orders@, old(state).book, draws),
                best_bid_price(old(state).book),
                best_ask_price(old(state).book),
                now,
            ),
{
    let now = now_millis();
    let best_bid: Price = if state.book.bids.len() > 0 {
        state.book.bids[0].price
    } else {
        0
    };
    let best_ask: Price = if state.book.asks.len() > 0 {
        state.book.asks[0].price
    } else {
        0
    };
    let mut draws: Vec<i128> = Vec::new();
    let mut k: usize = 0;
    while k < state.open_orders.len()
        invariant
            state.open_orders@ == old(state).open_orders@,
            state.book == old(state).book,
            state.trades@ == old(state).trades@,
            k <= state.open_orders@.len(),
            draws@.len() == k,
            unit_draws(draws@),
        decreases state.open_orders@.len() - k,
    {
        let open: bool = state.open_orders[k].request.qty > state.open_orders[k].filled_qty;
        let crossing: bool = crossing_of(&state.open_orders[k].request, best_bid, best_ask);
        let ghost d0 = draws@;
        if open && !crossing {
            let u = unit_draw(&mut state.rng);
            draws.push(u);
        } else {
            draws.push(0);
        }
        proof {
            assert forall|i: int| 0 <= i < draws@.len() implies 0 <= #[trigger] draws@[i] < FIXED_ONE by {
                if i < k {
                    assert(draws@[i] == d0[i]);
                }
            }
        }
        k = k + 1;
    }
    match_with_draws(state, &draws, now)
}

/// Whether an order would trade at once (see `spec_crossing`).
fn crossing_of(req: &OrderRequest, best_bid: Price, best_ask: Price) -> (r: bool)
    ensures
        r == spec_crossing(*req, best_bid, best_ask),
{
    match req.side {
        Side::Buy => {
            let p = match req.price {
                Some(p) => p,
                None => best_ask,
            };
            p >= best_ask
        },
        Side::Sell => {
            let p = match req.price {
                Some(p) => p,
                None => best_bid,
            };
            p <= best_bid
        },
    }
}

/// Mid-price of a book, or `default` when a side is empty.
pub open spec fn mid_or(book: BookSnapshot, default: Price) -> Price {
    match spec_mid(book) {
        Some(m) => m,
        None => default,
    }
}

/// New mid-price after a random-walk step: `mid * (1 + (u - 1/2) * volatility)`
/// for a uniform fixed-point draw `u`, rounded toward zero and kept between
/// the lowest simulated price and the largest price.
pub open spec fn spec_new_mid(mid: Price, volatility: i64, u: int) -> Price {
    let one2 = FIXED_ONE * FIXED_ONE;
    let m = trunc_div(mid * (one2 + (u - HALF) * volatility), one2 as int);
    if m < MIN_SIM_PRICE {
        MIN_SIM_PRICE
    } else {
        clamp_price(m)
    }
}

/// Size of an ordinary simulated trade for a uniform fixed-point draw `u`:
/// `(u * 0.8 + 0.2) * liquidity / 10`, rounded down.
pub open spec fn spec_trade_qty(liquidity: Qty, u: int) -> int {
    liquidity * (8 * u + 2 * FIXED_ONE) / (100 * FIXED_ONE)
}

/// Trade slots per tick: the trade rate times the tick length, rounded up;
/// none for a rate that is not positive.
pub open spec fn spec_trade_slots(config: SimulationConfig) -> int {
    if config.trade_rate_per_sec <= 0 {
        0
    } else {
        let n = (config.trade_rate_per_sec * config.tick_interval_ms + 1000 * FIXED_ONE - 1) / (
        1000 * FIXED_ONE);
        if n > usize::MAX {
            usize::MAX as int
        } else {
            n
        }
    }
}

/// A simulated trade printed on a book: at the best ask for a buy, at the best
/// bid for a sell, of an ordinary or iceberg size.
pub open spec fn trade_fits(t: Trade, book: BookSnapshot, config: SimulationConfig) -> bool {
    &&& t.instrument == book.instrument
    &&& t.ts == book.ts
    &&& book.bids@.len() > 0
    &&& book.asks@.len() > 0
    &&& t.price == if t.side == Side::Buy {
        book.asks@[0].price
    } else {
        book.bids@[0].price
    }
    &&& (t.qty == ICEBERG_TRADE_QTY || (spec_trade_qty(config.level_liquidity, 0) <= t.qty
        <= spec_trade_qty(config.level_liquidity, FIXED_ONE as int)))
}

pub fn new_mid_of(mid: Price, volatility: i64, u: i128) -> (r: Price)
    requires
        0 <= u < FIXED_ONE,
    ensures
        r == spec_new_mid(mid, volatility, u as int),
{
    let one2: i128 = FIXED_ONE * FIXED_ONE;
    let d: i128 = u - HALF;
    proof {
        lemma_mul_within(d as int, volatility as int, 0x4000000, 0x8000000000000000);
        assert(0x4000000 * 0x8000000000000000 == 0x20000000000000000000000);
        lemma_mul_within(
            mid as int,
            one2 + d * volatility,
            u32::MAX as int,
            0x40000000000000000000000,
        );
    }
    let num: i128 = (mid as i128) * (one2 + d * (volatility as i128));
    let m: i128 = div_trunc(num, one2);
    if m < MIN_SIM_PRICE as i128 {
        MIN_SIM_PRICE
    } else {
        clamp_to_price(m)
    }
}

fn trade_qty_of(liquidity: Qty, u: i128) -> (r: Qty)
    requires
        0 <= u < FIXED_ONE,
    ensures
        r == spec_trade_qty(liquidity, u as int),
        spec_trade_qty(liquidity, 0) <= r <= spec_trade_qty(liquidity, FIXED_ONE as int),
{
    proof {
        assert(0 <= liquidity * (8 * u + 2 * FIXED_ONE) <= (u32::MAX as int) * (10 * FIXED_ONE))
            by (nonlinear_arith)
            requires
                0 <= liquidity <= u32::MAX,
                0 <= u < FIXED_ONE,
        ;
        assert(liquidity * (8 * u + 2 * FIXED_ONE) / (100 * FIXED_ONE) <= u32::MAX)
            by (nonlinear_arith)
            requires
                0 <= liquidity * (8 * u + 2 * FIXED_ONE) <= (u32::MAX as int) * (10
                    * FIXED_ONE),
        ;
        assert(liquidity * (8 * 0 + 2 * FIXED_ONE) <= liquidity * (8 * u + 2 * FIXED_ONE)
            <= liquidity * (8 * FIXED_ONE + 2 * FIXED_ONE)) by (nonlinear_arith)
            requires
                0 <= liquidity,
                0 <= u < FIXED_ONE,
        ;
        vstd::arithmetic::div_mod::lemma_div_is_ordered(
            liquidity * (8 * 0 + 2 * FIXED_ONE),
            liquidity * (8 * u + 2 * FIXED_ONE),
            100 * FIXED_ONE,
        );
        vstd::arithmetic::div_mod::lemma_div_is_ordered(
            liquidity * (8 * u + 2 * FIXED_ONE),
            liquidity * (8 * FIXED_ONE + 2 * FIXED_ONE),
            100 * FIXED_ONE,
        );
    }
    ((liquidity as i128) * (8 * u + 2 * FIXED_ONE) / (100 * FIXED_ONE)) as Qty
}

fn trade_slots(config: &SimulationConfig) -> (r: usize)
    ensures
        r == spec_trade_slots(*config),
{
    if config.trade_rate_per_sec <= 0 {
        return 0;
    }
    let rate: u128 = config.trade_rate_per_sec as u128;
    proof {
        assert(rate * config.tick_interval_ms <= 0x8000000000000000 * 0x10000000000000000)
            by (nonlinear_arith)
            requires
                0 < rate < 0x8000000000000000,
                0 <= config.tick_interval_ms < 0x10000000000000000,
        ;
    }
    let denom: u128 = 1000 * (FIXED_ONE as u128);
    let n: u128 = (rate * (config.tick_interval_ms as u128) + denom - 1) / denom;
    if n > usize::MAX as u128 {
        usize::MAX
    } else {
        n as usize
    }
}

/// Builds the opening book of an instrument around the base price.
pub fn initial_book(instrument: InstrumentId, config: &SimulationConfig, rng: &mut StdRng) -> (r: BookSnapshot)
    ensures
        r.instrument == instrument,
        levels_laid_out(r.bids@, r.asks@, config.base_price, *config),
{
    let (bids, asks) = build_levels(config.base_price, config, rng);
    BookSnapshot { instrument, bids, asks, ts: now_millis() }
}

/// Prints `count` trades of `qty` lots at the best price of `side`.
fn print_trades(
    state: &mut SimInstrumentState,
    events: &mut Vec<MarketDataEvent>,
    side: Side,
    qty: Qty,
) -> (t: Trade)
    requires
        old(state).book.bids@.len() > 0,
        old(state).book.asks@.len() > 0,
    ensures
        final(state).book == old(state).book,
        final(state).open_orders@ == old(state).open_orders@,
        t.instrument == old(state).book.instrument,
        t.ts == old(state).book.ts,
        t.side == side,
        t.qty == qty,
        t.price == if side == Side::Buy {
            old(state).book.asks@[0].price
        } else {
            old(state).book.bids@[0].price
        },
        final(state).trades@ == old(state).trades@.push(t),
        final(events)@ == old(events)@.push(MarketDataEvent::Trade(t)),
{
    let price = match side {
        Side::Buy => state.book.asks[0].price,
        Side::Sell => state.book.bids[0].price,
    };
    let trade = Trade {
        instrument: state.book.instrument.clone(),
        price,
        qty,
        side,
        ts: state.book.ts,
    };
    state.trades.push_back(trade.clone());
    events.push(MarketDataEvent::Trade(trade.clone()));
    trade
}

/// The side of a simulated trade for a uniform draw `u`: a buy when `u` is
/// above one half, else a sell.
pub open spec fn drawn_side(u: int) -> Side {
    if u > HALF {
        Side::Buy
    } else {
        Side::Sell
    }
}

/// A trade of `qty` lots on `side` printed at the touch of `book`: at the
/// best ask for a buy, at the best bid for a sell.
pub open spec fn touch_trade(book: BookSnapshot, side: Side, qty: Qty) -> Trade {
    Trade {
        instrument: book.instrument,
        price: if side == Side::Buy {
            book.asks@[0].price
        } else {
            book.bids@[0].price
        },
        qty,
        side,
        ts: book.ts,
    }
}

/// Trades printed by the trade slots of a tick, for uniform draws
/// `(print, side, size)` per slot: a slot prints when its first draw is below
/// 0.6, on the side of its second draw, with the size of its third.
pub open spec fn slot_trades(
    book: BookSnapshot,
    config: SimulationConfig,
    draws: Seq<(i128, i128, i128)>,
) -> Seq<Trade>
    decreases draws.len(),
{
    if draws.len() == 0 {
        Seq::empty()
    } else {
        let prev = slot_trades(book, config, draws.drop_last());
        let d = draws.last();
        if d.0 < TRADE_PROBABILITY {
            prev.push(
                touch_trade(
                    book,
                    drawn_side(d.1 as int),
                    spec_trade_qty(config.level_liquidity, d.2 as int) as Qty,
                ),
            )
        } else {
            prev
        }
    }
}

/// Iceberg trades of a tick for uniform draws `(print, side)`: five slices
/// of `ICEBERG_TRADE_QTY` lots on the side of the second draw when the first
/// draw is below the iceberg probability, none otherwise.
pub open spec fn iceberg_trades(book: BookSnapshot, config: SimulationConfig, d: (i128, i128)) -> Seq<
    Trade,
> {
    if d.0 < config.iceberg_probability {
        Seq::new(
            ICEBERG_TRADE_COUNT as nat,
            |i: int| touch_trade(book, drawn_side(d.1 as int), ICEBERG_TRADE_QTY),
        )
    } else {
        Seq::empty()
    }
}

/// Whether every draw of the trade slots lies in `[0, 1)`.
pub open spec fn slot_draws_valid(draws: Seq<(i128, i128, i128)>) -> bool {
    forall|i: int|
        0 <= i < draws.len() ==> 0 <= (#[trigger] draws[i]).0 < FIXED_ONE && 0 <= draws[i].1
            < FIXED_ONE && 0 <= draws[i].2 < FIXED_ONE
}

/// The tape of `s1` is that of `s0` followed by the trades that the draws
/// print on the book of `s1`: one draw triple per trade slot, then the
/// iceberg draws.
pub open spec fn tape_follows_draws(
    s0: SimInstrumentState,
    s1: SimInstrumentState,
    config: SimulationConfig,
    slots: Seq<(i128, i128, i128)>,
    ice: (i128, i128),
) -> bool {
    &&& slots.len() == spec_trade_slots(config)
    &&& slot_draws_valid(slots)
    &&& 0 <= ice.0 < FIXED_ONE
    &&& 0 <= ice.1 < FIXED_ONE
    &&& s1.trades@ == s0.trades@ + slot_trades(s1.book, config, slots) + iceberg_trades(
        s1.book,
        config,
        ice,
    )
}

/// A tape printed from draws never holds more than one trade per slot plus
/// one iceberg.
pub proof fn lemma_tape_length(
    book: BookSnapshot,
    config: SimulationConfig,
    slots: Seq<(i128, i128, i128)>,
    ice: (i128, i128),
)
    ensures
        slot_trades(book, config, slots).len() <= slots.len(),
        iceberg_trades(book, config, ice).len() <= ICEBERG_TRADE_COUNT,
    decreases slots.len(),
{
    if slots.len() > 0 {
        lemma_tape_length(book, config, slots.drop_last(), ice);
    }
}

/// Prints the trades of a tick on the book for given draws: each slot prints
/// when its first draw is below 0.6, on the side and with the size its other
/// draws give; then an iceberg of five slices prints when the first iceberg
/// draw is below the iceberg probability. Returns one trade event per trade
/// printed, in order.
pub fn print_tape(
    state: &mut SimInstrumentState,
    config: &SimulationConfig,
    slots: &Vec<(i128, i128, i128)>,
    ice: (i128, i128),
) -> (r: Vec<MarketDataEvent>)
    requires
        old(state).book.bids@.len() > 0,
        old(state).book.asks@.len() > 0,
        slot_draws_valid(slots@),
        0 <= ice.0 < FIXED_ONE,
        0 <= ice.1 < FIXED_ONE,
    ensures
        final(state).book == old(state).book,
        final(state).open_orders@ == old(state).open_orders@,
        final(state).trades@ == old(state).trades@ + slot_trades(old(state).book, *config, slots@)
            + iceberg_trades(old(state).book, *config, ice),
        r@.len() == final(state).trades@.len() - old(state).trades@.len(),
        forall|i: int|
            0 <= i < r@.len() ==> #[trigger] r@[i] == MarketDataEvent::Trade(
                final(state).trades@[old(state).trades@.len() + i],
            ) && trade_fits(
                final(state).trades@[old(state).trades@.len() + i],
                old(state).book,
                *config,
            ),
{
    let ghost book = state.book;
    let ghost trades0 = state.trades@;
    let ghost orders0 = state.open_orders@;
    let ghost t0 = trades0.len();
    let mut events: Vec<MarketDataEvent> = Vec::new();
    let mut n: usize = 0;
    while n < slots.len()
        invariant
            state.book == book,
            state.open_orders@ == orders0,
            book.bids@.len() > 0,
            book.asks@.len() > 0,
            n <= slots@.len(),
            slot_draws_valid(slots@),
            state.trades@ == trades0 + slot_trades(book, *config, slots@.take(n as int)),
            events@.len() == state.trades@.len() - t0,
            forall|i: int|
                0 <= i < events@.len() ==> #[trigger] events@[i] == MarketDataEvent::Trade(
                    state.trades@[t0 + i],
                ) && trade_fits(state.trades@[t0 + i], book, *config),
        decreases slots@.len() - n,
    {
        let (d0, d1, d2) = slots[n];
        proof {
            assert(slots@.take(n + 1).drop_last() =~= slots@.take(n as int));
            assert(slots@.take(n + 1).last() == slots@[n as int]);
            assert(0 <= slots@[n as int].2 < FIXED_ONE);
        }
        if d0 < TRADE_PROBABILITY {
            let side = if d1 > HALF {
                Side::Buy
            } else {
                Side::Sell
            };
            let qty = trade_qty_of(config.level_liquidity, d2);
            let ghost ev0 = events@;
            let ghost tr0 = state.trades@;
            let t = print_trades(state, &mut events, side, qty);
            proof {
                assert(t == touch_trade(
                    book,
                    drawn_side(d1 as int),
                    spec_trade_qty(config.level_liquidity, d2 as int) as Qty,
                ));
                assert(state.trades@ =~= trades0 + slot_trades(book, *config, slots@.take(n + 1)));
                assert forall|i: int| 0 <= i < events@.len() implies #[trigger] events@[i]
                    == MarketDataEvent::Trade(state.trades@[t0 + i]) && trade_fits(
                    state.trades@[t0 + i],
                    book,
                    *config,
                ) by {
                    if i < ev0.len() {
                        assert(events@[i] == ev0[i]);
                        assert(state.trades@[t0 + i] == tr0[t0 + i]);
                    }
                }
            }
        } else {
            proof {
                assert(state.trades@ =~= trades0 + slot_trades(book, *config, slots@.take(n + 1)));
            }
        }
        n = n + 1;
    }
    proof {
        assert(slots@.take(n as int) =~= slots@);
    }
    let ghost st = slot_trades(book, *config, slots@);
    if ice.0 < config.iceberg_probability as i128 {
        let side = if ice.1 > HALF {
            Side::Buy
        } else {
            Side::Sell
        };
        proof {
            assert(state.trades@ =~= trades0 + st + Seq::new(
                0,
                |i: int| touch_trade(book, side, ICEBERG_TRADE_QTY),
            ));
        }
        let mut j: usize = 0;
        while j < ICEBERG_TRADE_COUNT
            invariant
                state.book == book,
                state.open_orders@ == orders0,
                book.bids@.len() > 0,
                book.asks@.len() > 0,
                j <= ICEBERG_TRADE_COUNT,
                state.trades@ == trades0 + st + Seq::new(
                    j as nat,
                    |i: int| touch_trade(book, side, ICEBERG_TRADE_QTY),
                ),
                events@.len() == state.trades@.len() - t0,
                forall|i: int|
                    0 <= i < events@.len() ==> #[trigger] events@[i] == MarketDataEvent::Trade(
                        state.trades@[t0 + i],
                    ) && trade_fits(state.trades@[t0 + i], book, *config),
            decreases ICEBERG_TRADE_COUNT - j,
        {
            let ghost ev0 = events@;
            let ghost tr0 = state.trades@;
            let t = print_trades(state, &mut events, side, ICEBERG_TRADE_QTY);
            proof {
                assert(t == touch_trade(book, side, ICEBERG_TRADE_QTY));
                assert(state.trades@ =~= trades0 + st + Seq::new(
                    (j + 1) as nat,
                    |i: int| touch_trade(book, side, ICEBERG_TRADE_QTY),
                ));
                assert forall|i: int| 0 <= i < events@.len() implies #[trigger] events@[i]
                    == MarketDataEvent::Trade(state.trades@[t0 + i]) && trade_fits(
                    state.trades@[t0 + i],
                    book,
                    *config,
                ) by {
                    if i < ev0.len() {
                        assert(events@[i] == ev0[i]);
                        assert(state.trades@[t0 + i] == tr0[t0 + i]);
                    }
                }
            }
            j = j + 1;
        }
        proof {
            assert(side == drawn_side(ice.1 as int));
            assert(iceberg_trades(book, *config, ice) =~= Seq::new(
                ICEBERG_TRADE_COUNT as nat,
                |i: int| touch_trade(book, side, ICEBERG_TRADE_QTY),
            ));
        }
    } else {
        proof {
            assert(state.trades@ =~= trades0 + st + iceberg_trades(book, *config, ice));
        }
    }
    events
}

/// One market step of an instrument's venue state: `s0` becomes `s1` while
/// `events` and `fills` go out. The book is rebuilt around a random-walk step
/// of the mid-price, the first event is that book, each further event is a
/// trade appended to the tape and printed at the touch as the draws decide,
/// and the resting orders are matched against the new book.
pub open spec fn market_step(
    config: SimulationConfig,
    s0: SimInstrumentState,
    s1: SimInstrumentState,
    events: Seq<MarketDataEvent>,
    fills: Seq<Fill>,
) -> bool {
    &&& s1.book.instrument == s0.book.instrument
    &&& exists|u: int|
        0 <= u < FIXED_ONE && #[trigger] levels_laid_out(
            s1.book.bids@,
            s1.book.asks@,
            spec_new_mid(mid_or(s0.book, config.base_price), config.price_volatility, u),
            config,
        )
    &&& events.len() >= 1
    &&& events[0] matches MarketDataEvent::Book(b) && b.instrument == s1.book.instrument
        && b.bids@ == s1.book.bids@ && b.asks@ == s1.book.asks@ && b.ts == s1.book.ts
    &&& s1.trades@.len() == s0.trades@.len() + events.len() - 1
    &&& s1.trades@.subrange(0, s0.trades@.len() as int) == s0.trades@
    &&& events.len() - 1 <= spec_trade_slots(config) + ICEBERG_TRADE_COUNT
    &&& forall|i: int|
        1 <= i < events.len() ==> #[trigger] events[i] == MarketDataEvent::Trade(
            s1.trades@[s0.trades@.len() + i - 1],
        ) && trade_fits(s1.trades@[s0.trades@.len() + i - 1], s1.book, config)
    &&& exists|slots: Seq<(i128, i128, i128)>, ice: (i128, i128)|
        #[trigger] tape_follows_draws(s0, s1, config, slots, ice)
    &&& exists|now: Millis, hits: Seq<bool>, draws: Seq<i128>|
        #![trigger matched_orders(s0.open_orders@, hits, now), hits_follow_draws(s0.open_orders@, hits, s1.book, draws)]
        hits_allowed(s0.open_orders@, hits, best_bid_price(s1.book), best_ask_price(s1.book))
            && hits_follow_draws(s0.open_orders@, hits, s1.book, draws)
            && s1.open_orders@ == matched_orders(s0.open_orders@, hits, now) && fills
            == matched_fills(
            s0.open_orders@,
            hits,
            best_bid_price(s1.book),
            best_ask_price(s1.book),
            now,
        )
}

/// A market step keeps the identifiers of the resting orders distinct.
pub proof fn lemma_market_step_distinct(
    config: SimulationConfig,
    s0: SimInstrumentState,
    s1: SimInstrumentState,
    events: Seq<MarketDataEvent>,
    fills: Seq<Fill>,
)
    requires
        market_step(config, s0, s1, events, fills),
        ids_distinct(s0.open_orders@),
    ensures
        ids_distinct(s1.open_orders@),
{
    let (now, hits, draws) = choose|now: Millis, hits: Seq<bool>, draws: Seq<i128>|
        #![trigger matched_orders(s0.open_orders@, hits, now), hits_follow_draws(s0.open_orders@, hits, s1.book, draws)]
        hits_allowed(s0.open_orders@, hits, best_bid_price(s1.book), best_ask_price(s1.book))
            && hits_follow_draws(s0.open_orders@, hits, s1.book, draws)
            && s1.open_orders@ == matched_orders(s0.open_orders@, hits, now) && fills
            == matched_fills(
            s0.open_orders@,
            hits,
            best_bid_price(s1.book),
            best_ask_price(s1.book),
            now,
        );
    lemma_matched_distinct(s0.open_orders@, hits, now);
}

/// One tick of the simulated market: the mid-price takes a random step, the
/// book is rebuilt around it, random trades (and sometimes an iceberg) print
/// at the touch, and resting orders are matched. Returns the market-data
/// events in the order they occur, then the fills.
pub fn update_market_state(config: &SimulationConfig, state: &mut SimInstrumentState) -> (r: (
    Vec<MarketDataEvent>,
    Vec<Fill>,
))
    ensures
        market_step(*config, *old(state), *final(state), r.0@, r.1@),
{
    let now = now_millis();
    let mid: Price = match mid_price(&state.book) {
        Some(m) => m,
        None => config.base_price,
    };
    let u = unit_draw(&mut state.rng);
    let new_mid = new_mid_of(mid, config.price_volatility, u);
    let (bids, asks) = build_levels(new_mid, config, &mut state.rng);
    state.book = BookSnapshot { instrument: state.book.instrument.clone(), bids, asks, ts: now };
    let ghost book = state.book;
    assert(levels_laid_out(
        book.bids@,
        book.asks@,
        spec_new_mid(mid_or(old(state).book, config.base_price), config.price_volatility, u as int),
        *config,
    ));
    let ghost trades0 = state.trades@;
    let ghost orders0 = state.open_orders@;
    let mut events: Vec<MarketDataEvent> = Vec::new();
    events.push(MarketDataEvent::Book(state.book.clone()));
    let slots = trade_slots(config);
    let mut slot_draws: Vec<(i128, i128, i128)> = Vec::new();
    let ghost ev_start = events@;
    let mut n: usize = 0;
    while n < slots
        invariant
            state.book == book,
            state.open_orders@ == orders0,
            state.trades@ == trades0,
            events@ == ev_start,
            n <= slots,
            slot_draws@.len() == n,
            slot_draws_valid(slot_draws@),
        decreases slots - n,
    {
        let print_draw = unit_draw(&mut state.rng);
        let ghost sd0 = slot_draws@;
        if print_draw < TRADE_PROBABILITY {
            let side_draw = unit_draw(&mut state.rng);
            let size_draw = unit_draw(&mut state.rng);
            slot_draws.push((print_draw, side_draw, size_draw));
        } else {
            slot_draws.push((print_draw, 0, 0));
        }
        proof {
            assert forall|i: int| 0 <= i < slot_draws@.len() implies 0 <= (
            #[trigger] slot_draws@[i]).0 < FIXED_ONE && 0 <= slot_draws@[i].1 < FIXED_ONE && 0
                <= slot_draws@[i].2 < FIXED_ONE by {
                if i < n {
                    assert(slot_draws@[i] == sd0[i]);
                }
            }
        }
        n = n + 1;
    }
    let iceberg_draw = unit_draw(&mut state.rng);
    let iceberg_side_draw: i128 = if iceberg_draw < config.iceberg_probability as i128 {
        unit_draw(&mut state.rng)
    } else {
        0
    };
    let ice = (iceberg_draw, iceberg_side_draw);
    let mut printed = print_tape(state, config, &slot_draws, ice);
    let ghost ev0 = events@;
    let ghost pr = printed@;
    events.append(&mut printed);
    proof {
        let t0 = old(state).trades@.len();
        assert(trades0.len() == t0);
        assert forall|i: int| 1 <= i < events@.len() implies #[trigger] events@[i]
            == MarketDataEvent::Trade(state.trades@[t0 + i - 1]) && trade_fits(
            state.trades@[t0 + i - 1],
            book,
            *config,
        ) by {
            assert(events@[i] == pr[i - 1]);
        }
        lemma_tape_length(book, *config, slot_draws@, ice);
        assert(state.trades@.subrange(0, t0 as int) =~= trades0);
    }
    assert(tape_follows_draws(*old(state), *state, *config, slot_draws@, ice));
    let fills = match_orders(state);
    assert(levels_laid_out(
        state.book.bids@,
        state.book.asks@,
        spec_new_mid(mid_or(old(state).book, config.base_price), config.price_volatility, u as int),
        *config,
    ));
    assert(tape_follows_draws(*old(state), *state, *config, slot_draws@, ice));
    (events, fills)
}

/// Index of the first order with the given identifier, or -1.
pub open spec fn index_of_id(orders: Seq<Order>, id: OrderId) -> int
    decreases orders.len(),
{
    if orders.len() == 0 {
        -1
    } else if orders[0].id == id {
        0
    } else {
        let k = index_of_id(orders.drop_first(), id);
        if k < 0 {
            -1
        } else {
            k + 1
        }
    }
}

/// Orders after storing `o` under its identifier: it replaces the order with
/// the same identifier, or joins the end.
pub open spec fn upsert(orders: Seq<Order>, o: Order) -> Seq<Order> {
    let k = index_of_id(orders, o.id);
    if k >= 0 {
        orders.update(k, o)
    } else {
        orders.push(o)
    }
}

/// No two orders share an identifier.
pub open spec fn ids_distinct(orders: Seq<Order>) -> bool {
    forall|a: int, b: int|
        0 <= a < b < orders.len() ==> #[trigger] orders[a].id != #[trigger] orders[b].id
}

/// Whether some order carries identifier `id`.
pub open spec fn has_id(orders: Seq<Order>, id: OrderId) -> bool {
    exists|j: int| 0 <= j < orders.len() && #[trigger] orders[j].id == id
}

/// Orders that keep their identifiers keep them distinct.
pub proof fn lemma_same_ids_distinct(a: Seq<Order>, b: Seq<Order>)
    requires
        ids_distinct(a),
        a.len() == b.len(),
        forall|i: int| 0 <= i < a.len() ==> #[trigger] b[i].id == a[i].id,
    ensures
        ids_distinct(b),
{
    assert forall|x: int, y: int| 0 <= x < y < b.len() implies #[trigger] b[x].id != #[trigger] b[y].id by {
        assert(b[x].id == a[x].id);
        assert(b[y].id == a[y].id);
    }
}

pub proof fn lemma_upsert_distinct(orders: Seq<Order>, o: Order)
    requires
        ids_distinct(orders),
    ensures
        ids_distinct(upsert(orders, o)),
{
    lemma_index_of_id(orders, o.id);
    let k = index_of_id(orders, o.id);
    let u = upsert(orders, o);
    assert forall|a: int, b: int| 0 <= a < b < u.len() implies #[trigger] u[a].id != #[trigger] u[b].id by {
        if k >= 0 {
            if a != k {
                assert(u[a] == orders[a]);
            }
            if b != k {
                assert(u[b] == orders[b]);
            }
        } else {
            if b == orders.len() {
                assert(u[a] == orders[a]);
                assert(orders[a].id != o.id);
            } else {
                assert(u[a] == orders[a]);
                assert(u[b] == orders[b]);
            }
        }
    }
}

pub proof fn lemma_remove_distinct(orders: Seq<Order>, i: int)
    requires
        ids_distinct(orders),
        0 <= i < orders.len(),
    ensures
        ids_distinct(orders.remove(i)),
{
    let r = orders.remove(i);
    assert forall|a: int, b: int| 0 <= a < b < r.len() implies #[trigger] r[a].id != #[trigger] r[b].id by {
        let a1 = if a < i { a } else { a + 1 };
        let b1 = if b < i { b } else { b + 1 };
        assert(r[a] == orders[a1]);
        assert(r[b] == orders[b1]);
    }
}

/// A matching round keeps identifiers distinct: the orders left are some of
/// the orders before, in order, under their own identifiers.
pub proof fn lemma_matched_distinct(orders: Seq<Order>, hits: Seq<bool>, now: Millis)
    requires
        ids_distinct(orders),
    ensures
        ids_distinct(matched_orders(orders, hits, now)),
        forall|x: int|
            0 <= x < matched_orders(orders, hits, now).len() ==> has_id(
                orders,
                #[trigger] matched_orders(orders, hits, now)[x].id,
            ),
    decreases orders.len(),
{
    if orders.len() > 0 {
        let dl = orders.drop_last();
        assert forall|a: int, b: int| 0 <= a < b < dl.len() implies #[trigger] dl[a].id != #[trigger] dl[b].id by {
            assert(dl[a] == orders[a]);
            assert(dl[b] == orders[b]);
        }
        lemma_matched_distinct(dl, hits.drop_last(), now);
        let prev = matched_orders(dl, hits.drop_last(), now);
        let o = orders.last();
        let m = matched_orders(orders, hits, now);
        assert forall|x: int| 0 <= x < prev.len() implies has_id(orders, #[trigger] prev[x].id)
            && prev[x].id != o.id by {
            assert(has_id(dl, prev[x].id));
            let j = choose|j: int| 0 <= j < dl.len() && #[trigger] dl[j].id == prev[x].id;
            assert(orders[j] == dl[j]);
            assert(orders[j].id != orders[orders.len() - 1].id);
        }
        if o.spec_open_qty() > 0 {
            let o1 = if hits.last() {
                spec_after_fill(o, spec_fill_qty(o), now)
            } else {
                o
            };
            assert(m == prev.push(o1));
            assert(o1.id == o.id);
            assert forall|a: int, b: int| 0 <= a < b < m.len() implies #[trigger] m[a].id != #[trigger] m[b].id by {
                assert(m[a] == prev[a]);
                if b < prev.len() {
                    assert(m[b] == prev[b]);
                }
            }
            assert forall|x: int| 0 <= x < m.len() implies has_id(orders, #[trigger] m[x].id) by {
                if x < prev.len() {
                    assert(m[x] == prev[x]);
                } else {
                    assert(orders[orders.len() - 1].id == m[x].id);
                }
            }
        }
    }
}

pub proof fn lemma_index_of_id(orders: Seq<Order>, id: OrderId)
    ensures
        -1 <= index_of_id(orders, id) < orders.len(),
        index_of_id(orders, id) >= 0 ==> orders[index_of_id(orders, id)].id == id,
        forall|j: int|
            0 <= j < orders.len() && (index_of_id(orders, id) < 0 || j < index_of_id(orders, id))
                ==> #[trigger] orders[j].id != id,
    decreases orders.len(),
{
    if orders.len() > 0 && orders[0].id != id {
        lemma_index_of_id(orders.drop_first(), id);
        assert forall|j: int|
            0 <= j < orders.len() && (index_of_id(orders, id) < 0 || j < index_of_id(orders, id))
                implies #[trigger] orders[j].id != id by {
            if j > 0 {
                assert(orders[j] == orders.drop_first()[j - 1]);
            }
        }
    }
}

/// Position of the first order with the given identifier.
pub fn find_order_index(orders: &Vec<Order>, id: OrderId) -> (r: Option<usize>)
    ensures
        match r {
            Some(k) => k == index_of_id(orders@, id),
            None => index_of_id(orders@, id) == -1,
        },
{
    proof {
        lemma_index_of_id(orders@, id);
    }
    let mut i: usize = 0;
    while i < orders.len()
        invariant
            i <= orders@.len(),
            forall|j: int| 0 <= j < i ==> #[trigger] orders@[j].id != id,
        decreases orders@.len() - i,
    {
        if orders[i].id == id {
            proof {
                lemma_index_of_id(orders@, id);
                let idx = index_of_id(orders@, id);
                if 0 <= idx < i {
                    assert(orders@[idx].id != id);
                }
                assert(orders@[i as int].id == id);
            }
            return Some(i);
        }
        i = i + 1;
    }
    None
}

/// Stores an order under its identifier (see `upsert`).
pub fn upsert_order(orders: &mut Vec<Order>, o: Order)
    ensures
        final(orders)@ == upsert(old(orders)@, o),
{
    proof {
        lemma_index_of_id(orders@, o.id);
    }
    match find_order_index(orders, o.id) {
        Some(k) => {
            orders.set(k, o);
        },
        None => {
            orders.push(o);
        },
    }
}

/// Index of the first venue state whose book is for `instrument`, or -1.
pub open spec fn state_index(states: Seq<SimInstrumentState>, instrument: InstrumentId) -> int
    decreases states.len(),
{
    if states.len() == 0 {
        -1
    } else if states[0].book.instrument@ == instrument@ {
        0
    } else {
        let k = state_index(states.drop_first(), instrument);
        if k < 0 {
            -1
        } else {
            k + 1
        }
    }
}

#[verifier::spinoff_prover]
pub proof fn lemma_state_index(states: Seq<SimInstrumentState>, instrument: InstrumentId)
    ensures
        -1 <= state_index(states, instrument) < states.len(),
        state_index(states, instrument) >= 0 ==> states[state_index(
            states,
            instrument,
        )].book.instrument@ == instrument@,
        forall|j: int|
            0 <= j < states.len() && (state_index(states, instrument) < 0 || j < state_index(
                states,
                instrument,
            )) ==> #[trigger] states[j].book.instrument@ != instrument@,
    decreases states.len(),
{
    if states.len() > 0 && states[0].book.instrument@ != instrument@ {
        lemma_state_index(states.drop_first(), instrument);
        assert forall|j: int|
            0 <= j < states.len() && (state_index(states, instrument) < 0 || j < state_index(
                states,
                instrument,
            )) implies #[trigger] states[j].book.instrument@ != instrument@ by {
            if j > 0 {
                assert(states[j] == states.drop_first()[j - 1]);
            }
        }
    }
}

fn find_state(states: &Vec<SimInstrumentState>, instrument: &InstrumentId) -> (r: Option<usize>)
    ensures
        match r {
            Some(k) => k == state_index(states@, *instrument),
            None => state_index(states@, *instrument) == -1,
        },
{
    proof {
        lemma_state_index(states@, *instrument);
    }
    let mut i: usize = 0;
    while i < states.len()
        invariant
            i <= states@.len(),
            forall|j: int| 0 <= j < i ==> #[trigger] states@[j].book.instrument@ != instrument@,
        decreases states@.len() - i,
    {
        if states[i].book.instrument.same_as(instrument) {
            proof {
                lemma_state_index(states@, *instrument);
                let idx = state_index(states@, *instrument);
                if 0 <= idx < i {
                    assert(states@[idx].book.instrument@ != instrument@);
                }
                assert(states@[i as int].book.instrument@ == instrument@);
            }
            return Some(i);
        }
        i = i + 1;
    }
    None
}

/// The simulated venue: one book, trade tape and order list per instrument.
pub struct MockExchangeEngine {
    pub config: SimulationConfig,
    pub instruments: Vec<InstrumentId>,
    pub states: Vec<SimInstrumentState>,
}

impl MockExchangeEngine {
    /// Accepts an order: a post-only order that would cross is refused, an
    /// order for an unknown instrument finds the venue unavailable, any other
    /// order rests with a fresh identifier.
    pub fn place_order(&mut self, request: OrderRequest) -> (r: Result<Order, ExchangeError>)
        ensures
            old(self).wf() ==> final(self).wf(),
            final(self).config == old(self).config,
            final(self).instruments@ == old(self).instruments@,
            final(self).states@.len() == old(self).states@.len(),
            ({
                let k = state_index(old(self).states@, request.instrument);
                if k < 0 {
                    r == Err::<Order, ExchangeError>(ExchangeError::Unavailable)
                        && final(self).states@ == old(self).states@
                } else if request.post_only && spec_crossing(
                    request,
                    best_bid_price(old(self).states@[k].book),
                    best_ask_price(old(self).states@[k].book),
                ) {
                    r == Err::<Order, ExchangeError>(ExchangeError::PostOnlyWouldCross)
                        && final(self).states@ == old(self).states@
                } else {
                    &&& r matches Ok(o) && o.request == request && o.status == OrderStatus::New
                        && o.filled_qty == 0 && o.create_ts == o.update_ts
                        && final(self).states@[k].open_orders@ == upsert(
                        old(self).states@[k].open_orders@,
                        o,
                    )
                    &&& final(self).states@[k].book == old(self).states@[k].book
                    &&& final(self).states@[k].trades@ == old(self).states@[k].trades@
                    &&& forall|j: int|
                        0 <= j < old(self).states@.len() && j != k
                            ==> #[trigger] final(self).states@[j] == old(self).states@[j]
                }
            }),
    {
        proof {
            lemma_state_index(self.states@, request.instrument);
        }
        let k = match find_state(&self.states, &request.instrument) {
            Some(k) => k,
            None => return Err(ExchangeError::Unavailable),
        };
        let best_bid: Price = if self.states[k].book.bids.len() > 0 {
            self.states[k].book.bids[0].price
        } else {
            0
        };
        let best_ask: Price = if self.states[k].book.asks.len() > 0 {
            self.states[k].book.asks[0].price
        } else {
            0
        };
        let crossing = match request.side {
            Side::Buy => {
                let p = match request.price {
                    Some(p) => p,
                    None => best_ask,
                };
                p >= best_ask
            },
            Side::Sell => {
                let p = match request.price {
                    Some(p) => p,
                    None => best_bid,
                };
                p <= best_bid
            },
        };
        if request.post_only && crossing {
            return Err(ExchangeError::PostOnlyWouldCross);
        }
        let now = now_millis();
        let order = Order {
            id: new_order_id(),
            request,
            status: OrderStatus::New,
            filled_qty: 0,
            create_ts: now,
            update_ts: now,
        };
        let stored = order.clone();
        let ghost before = self.states@;
        let state = &mut self.states[k];
        upsert_order(&mut state.open_orders, stored);
        proof {
            if states_wf(before) {
                let after = self.states@;
                lemma_upsert_distinct(before[k as int].open_orders@, stored);
                assert forall|j: int| 0 <= j < after.len() implies ids_distinct(
                    #[trigger] after[j].open_orders@,
                ) by {
                    if j != k {
                        assert(after[j] == before[j]);
                    }
                }
                assert forall|j: int| 0 <= j < before.len() implies #[trigger] after[j].book.instrument
                    == before[j].book.instrument by {
                    if j != k {
                        assert(after[j] == before[j]);
                    }
                }
                lemma_states_wf_step(before, after);
            }
        }
        Ok(order)
    }
}

/// Index of the first venue state that holds an order with identifier `id`,
/// or -1.
pub open spec fn holder_index(states: Seq<SimInstrumentState>, id: OrderId) -> int
    decreases states.len(),
{
    if states.len() == 0 {
        -1
    } else if index_of_id(states[0].open_orders@, id) >= 0 {
        0
    } else {
        let k = holder_index(states.drop_first(), id);
        if k < 0 {
            -1
        } else {
            k + 1
        }
    }
}

pub proof fn lemma_holder_index(states: Seq<SimInstrumentState>, id: OrderId)
    ensures
        -1 <= holder_index(states, id) < states.len(),
        holder_index(states, id) >= 0 ==> index_of_id(
            states[holder_index(states, id)].open_orders@,
            id,
        ) >= 0,
        forall|j: int|
            0 <= j < states.len() && (holder_index(states, id) < 0 || j < holder_index(states, id))
                ==> index_of_id(#[trigger] states[j].open_orders@, id) < 0,
    decreases states.len(),
{
    if states.len() > 0 && index_of_id(states[0].open_orders@, id) < 0 {
        lemma_holder_index(states.drop_first(), id);
        assert forall|j: int|
            0 <= j < states.len() && (holder_index(states, id) < 0 || j < holder_index(states, id))
                implies index_of_id(#[trigger] states[j].open_orders@, id) < 0 by {
            if j > 0 {
                assert(states[j] == states.drop_first()[j - 1]);
            }
        }
    }
}

/// `state_index` only looks at the instruments of the states.
pub proof fn lemma_state_index_same_instruments(
    s1: Seq<SimInstrumentState>,
    s2: Seq<SimInstrumentState>,
    instrument: InstrumentId,
)
    requires
        s1.len() == s2.len(),
        forall|j: int| 0 <= j < s1.len() ==> #[trigger] s1[j].book.instrument@ == s2[j].book.instrument@,
    ensures
        state_index(s1, instrument) == state_index(s2, instrument),
    decreases s1.len(),
{
    if s1.len() > 0 {
        assert forall|j: int| 0 <= j < s1.drop_first().len() implies #[trigger] s1.drop_first()[j].book.instrument@
            == s2.drop_first()[j].book.instrument@ by {
            assert(s1.drop_first()[j] == s1[j + 1]);
            assert(s2.drop_first()[j] == s2[j + 1]);
        }
        lemma_state_index_same_instruments(s1.drop_first(), s2.drop_first(), instrument);
        assert(s1[0].book.instrument@ == s2[0].book.instrument@);
    }
}

/// `state_index` only looks at the view of the instrument sought.
pub proof fn lemma_state_index_views_equal(
    states: Seq<SimInstrumentState>,
    a: InstrumentId,
    b: InstrumentId,
)
    requires
        a@ == b@,
    ensures
        state_index(states, a) == state_index(states, b),
    decreases states.len(),
{
    if states.len() > 0 {
        lemma_state_index_views_equal(states.drop_first(), a, b);
    }
}

/// Where an instrument is found after a state joins the end.
pub proof fn lemma_state_index_push(
    states: Seq<SimInstrumentState>,
    x: SimInstrumentState,
    instrument: InstrumentId,
)
    ensures
        state_index(states.push(x), instrument) == if state_index(states, instrument) >= 0 {
            state_index(states, instrument)
        } else if x.book.instrument@ == instrument@ {
            states.len() as int
        } else {
            -1
        },
    decreases states.len(),
{
    if states.len() > 0 {
        assert(states.push(x).drop_first() =~= states.drop_first().push(x));
        assert(states.push(x)[0] == states[0]);
        lemma_state_index_push(states.drop_first(), x, instrument);
    } else {
        assert(states.push(x).drop_first() =~= Seq::<SimInstrumentState>::empty());
        assert(states.push(x)[0] == x);
        assert(state_index(Seq::<SimInstrumentState>::empty(), instrument) == -1);
    }
}

/// Every instrument has a venue state, and no two states share an instrument.
pub open spec fn states_cover(states: Seq<SimInstrumentState>, instruments: Seq<InstrumentId>) -> bool {
    &&& forall|i: int| 0 <= i < instruments.len() ==> state_index(states, #[trigger] instruments[i]) >= 0
    &&& forall|j: int| 0 <= j < states.len() ==> state_index(states, #[trigger] states[j].book.instrument) == j
}

/// A venue state as the venue opens it: no resting orders, an empty tape,
/// and a book laid out around the base price.
pub open spec fn fresh_state(s: SimInstrumentState, config: SimulationConfig) -> bool {
    &&& s.open_orders@.len() == 0
    &&& s.trades@.len() == 0
    &&& levels_laid_out(s.book.bids@, s.book.asks@, config.base_price, config)
}

/// Consistency of the venue's states: one state per instrument, and within
/// a state no two resting orders share an identifier.
pub open spec fn states_wf(states: Seq<SimInstrumentState>) -> bool {
    &&& forall|j: int|
        0 <= j < states.len() ==> state_index(states, #[trigger] states[j].book.instrument) == j
    &&& forall|j: int| 0 <= j < states.len() ==> ids_distinct(#[trigger] states[j].open_orders@)
}

/// States whose books keep their instruments and whose order lists keep
/// distinct identifiers stay consistent.
pub proof fn lemma_states_wf_step(before: Seq<SimInstrumentState>, after: Seq<SimInstrumentState>)
    requires
        states_wf(before),
        after.len() == before.len(),
        forall|j: int|
            0 <= j < before.len() ==> #[trigger] after[j].book.instrument == before[j].book.instrument,
        forall|j: int| 0 <= j < after.len() ==> ids_distinct(#[trigger] after[j].open_orders@),
    ensures
        states_wf(after),
{
    assert forall|j: int| 0 <= j < after.len() implies state_index(
        after,
        #[trigger] after[j].book.instrument,
    ) == j by {
        assert forall|q: int| 0 <= q < before.len() implies #[trigger] before[q].book.instrument@
            == after[q].book.instrument@ by {
            assert(after[q].book.instrument == before[q].book.instrument);
        }
        lemma_state_index_same_instruments(before, after, after[j].book.instrument);
        assert(after[j].book.instrument == before[j].book.instrument);
    }
}

impl MockExchangeEngine {
    pub open spec fn wf(&self) -> bool {
        states_wf(self.states@)
    }
}

impl MockExchangeEngine {
    /// Opens the venue: each instrument gets an opening book around the base
    /// price, built from a generator seeded with the configured seed.
    #[verifier::rlimit(100)]
    pub fn new(config: SimulationConfig, instruments: Vec<InstrumentId>) -> (r: Self)
        ensures
            r.config == config,
            r.instruments@ == instruments@,
            states_cover(r.states@, instruments@),
            forall|j: int|
                0 <= j < r.states@.len() ==> fresh_state(#[trigger] r.states@[j], config),
            r.wf(),
    {
        let mut states: Vec<SimInstrumentState> = Vec::new();
        let mut i: usize = 0;
        while i < instruments.len()
            invariant
                i <= instruments@.len(),
                states_cover(states@, instruments@.take(i as int)),
                forall|j: int|
                    0 <= j < states@.len() ==> fresh_state(#[trigger] states@[j], config),
            decreases instruments@.len() - i,
        {
            let instrument = instruments[i].clone();
            let mut rng = seeded_rng(config.seed);
            let book = initial_book(instrument.clone(), &config, &mut rng);
            let fresh = SimInstrumentState {
                book,
                trades: VecDeque::new(),
                open_orders: Vec::new(),
                rng,
            };
            let ghost before = states@;
            proof {
                lemma_state_index(before, instrument);
                assert(levels_laid_out(fresh.book.bids@, fresh.book.asks@, config.base_price, config));
            }
            match find_state(&states, &instrument) {
                Some(k) => {
                    states.set(k, fresh);
                },
                None => {
                    states.push(fresh);
                },
            }
            proof {
                let after = states@;
                let prefix = instruments@.take(i as int);
                let p1 = instruments@.take(i + 1);
                assert(fresh.book.instrument == instrument);
                if state_index(before, instrument) >= 0 {
                    let k = state_index(before, instrument);
                    assert(after == before.update(k, fresh));
                    assert forall|j: int| 0 <= j < before.len() implies #[trigger] before[j].book.instrument@
                        == after[j].book.instrument@ by {
                        if j == k {
                            assert(before[k].book.instrument@ == instrument@);
                        }
                    }
                    assert forall|t: int| 0 <= t < p1.len() implies state_index(after, #[trigger] p1[t]) >= 0 by {
                        lemma_state_index_same_instruments(before, after, p1[t]);
                        if t < i {
                            assert(p1[t] == prefix[t]);
                        }
                    }
                    assert forall|j: int| 0 <= j < after.len() implies state_index(after, #[trigger] after[j].book.instrument) == j by {
                        lemma_state_index_same_instruments(before, after, after[j].book.instrument);
                        lemma_state_index_same_instruments(before, after, before[j].book.instrument);
                        assert(state_index(before, before[j].book.instrument) == j);
                        lemma_state_index(before, before[j].book.instrument);
                        lemma_state_index(before, after[j].book.instrument);
                        lemma_state_index_views_equal(before, before[j].book.instrument, after[j].book.instrument);
                    }
                } else {
                    assert(after == before.push(fresh));
                    assert forall|t: int| 0 <= t < p1.len() implies state_index(after, #[trigger] p1[t]) >= 0 by {
                        lemma_state_index_push(before, fresh, p1[t]);
                        if t < i {
                            assert(p1[t] == prefix[t]);
                        }
                    }
                    assert forall|j: int| 0 <= j < after.len() implies state_index(after, #[trigger] after[j].book.instrument) == j by {
                        lemma_state_index_push(before, fresh, after[j].book.instrument);
                        if j < before.len() {
                            assert(after[j] == before[j]);
                        }
                    }
                }
                assert forall|j: int| 0 <= j < after.len() implies fresh_state(#[trigger] after[j], config) by {
                    let k = state_index(before, instrument);
                    if (k >= 0 && j == k) || j == before.len() {
                        assert(after[j] == fresh);
                    } else {
                        assert(after[j] == before[j]);
                    }
                }
            }
            i = i + 1;
        }
        assert(instruments@.take(i as int) =~= instruments@);
        let ghost st = states@;
        assert forall|j: int| 0 <= j < st.len() implies ids_distinct(#[trigger] st[j].open_orders@) by {
            assert(fresh_state(st[j], config));
        }
        assert(states_wf(st));
        let r = MockExchangeEngine { config, instruments, states };
        assert(r.states@ == st);
        assert forall|j: int| 0 <= j < r.states@.len() implies fresh_state(#[trigger] r.states@[j], config) by {
            assert(r.states@[j] == st[j]);
        }
        r
    }

    /// Cancels an order wherever it rests.
    pub fn cancel_order(&mut self, order_id: OrderId) -> (r: Result<(), ExchangeError>)
        ensures
            old(self).wf() ==> final(self).wf(),
            final(self).config == old(self).config,
            final(self).instruments@ == old(self).instruments@,
            final(self).states@.len() == old(self).states@.len(),
            ({
                let h = holder_index(old(self).states@, order_id);
                if h < 0 {
                    r == Err::<(), ExchangeError>(ExchangeError::OrderNotFound)
                        && final(self).states@ == old(self).states@
                } else {
                    &&& r == Ok::<(), ExchangeError>(())
                    &&& final(self).states@[h].open_orders@ == old(self).states@[h].open_orders@.remove(
                        index_of_id(old(self).states@[h].open_orders@, order_id),
                    )
                    &&& final(self).states@[h].book == old(self).states@[h].book
                    &&& final(self).states@[h].trades@ == old(self).states@[h].trades@
                    &&& forall|j: int|
                        0 <= j < old(self).states@.len() && j != h
                            ==> #[trigger] final(self).states@[j] == old(self).states@[j]
                }
            }),
    {
        proof {
            lemma_holder_index(self.states@, order_id);
        }
        let mut i: usize = 0;
        while i < self.states.len()
            invariant
                self.states@ == old(self).states@,
                self.config == old(self).config,
                self.instruments@ == old(self).instruments@,
                i <= self.states@.len(),
                forall|j: int|
                    0 <= j < i ==> index_of_id(#[trigger] self.states@[j].open_orders@, order_id) < 0,
            decreases self.states@.len() - i,
        {
            match find_order_index(&self.states[i].open_orders, order_id) {
                Some(k) => {
                    proof {
                        lemma_holder_index(self.states@, order_id);
                        lemma_index_of_id(self.states@[i as int].open_orders@, order_id);
                        let h = holder_index(self.states@, order_id);
                        if 0 <= h < i {
                            assert(index_of_id(self.states@[h].open_orders@, order_id) < 0);
                        }
                        assert(h == i);
                    }
                    let ghost before = self.states@;
                    let state = &mut self.states[i];
                    let _ = state.open_orders.remove(k);
                    proof {
                        if states_wf(before) {
                            let after = self.states@;
                            lemma_remove_distinct(before[i as int].open_orders@, k as int);
                            assert forall|j: int| 0 <= j < after.len() implies ids_distinct(
                                #[trigger] after[j].open_orders@,
                            ) by {
                                if j != i {
                                    assert(after[j] == before[j]);
                                }
                            }
                            assert forall|j: int| 0 <= j < before.len() implies #[trigger] after[j].book.instrument
                                == before[j].book.instrument by {
                                if j != i {
                                    assert(after[j] == before[j]);
                                }
                            }
                            lemma_states_wf_step(before, after);
                        }
                    }
                    return Ok(());
                },
                None => {},
            }
            i = i + 1;
        }
        proof {
            lemma_holder_index(self.states@, order_id);
            let h = holder_index(self.states@, order_id);
            if h >= 0 {
                assert(index_of_id(self.states@[h].open_orders@, order_id) < 0);
            }
        }
        Err(ExchangeError::OrderNotFound)
    }

    /// One tick of the venue: every instrument's market moves and its resting
    /// orders are matched; returns the market-data events and the fills of all
    /// instruments, instrument by instrument.
    pub fn tick(&mut self) -> (r: (Vec<MarketDataEvent>, Vec<Fill>))
        ensures
            old(self).wf() ==> final(self).wf(),
            final(self).config == old(self).config,
            final(self).instruments@ == old(self).instruments@,
            final(self).states@.len() == old(self).states@.len(),
            forall|j: int|
                0 <= j < old(self).states@.len() ==> #[trigger] final(self).states@[j].book.instrument
                    == old(self).states@[j].book.instrument,
            exists|trace: Seq<Seq<SimInstrumentState>>, evs: Seq<Seq<MarketDataEvent>>, fls: Seq<Seq<Fill>>|
                #![trigger tick_trace(old(self).config, old(self).instruments@, trace, evs, fls)]
                tick_trace(old(self).config, old(self).instruments@, trace, evs, fls)
                    && trace[0] == old(self).states@
                    && trace.last() == final(self).states@
                    && r.0@ == evs.flatten()
                    && r.1@ == fls.flatten(),
    {
        let mut events: Vec<MarketDataEvent> = Vec::new();
        let mut fills: Vec<Fill> = Vec::new();
        let ghost mut trace: Seq<Seq<SimInstrumentState>> = seq![self.states@];
        let ghost mut evs: Seq<Seq<MarketDataEvent>> = Seq::empty();
        let ghost mut fls: Seq<Seq<Fill>> = Seq::empty();
        let mut i: usize = 0;
        while i < self.instruments.len()
            invariant
                self.config == old(self).config,
                self.instruments@ == old(self).instruments@,
                self.states@.len() == old(self).states@.len(),
                i <= self.instruments@.len(),
                forall|j: int|
                    0 <= j < old(self).states@.len() ==> #[trigger] self.states@[j].book.instrument
                        == old(self).states@[j].book.instrument,
                old(self).wf() ==> states_wf(self.states@),
                trace.len() == i + 1,
                evs.len() == i,
                fls.len() == i,
                trace[0] == old(self).states@,
                trace[i as int] == self.states@,
                forall|q: int|
                    #![trigger evs[q]]
                    0 <= q < i ==> tick_step(
                        self.config,
                        self.instruments@[q],
                        trace[q],
                        trace[q + 1],
                        evs[q],
                        fls[q],
                    ),
                events@ == evs.flatten(),
                fills@ == fls.flatten(),
            decreases self.instruments@.len() - i,
        {
            let ghost before = self.states@;
            let ghost trace0 = trace;
            let ghost evs0 = evs;
            let ghost fls0 = fls;
            match find_state(&self.states, &self.instruments[i]) {
                Some(k) => {
                    proof {
                        lemma_state_index(self.states@, self.instruments@[i as int]);
                    }
                    let config = self.config;
                    let (mut ev, mut fl) = update_market_state(&config, &mut self.states[k]);
                    assert forall|j: int|
                        0 <= j < old(self).states@.len() implies #[trigger] self.states@[j].book.instrument
                            == old(self).states@[j].book.instrument by {
                        if j != k {
                            assert(self.states@[j] == before[j]);
                        }
                    }
                    proof {
                        if states_wf(before) {
                            lemma_market_step_distinct(config, before[k as int], self.states@[k as int], ev@, fl@);
                            assert forall|j: int| 0 <= j < self.states@.len() implies ids_distinct(
                                #[trigger] self.states@[j].open_orders@,
                            ) by {
                                if j != k {
                                    assert(self.states@[j] == before[j]);
                                }
                            }
                            assert forall|j: int| 0 <= j < before.len() implies #[trigger] self.states@[j].book.instrument
                                == before[j].book.instrument by {
                                if j != k {
                                    assert(self.states@[j] == before[j]);
                                }
                            }
                            lemma_states_wf_step(before, self.states@);
                        }
                        trace = trace.push(self.states@);
                        evs = evs.push(ev@);
                        fls = fls.push(fl@);
                        evs0.lemma_flatten_push(ev@);
                        fls0.lemma_flatten_push(fl@);
                        assert(tick_step(config, self.instruments@[i as int], before, self.states@, ev@, fl@));
                    }
                    events.append(&mut ev);
                    fills.append(&mut fl);
                },
                None => {
                    proof {
                        trace = trace.push(self.states@);
                        evs = evs.push(Seq::empty());
                        fls = fls.push(Seq::empty());
                        evs0.lemma_flatten_push(Seq::empty());
                        fls0.lemma_flatten_push(Seq::empty());
                        assert(evs0.flatten() + Seq::<MarketDataEvent>::empty() =~= evs0.flatten());
                        assert(fls0.flatten() + Seq::<Fill>::empty() =~= fls0.flatten());
                    }
                },
            }
            proof {
                assert forall|q: int|
                    #![trigger evs[q]]
                    0 <= q < i + 1 implies tick_step(
                        self.config,
                        self.instruments@[q],
                        trace[q],
                        trace[q + 1],
                        evs[q],
                        fls[q],
                    ) by {
                    if q < i {
                        assert(evs[q] == evs0[q]);
                        assert(fls[q] == fls0[q]);
                        assert(trace[q] == trace0[q]);
                        assert(trace[q + 1] == trace0[q + 1]);
                    }
                }
            }
            i = i + 1;
        }
        assert(tick_trace(old(self).config, old(self).instruments@, trace, evs, fls));
        (events, fills)
    }
}

/// One instrument's part of a venue tick: the state of `instrument` in
/// `before`, if there is one, takes a market step emitting `events` and
/// `fills`, and the other states stay; without one nothing changes.
pub open spec fn tick_step(
    config: SimulationConfig,
    instrument: InstrumentId,
    before: Seq<SimInstrumentState>,
    after: Seq<SimInstrumentState>,
    events: Seq<MarketDataEvent>,
    fills: Seq<Fill>,
) -> bool {
    let k = state_index(before, instrument);
    if k < 0 {
        after == before && events.len() == 0 && fills.len() == 0
    } else {
        &&& after.len() == before.len()
        &&& forall|j: int| 0 <= j < before.len() && j != k ==> #[trigger] after[j] == before[j]
        &&& market_step(config, before[k], after[k], events, fills)
    }
}

/// The states of a venue tick, step by step: `trace[i + 1]` follows from
/// `trace[i]` by the step of `instruments[i]`, which emits `events[i]` and
/// `fills[i]`.
pub open spec fn tick_trace(
    config: SimulationConfig,
    instruments: Seq<InstrumentId>,
    trace: Seq<Seq<SimInstrumentState>>,
    events: Seq<Seq<MarketDataEvent>>,
    fills: Seq<Seq<Fill>>,
) -> bool {
    &&& trace.len() == instruments.len() + 1
    &&& events.len() == instruments.len()
    &&& fills.len() == instruments.len()
    &&& forall|q: int|
        #![trigger events[q]]
        0 <= q < instruments.len() ==> tick_step(
            config,
            instruments[q],
            trace[q],
            trace[q + 1],
            events[q],
            fills[q],
        )
}

} // verus!
