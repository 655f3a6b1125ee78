use std::collections::VecDeque;

use vstd::prelude::*;

use crate::clock::now_millis;
use crate::fixed::{fixed_ratio, lemma_count_times_u32, opt_int, ratio_fixed, BPS, FIXED_ONE};
use crate::types::{BookLevel, BookSnapshot, InstrumentId, Price, Qty, Side, Trade};

verus! {

/// Mid-price of a book: the midpoint of best bid and best ask, rounded down
/// to a whole tick; `None` when either side is empty.
pub open spec fn spec_mid(book: BookSnapshot) -> Option<Price> {
    if book.bids@.len() > 0 && book.asks@.len() > 0 {
        Some(((book.bids@[0].price + book.asks@[0].price) / 2) as Price)
    } else {
        None
    }
}

pub fn mid_price(snapshot: &BookSnapshot) -> (r: Option<Price>)
    ensures
        r == spec_mid(*snapshot),
{
    if snapshot.bids.len() > 0 && snapshot.asks.len() > 0 {
        let bid: u64 = snapshot.bids[0].price as u64;
        let ask: u64 = snapshot.asks[0].price as u64;
        Some(((bid + ask) / 2) as Price)
    } else {
        None
    }
}

/// The trades left once those at the front older than `cutoff` are dropped.
pub open spec fn pruned(s: Seq<Trade>, cutoff: int) -> Seq<Trade>
    decreases s.len(),
{
    if s.len() > 0 && s[0].ts < cutoff {
        pruned(s.drop_first(), cutoff)
    } else {
        s
    }
}

/// Total size of a list of book levels.
pub open spec fn sum_sizes(levels: Seq<BookLevel>) -> int
    decreases levels.len(),
{
    if levels.len() == 0 {
        0
    } else {
        sum_sizes(levels.drop_last()) + levels.last().size
    }
}

/// Total quantity of the trades on one side.
pub open spec fn side_volume(trades: Seq<Trade>, side: Side) -> int
    decreases trades.len(),
{
    if trades.len() == 0 {
        0
    } else {
        side_volume(trades.drop_last(), side) + if trades.last().side == side {
            trades.last().qty as int
        } else {
            0
        }
    }
}

/// Number of trades at `price` whose quantity is at most `max_size`.
pub open spec fn small_trades_at(trades: Seq<Trade>, price: Price, max_size: Qty) -> int
    decreases trades.len(),
{
    if trades.len() == 0 {
        0
    } else {
        small_trades_at(trades.drop_last(), price, max_size) + if trades.last().price == price
            && trades.last().qty <= max_size {
            1int
        } else {
            0
        }
    }
}

/// Index of the last trade whose quantity is at least `threshold`, or -1.
pub open spec fn last_large_index(trades: Seq<Trade>, threshold: Qty) -> int
    decreases trades.len(),
{
    if trades.len() == 0 {
        -1
    } else if trades.last().qty >= threshold {
        trades.len() - 1
    } else {
        last_large_index(trades.drop_last(), threshold)
    }
}

/// Index of the first level whose price does not lie beyond `price` on the
/// given side (at or below it for bids, at or above it for asks), or the
/// number of levels when there is none.
pub open spec fn first_reaching(levels: Seq<BookLevel>, price: Price, side: Side) -> int
    decreases levels.len(),
{
    if levels.len() == 0 {
        0
    } else if (side == Side::Buy && levels[0].price <= price) || (side == Side::Sell
        && levels[0].price >= price) {
        0
    } else {
        1 + first_reaching(levels.drop_first(), price, side)
    }
}

/// Whether some level's size is above the average level size times the
/// fixed-point `multiplier`, compared exactly:
/// `size * len * FIXED_ONE > total * multiplier`.
pub open spec fn side_has_large(levels: Seq<BookLevel>, multiplier: int) -> bool {
    exists|i: int|
        0 <= i < levels.len() && #[trigger] levels[i].size * levels.len() * FIXED_ONE
            > sum_sizes(levels) * multiplier
}

pub proof fn lemma_sum_sizes_bound(levels: Seq<BookLevel>)
    ensures
        0 <= sum_sizes(levels) <= levels.len() * (u32::MAX as int),
    decreases levels.len(),
{
    if levels.len() > 0 {
        lemma_sum_sizes_bound(levels.drop_last());
    }
}

pub proof fn lemma_side_volume_bound(trades: Seq<Trade>, side: Side)
    ensures
        0 <= side_volume(trades, side) <= trades.len() * (u32::MAX as int),
    decreases trades.len(),
{
    if trades.len() > 0 {
        lemma_side_volume_bound(trades.drop_last(), side);
    }
}

pub proof fn lemma_small_trades_bound(trades: Seq<Trade>, price: Price, max_size: Qty)
    ensures
        0 <= small_trades_at(trades, price, max_size) <= trades.len(),
    decreases trades.len(),
{
    if trades.len() > 0 {
        lemma_small_trades_bound(trades.drop_last(), price, max_size);
    }
}

pub proof fn lemma_last_large_index(trades: Seq<Trade>, threshold: Qty)
    ensures
        -1 <= last_large_index(trades, threshold) < trades.len(),
        last_large_index(trades, threshold) >= 0 ==> trades[last_large_index(
            trades,
            threshold,
        )].qty >= threshold,
        forall|j: int|
            last_large_index(trades, threshold) < j < trades.len() ==> #[trigger] trades[j].qty
                < threshold,
    decreases trades.len(),
{
    if trades.len() > 0 && trades.last().qty < threshold {
        lemma_last_large_index(trades.drop_last(), threshold);
        assert forall|j: int|
            last_large_index(trades, threshold) < j < trades.len() implies #[trigger] trades[j].qty
                < threshold by {
            if j < trades.len() - 1 {
                assert(trades[j] == trades.drop_last()[j]);
            }
        }
    }
}

pub proof fn lemma_first_reaching(levels: Seq<BookLevel>, price: Price, side: Side)
    ensures
        0 <= first_reaching(levels, price, side) <= levels.len(),
        forall|j: int|
            0 <= j < first_reaching(levels, price, side) ==> #[trigger] levels[j].price != price
                && !((side == Side::Buy && levels[j].price <= price) || (side == Side::Sell
                && levels[j].price >= price)),
        first_reaching(levels, price, side) < levels.len() ==> ({
            let k = first_reaching(levels, price, side);
            (side == Side::Buy && levels[k].price <= price) || (side == Side::Sell
                && levels[k].price >= price)
        }),
    decreases levels.len(),
{
    if levels.len() > 0 && !((side == Side::Buy && levels[0].price <= price) || (side
        == Side::Sell && levels[0].price >= price)) {
        lemma_first_reaching(levels.drop_first(), price, side);
        assert forall|j: int|
            0 <= j < first_reaching(levels, price, side) implies #[trigger] levels[j].price
                != price && !((side == Side::Buy && levels[j].price <= price) || (side
                == Side::Sell && levels[j].price >= price)) by {
            if j > 0 {
                assert(levels[j] == levels.drop_first()[j - 1]);
            }
        }
    }
}

/// Sum of the sizes of the first `n` levels.
fn sum_first_sizes(levels: &Vec<BookLevel>, n: usize) -> (r: u128)
    requires
        n <= levels.len(),
    ensures
        r == sum_sizes(levels@.take(n as int)),
        r <= n * (u32::MAX as int),
{
    let mut total: u128 = 0;
    let mut i: usize = 0;
    while i < n
        invariant
            i <= n <= levels.len(),
            total == sum_sizes(levels@.take(i as int)),
            total <= i * (u32::MAX as int),
        decreases n - i,
    {
        assert(levels@.take(i + 1).drop_last() =~= levels@.take(i as int));
        total = total + levels[i].size as u128;
        i = i + 1;
    }
    total
}

/// Whether some level is large against the average of `levels` (see
/// `side_has_large`).
fn levels_have_large(levels: &Vec<BookLevel>, multiplier: i128) -> (r: bool)
    ensures
        r == side_has_large(levels@, multiplier as int),
{
    let n = levels.len();
    let total = sum_first_sizes(levels, n);
    assert(levels@.take(n as int) =~= levels@);
    proof {
        lemma_count_times_u32(n as int, total as int);
    }
    let threshold: Option<i128> = (total as i128).checked_mul(multiplier);
    let mut i: usize = 0;
    while i < n
        invariant
            n == levels@.len(),
            total == sum_sizes(levels@),
            0 <= total < 0x1000000000000000000000000,
            threshold == (total as i128).checked_mul(multiplier),
            forall|j: int|
                0 <= j < i ==> !(#[trigger] levels@[j].size * levels@.len() * FIXED_ONE
                    > sum_sizes(levels@) * multiplier),
        decreases n - i,
    {
        let size: i128 = levels[i].size as i128;
        proof {
            assert(size * (n as int) <= (u32::MAX as int) * (usize::MAX as int)) by (nonlinear_arith)
                requires
                    0 <= size <= u32::MAX,
                    0 <= n <= usize::MAX,
            ;
            assert(0 <= size * (n as int)) by (nonlinear_arith)
                requires
                    0 <= size,
                    0 <= n,
            ;
        }
        let lhs: i128 = size * (n as i128) * FIXED_ONE;
        let qualifies: bool = match threshold {
            Some(t) => lhs > t,
            None => multiplier < 0,
        };
        proof {
            let ghost sz = levels@[i as int].size as int;
            let ghost len = levels@.len() as int;
            assert(lhs == sz * len * FIXED_ONE);
            let ghost prod = (total as int) * (multiplier as int);
            if threshold is None {
                if multiplier < 0 {
                    assert(prod <= 0) by (nonlinear_arith)
                        requires
                            total >= 0,
                            multiplier < 0,
                            prod == (total as int) * (multiplier as int),
                    ;
                } else {
                    assert(prod >= 0) by (nonlinear_arith)
                        requires
                            total >= 0,
                            multiplier >= 0,
                            prod == (total as int) * (multiplier as int),
                    ;
                }
            }
            assert(qualifies == (sz * len * FIXED_ONE > prod));
        }
        if qualifies {
            assert(levels@[i as int].size * levels@.len() * FIXED_ONE > sum_sizes(levels@)
                * multiplier);
            return true;
        }
        i = i + 1;
    }
    false
}

/// Number of trades at `price` of at most `max_size` lots.
fn count_small_trades(trades: &VecDeque<Trade>, price: Price, max_size: Qty) -> (r: usize)
    ensures
        r == small_trades_at(trades@, price, max_size),
{
    let mut count: usize = 0;
    let mut i: usize = 0;
    while i < trades.len()
        invariant
            i <= trades@.len(),
            count == small_trades_at(trades@.take(i as int), price, max_size),
            count <= i,
        decreases trades@.len() - i,
    {
        assert(trades@.take(i + 1).drop_last() =~= trades@.take(i as int));
        if trades[i].price == price && trades[i].qty <= max_size {
            count = count + 1;
        }
        i = i + 1;
    }
    assert(trades@.take(i as int) =~= trades@);
    count
}

/// Size displayed at exactly `price`, searching from the best level until a
/// level reaches `price` (see `first_reaching`).
fn queue_at(levels: &Vec<BookLevel>, price: Price, side: Side) -> (r: Option<Qty>)
    ensures
        r == ({
            let k = first_reaching(levels@, price, side);
            if k < levels@.len() && levels@[k].price == price {
                Some(levels@[k].size)
            } else {
                None
            }
        }),
{
    proof {
        lemma_first_reaching(levels@, price, side);
    }
    let ghost k = first_reaching(levels@, price, side);
    let mut i: usize = 0;
    while i < levels.len()
        invariant
            i <= levels@.len(),
            i <= k,
            k == first_reaching(levels@, price, side),
            0 <= k <= levels@.len(),
            forall|j: int|
                0 <= j < k ==> #[trigger] levels@[j].price != price && !((side == Side::Buy
                    && levels@[j].price <= price) || (side == Side::Sell && levels@[j].price
                    >= price)),
            k < levels@.len() ==> ((side == Side::Buy && levels@[k].price <= price) || (side
                == Side::Sell && levels@[k].price >= price)),
        decreases levels@.len() - i,
    {
        let p = levels[i].price;
        if p == price {
            return Some(levels[i].size);
        }
        let beyond: bool = match side {
            Side::Buy => p < price,
            Side::Sell => p > price,
        };
        if beyond {
            return None;
        }
        i = i + 1;
    }
    None
}

pub struct MarketDataState {
    pub instrument: InstrumentId,
    pub book: BookSnapshot,
    /// Recent trades, oldest first.
    pub trades: VecDeque<Trade>,
    pub last_mid: Price,
}

impl MarketDataState {
    /// Spread of the book in fixed-point basis points of the best bid:
    /// `(ask - bid) / bid * 10000`; `None` when a side is empty or the best
    /// bid is zero.
    pub open spec fn spec_spread_bps(book: BookSnapshot) -> Option<int> {
        if book.bids@.len() > 0 && book.asks@.len() > 0 && book.bids@[0].price > 0 {
            Some(
                fixed_ratio(
                    (book.asks@[0].price - book.bids@[0].price) * BPS,
                    book.bids@[0].price as int,
                ),
            )
        } else {
            None
        }
    }

    /// Order-book imbalance over the top `top_levels` levels per side:
    /// `(bid_size - ask_size) / (bid_size + ask_size)`, fixed-point; `None`
    /// when both totals are zero.
    pub open spec fn spec_imbalance(book: BookSnapshot, top_levels: int) -> Option<int> {
        let nb = if top_levels < book.bids@.len() {
            top_levels
        } else {
            book.bids@.len() as int
        };
        let na = if top_levels < book.asks@.len() {
            top_levels
        } else {
            book.asks@.len() as int
        };
        let b = sum_sizes(book.bids@.take(nb));
        let a = sum_sizes(book.asks@.take(na));
        if b + a == 0 {
            None
        } else {
            Some(fixed_ratio(b - a, b + a))
        }
    }

    /// Trade-flow imbalance: `(buy_volume - sell_volume) / total_volume`,
    /// fixed-point; `None` when there is no volume.
    pub open spec fn spec_trade_flow_imbalance(trades: Seq<Trade>) -> Option<int> {
        let b = side_volume(trades, Side::Buy);
        let s = side_volume(trades, Side::Sell);
        if b + s == 0 {
            None
        } else {
            Some(fixed_ratio(b - s, b + s))
        }
    }

    /// Relative price drift from the first to the last recent trade.
    pub open spec fn spec_momentum(trades: Seq<Trade>) -> Option<int> {
        if trades.len() > 0 && trades[0].price > 0 {
            Some(fixed_ratio(trades.last().price - trades[0].price, trades[0].price as int))
        } else {
            None
        }
    }

    /// Relative price move from the last trade of at least `threshold` lots
    /// to the last trade.
    pub open spec fn spec_mean_reversion(trades: Seq<Trade>, threshold: Qty) -> Option<int> {
        let k = last_large_index(trades, threshold);
        if k >= 0 && trades[k].price > 0 {
            Some(fixed_ratio(trades.last().price - trades[k].price, trades[k].price as int))
        } else {
            None
        }
    }

    /// Whether some trade of at most `max_trade_size` lots shares its price with
    /// at least `min_trade_count` such trades (itself included).
    pub open spec fn spec_iceberg(trades: Seq<Trade>, min_trade_count: int, max_trade_size: Qty) -> bool {
        exists|i: int|
            0 <= i < trades.len() && trades[i].qty <= max_trade_size && #[trigger] small_trades_at(
                trades,
                trades[i].price,
                max_trade_size,
            ) >= min_trade_count
    }

    /// Displayed size at exactly `price` on our side of the book, searched from
    /// the best level down to the first level that reaches `price`.
    pub open spec fn spec_queue_ahead(book: BookSnapshot, price: Price, side: Side) -> Option<Qty> {
        let levels = if side == Side::Buy {
            book.bids@
        } else {
            book.asks@
        };
        let k = first_reaching(levels, price, side);
        if k < levels.len() && levels[k].price == price {
            Some(levels[k].size)
        } else {
            None
        }
    }

    pub fn new(snapshot: BookSnapshot) -> (r: Self)
        ensures
            r.instrument == snapshot.instrument,
            r.book == snapshot,
            r.trades@ == Seq::<Trade>::empty(),
            r.last_mid == match spec_mid(snapshot) {
                Some(m) => m,
                None => 0,
            },
    {
        let mid = match mid_price(&snapshot) {
            Some(m) => m,
            None => 0,
        };
        MarketDataState {
            instrument: snapshot.instrument.clone(),
            book: snapshot,
            trades: VecDeque::new(),
            last_mid: mid,
        }
    }

    pub fn update_book(&mut self, snapshot: BookSnapshot)
        ensures
            final(self).book == snapshot,
            final(self).last_mid == match spec_mid(snapshot) {
                Some(m) => m,
                None => old(self).last_mid,
            },
            final(self).instrument == old(self).instrument,
            final(self).trades@ == old(self).trades@,
    {
        self.last_mid = match mid_price(&snapshot) {
            Some(m) => m,
            None => self.last_mid,
        };
        self.book = snapshot;
    }

    /// Drops the trades at the front that are older than `cutoff`.
    pub fn prune_trades_before(&mut self, cutoff: i128)
        ensures
            final(self).trades@ == pruned(old(self).trades@, cutoff as int),
            final(self).instrument == old(self).instrument,
            final(self).book == old(self).book,
            final(self).last_mid == old(self).last_mid,
    {
        while self.trades.len() > 0 && (self.trades[0].ts as i128) < cutoff
            invariant
                pruned(self.trades@, cutoff as int) == pruned(old(self).trades@, cutoff as int),
                self.instrument == old(self).instrument,
                self.book == old(self).book,
                self.last_mid == old(self).last_mid,
            decreases self.trades@.len(),
        {
            let ghost before = self.trades@;
            let _ = self.trades.pop_front();
            assert(self.trades@ =~= before.drop_first());
        }
    }

    /// Drops the trades older than `window_secs` seconds before now.
    pub fn prune_trades(&mut self, window_secs: i64)
        requires
            -(i64::MAX / 1000) <= window_secs <= i64::MAX / 1000,
        ensures
            exists|now: int| #[trigger]
                pruned(old(self).trades@, now - window_secs * 1000) == final(self).trades@,
            final(self).instrument == old(self).instrument,
            final(self).book == old(self).book,
            final(self).last_mid == old(self).last_mid,
    {
        let now = now_millis();
        let cutoff: i128 = now as i128 - (window_secs as i128) * 1000;
        self.prune_trades_before(cutoff);
    }

    /// Appends a trade, then drops the trades older than the window.
    pub fn record_trade(&mut self, trade: Trade, window_secs: i64)
        requires
            -(i64::MAX / 1000) <= window_secs <= i64::MAX / 1000,
        ensures
            exists|now: int| #[trigger]
                pruned(old(self).trades@.push(trade), now - window_secs * 1000)
                    == final(self).trades@,
            final(self).instrument == old(self).instrument,
            final(self).book == old(self).book,
            final(self).last_mid == old(self).last_mid,
    {
        self.trades.push_back(trade);
        self.prune_trades(window_secs);
    }

    pub fn best_bid(&self) -> (r: Option<BookLevel>)
        ensures
            r == (if self.book.bids@.len() > 0 {
                Some(self.book.bids@[0])
            } else {
                None
            }),
    {
        if self.book.bids.len() > 0 {
            Some(self.book.bids[0])
        } else {
            None
        }
    }

    pub fn best_ask(&self) -> (r: Option<BookLevel>)
        ensures
            r == (if self.book.asks@.len() > 0 {
                Some(self.book.asks@[0])
            } else {
                None
            }),
    {
        if self.book.asks.len() > 0 {
            Some(self.book.asks[0])
        } else {
            None
        }
    }

    pub fn mid_price(&self) -> (r: Option<Price>)
        ensures
            r == spec_mid(self.book),
    {
        mid_price(&self.book)
    }

    pub fn spread_bps(&self) -> (r: Option<i128>)
        ensures
            opt_int(r) == Self::spec_spread_bps(self.book),
    {
        let bid = match self.best_bid() {
            Some(b) => b,
            None => return None,
        };
        let ask = match self.best_ask() {
            Some(a) => a,
            None => return None,
        };
        if bid.price == 0 {
            return None;
        }
        let diff: i128 = ask.price as i128 - bid.price as i128;
        Some(ratio_fixed(diff * BPS, bid.price as i128))
    }

    pub fn imbalance(&self, top_levels: usize) -> (r: Option<i128>)
        ensures
            opt_int(r) == Self::spec_imbalance(self.book, top_levels as int),
    {
        let nb: usize = if top_levels < self.book.bids.len() {
            top_levels
        } else {
            self.book.bids.len()
        };
        let na: usize = if top_levels < self.book.asks.len() {
            top_levels
        } else {
            self.book.asks.len()
        };
        let bid_sum = sum_first_sizes(&self.book.bids, nb);
        let ask_sum = sum_first_sizes(&self.book.asks, na);
        proof {
            lemma_count_times_u32(nb as int, bid_sum as int);
            lemma_count_times_u32(na as int, ask_sum as int);
        }
        let total: u128 = bid_sum + ask_sum;
        if total == 0 {
            return None;
        }
        Some(ratio_fixed(bid_sum as i128 - ask_sum as i128, total as i128))
    }

    pub fn trade_flow_imbalance(&self) -> (r: Option<i128>)
        ensures
            opt_int(r) == Self::spec_trade_flow_imbalance(self.trades@),
    {
        let mut buy: u128 = 0;
        let mut sell: u128 = 0;
        let mut i: usize = 0;
        while i < self.trades.len()
            invariant
                i <= self.trades@.len(),
                buy == side_volume(self.trades@.take(i as int), Side::Buy),
                sell == side_volume(self.trades@.take(i as int), Side::Sell),
                buy <= i * (u32::MAX as int),
                sell <= i * (u32::MAX as int),
            decreases self.trades@.len() - i,
        {
            assert(self.trades@.take(i + 1).drop_last() =~= self.trades@.take(i as int));
            match self.trades[i].side {
                Side::Buy => buy = buy + self.trades[i].qty as u128,
                Side::Sell => sell = sell + self.trades[i].qty as u128,
            }
            i = i + 1;
        }
        assert(self.trades@.take(i as int) =~= self.trades@);
        proof {
            lemma_count_times_u32(i as int, buy as int);
            lemma_count_times_u32(i as int, sell as int);
        }
        let total: u128 = buy + sell;
        if total == 0 {
            return None;
        }
        Some(ratio_fixed(buy as i128 - sell as i128, total as i128))
    }

    pub fn short_term_momentum(&self) -> (r: Option<i128>)
        ensures
            opt_int(r) == Self::spec_momentum(self.trades@),
    {
        let n = self.trades.len();
        if n == 0 {
            return None;
        }
        let first = self.trades[0].price;
        let last = self.trades[n - 1].price;
        if first == 0 {
            return None;
        }
        Some(ratio_fixed(last as i128 - first as i128, first as i128))
    }

    pub fn mean_reversion_after_large_trade(&self, threshold_qty: Qty) -> (r: Option<i128>)
        ensures
            opt_int(r) == Self::spec_mean_reversion(self.trades@, threshold_qty),
    {
        proof {
            lemma_last_large_index(self.trades@, threshold_qty);
        }
        let n = self.trades.len();
        let mut i: usize = n;
        assert(self.trades@.take(n as int) =~= self.trades@);
        while i > 0 && self.trades[i - 1].qty < threshold_qty
            invariant
                i <= n == self.trades@.len(),
                last_large_index(self.trades@.take(i as int), threshold_qty) == last_large_index(
                    self.trades@,
                    threshold_qty,
                ),
            decreases i,
        {
            assert(self.trades@.take(i as int).drop_last() =~= self.trades@.take(i - 1));
            i = i - 1;
        }
        if i == 0 {
            assert(self.trades@.take(0) =~= Seq::<Trade>::empty());
            return None;
        }
        assert(self.trades@.take(i as int).last() == self.trades@[i - 1]);
        assert(last_large_index(self.trades@.take(i as int), threshold_qty) == i - 1);
        assert(self.trades@.last() == self.trades@[n - 1]);
        let large = self.trades[i - 1].price;
        let last = self.trades[n - 1].price;
        if large == 0 {
            return None;
        }
        Some(ratio_fixed(last as i128 - large as i128, large as i128))
    }
    pub fn has_large_resting_order(&self, multiplier: i128) -> (r: bool)
        ensures
            r == (side_has_large(self.book.bids@, multiplier as int) || side_has_large(
                self.book.asks@,
                multiplier as int,
            )),
    {
        let bid_large = levels_have_large(&self.book.bids, multiplier);
        let ask_large = levels_have_large(&self.book.asks, multiplier);
        bid_large || ask_large
    }

    pub fn detect_iceberg(&self, min_trade_count: usize, max_trade_size: Qty) -> (r: bool)
        ensures
            r == Self::spec_iceberg(self.trades@, min_trade_count as int, max_trade_size),
    {
        let mut i: usize = 0;
        while i < self.trades.len()
            invariant
                i <= self.trades@.len(),
                forall|j: int|
                    0 <= j < i ==> !(self.trades@[j].qty <= max_trade_size && #[trigger] small_trades_at(
                        self.trades@,
                        self.trades@[j].price,
                        max_trade_size,
                    ) >= min_trade_count),
            decreases self.trades@.len() - i,
        {
            if self.trades[i].qty <= max_trade_size {
                let count = count_small_trades(&self.trades, self.trades[i].price, max_trade_size);
                if count >= min_trade_count {
                    return true;
                }
            }
            i = i + 1;
        }
        false
    }

    pub fn estimate_queue_ahead(&self, price: Price, side: Side) -> (r: Option<Qty>)
        ensures
            r == Self::spec_queue_ahead(self.book, price, side),
    {
        match side {
            Side::Buy => queue_at(&self.book.bids, price, side),
            Side::Sell => queue_at(&self.book.asks, price, side),
        }
    }
}

} // verus!
