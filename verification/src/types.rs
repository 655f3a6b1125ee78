use vstd::prelude::*;

verus! {

/// Price ticks in one whole unit of quote currency.
pub const PRICE_SCALE: u32 = 10_000;

/// Quantity lots in one whole unit of the instrument.
pub const QTY_SCALE: u32 = 10_000;

/// A price in ticks of `1 / PRICE_SCALE`.
pub type Price = u32;

/// A quantity in lots of `1 / QTY_SCALE`.
pub type Qty = u32;

/// A point in time, in milliseconds since the Unix epoch.
pub type Millis = i64;

/// The identifier of an order (the 128 bits of its UUID).
pub type OrderId = u128;

#[derive(Debug, Clone, Copy, PartialEq, Eq, Structural)]
pub enum InstrumentType {
    Spot,
    Perp,
    Option,
}

#[derive(Debug)]
pub struct InstrumentId {
    pub symbol: String,
    pub instrument_type: InstrumentType,
}

impl View for InstrumentId {
    type V = (Seq<char>, InstrumentType);

    open spec fn view(&self) -> (Seq<char>, InstrumentType) {
        (self.symbol@, self.instrument_type)
    }
}

impl Clone for InstrumentId {
    fn clone(&self) -> (r: Self)
        ensures
            r == *self,
    {
        InstrumentId { symbol: self.symbol.clone(), instrument_type: self.instrument_type }
    }
}

impl InstrumentId {
    /// Whether both name the same instrument.
    pub fn same_as(&self, other: &InstrumentId) -> (r: bool)
        ensures
            r == (self@ == other@),
    {
        self.symbol == other.symbol && self.instrument_type == other.instrument_type
    }
}

#[derive(Debug, Clone, Copy, PartialEq, Eq, Structural)]
pub enum Side {
    Buy,
    Sell,
}

impl Side {
    /// `1` for a buy, `-1` for a sell.
    pub open spec fn spec_sign(self) -> int {
        match self {
            Side::Buy => 1,
            Side::Sell => -1,
        }
    }

    pub fn sign(self) -> (r: i64)
        ensures
            r == self.spec_sign(),
    {
        match self {
            Side::Buy => 1,
            Side::Sell => -1,
        }
    }
}


#[derive(Debug, Clone, Copy, PartialEq, Eq, Structural)]
pub enum OrderType {
    Limit,
    Market,
}

#[derive(Debug, Clone, Copy, PartialEq, Eq, Structural)]
pub enum OrderStatus {
    New,
    PartiallyFilled,
    Filled,
    Cancelled,
    Rejected,
}

#[derive(Debug, Clone, Copy, PartialEq, Eq, Structural)]
pub enum MakerTaker {
    Maker,
    Taker,
}

pub struct OrderRequest {
    pub instrument: InstrumentId,
    pub side: Side,
    pub qty: Qty,
    pub price: Option<Price>,
    pub order_type: OrderType,
    pub post_only: bool,
}

impl Clone for OrderRequest {
    fn clone(&self) -> (r: Self)
        ensures
            r == *self,
    {
        OrderRequest {
            instrument: self.instrument.clone(),
            side: self.side,
            qty: self.qty,
            price: self.price,
            order_type: self.order_type,
            post_only: self.post_only,
        }
    }
}

pub struct Order {
    pub id: OrderId,
    pub request: OrderRequest,
    pub status: OrderStatus,
    /// Lots filled so far; may exceed the requested quantity, since a venue
    /// fills at least a minimum lot size.
    pub filled_qty: Qty,
    pub create_ts: Millis,
    pub update_ts: Millis,
}

impl Clone for Order {
    fn clone(&self) -> (r: Self)
        ensures
            r == *self,
    {
        Order {
            id: self.id,
            request: self.request.clone(),
            status: self.status,
            filled_qty: self.filled_qty,
            create_ts: self.create_ts,
            update_ts: self.update_ts,
        }
    }
}

impl Order {
    /// Lots still open: requested minus filled (negative when overfilled).
    pub open spec fn spec_open_qty(&self) -> int {
        self.request.qty - self.filled_qty
    }
}

pub struct Fill {
    pub order_id: OrderId,
    pub instrument: InstrumentId,
    pub side: Side,
    pub price: Price,
    pub qty: Qty,
    pub ts: Millis,
    pub maker_taker: MakerTaker,
    pub mid_price: Price,
}

impl Clone for Fill {
    fn clone(&self) -> (r: Self)
        ensures
            r == *self,
    {
        Fill {
            order_id: self.order_id,
            instrument: self.instrument.clone(),
            side: self.side,
            price: self.price,
            qty: self.qty,
            ts: self.ts,
            maker_taker: self.maker_taker,
            mid_price: self.mid_price,
        }
    }
}

#[derive(Debug, Clone, Copy, PartialEq, Eq, Structural)]
pub struct BookLevel {
    pub price: Price,
    pub size: Qty,
}

pub struct BookSnapshot {
    pub instrument: InstrumentId,
    /// Bid levels, best (highest) first.
    pub bids: Vec<BookLevel>,
    /// Ask levels, best (lowest) first.
    pub asks: Vec<BookLevel>,
    pub ts: Millis,
}

/// A copy of a list of book levels.
pub fn copy_levels(levels: &Vec<BookLevel>) -> (r: Vec<BookLevel>)
    ensures
        r@ == levels@,
{
    let mut r: Vec<BookLevel> = Vec::new();
    let mut i: usize = 0;
    while i < levels.len()
        invariant
            i <= levels.len(),
            r@ == levels@.subrange(0, i as int),
        decreases levels.len() - i,
    {
        r.push(levels[i]);
        i = i + 1;
    }
    assert(r@ =~= levels@);
    r
}

impl Clone for BookSnapshot {
    fn clone(&self) -> (r: Self)
        ensures
            r.instrument == self.instrument,
            r.bids@ == self.bids@,
            r.asks@ == self.asks@,
            r.ts == self.ts,
    {
        BookSnapshot {
            instrument: self.instrument.clone(),
            bids: copy_levels(&self.bids),
            asks: copy_levels(&self.asks),
            ts: self.ts,
        }
    }
}

pub struct Trade {
    pub instrument: InstrumentId,
    pub price: Price,
    pub qty: Qty,
    pub side: Side,
    pub ts: Millis,
}

impl Clone for Trade {
    fn clone(&self) -> (r: Self)
        ensures
            r == *self,
    {
        Trade {
            instrument: self.instrument.clone(),
            price: self.price,
            qty: self.qty,
            side: self.side,
            ts: self.ts,
        }
    }
}

/// What a decision asks the venue to do: place at most one new order and
/// cancel the listed orders.
pub struct OrderAction {
    pub new_order: Option<OrderRequest>,
    pub cancel_ids: Vec<OrderId>,
}

/// Fills and cancellations reported back by a venue.
pub struct ExecutionReport {
    pub fills: Vec<Fill>,
    pub cancelled: Vec<OrderId>,
}

} // verus!
