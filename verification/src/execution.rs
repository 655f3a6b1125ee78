use vstd::prelude::*;

use crate::config::{ExecutionConfig, InstrumentConfig};
use crate::decision::{DecisionContext, DecisionEngine};
use crate::exchange::{
    ids_distinct, index_of_id, lemma_index_of_id, lemma_remove_distinct, lemma_same_ids_distinct,
    lemma_upsert_distinct, upsert, upsert_order, MarketDataEvent,
};
use crate::lookup::{
    first_match, lemma_first_match, lemma_first_match_at, lemma_first_match_none,
    lemma_first_match_push, lemma_first_match_update,
};
use crate::market_data::{pruned, spec_mid, MarketDataState};
use crate::performance::{InstrumentReport, PerformanceTracker};
use crate::signals::Signals;
use crate::types::{BookSnapshot, Fill, InstrumentId, Millis, Order, OrderAction, OrderId, OrderStatus, Price, Qty, Trade};

verus! {

/// Seconds of trades kept for the signals of an instrument.
pub const TRADE_WINDOW_SECS: i64 = 30;

/// Execution progress of one instrument.
pub struct InstrumentRuntime {
    pub config: InstrumentConfig,
    pub start_time: Millis,
    pub remaining_qty: Qty,
    pub open_orders: Vec<Order>,
}

/// Whether a market-data state is for `instrument`.
pub open spec fn state_for(instrument: InstrumentId) -> spec_fn(MarketDataState) -> bool {
    |s: MarketDataState| s.instrument@ == instrument@
}

/// Whether a runtime entry is for `instrument`.
pub open spec fn runtime_for(instrument: InstrumentId) -> spec_fn(InstrumentRuntime) -> bool {
    |r: InstrumentRuntime| r.config.instrument@ == instrument@
}

/// Identifiers of the orders that have been open for at least `ttl`
/// milliseconds at `now`, in order.
pub open spec fn expired_ids(orders: Seq<Order>, now: Millis, ttl: int) -> Seq<OrderId>
    decreases orders.len(),
{
    if orders.len() == 0 {
        Seq::empty()
    } else {
        let prev = expired_ids(orders.drop_last(), now, ttl);
        if now - orders.last().create_ts >= ttl {
            prev.push(orders.last().id)
        } else {
            prev
        }
    }
}

/// The order time-to-live read as signed milliseconds, as a cast of the
/// configured `u64` to `i64` reads it: a value above `i64::MAX` wraps to a
/// negative one, under which every order counts as expired.
pub open spec fn ttl_millis(ttl: u64) -> int {
    if ttl <= i64::MAX {
        ttl as int
    } else {
        ttl - 0x1_0000_0000_0000_0000
    }
}

/// Decision price of an instrument: the configured override, else the
/// mid-price when the book has one, else zero.
pub open spec fn spec_decision_price(cfg: InstrumentConfig, state: MarketDataState) -> Price {
    match cfg.decision_price_override {
        Some(p) => p,
        None => match spec_mid(state.book) {
            Some(m) => m,
            None => 0,
        },
    }
}

/// Mid-price of a book as the decision loop reports it: zero when a side is
/// empty.
pub open spec fn reported_mid(book: BookSnapshot) -> Price {
    match spec_mid(book) {
        Some(m) => m,
        None => 0,
    }
}

/// An order after one of its fills is booked: filled quantity grows
/// (saturating), and the order is filled once it reaches the request.
pub open spec fn booked_fill(o: Order, qty: Qty) -> Order {
    let total = o.filled_qty + qty;
    let filled = if total > u32::MAX {
        u32::MAX as Qty
    } else {
        total as Qty
    };
    Order {
        filled_qty: filled,
        status: if filled >= o.request.qty {
            OrderStatus::Filled
        } else {
            OrderStatus::PartiallyFilled
        },
        ..o
    }
}

fn find_state(states: &Vec<MarketDataState>, instrument: &InstrumentId) -> (r: Option<usize>)
    ensures
        match r {
            Some(k) => k == first_match(states@, state_for(*instrument)),
            None => first_match(states@, state_for(*instrument)) == -1,
        },
{
    let mut i: usize = 0;
    while i < states.len()
        invariant
            i <= states@.len(),
            forall|j: int| 0 <= j < i ==> !state_for(*instrument)(#[trigger] states@[j]),
        decreases states@.len() - i,
    {
        if states[i].instrument.same_as(instrument) {
            proof {
                lemma_first_match_at(states@, state_for(*instrument), i as int);
            }
            return Some(i);
        }
        i = i + 1;
    }
    proof {
        lemma_first_match_none(states@, state_for(*instrument));
    }
    None
}

fn find_runtime(runtime: &Vec<InstrumentRuntime>, instrument: &InstrumentId) -> (r: Option<usize>)
    ensures
        match r {
            Some(k) => k == first_match(runtime@, runtime_for(*instrument)),
            None => first_match(runtime@, runtime_for(*instrument)) == -1,
        },
{
    let mut i: usize = 0;
    while i < runtime.len()
        invariant
            i <= runtime@.len(),
            forall|j: int| 0 <= j < i ==> !runtime_for(*instrument)(#[trigger] runtime@[j]),
        decreases runtime@.len() - i,
    {
        if runtime[i].config.instrument.same_as(instrument) {
            proof {
                lemma_first_match_at(runtime@, runtime_for(*instrument), i as int);
            }
            return Some(i);
        }
        i = i + 1;
    }
    proof {
        lemma_first_match_none(runtime@, runtime_for(*instrument));
    }
    None
}

/// A copy of a list of orders.
fn copy_orders(orders: &Vec<Order>) -> (r: Vec<Order>)
    ensures
        r@ == orders@,
{
    let mut r: Vec<Order> = Vec::new();
    let mut i: usize = 0;
    while i < orders.len()
        invariant
            i <= orders@.len(),
            r@ == orders@.take(i as int),
        decreases orders@.len() - i,
    {
        r.push(orders[i].clone());
        i = i + 1;
        assert(r@ =~= orders@.take(i as int));
    }
    assert(orders@.take(i as int) =~= orders@);
    r
}

/// The decision loop of an execution: market data and fills come in, and at
/// each decision tick orders to cancel and to place go out.
pub struct ExecutionEngine {
    pub decision_engine: DecisionEngine,
    pub performance: PerformanceTracker,
    pub execution_config: ExecutionConfig,
    pub instruments: Vec<InstrumentConfig>,
    pub states: Vec<MarketDataState>,
    pub runtime: Vec<InstrumentRuntime>,
}

impl ExecutionEngine {
    /// The performance tracker is consistent, and within each runtime entry
    /// no two open orders share an identifier.
    pub open spec fn wf(&self) -> bool {
        &&& self.performance.wf()
        &&& forall|j: int|
            0 <= j < self.runtime@.len() ==> ids_distinct(#[trigger] self.runtime@[j].open_orders@)
    }

    pub fn new(
        decision_engine: DecisionEngine,
        performance: PerformanceTracker,
        execution_config: ExecutionConfig,
        instruments: Vec<InstrumentConfig>,
    ) -> (r: Self)
        requires
            performance.wf(),
        ensures
            r.wf(),
            r.decision_engine == decision_engine,
            r.performance == performance,
            r.execution_config == execution_config,
            r.instruments@ == instruments@,
            r.states@.len() == 0,
            r.runtime@.len() == 0,
    {
        ExecutionEngine {
            decision_engine,
            performance,
            execution_config,
            instruments,
            states: Vec::new(),
            runtime: Vec::new(),
        }
    }

    /// Takes in a book while the engine waits for the first book of every
    /// instrument; returns whether there are as many books as instruments.
    pub fn collect_initial_book(&mut self, snapshot: BookSnapshot) -> (ready: bool)
        ensures
            final(self).performance == old(self).performance,
            final(self).instruments@ == old(self).instruments@,
            final(self).runtime@ == old(self).runtime@,
            final(self).decision_engine == old(self).decision_engine,
            final(self).execution_config == old(self).execution_config,
            first_match(old(self).states@, state_for(snapshot.instrument)) >= 0
                ==> final(self).states@ == old(self).states@,
            first_match(old(self).states@, state_for(snapshot.instrument)) < 0 ==> ({
                &&& final(self).states@.drop_last() == old(self).states@
                &&& final(self).states@.len() == old(self).states@.len() + 1
                &&& final(self).states@.last().book == snapshot
                &&& final(self).states@.last().instrument == snapshot.instrument
                &&& final(self).states@.last().trades@.len() == 0
                &&& final(self).states@.last().last_mid == reported_mid(snapshot)
            }),
            ready == (final(self).states@.len() >= final(self).instruments@.len()),
    {
        match find_state(&self.states, &snapshot.instrument) {
            Some(_) => {},
            None => {
                let ghost s0 = self.states@;
                self.states.push(MarketDataState::new(snapshot));
                assert(self.states@.drop_last() =~= s0);
            },
        }
        self.states.len() >= self.instruments.len()
    }
}

/// Position of the last configuration of `instrument`, or -1. When an
/// instrument is configured more than once, its last configuration is the
/// one that counts.
pub open spec fn last_config(cfgs: Seq<InstrumentConfig>, instrument: InstrumentId) -> int
    decreases cfgs.len(),
{
    if cfgs.len() == 0 {
        -1
    } else if cfgs.last().instrument@ == instrument@ {
        cfgs.len() - 1
    } else {
        last_config(cfgs.drop_last(), instrument)
    }
}

pub proof fn lemma_last_config(cfgs: Seq<InstrumentConfig>, instrument: InstrumentId)
    ensures
        -1 <= last_config(cfgs, instrument) < cfgs.len(),
        last_config(cfgs, instrument) >= 0 ==> cfgs[last_config(cfgs, instrument)].instrument@
            == instrument@,
        forall|j: int|
            0 <= j < cfgs.len() && last_config(cfgs, instrument) < j
                ==> #[trigger] cfgs[j].instrument@ != instrument@,
    decreases cfgs.len(),
{
    if cfgs.len() > 0 && cfgs.last().instrument@ != instrument@ {
        lemma_last_config(cfgs.drop_last(), instrument);
        assert forall|j: int|
            0 <= j < cfgs.len() && last_config(cfgs, instrument) < j
                implies #[trigger] cfgs[j].instrument@ != instrument@ by {
            if j < cfgs.len() - 1 {
                assert(cfgs[j] == cfgs.drop_last()[j]);
            }
        }
    }
}

/// The runtime entry that the start of an execution makes from `cfg`.
pub open spec fn runtime_started(r: InstrumentRuntime, cfg: InstrumentConfig, start_time: Millis) -> bool {
    &&& r.config == cfg
    &&& r.start_time == start_time
    &&& r.remaining_qty == cfg.target_qty
    &&& r.open_orders@.len() == 0
}

/// The metrics of `cfg`'s instrument were started from `cfg`, with its
/// decision price on `state`.
pub open spec fn registered_as(perf: PerformanceTracker, cfg: InstrumentConfig, state: MarketDataState) -> bool {
    let k = crate::performance::metrics_index(perf.instruments@, cfg.instrument);
    &&& k >= 0
    &&& crate::performance::is_fresh(
        perf.instruments@[k],
        cfg.instrument,
        cfg.side,
        cfg.target_qty,
        spec_decision_price(cfg, state),
    )
}

/// After the start of an execution over `cfgs` on `states`: every configured
/// instrument with a book has a runtime entry and metrics started from its
/// last configuration.
pub open spec fn started(
    runtime: Seq<InstrumentRuntime>,
    perf: PerformanceTracker,
    cfgs: Seq<InstrumentConfig>,
    states: Seq<MarketDataState>,
    start_time: Millis,
) -> bool {
    forall|t: int|
        0 <= t < cfgs.len() && first_match(states, state_for(#[trigger] cfgs[t].instrument)) >= 0
            ==> {
            let cfg = cfgs[last_config(cfgs, cfgs[t].instrument)];
            let f = first_match(runtime, runtime_for(cfgs[t].instrument));
            &&& f >= 0
            &&& runtime_started(runtime[f], cfg, start_time)
            &&& registered_as(perf, cfg, states[first_match(states, state_for(cfgs[t].instrument))])
        }
}

impl ExecutionEngine {
    /// Starts the execution at `start_time`: every configured instrument with
    /// a book is registered for performance tracking with its decision price
    /// and gets a runtime entry with its whole target still to do; an
    /// instrument configured more than once goes by its last configuration.
    pub fn start(&mut self, start_time: Millis)
        requires
            old(self).wf(),
        ensures
            final(self).wf(),
            final(self).states@ == old(self).states@,
            final(self).instruments@ == old(self).instruments@,
            final(self).decision_engine == old(self).decision_engine,
            final(self).execution_config == old(self).execution_config,
            started(
                final(self).runtime@,
                final(self).performance,
                final(self).instruments@,
                final(self).states@,
                start_time,
            ),
    {
        let mut i: usize = 0;
        while i < self.instruments.len()
            invariant
                self.wf(),
                self.states@ == old(self).states@,
                self.instruments@ == old(self).instruments@,
                self.decision_engine == old(self).decision_engine,
                self.execution_config == old(self).execution_config,
                i <= self.instruments@.len(),
                started(
                    self.runtime@,
                    self.performance,
                    self.instruments@.take(i as int),
                    self.states@,
                    start_time,
                ),
            decreases self.instruments@.len() - i,
        {
            let ghost perf0 = self.performance;
            let ghost rt0 = self.runtime@;
            match find_state(&self.states, &self.instruments[i].instrument) {
                Some(k) => {
                    proof {
                        lemma_first_match(self.states@, state_for(self.instruments@[i as int].instrument));
                    }
                    let cfg = self.instruments[i].clone();
                    let decision_price: Price = match cfg.decision_price_override {
                        Some(p) => p,
                        None => match self.states[k].mid_price() {
                            Some(m) => m,
                            None => 0,
                        },
                    };
                    self.performance.register_instrument(
                        cfg.instrument.clone(),
                        cfg.side,
                        cfg.target_qty,
                        decision_price,
                    );
                    let rt = InstrumentRuntime {
                        config: cfg.clone(),
                        start_time,
                        remaining_qty: cfg.target_qty,
                        open_orders: Vec::new(),
                    };
                    proof {
                        lemma_first_match(self.runtime@, runtime_for(cfg.instrument));
                    }
                    match find_runtime(&self.runtime, &cfg.instrument) {
                        Some(r) => {
                            self.runtime.set(r, rt);
                        },
                        None => {
                            self.runtime.push(rt);
                        },
                    }
                    proof {
                        self.lemma_start_step(perf0, rt0, i as int, k as int, cfg, decision_price, rt, start_time);
                    }
                },
                None => {
                    proof {
                        self.lemma_start_skip(i as int, start_time);
                    }
                },
            }
            i = i + 1;
        }
        assert(self.instruments@.take(i as int) =~= self.instruments@);
    }

    /// An instrument without a book changes nothing: the instruments
    /// started before it keep their last configurations.
    proof fn lemma_start_skip(&self, i: int, start_time: Millis)
        requires
            0 <= i < self.instruments@.len(),
            first_match(self.states@, state_for(self.instruments@[i].instrument)) < 0,
            started(
                self.runtime@,
                self.performance,
                self.instruments@.take(i),
                self.states@,
                start_time,
            ),
        ensures
            started(
                self.runtime@,
                self.performance,
                self.instruments@.take(i + 1),
                self.states@,
                start_time,
            ),
    {
        let c0 = self.instruments@.take(i);
        let c1 = self.instruments@.take(i + 1);
        assert(c1.drop_last() =~= c0);
        assert forall|t: int|
            0 <= t < c1.len() && first_match(self.states@, state_for(#[trigger] c1[t].instrument))
                >= 0 implies ({
            let cfg = c1[last_config(c1, c1[t].instrument)];
            let f = first_match(self.runtime@, runtime_for(c1[t].instrument));
            &&& f >= 0
            &&& runtime_started(self.runtime@[f], cfg, start_time)
            &&& registered_as(
                self.performance,
                cfg,
                self.states@[first_match(self.states@, state_for(c1[t].instrument))],
            )
        }) by {
            if t == i {
                assert(state_for(c1[t].instrument) == state_for(self.instruments@[i].instrument));
            }
            assert(t < i);
            assert(c1[t] == c0[t]);
            if c1[i].instrument@ == c1[t].instrument@ {
                assert(state_for(c1[t].instrument) =~= state_for(self.instruments@[i].instrument));
            }
            assert(last_config(c1, c1[t].instrument) == last_config(c0, c1[t].instrument));
            lemma_last_config(c0, c1[t].instrument);
            assert(c1[last_config(c0, c1[t].instrument)] == c0[last_config(c0, c1[t].instrument)]);
        }
    }

    proof fn lemma_start_step(
        &self,
        perf0: PerformanceTracker,
        rt0: Seq<InstrumentRuntime>,
        i: int,
        k: int,
        cfg: InstrumentConfig,
        decision_price: Price,
        rt: InstrumentRuntime,
        start_time: Millis,
    )
        requires
            0 <= i < self.instruments@.len(),
            cfg == self.instruments@[i],
            k == first_match(self.states@, state_for(cfg.instrument)),
            k >= 0,
            decision_price == spec_decision_price(cfg, self.states@[k]),
            PerformanceTracker::took_registration(
                perf0,
                self.performance,
                cfg.instrument,
                cfg.side,
                cfg.target_qty,
                decision_price,
            ),
            runtime_started(rt, cfg, start_time),
            ({
                let r = first_match(rt0, runtime_for(cfg.instrument));
                if r >= 0 {
                    self.runtime@ == rt0.update(r, rt)
                } else {
                    self.runtime@ == rt0.push(rt)
                }
            }),
            started(rt0, perf0, self.instruments@.take(i), self.states@, start_time),
        ensures
            started(
                self.runtime@,
                self.performance,
                self.instruments@.take(i + 1),
                self.states@,
                start_time,
            ),
    {
        let c0 = self.instruments@.take(i);
        let c1 = self.instruments@.take(i + 1);
        assert(c1.drop_last() =~= c0);
        assert(c1.last() == cfg);
        let new_rt = self.runtime@;
        let ms0 = perf0.instruments@;
        let ms1 = self.performance.instruments@;
        let kk = crate::performance::metrics_index(ms0, cfg.instrument);
        crate::performance::lemma_metrics_index(ms0, cfg.instrument);
        lemma_first_match(rt0, runtime_for(cfg.instrument));
        if kk >= 0 {
            assert forall|j: int| 0 <= j < ms0.len() implies #[trigger] ms0[j].instrument@
                == ms1[j].instrument@ by {
                if j == kk {
                    assert(ms1[kk].instrument == cfg.instrument);
                } else {
                    assert(ms1[j] == ms0[j]);
                }
            }
        } else {
            assert(ms1 == ms0.push(ms1.last()));
        }
        assert forall|t: int|
            0 <= t < c1.len() && first_match(self.states@, state_for(#[trigger] c1[t].instrument))
                >= 0 implies ({
            let lc = c1[last_config(c1, c1[t].instrument)];
            let f = first_match(new_rt, runtime_for(c1[t].instrument));
            &&& f >= 0
            &&& runtime_started(new_rt[f], lc, start_time)
            &&& registered_as(
                self.performance,
                lc,
                self.states@[first_match(self.states@, state_for(c1[t].instrument))],
            )
        }) by {
            let inst = c1[t].instrument;
            let q = runtime_for(inst);
            let r = first_match(rt0, runtime_for(cfg.instrument));
            lemma_first_match(rt0, q);
            if inst@ == cfg.instrument@ {
                // the entries of this instrument are the ones just written
                assert(last_config(c1, inst) == i);
                assert(q == runtime_for(cfg.instrument));
                assert(state_for(inst) == state_for(cfg.instrument));
                if r >= 0 {
                    lemma_first_match_update(rt0, q, r, rt);
                } else {
                    lemma_first_match_push(rt0, q, rt);
                }
                let mi = crate::performance::metrics_index(ms1, cfg.instrument);
                if kk >= 0 {
                    crate::performance::lemma_metrics_index_same_instruments(ms0, ms1, cfg.instrument);
                    assert(mi == kk);
                } else {
                    crate::performance::lemma_metrics_index_push(ms0, ms1.last(), cfg.instrument);
                    assert(mi == ms0.len());
                }
                assert(registered_as(self.performance, cfg, self.states@[k]));
            } else {
                // another instrument: its entries are untouched
                assert(t < i);
                assert(c1[t] == c0[t]);
                assert(last_config(c1, inst) == last_config(c0, inst));
                lemma_last_config(c0, inst);
                let u = last_config(c0, inst);
                let lc = c0[u];
                assert(c1[u] == lc);
                assert(lc.instrument@ == inst@);
                assert(started(rt0, perf0, c0, self.states@, start_time));
                if r >= 0 {
                    assert(!q(rt0[r]));
                    assert(!q(rt));
                    lemma_first_match_update(rt0, q, r, rt);
                } else {
                    lemma_first_match_push(rt0, q, rt);
                }
                let f = first_match(rt0, q);
                assert(new_rt[f] == rt0[f]);
                let m_old = crate::performance::metrics_index(ms0, lc.instrument);
                crate::performance::lemma_metrics_index(ms0, lc.instrument);
                if kk >= 0 {
                    crate::performance::lemma_metrics_index_same_instruments(ms0, ms1, lc.instrument);
                    assert(m_old != kk);
                    assert(ms1[m_old] == ms0[m_old]);
                } else {
                    crate::performance::lemma_metrics_index_push(ms0, ms1.last(), lc.instrument);
                    assert(ms1[m_old] == ms0[m_old]);
                }
            }
        }
    }
}

impl ExecutionEngine {
    /// Takes in a market-data event: a book refreshes (or opens) the state of
    /// its instrument and feeds the mid-price to the performance tracker; a
    /// trade joins the recent trades of its instrument and the market volume.
    pub fn handle_market_event(&mut self, event: MarketDataEvent)
        requires
            old(self).wf(),
        ensures
            final(self).wf(),
            final(self).instruments@ == old(self).instruments@,
            final(self).runtime@ == old(self).runtime@,
            final(self).decision_engine == old(self).decision_engine,
            final(self).execution_config == old(self).execution_config,
            match event {
                MarketDataEvent::Book(snapshot) => {
                    let k = first_match(old(self).states@, state_for(snapshot.instrument));
                    &&& PerformanceTracker::took_mid(
                        old(self).performance,
                        final(self).performance,
                        snapshot.instrument,
                        reported_mid(snapshot),
                        snapshot.ts,
                    )
                    &&& k >= 0 ==> {
                        &&& final(self).states@.len() == old(self).states@.len()
                        &&& final(self).states@[k].book.instrument == snapshot.instrument
                        &&& final(self).states@[k].book.bids@ == snapshot.bids@
                        &&& final(self).states@[k].book.asks@ == snapshot.asks@
                        &&& final(self).states@[k].book.ts == snapshot.ts
                        &&& final(self).states@[k].last_mid == match spec_mid(snapshot) {
                            Some(m) => m,
                            None => old(self).states@[k].last_mid,
                        }
                        &&& final(self).states@[k].instrument == old(self).states@[k].instrument
                        &&& final(self).states@[k].trades@ == old(self).states@[k].trades@
                        &&& forall|j: int|
                            0 <= j < old(self).states@.len() && j != k
                                ==> #[trigger] final(self).states@[j] == old(self).states@[j]
                    }
                    &&& k < 0 ==> {
                        &&& final(self).states@.drop_last() == old(self).states@
                        &&& final(self).states@.len() == old(self).states@.len() + 1
                        &&& final(self).states@.last().instrument == snapshot.instrument
                        &&& final(self).states@.last().book.instrument == snapshot.instrument
                        &&& final(self).states@.last().book.bids@ == snapshot.bids@
                        &&& final(self).states@.last().book.asks@ == snapshot.asks@
                        &&& final(self).states@.last().book.ts == snapshot.ts
                        &&& final(self).states@.last().trades@.len() == 0
                        &&& final(self).states@.last().last_mid == reported_mid(snapshot)
                    }
                },
                MarketDataEvent::Trade(trade) => {
                    let k = first_match(old(self).states@, state_for(trade.instrument));
                    &&& PerformanceTracker::took_trade(old(self).performance, final(self).performance, trade)
                    &&& k >= 0 ==> {
                        &&& final(self).states@.len() == old(self).states@.len()
                        &&& exists|now: int| #[trigger]
                            pruned(old(self).states@[k].trades@.push(trade), now - TRADE_WINDOW_SECS * 1000)
                                == final(self).states@[k].trades@
                        &&& final(self).states@[k].book == old(self).states@[k].book
                        &&& final(self).states@[k].instrument == old(self).states@[k].instrument
                        &&& final(self).states@[k].last_mid == old(self).states@[k].last_mid
                        &&& forall|j: int|
                            0 <= j < old(self).states@.len() && j != k
                                ==> #[trigger] final(self).states@[j] == old(self).states@[j]
                    }
                    &&& k < 0 ==> final(self).states@ == old(self).states@
                },
            },
    {
        match event {
            MarketDataEvent::Book(snapshot) => {
                let mid: Price = match crate::market_data::mid_price(&snapshot) {
                    Some(m) => m,
                    None => 0,
                };
                proof {
                    lemma_first_match(self.states@, state_for(snapshot.instrument));
                }
                let ghost s0 = self.states@;
                match find_state(&self.states, &snapshot.instrument) {
                    Some(k) => {
                        let state = &mut self.states[k];
                        state.update_book(snapshot.clone());
                    },
                    None => {
                        self.states.push(MarketDataState::new(snapshot.clone()));
                        assert(self.states@.drop_last() =~= s0);
                    },
                }
                self.performance.update_mid_price(&snapshot.instrument, mid, snapshot.ts);
            },
            MarketDataEvent::Trade(trade) => {
                proof {
                    lemma_first_match(self.states@, state_for(trade.instrument));
                }
                match find_state(&self.states, &trade.instrument) {
                    Some(k) => {
                        let state = &mut self.states[k];
                        state.record_trade(trade.clone(), TRADE_WINDOW_SECS);
                    },
                    None => {},
                }
                self.performance.record_trade(&trade);
            },
        }
    }

    /// Books one of our fills: the remaining target shrinks (never below
    /// zero), the filled order is updated, and the performance tracker takes
    /// the fill in.
    pub fn handle_fill(&mut self, fill: Fill)
        requires
            old(self).wf(),
        ensures
            final(self).wf(),
            final(self).states@ == old(self).states@,
            final(self).instruments@ == old(self).instruments@,
            final(self).decision_engine == old(self).decision_engine,
            final(self).execution_config == old(self).execution_config,
            PerformanceTracker::took_fill(old(self).performance, final(self).performance, fill),
            ({
                let k = first_match(old(self).runtime@, runtime_for(fill.instrument));
                if k >= 0 {
                    let rt0 = old(self).runtime@[k];
                    let rt1 = final(self).runtime@[k];
                    let j = index_of_id(rt0.open_orders@, fill.order_id);
                    &&& final(self).runtime@.len() == old(self).runtime@.len()
                    &&& rt1.remaining_qty == if rt0.remaining_qty > fill.qty {
                        (rt0.remaining_qty - fill.qty) as Qty
                    } else {
                        0
                    }
                    &&& rt1.config == rt0.config
                    &&& rt1.start_time == rt0.start_time
                    &&& rt1.open_orders@ == if j >= 0 {
                        rt0.open_orders@.update(j, booked_fill(rt0.open_orders@[j], fill.qty))
                    } else {
                        rt0.open_orders@
                    }
                    &&& forall|i: int|
                        0 <= i < old(self).runtime@.len() && i != k
                            ==> #[trigger] final(self).runtime@[i] == old(self).runtime@[i]
                } else {
                    final(self).runtime@ == old(self).runtime@
                }
            }),
    {
        proof {
            lemma_first_match(self.runtime@, runtime_for(fill.instrument));
        }
        match find_runtime(&self.runtime, &fill.instrument) {
            Some(k) => {
                let rt = &mut self.runtime[k];
                rt.remaining_qty = if rt.remaining_qty > fill.qty {
                    rt.remaining_qty - fill.qty
                } else {
                    0
                };
                proof {
                    lemma_index_of_id(rt.open_orders@, fill.order_id);
                }
                match crate::exchange::find_order_index(&rt.open_orders, fill.order_id) {
                    Some(j) => {
                        let o = rt.open_orders[j].clone();
                        let total: u64 = o.filled_qty as u64 + fill.qty as u64;
                        let filled: Qty = if total > u32::MAX as u64 {
                            u32::MAX
                        } else {
                            total as Qty
                        };
                        let status = if filled >= o.request.qty {
                            OrderStatus::Filled
                        } else {
                            OrderStatus::PartiallyFilled
                        };
                        let updated = Order { filled_qty: filled, status, ..o };
                        assert(updated == booked_fill(o, fill.qty));
                        let ghost before = rt.open_orders@;
                        rt.open_orders.set(j, updated);
                        proof {
                            lemma_same_ids_distinct(before, rt.open_orders@);
                        }
                    },
                    None => {},
                }
                proof {
                    assert forall|q: int| 0 <= q < self.runtime@.len() implies ids_distinct(
                        #[trigger] self.runtime@[q].open_orders@,
                    ) by {
                        if q != k {
                            assert(self.runtime@[q] == old(self).runtime@[q]);
                        }
                    }
                }
            },
            None => {},
        }
        self.performance.record_fill(&fill);
    }

    /// Orders of runtime entry `i` that have outlived the order time-to-live
    /// at `now`; none when the instrument has no market data yet.
    pub fn expired_orders(&self, i: usize, now: Millis) -> (r: Vec<OrderId>)
        requires
            i < self.runtime@.len(),
            self.execution_config.order_ttl_ms != 0x8000_0000_0000_0000,
        ensures
            first_match(self.states@, state_for(self.runtime@[i as int].config.instrument)) < 0
                ==> r@.len() == 0,
            first_match(self.states@, state_for(self.runtime@[i as int].config.instrument)) >= 0
                ==> r@ == expired_ids(
                self.runtime@[i as int].open_orders@,
                now,
                ttl_millis(self.execution_config.order_ttl_ms),
            ),
    {
        let mut ids: Vec<OrderId> = Vec::new();
        let rt = &self.runtime[i];
        match find_state(&self.states, &rt.config.instrument) {
            Some(_) => {},
            None => return ids,
        }
        let configured: u64 = self.execution_config.order_ttl_ms;
        let ttl: i128 = if configured <= i64::MAX as u64 {
            configured as i128
        } else {
            configured as i128 - 0x1_0000_0000_0000_0000
        };
        let mut j: usize = 0;
        while j < rt.open_orders.len()
            invariant
                j <= rt.open_orders@.len(),
                ttl == ttl_millis(self.execution_config.order_ttl_ms),
                ids@ == expired_ids(rt.open_orders@.take(j as int), now, ttl as int),
            decreases rt.open_orders@.len() - j,
        {
            assert(rt.open_orders@.take(j + 1).drop_last() =~= rt.open_orders@.take(j as int));
            let o = &rt.open_orders[j];
            if now as i128 - o.create_ts as i128 >= ttl {
                ids.push(o.id);
            }
            j = j + 1;
        }
        assert(rt.open_orders@.take(j as int) =~= rt.open_orders@);
        ids
    }

    /// The venue confirmed the cancellation of an order of runtime entry `i`.
    pub fn confirm_cancel(&mut self, i: usize, order_id: OrderId)
        requires
            i < old(self).runtime@.len(),
        ensures
            old(self).wf() ==> final(self).wf(),
            final(self).runtime@.len() == old(self).runtime@.len(),
            final(self).runtime@[i as int].open_orders@ == if index_of_id(
                old(self).runtime@[i as int].open_orders@,
                order_id,
            ) >= 0 {
                old(self).runtime@[i as int].open_orders@.remove(
                    index_of_id(old(self).runtime@[i as int].open_orders@, order_id),
                )
            } else {
                old(self).runtime@[i as int].open_orders@
            },
            final(self).runtime@[i as int].config == old(self).runtime@[i as int].config,
            final(self).runtime@[i as int].start_time == old(self).runtime@[i as int].start_time,
            final(self).runtime@[i as int].remaining_qty == old(self).runtime@[i as int].remaining_qty,
            forall|j: int|
                0 <= j < old(self).runtime@.len() && j != i
                    ==> #[trigger] final(self).runtime@[j] == old(self).runtime@[j],
            final(self).states@ == old(self).states@,
            final(self).performance == old(self).performance,
            final(self).instruments@ == old(self).instruments@,
            final(self).decision_engine == old(self).decision_engine,
            final(self).execution_config == old(self).execution_config,
    {
        let rt = &mut self.runtime[i];
        proof {
            lemma_index_of_id(rt.open_orders@, order_id);
        }
        let ghost before = rt.open_orders@;
        match crate::exchange::find_order_index(&rt.open_orders, order_id) {
            Some(j) => {
                let _ = rt.open_orders.remove(j);
                proof {
                    if ids_distinct(before) {
                        lemma_remove_distinct(before, j as int);
                    }
                }
            },
            None => {},
        }
        proof {
            if old(self).wf() {
                assert forall|q: int| 0 <= q < self.runtime@.len() implies ids_distinct(
                    #[trigger] self.runtime@[q].open_orders@,
                ) by {
                    if q != i {
                        assert(self.runtime@[q] == old(self).runtime@[q]);
                    } else {
                        assert(ids_distinct(old(self).runtime@[q].open_orders@));
                    }
                }
            }
        }
    }

    /// The venue accepted an order of runtime entry `i`.
    pub fn on_order_placed(&mut self, i: usize, order: Order)
        requires
            i < old(self).runtime@.len(),
        ensures
            old(self).wf() ==> final(self).wf(),
            final(self).runtime@.len() == old(self).runtime@.len(),
            final(self).runtime@[i as int].open_orders@ == upsert(
                old(self).runtime@[i as int].open_orders@,
                order,
            ),
            final(self).runtime@[i as int].config == old(self).runtime@[i as int].config,
            final(self).runtime@[i as int].start_time == old(self).runtime@[i as int].start_time,
            final(self).runtime@[i as int].remaining_qty == old(self).runtime@[i as int].remaining_qty,
            forall|j: int|
                0 <= j < old(self).runtime@.len() && j != i
                    ==> #[trigger] final(self).runtime@[j] == old(self).runtime@[j],
            final(self).states@ == old(self).states@,
            final(self).performance == old(self).performance,
            final(self).instruments@ == old(self).instruments@,
            final(self).decision_engine == old(self).decision_engine,
            final(self).execution_config == old(self).execution_config,
    {
        let ghost before = self.runtime@[i as int].open_orders@;
        let rt = &mut self.runtime[i];
        upsert_order(&mut rt.open_orders, order);
        proof {
            if old(self).wf() {
                assert(ids_distinct(before));
                lemma_upsert_distinct(before, order);
                assert forall|q: int| 0 <= q < self.runtime@.len() implies ids_distinct(
                    #[trigger] self.runtime@[q].open_orders@,
                ) by {
                    if q != i {
                        assert(self.runtime@[q] == old(self).runtime@[q]);
                    }
                }
            }
        }
    }

    /// The decision of runtime entry `i` at `now`: none once the window is
    /// over, the target is done, or the instrument has no market data;
    /// otherwise what the decision engine makes of the current signals.
    pub fn decide_for(&self, i: usize, now: Millis, finished: bool) -> (r: Option<OrderAction>)
        requires
            i < self.runtime@.len(),
        ensures
            ({
                let rt = self.runtime@[i as int];
                let k = first_match(self.states@, state_for(rt.config.instrument));
                if k < 0 || finished || rt.remaining_qty == 0 {
                    r is None
                } else {
                    exists|signals: Signals, ctx: DecisionContext|
                        #![trigger signals.describes(self.states@[k]), ctx.open_orders@]
                        signals.describes(self.states@[k]) && ctx.remaining_qty == rt.remaining_qty
                            && ctx.open_orders@ == rt.open_orders@ && ctx.start_time == rt.start_time
                            && ctx.now == now && ctx.window_secs
                            == self.execution_config.execution_window_secs && (r matches Some(a)
                            && self.decision_engine.action_follows(
                            self.states@[k],
                            signals,
                            ctx,
                            rt.config.side,
                            a,
                        ))
                }
            }),
    {
        let rt = &self.runtime[i];
        proof {
            lemma_first_match(self.states@, state_for(rt.config.instrument));
        }
        let k = match find_state(&self.states, &rt.config.instrument) {
            Some(k) => k,
            None => return None,
        };
        if finished || rt.remaining_qty == 0 {
            return None;
        }
        let state = &self.states[k];
        let signals = Signals::from_market_data(state);
        let context = DecisionContext {
            remaining_qty: rt.remaining_qty,
            open_orders: copy_orders(&rt.open_orders),
            start_time: rt.start_time,
            now,
            window_secs: self.execution_config.execution_window_secs,
        };
        let action = self.decision_engine.decide(state, &signals, &context, rt.config.side);
        assert(signals.describes(self.states@[k as int]));
        assert(context.open_orders@ == rt.open_orders@);
        assert(self.decision_engine.action_follows(self.states@[k as int], signals, context, rt.config.side, action));
        Some(action)
    }

    /// Whether every instrument has its target done and no order open.
    pub fn is_done(&self) -> (r: bool)
        ensures
            r == forall|j: int|
                0 <= j < self.runtime@.len() ==> (#[trigger] self.runtime@[j]).remaining_qty == 0
                    && self.runtime@[j].open_orders@.len() == 0,
    {
        let mut j: usize = 0;
        while j < self.runtime.len()
            invariant
                j <= self.runtime@.len(),
                forall|q: int|
                    0 <= q < j ==> (#[trigger] self.runtime@[q]).remaining_qty == 0
                        && self.runtime@[q].open_orders@.len() == 0,
            decreases self.runtime@.len() - j,
        {
            if self.runtime[j].remaining_qty != 0 || self.runtime[j].open_orders.len() != 0 {
                return false;
            }
            assert(self.runtime@[j as int].remaining_qty == 0 && self.runtime@[j as int].open_orders@.len() == 0);
            j = j + 1;
        }
        true
    }

    /// End of the execution window that opened at `start_time`, in
    /// milliseconds.
    pub fn deadline(&self, start_time: Millis) -> (r: i128)
        ensures
            r == start_time + self.execution_config.execution_window_secs * 1000,
    {
        start_time as i128 + (self.execution_config.execution_window_secs as i128) * 1000
    }

    /// Whether the execution window is over at `now`: once over it stays
    /// over, and it is over from its deadline on.
    pub fn window_closed(&self, start_time: Millis, now: Millis, finished: bool) -> (r: bool)
        ensures
            r == (finished || now >= start_time + self.execution_config.execution_window_secs
                * 1000),
    {
        finished || now as i128 >= self.deadline(start_time)
    }

    /// Whether the run is over: the window has closed and none of our orders
    /// is still open (so no fill can come any more), whether or not every
    /// target was met.
    pub fn should_stop(&self, finished: bool) -> (r: bool)
        ensures
            r == (finished && forall|j: int|
                0 <= j < self.runtime@.len() ==> (#[trigger] self.runtime@[j]).open_orders@.len()
                    == 0),
    {
        if !finished {
            return false;
        }
        let mut j: usize = 0;
        while j < self.runtime.len()
            invariant
                j <= self.runtime@.len(),
                forall|q: int| 0 <= q < j ==> (#[trigger] self.runtime@[q]).open_orders@.len() == 0,
            decreases self.runtime@.len() - j,
        {
            if self.runtime[j].open_orders.len() != 0 {
                return false;
            }
            j = j + 1;
        }
        true
    }

    /// The performance reports at the end of the execution.
    pub fn finalize(self) -> (r: Vec<InstrumentReport>)
        requires
            self.wf(),
        ensures
            r@.len() == self.performance.instruments@.len(),
            forall|j: int|
                0 <= j < r@.len() ==> #[trigger] r@[j] == crate::performance::spec_report(
                    self.performance.instruments@[j],
                ),
    {
        self.performance.finalize()
    }
}

} // verus!
