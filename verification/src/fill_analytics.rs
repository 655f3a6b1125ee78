use vstd::prelude::*;

use crate::fixed::{
    div_trunc, fixed_ratio, lemma_mul_within, lemma_scaled_div, ratio_fixed, trunc_div, BPS,
    FIXED_ONE,
};
use crate::lookup::{first_match, lemma_first_match, lemma_first_match_at, lemma_first_match_none};
use crate::types::{Fill, InstrumentId, InstrumentType, MakerTaker, Millis, OrderId, Price, Qty, Side, Trade};

verus! {

/// Most fills and market trades the analytics keep; later ones are left out.
pub const MAX_KEPT: u64 = 0x1_0000_0000;

/// Decision taken for an instrument when its execution started.
#[derive(Clone, Copy)]
pub struct DecisionInfo {
    pub decision_price: Price,
    pub side: Side,
    pub target_qty: Qty,
}

/// A fill whose price moves at 1 s, 5 s and 30 s are being measured.
#[derive(Clone, Copy)]
pub struct PendingAdverse {
    pub fill_id: OrderId,
    pub fill_ts: Millis,
    pub fill_price: Price,
    pub side: Side,
    pub mid_at_fill: Price,
    pub one_sec: Option<i128>,
    pub five_sec: Option<i128>,
    pub thirty_sec: Option<i128>,
}

/// Execution figures of all instruments of one type; ratios and basis points
/// are fixed-point values scaled by `FIXED_ONE`.
#[derive(Clone, Copy)]
pub struct InstrumentMetrics {
    pub instrument_type: InstrumentType,
    pub implementation_shortfall_bps: i128,
    pub vwap_outperformance_bps: i128,
    pub fill_rate: i128,
    pub maker_ratio: i128,
    pub adverse_selection_1s: i128,
    pub adverse_selection_5s: i128,
    pub adverse_selection_30s: i128,
}

/// Largest magnitude of one price move in fixed-point basis points.
pub open spec fn max_move_bps() -> int {
    (u32::MAX as int) * BPS * FIXED_ONE
}

/// Move of the mid-price from a reference price, in fixed-point basis points,
/// signed by the fill's side (a rise counts positive for a buy); zero for a
/// zero reference price.
pub open spec fn spec_price_move_bps(from_price: Price, new_mid: Price, side: Side) -> int {
    if from_price == 0 {
        0
    } else {
        side.spec_sign() * fixed_ratio((new_mid - from_price) * BPS, from_price as int)
    }
}

pub fn price_move_bps(from_price: Price, new_mid: Price, side: Side) -> (r: i128)
    ensures
        r == spec_price_move_bps(from_price, new_mid, side),
        -max_move_bps() <= r <= max_move_bps(),
{
    if from_price == 0 {
        return 0;
    }
    let diff: i128 = new_mid as i128 - from_price as i128;
    let raw = ratio_fixed(diff * BPS, from_price as i128);
    proof {
        let a = diff * BPS * FIXED_ONE;
        lemma_mul_within(diff as int, BPS * FIXED_ONE, u32::MAX as int, BPS * FIXED_ONE);
        if a >= 0 {
            vstd::arithmetic::div_mod::lemma_div_is_ordered_by_denominator(a, 1, from_price as int);
            vstd::arithmetic::div_mod::lemma_div_pos_is_pos(a, from_price as int);
        } else {
            vstd::arithmetic::div_mod::lemma_div_is_ordered_by_denominator(-a, 1, from_price as int);
            vstd::arithmetic::div_mod::lemma_div_pos_is_pos(-a, from_price as int);
        }
    }
    match side {
        Side::Buy => raw,
        Side::Sell => -raw,
    }
}

/// The measurement at a horizon, once the fill is at least that old.
pub open spec fn measured(slot: Option<i128>, age: int, horizon: int, value: int) -> Option<i128> {
    if slot is None && age >= horizon {
        Some(value as i128)
    } else {
        slot
    }
}

/// A pending fill after a mid-price observation at `now`: each horizon that
/// has elapsed and is not yet measured takes the side-signed move of the mid
/// since the fill, from the mid at the fill.
pub open spec fn observe(p: PendingAdverse, now: Millis, mid: Price) -> PendingAdverse {
    let age = now - p.fill_ts;
    let v = spec_price_move_bps(p.mid_at_fill, mid, p.side);
    PendingAdverse {
        one_sec: measured(p.one_sec, age, 1000, v),
        five_sec: measured(p.five_sec, age, 5000, v),
        thirty_sec: measured(p.thirty_sec, age, 30000, v),
        ..p
    }
}

/// Whether all three horizons of a pending fill are measured.
pub open spec fn complete(p: PendingAdverse) -> bool {
    p.one_sec is Some && p.five_sec is Some && p.thirty_sec is Some
}

/// Every pending fill after a mid-price observation.
pub open spec fn observe_all(ps: Seq<PendingAdverse>, now: Millis, mid: Price) -> Seq<PendingAdverse>
    decreases ps.len(),
{
    if ps.len() == 0 {
        Seq::empty()
    } else {
        observe_all(ps.drop_last(), now, mid).push(observe(ps.last(), now, mid))
    }
}

/// Identifiers of the complete pending fills, in order.
pub open spec fn completed_ids(ps: Seq<PendingAdverse>) -> Seq<OrderId>
    decreases ps.len(),
{
    if ps.len() == 0 {
        Seq::empty()
    } else if complete(ps.last()) {
        completed_ids(ps.drop_last()).push(ps.last().fill_id)
    } else {
        completed_ids(ps.drop_last())
    }
}

/// Whether a pending fill has the identifier `id`.
pub open spec fn pending_with(id: OrderId) -> spec_fn(PendingAdverse) -> bool {
    |p: PendingAdverse| p.fill_id == id
}

/// Samples after storing `p` under its fill identifier.
pub open spec fn store_sample(samples: Seq<PendingAdverse>, p: PendingAdverse) -> Seq<PendingAdverse> {
    let k = first_match(samples, pending_with(p.fill_id));
    if k >= 0 {
        samples.update(k, p)
    } else {
        samples.push(p)
    }
}

/// Moves, for each identifier in turn, the first pending fill with it from
/// the pending list to the samples.
pub open spec fn drain(
    pending: Seq<PendingAdverse>,
    samples: Seq<PendingAdverse>,
    ids: Seq<OrderId>,
) -> (Seq<PendingAdverse>, Seq<PendingAdverse>)
    decreases ids.len(),
{
    if ids.len() == 0 {
        (pending, samples)
    } else {
        let prev = drain(pending, samples, ids.drop_last());
        let k = first_match(prev.0, pending_with(ids.last()));
        if k >= 0 {
            (prev.0.remove(k), store_sample(prev.1, prev.0[k]))
        } else {
            prev
        }
    }
}

/// Whether a pending fill's measurements stay within one price move.
pub open spec fn bounded(p: PendingAdverse) -> bool {
    &&& (p.one_sec matches Some(v) ==> -max_move_bps() <= v <= max_move_bps())
    &&& (p.five_sec matches Some(v) ==> -max_move_bps() <= v <= max_move_bps())
    &&& (p.thirty_sec matches Some(v) ==> -max_move_bps() <= v <= max_move_bps())
}

/// Execution analytics grouped by instrument type.
pub struct PerformanceTracker {
    pub decisions: Vec<(InstrumentId, DecisionInfo)>,
    pub fills: Vec<Fill>,
    pub trades: Vec<Trade>,
    pub pending_adverse: Vec<PendingAdverse>,
    pub adverse_samples: Vec<PendingAdverse>,
}

/// Whether a decision entry is for `instrument`.
pub open spec fn decision_for(instrument: InstrumentId) -> spec_fn((InstrumentId, DecisionInfo)) -> bool {
    |d: (InstrumentId, DecisionInfo)| d.0@ == instrument@
}

impl PerformanceTracker {
    pub open spec fn wf(&self) -> bool {
        &&& self.fills@.len() <= MAX_KEPT
        &&& self.trades@.len() <= MAX_KEPT
        &&& forall|k: int| 0 <= k < self.pending_adverse@.len() ==> bounded(#[trigger] self.pending_adverse@[k])
        &&& forall|k: int| 0 <= k < self.adverse_samples@.len() ==> bounded(#[trigger] self.adverse_samples@[k])
    }

    pub fn new() -> (r: Self)
        ensures
            r.wf(),
            r.decisions@.len() == 0,
            r.fills@.len() == 0,
            r.trades@.len() == 0,
            r.pending_adverse@.len() == 0,
            r.adverse_samples@.len() == 0,
    {
        PerformanceTracker {
            decisions: Vec::new(),
            fills: Vec::new(),
            trades: Vec::new(),
            pending_adverse: Vec::new(),
            adverse_samples: Vec::new(),
        }
    }

    /// Records (or replaces) the decision taken for an instrument.
    pub fn record_decision(&mut self, instrument: InstrumentId, decision: DecisionInfo)
        requires
            old(self).wf(),
        ensures
            final(self).wf(),
            ({
                let k = first_match(old(self).decisions@, decision_for(instrument));
                if k >= 0 {
                    final(self).decisions@ == old(self).decisions@.update(k, (instrument, decision))
                } else {
                    final(self).decisions@ == old(self).decisions@.push((instrument, decision))
                }
            }),
            final(self).fills@ == old(self).fills@,
            final(self).trades@ == old(self).trades@,
            final(self).pending_adverse@ == old(self).pending_adverse@,
            final(self).adverse_samples@ == old(self).adverse_samples@,
    {
        let mut i: usize = 0;
        while i < self.decisions.len()
            invariant
                i <= self.decisions@.len(),
                self.decisions@ == old(self).decisions@,
                self.fills@ == old(self).fills@,
                self.trades@ == old(self).trades@,
                self.pending_adverse@ == old(self).pending_adverse@,
                self.adverse_samples@ == old(self).adverse_samples@,
                self.wf(),
                forall|j: int| 0 <= j < i ==> !decision_for(instrument)(#[trigger] self.decisions@[j]),
            decreases self.decisions@.len() - i,
        {
            if self.decisions[i].0.same_as(&instrument) {
                proof {
                    lemma_first_match_at(self.decisions@, decision_for(instrument), i as int);
                }
                self.decisions.set(i, (instrument, decision));
                return;
            }
            i = i + 1;
        }
        proof {
            lemma_first_match_none(self.decisions@, decision_for(instrument));
        }
        self.decisions.push((instrument, decision));
    }

    /// Keeps one of our fills and starts measuring its adverse selection.
    pub fn on_fill(&mut self, fill: Fill)
        requires
            old(self).wf(),
        ensures
            final(self).wf(),
            final(self).decisions@ == old(self).decisions@,
            final(self).trades@ == old(self).trades@,
            final(self).adverse_samples@ == old(self).adverse_samples@,
            old(self).fills@.len() < MAX_KEPT ==> final(self).fills@ == old(self).fills@.push(fill)
                && final(self).pending_adverse@ == old(self).pending_adverse@.push(
                PendingAdverse {
                    fill_id: fill.order_id,
                    fill_ts: fill.ts,
                    fill_price: fill.price,
                    side: fill.side,
                    mid_at_fill: fill.mid_price,
                    one_sec: None,
                    five_sec: None,
                    thirty_sec: None,
                },
            ),
            old(self).fills@.len() >= MAX_KEPT ==> final(self).fills@ == old(self).fills@
                && final(self).pending_adverse@ == old(self).pending_adverse@,
    {
        if self.fills.len() as u64 >= MAX_KEPT {
            return;
        }
        let pending = PendingAdverse {
            fill_id: fill.order_id,
            fill_ts: fill.ts,
            fill_price: fill.price,
            side: fill.side,
            mid_at_fill: fill.mid_price,
            one_sec: None,
            five_sec: None,
            thirty_sec: None,
        };
        let ghost p0 = self.pending_adverse@;
        self.pending_adverse.push(pending);
        self.fills.push(fill);
        assert forall|k: int| 0 <= k < self.pending_adverse@.len() implies bounded(#[trigger] self.pending_adverse@[k]) by {
            if k < p0.len() {
                assert(self.pending_adverse@[k] == p0[k]);
            }
        }
    }

    /// Keeps a market trade.
    pub fn on_trade(&mut self, trade: Trade)
        requires
            old(self).wf(),
        ensures
            final(self).wf(),
            final(self).decisions@ == old(self).decisions@,
            final(self).fills@ == old(self).fills@,
            final(self).pending_adverse@ == old(self).pending_adverse@,
            final(self).adverse_samples@ == old(self).adverse_samples@,
            final(self).trades@ == if old(self).trades@.len() < MAX_KEPT {
                old(self).trades@.push(trade)
            } else {
                old(self).trades@
            },
    {
        if (self.trades.len() as u64) < MAX_KEPT {
            self.trades.push(trade);
        }
    }
}

fn find_pending(ps: &Vec<PendingAdverse>, id: OrderId) -> (r: Option<usize>)
    ensures
        match r {
            Some(k) => k == first_match(ps@, pending_with(id)),
            None => first_match(ps@, pending_with(id)) == -1,
        },
{
    let mut i: usize = 0;
    while i < ps.len()
        invariant
            i <= ps@.len(),
            forall|j: int| 0 <= j < i ==> !pending_with(id)(#[trigger] ps@[j]),
        decreases ps@.len() - i,
    {
        if ps[i].fill_id == id {
            proof {
                lemma_first_match_at(ps@, pending_with(id), i as int);
            }
            return Some(i);
        }
        i = i + 1;
    }
    proof {
        lemma_first_match_none(ps@, pending_with(id));
    }
    None
}

impl PerformanceTracker {
    /// Takes in a mid-price observed at `now`: every pending fill measures the
    /// horizons it has reached, and fills with all three horizons measured
    /// become samples.
    pub fn on_mid_price(&mut self, now: Millis, mid: Price)
        requires
            old(self).wf(),
        ensures
            final(self).wf(),
            final(self).decisions@ == old(self).decisions@,
            final(self).fills@ == old(self).fills@,
            final(self).trades@ == old(self).trades@,
            ({
                let obs = observe_all(old(self).pending_adverse@, now, mid);
                (final(self).pending_adverse@, final(self).adverse_samples@) == drain(
                    obs,
                    old(self).adverse_samples@,
                    completed_ids(obs),
                )
            }),
    {
        let ghost ps0 = self.pending_adverse@;
        let mut observed: Vec<PendingAdverse> = Vec::new();
        let mut completed: Vec<OrderId> = Vec::new();
        let mut j: usize = 0;
        while j < self.pending_adverse.len()
            invariant
                self.pending_adverse@ == ps0,
                ps0 == old(self).pending_adverse@,
                self.decisions@ == old(self).decisions@,
                self.fills@ == old(self).fills@,
                self.trades@ == old(self).trades@,
                self.adverse_samples@ == old(self).adverse_samples@,
                self.wf(),
                j <= ps0.len(),
                observed@ == observe_all(ps0.take(j as int), now, mid),
                completed@ == completed_ids(observed@),
                forall|k: int| 0 <= k < observed@.len() ==> bounded(#[trigger] observed@[k]),
            decreases ps0.len() - j,
        {
            let p = self.pending_adverse[j];
            assert(bounded(p));
            let age: i128 = now as i128 - p.fill_ts as i128;
            let v = price_move_bps(p.mid_at_fill, mid, p.side);
            let one_sec = if p.one_sec.is_none() && age >= 1000 {
                Some(v)
            } else {
                p.one_sec
            };
            let five_sec = if p.five_sec.is_none() && age >= 5000 {
                Some(v)
            } else {
                p.five_sec
            };
            let thirty_sec = if p.thirty_sec.is_none() && age >= 30000 {
                Some(v)
            } else {
                p.thirty_sec
            };
            let q = PendingAdverse { one_sec, five_sec, thirty_sec, ..p };
            assert(q == observe(p, now, mid));
            let ghost obs0 = observed@;
            observed.push(q);
            if q.one_sec.is_some() && q.five_sec.is_some() && q.thirty_sec.is_some() {
                completed.push(q.fill_id);
            }
            proof {
                assert(ps0.take(j + 1).drop_last() =~= ps0.take(j as int));
                assert(observed@.drop_last() =~= obs0);
                assert forall|k: int| 0 <= k < observed@.len() implies bounded(#[trigger] observed@[k]) by {
                    if k < obs0.len() {
                        assert(observed@[k] == obs0[k]);
                    }
                }
            }
            j = j + 1;
        }
        assert(ps0.take(j as int) =~= ps0);
        let ghost obs = observed@;
        let ghost ids = completed@;
        self.pending_adverse = observed;
        assert(drain(obs, old(self).adverse_samples@, ids.take(0)) == (obs, old(self).adverse_samples@));
        let mut c: usize = 0;
        while c < completed.len()
            invariant
                completed@ == ids,
                self.decisions@ == old(self).decisions@,
                self.fills@ == old(self).fills@,
                self.trades@ == old(self).trades@,
                self.fills@.len() <= MAX_KEPT,
                self.trades@.len() <= MAX_KEPT,
                c <= ids.len(),
                (self.pending_adverse@, self.adverse_samples@) == drain(
                    obs,
                    old(self).adverse_samples@,
                    ids.take(c as int),
                ),
                forall|k: int| 0 <= k < self.pending_adverse@.len() ==> bounded(#[trigger] self.pending_adverse@[k]),
                forall|k: int| 0 <= k < self.adverse_samples@.len() ==> bounded(#[trigger] self.adverse_samples@[k]),
            decreases ids.len() - c,
        {
            let id = completed[c];
            let ghost pend0 = self.pending_adverse@;
            let ghost samp0 = self.adverse_samples@;
            proof {
                assert(ids.take(c + 1).drop_last() =~= ids.take(c as int));
                lemma_first_match(pend0, pending_with(id));
            }
            match find_pending(&self.pending_adverse, id) {
                Some(k) => {
                    let p = self.pending_adverse.remove(k);
                    proof {
                        lemma_first_match(samp0, pending_with(id));
                    }
                    match find_pending(&self.adverse_samples, id) {
                        Some(s) => {
                            self.adverse_samples.set(s, p);
                        },
                        None => {
                            self.adverse_samples.push(p);
                        },
                    }
                    proof {
                        assert forall|i: int| 0 <= i < self.pending_adverse@.len() implies bounded(#[trigger] self.pending_adverse@[i]) by {
                            if i < k {
                                assert(self.pending_adverse@[i] == pend0[i]);
                            } else {
                                assert(self.pending_adverse@[i] == pend0[i + 1]);
                            }
                        }
                        assert(bounded(p));
                        assert forall|i: int| 0 <= i < self.adverse_samples@.len() implies bounded(#[trigger] self.adverse_samples@[i]) by {
                            if i < samp0.len() && self.adverse_samples@[i] != p {
                                assert(self.adverse_samples@[i] == samp0[i]);
                            }
                        }
                    }
                },
                None => {},
            }
            c = c + 1;
        }
        assert(ids.take(c as int) =~= ids);
    }
}

/// Largest magnitude of a fixed-point signed return of one fill.
pub open spec fn max_return() -> int {
    (u32::MAX as int) * FIXED_ONE
}

/// Instrument types of the decisions, each once, in order of first appearance.
pub open spec fn decided_types(ds: Seq<(InstrumentId, DecisionInfo)>) -> Seq<InstrumentType>
    decreases ds.len(),
{
    if ds.len() == 0 {
        Seq::empty()
    } else {
        let prev = decided_types(ds.drop_last());
        let t = ds.last().0.instrument_type;
        if prev.contains(t) {
            prev
        } else {
            prev.push(t)
        }
    }
}

/// Instruments of the decisions of type `t`, in order.
pub open spec fn type_instruments(ds: Seq<(InstrumentId, DecisionInfo)>, t: InstrumentType) -> Seq<InstrumentId>
    decreases ds.len(),
{
    if ds.len() == 0 {
        Seq::empty()
    } else {
        let prev = type_instruments(ds.drop_last(), t);
        if ds.last().0.instrument_type == t {
            prev.push(ds.last().0)
        } else {
            prev
        }
    }
}

/// Whether `x` names one of the instruments listed.
pub open spec fn listed(insts: Seq<InstrumentId>, x: InstrumentId) -> bool {
    exists|k: int| 0 <= k < insts.len() && #[trigger] insts[k]@ == x@
}

/// The fills of the instruments listed, in order.
pub open spec fn fills_in(fills: Seq<Fill>, insts: Seq<InstrumentId>) -> Seq<Fill>
    decreases fills.len(),
{
    if fills.len() == 0 {
        Seq::empty()
    } else {
        let prev = fills_in(fills.drop_last(), insts);
        if listed(insts, fills.last().instrument) {
            prev.push(fills.last())
        } else {
            prev
        }
    }
}

/// The market trades of the instruments listed, in order.
pub open spec fn trades_in(trades: Seq<Trade>, insts: Seq<InstrumentId>) -> Seq<Trade>
    decreases trades.len(),
{
    if trades.len() == 0 {
        Seq::empty()
    } else {
        let prev = trades_in(trades.drop_last(), insts);
        if listed(insts, trades.last().instrument) {
            prev.push(trades.last())
        } else {
            prev
        }
    }
}

/// Decision recorded for an instrument.
pub open spec fn decision_of(ds: Seq<(InstrumentId, DecisionInfo)>, inst: InstrumentId) -> Option<DecisionInfo> {
    let k = first_match(ds, decision_for(inst));
    if k >= 0 {
        Some(ds[k].1)
    } else {
        None
    }
}

/// Fixed-point return of a fill against its decision price, signed by the
/// fill's side; zero for a zero decision price.
pub open spec fn signed_return(f: Fill, d: DecisionInfo) -> int {
    if d.decision_price == 0 {
        0
    } else {
        f.side.spec_sign() * fixed_ratio(f.price - d.decision_price, d.decision_price as int)
    }
}

/// Quantity-weighted sum of signed returns and total quantity of fills;
/// `None` when some fill has no decision.
pub open spec fn is_totals(fills: Seq<Fill>, ds: Seq<(InstrumentId, DecisionInfo)>) -> Option<(int, int)>
    decreases fills.len(),
{
    if fills.len() == 0 {
        Some((0, 0))
    } else {
        match is_totals(fills.drop_last(), ds) {
            None => None,
            Some(prev) => match decision_of(ds, fills.last().instrument) {
                None => None,
                Some(d) => Some(
                    (
                        prev.0 + signed_return(fills.last(), d) * fills.last().qty,
                        prev.1 + fills.last().qty,
                    ),
                ),
            },
        }
    }
}

/// Implementation shortfall of fills in fixed-point basis points: the
/// quantity-weighted mean signed return; `None` without quantity or when a
/// fill has no decision.
pub open spec fn spec_is_bps(fills: Seq<Fill>, ds: Seq<(InstrumentId, DecisionInfo)>) -> Option<int> {
    match is_totals(fills, ds) {
        None => None,
        Some(t) => if t.1 == 0 {
            None
        } else {
            Some(trunc_div(t.0 * BPS, t.1))
        },
    }
}

/// Sum of the targets of the instruments listed that have a decision.
pub open spec fn target_total(insts: Seq<InstrumentId>, ds: Seq<(InstrumentId, DecisionInfo)>) -> int
    decreases insts.len(),
{
    if insts.len() == 0 {
        0
    } else {
        target_total(insts.drop_last(), ds) + match decision_of(ds, insts.last()) {
            Some(d) => d.target_qty as int,
            None => 0,
        }
    }
}

/// Total quantity of fills.
pub open spec fn qty_total(fills: Seq<Fill>) -> int
    decreases fills.len(),
{
    if fills.len() == 0 {
        0
    } else {
        qty_total(fills.drop_last()) + fills.last().qty
    }
}

/// Executed quantity over target quantity, fixed-point, rounded down; `None`
/// for a zero target.
pub open spec fn spec_fill_rate(
    insts: Seq<InstrumentId>,
    fills: Seq<Fill>,
    ds: Seq<(InstrumentId, DecisionInfo)>,
) -> Option<int> {
    let target = target_total(insts, ds);
    if target == 0 {
        None
    } else {
        Some(qty_total(fills) * FIXED_ONE / target)
    }
}

/// The measurement of a sample at a horizon of 1, 5 or 30 seconds.
pub open spec fn sample_value(s: PendingAdverse, horizon_sec: i64) -> Option<i128> {
    if horizon_sec == 1 {
        s.one_sec
    } else if horizon_sec == 5 {
        s.five_sec
    } else if horizon_sec == 30 {
        s.thirty_sec
    } else {
        None
    }
}

/// Sum and count of the measurements at a horizon over the samples of the
/// fills' orders (a fill counts each time it appears).
pub open spec fn adverse_totals(fills: Seq<Fill>, samples: Seq<PendingAdverse>, horizon_sec: i64) -> (int, int)
    decreases fills.len(),
{
    if fills.len() == 0 {
        (0, 0)
    } else {
        let prev = adverse_totals(fills.drop_last(), samples, horizon_sec);
        let k = first_match(samples, pending_with(fills.last().order_id));
        if k >= 0 && sample_value(samples[k], horizon_sec) is Some {
            (prev.0 + sample_value(samples[k], horizon_sec)->0, prev.1 + 1)
        } else {
            prev
        }
    }
}

/// Mean adverse-selection measurement at a horizon; zero without samples.
pub open spec fn spec_adverse(fills: Seq<Fill>, samples: Seq<PendingAdverse>, horizon_sec: i64) -> int {
    let t = adverse_totals(fills, samples, horizon_sec);
    if t.1 == 0 {
        0
    } else {
        trunc_div(t.0, t.1)
    }
}

/// Sum of price times quantity of fills.
pub open spec fn notional_total(fills: Seq<Fill>) -> int
    decreases fills.len(),
{
    if fills.len() == 0 {
        0
    } else {
        notional_total(fills.drop_last()) + fills.last().price * fills.last().qty
    }
}

/// Total quantity of trades.
pub open spec fn trade_qty_total(trades: Seq<Trade>) -> int
    decreases trades.len(),
{
    if trades.len() == 0 {
        0
    } else {
        trade_qty_total(trades.drop_last()) + trades.last().qty
    }
}

/// Sum of price times quantity of trades.
pub open spec fn trade_notional_total(trades: Seq<Trade>) -> int
    decreases trades.len(),
{
    if trades.len() == 0 {
        0
    } else {
        trade_notional_total(trades.drop_last()) + trades.last().price * trades.last().qty
    }
}

/// Fixed-point VWAP of fills, rounded down; `None` without quantity.
pub open spec fn spec_vwap_fills(fills: Seq<Fill>) -> Option<int> {
    if qty_total(fills) == 0 {
        None
    } else {
        Some(notional_total(fills) * FIXED_ONE / qty_total(fills))
    }
}

/// Fixed-point VWAP of trades, rounded down; `None` without quantity.
pub open spec fn spec_vwap_trades(trades: Seq<Trade>) -> Option<int> {
    if trade_qty_total(trades) == 0 {
        None
    } else {
        Some(trade_notional_total(trades) * FIXED_ONE / trade_qty_total(trades))
    }
}

/// Our VWAP against the market VWAP in fixed-point basis points; zero when
/// the market VWAP is zero or missing.
pub open spec fn spec_vwap_outperformance(fills: Seq<Fill>, trades: Seq<Trade>) -> int {
    let e = match spec_vwap_fills(fills) {
        Some(v) => v,
        None => 0,
    };
    let m = match spec_vwap_trades(trades) {
        Some(v) => v,
        None => 0,
    };
    if m == 0 {
        0
    } else {
        fixed_ratio((e - m) * BPS, m)
    }
}

/// Quantity of the fills that provided liquidity.
pub open spec fn maker_total(fills: Seq<Fill>) -> int
    decreases fills.len(),
{
    if fills.len() == 0 {
        0
    } else {
        maker_total(fills.drop_last()) + if fills.last().maker_taker == MakerTaker::Maker {
            fills.last().qty as int
        } else {
            0
        }
    }
}

/// Share of the quantity that provided liquidity, fixed-point, rounded down;
/// zero without quantity.
pub open spec fn spec_maker_ratio(fills: Seq<Fill>) -> int {
    if qty_total(fills) == 0 {
        0
    } else {
        maker_total(fills) * FIXED_ONE / qty_total(fills)
    }
}

pub proof fn lemma_totals_bounds(fills: Seq<Fill>)
    ensures
        0 <= maker_total(fills) <= qty_total(fills) <= fills.len() * (u32::MAX as int),
        0 <= notional_total(fills) <= qty_total(fills) * (u32::MAX as int),
    decreases fills.len(),
{
    if fills.len() > 0 {
        lemma_totals_bounds(fills.drop_last());
        let f = fills.last();
        assert(0 <= f.price * f.qty <= f.qty * (u32::MAX as int)) by (nonlinear_arith)
            requires
                0 <= f.price <= u32::MAX,
                0 <= f.qty,
        ;
        assert((qty_total(fills.drop_last()) + f.qty) * (u32::MAX as int) == qty_total(fills.drop_last())
            * (u32::MAX as int) + f.qty * (u32::MAX as int)) by (nonlinear_arith);
    }
}

pub proof fn lemma_trade_totals_bounds(trades: Seq<Trade>)
    ensures
        0 <= trade_qty_total(trades) <= trades.len() * (u32::MAX as int),
        0 <= trade_notional_total(trades) <= trade_qty_total(trades) * (u32::MAX as int),
    decreases trades.len(),
{
    if trades.len() > 0 {
        lemma_trade_totals_bounds(trades.drop_last());
        let t = trades.last();
        assert(0 <= t.price * t.qty <= t.qty * (u32::MAX as int)) by (nonlinear_arith)
            requires
                0 <= t.price <= u32::MAX,
                0 <= t.qty,
        ;
        assert((trade_qty_total(trades.drop_last()) + t.qty) * (u32::MAX as int) == trade_qty_total(
            trades.drop_last(),
        ) * (u32::MAX as int) + t.qty * (u32::MAX as int)) by (nonlinear_arith);
    }
}

pub proof fn lemma_fills_in_len(fills: Seq<Fill>, insts: Seq<InstrumentId>)
    ensures
        fills_in(fills, insts).len() <= fills.len(),
    decreases fills.len(),
{
    if fills.len() > 0 {
        lemma_fills_in_len(fills.drop_last(), insts);
    }
}

pub proof fn lemma_trades_in_len(trades: Seq<Trade>, insts: Seq<InstrumentId>)
    ensures
        trades_in(trades, insts).len() <= trades.len(),
    decreases trades.len(),
{
    if trades.len() > 0 {
        lemma_trades_in_len(trades.drop_last(), insts);
    }
}

fn listed_in(insts: &Vec<InstrumentId>, x: &InstrumentId) -> (r: bool)
    ensures
        r == listed(insts@, *x),
{
    let mut i: usize = 0;
    while i < insts.len()
        invariant
            i <= insts@.len(),
            forall|k: int| 0 <= k < i ==> #[trigger] insts@[k]@ != x@,
        decreases insts@.len() - i,
    {
        if insts[i].same_as(x) {
            return true;
        }
        i = i + 1;
    }
    false
}

proof fn lemma_signed_return_bound(f: Fill, d: DecisionInfo)
    ensures
        -max_return() <= signed_return(f, d) <= max_return(),
{
    if d.decision_price != 0 {
        let a = (f.price - d.decision_price) * FIXED_ONE;
        assert(-(u32::MAX as int) * FIXED_ONE <= a <= (u32::MAX as int) * FIXED_ONE) by (nonlinear_arith)
            requires
                a == (f.price - d.decision_price) * FIXED_ONE,
                0 <= f.price <= u32::MAX,
                0 <= d.decision_price <= u32::MAX,
        ;
        if a >= 0 {
            vstd::arithmetic::div_mod::lemma_div_is_ordered_by_denominator(a, 1, d.decision_price as int);
            vstd::arithmetic::div_mod::lemma_div_pos_is_pos(a, d.decision_price as int);
        } else {
            vstd::arithmetic::div_mod::lemma_div_is_ordered_by_denominator(-a, 1, d.decision_price as int);
            vstd::arithmetic::div_mod::lemma_div_pos_is_pos(-a, d.decision_price as int);
        }
    }
}

fn signed_return_of(f: &Fill, d: &DecisionInfo) -> (r: i128)
    ensures
        r == signed_return(*f, *d),
        -max_return() <= r <= max_return(),
{
    proof {
        lemma_signed_return_bound(*f, *d);
    }
    if d.decision_price == 0 {
        return 0;
    }
    let raw = ratio_fixed(f.price as i128 - d.decision_price as i128, d.decision_price as i128);
    match f.side {
        Side::Buy => raw,
        Side::Sell => -raw,
    }
}

/// Fills of the instruments listed.
fn select_fills(fills: &Vec<Fill>, insts: &Vec<InstrumentId>) -> (r: Vec<Fill>)
    ensures
        r@ == fills_in(fills@, insts@),
{
    let mut r: Vec<Fill> = Vec::new();
    let mut i: usize = 0;
    while i < fills.len()
        invariant
            i <= fills@.len(),
            r@ == fills_in(fills@.take(i as int), insts@),
        decreases fills@.len() - i,
    {
        assert(fills@.take(i + 1).drop_last() =~= fills@.take(i as int));
        if listed_in(insts, &fills[i].instrument) {
            r.push(fills[i].clone());
        }
        i = i + 1;
    }
    assert(fills@.take(i as int) =~= fills@);
    r
}

/// Market trades of the instruments listed.
fn select_trades(trades: &Vec<Trade>, insts: &Vec<InstrumentId>) -> (r: Vec<Trade>)
    ensures
        r@ == trades_in(trades@, insts@),
{
    let mut r: Vec<Trade> = Vec::new();
    let mut i: usize = 0;
    while i < trades.len()
        invariant
            i <= trades@.len(),
            r@ == trades_in(trades@.take(i as int), insts@),
        decreases trades@.len() - i,
    {
        assert(trades@.take(i + 1).drop_last() =~= trades@.take(i as int));
        if listed_in(insts, &trades[i].instrument) {
            r.push(trades[i].clone());
        }
        i = i + 1;
    }
    assert(trades@.take(i as int) =~= trades@);
    r
}

/// Fixed-point VWAP of fills (see `spec_vwap_fills`).
fn compute_vwap_from_fills(fills: &Vec<Fill>) -> (r: Option<i128>)
    requires
        fills@.len() <= MAX_KEPT,
    ensures
        opt_val(r) == spec_vwap_fills(fills@),
        r matches Some(v) ==> 0 <= v <= max_return(),
{
    let mut notional: u128 = 0;
    let mut qty: u128 = 0;
    let mut i: usize = 0;
    while i < fills.len()
        invariant
            i <= fills@.len() <= MAX_KEPT,
            notional == notional_total(fills@.take(i as int)),
            qty == qty_total(fills@.take(i as int)),
        decreases fills@.len() - i,
    {
        proof {
            assert(fills@.take(i + 1).drop_last() =~= fills@.take(i as int));
            lemma_totals_bounds(fills@.take(i + 1));
            assert((i + 1) * (u32::MAX as int) <= MAX_KEPT * (u32::MAX as int)) by (nonlinear_arith)
                requires
                    i + 1 <= MAX_KEPT,
            ;
            assert(qty_total(fills@.take(i + 1)) * (u32::MAX as int) <= (MAX_KEPT * (u32::MAX as int))
                * (u32::MAX as int)) by (nonlinear_arith)
                requires
                    qty_total(fills@.take(i + 1)) <= MAX_KEPT * (u32::MAX as int),
            ;
        }
        notional = notional + (fills[i].price as u128) * (fills[i].qty as u128);
        qty = qty + fills[i].qty as u128;
        i = i + 1;
    }
    assert(fills@.take(i as int) =~= fills@);
    if qty == 0 {
        return None;
    }
    proof {
        lemma_totals_bounds(fills@);
        assert(qty <= MAX_KEPT * (u32::MAX as int)) by (nonlinear_arith)
            requires
                qty <= fills@.len() * (u32::MAX as int),
                fills@.len() <= MAX_KEPT,
        ;
        crate::performance::lemma_avg_bounded(notional as int, qty as int);
        assert(notional * FIXED_ONE <= (MAX_KEPT * (u32::MAX as int)) * (u32::MAX as int) * FIXED_ONE)
            by (nonlinear_arith)
            requires
                notional <= qty * (u32::MAX as int),
                qty <= MAX_KEPT * (u32::MAX as int),
        ;
    }
    Some((notional * (FIXED_ONE as u128) / qty) as i128)
}

/// An optional fixed-point value as an optional integer.
pub open spec fn opt_val(o: Option<i128>) -> Option<int> {
    match o {
        Some(v) => Some(v as int),
        None => None,
    }
}

/// Fixed-point VWAP of trades (see `spec_vwap_trades`).
fn compute_vwap_from_trades(trades: &Vec<Trade>) -> (r: Option<i128>)
    requires
        trades@.len() <= MAX_KEPT,
    ensures
        opt_val(r) == spec_vwap_trades(trades@),
        r matches Some(v) ==> 0 <= v <= max_return(),
{
    let mut notional: u128 = 0;
    let mut qty: u128 = 0;
    let mut i: usize = 0;
    while i < trades.len()
        invariant
            i <= trades@.len() <= MAX_KEPT,
            notional == trade_notional_total(trades@.take(i as int)),
            qty == trade_qty_total(trades@.take(i as int)),
        decreases trades@.len() - i,
    {
        proof {
            assert(trades@.take(i + 1).drop_last() =~= trades@.take(i as int));
            lemma_trade_totals_bounds(trades@.take(i + 1));
            assert((i + 1) * (u32::MAX as int) <= MAX_KEPT * (u32::MAX as int)) by (nonlinear_arith)
                requires
                    i + 1 <= MAX_KEPT,
            ;
            assert(trade_qty_total(trades@.take(i + 1)) * (u32::MAX as int) <= (MAX_KEPT * (
            u32::MAX as int)) * (u32::MAX as int)) by (nonlinear_arith)
                requires
                    trade_qty_total(trades@.take(i + 1)) <= MAX_KEPT * (u32::MAX as int),
            ;
        }
        notional = notional + (trades[i].price as u128) * (trades[i].qty as u128);
        qty = qty + trades[i].qty as u128;
        i = i + 1;
    }
    assert(trades@.take(i as int) =~= trades@);
    if qty == 0 {
        return None;
    }
    proof {
        lemma_trade_totals_bounds(trades@);
        assert(qty <= MAX_KEPT * (u32::MAX as int)) by (nonlinear_arith)
            requires
                qty <= trades@.len() * (u32::MAX as int),
                trades@.len() <= MAX_KEPT,
        ;
        crate::performance::lemma_avg_bounded(notional as int, qty as int);
        assert(notional * FIXED_ONE <= (MAX_KEPT * (u32::MAX as int)) * (u32::MAX as int) * FIXED_ONE)
            by (nonlinear_arith)
            requires
                notional <= qty * (u32::MAX as int),
                qty <= MAX_KEPT * (u32::MAX as int),
        ;
    }
    Some((notional * (FIXED_ONE as u128) / qty) as i128)
}

/// Our VWAP against the market's (see `spec_vwap_outperformance`).
fn compute_vwap_outperformance(fills: &Vec<Fill>, trades: &Vec<Trade>) -> (r: i128)
    requires
        fills@.len() <= MAX_KEPT,
        trades@.len() <= MAX_KEPT,
    ensures
        r == spec_vwap_outperformance(fills@, trades@),
{
    let exec_vwap = match compute_vwap_from_fills(fills) {
        Some(v) => v,
        None => 0,
    };
    let market_vwap = match compute_vwap_from_trades(trades) {
        Some(v) => v,
        None => 0,
    };
    if market_vwap == 0 {
        return 0;
    }
    ratio_fixed((exec_vwap - market_vwap) * BPS, market_vwap)
}

/// Share of quantity that provided liquidity (see `spec_maker_ratio`).
fn compute_maker_ratio(fills: &Vec<Fill>) -> (r: i128)
    requires
        fills@.len() <= MAX_KEPT,
    ensures
        r == spec_maker_ratio(fills@),
{
    let mut maker: u128 = 0;
    let mut total: u128 = 0;
    let mut i: usize = 0;
    while i < fills.len()
        invariant
            i <= fills@.len() <= MAX_KEPT,
            maker == maker_total(fills@.take(i as int)),
            total == qty_total(fills@.take(i as int)),
        decreases fills@.len() - i,
    {
        proof {
            assert(fills@.take(i + 1).drop_last() =~= fills@.take(i as int));
            lemma_totals_bounds(fills@.take(i + 1));
            assert((i + 1) * (u32::MAX as int) <= MAX_KEPT * (u32::MAX as int)) by (nonlinear_arith)
                requires
                    i + 1 <= MAX_KEPT,
            ;
        }
        if fills[i].maker_taker == MakerTaker::Maker {
            maker = maker + fills[i].qty as u128;
        }
        total = total + fills[i].qty as u128;
        i = i + 1;
    }
    assert(fills@.take(i as int) =~= fills@);
    if total == 0 {
        return 0;
    }
    proof {
        lemma_totals_bounds(fills@);
        assert(maker * FIXED_ONE <= MAX_KEPT * (u32::MAX as int) * FIXED_ONE) by (nonlinear_arith)
            requires
                maker <= fills@.len() * (u32::MAX as int),
                fills@.len() <= MAX_KEPT,
        ;
    }
    (maker * (FIXED_ONE as u128) / total) as i128
}

impl PerformanceTracker {
    fn decision_lookup(&self, instrument: &InstrumentId) -> (r: Option<DecisionInfo>)
        ensures
            r == decision_of(self.decisions@, *instrument),
    {
        let mut i: usize = 0;
        while i < self.decisions.len()
            invariant
                i <= self.decisions@.len(),
                forall|j: int| 0 <= j < i ==> !decision_for(*instrument)(#[trigger] self.decisions@[j]),
            decreases self.decisions@.len() - i,
        {
            if self.decisions[i].0.same_as(instrument) {
                proof {
                    lemma_first_match_at(self.decisions@, decision_for(*instrument), i as int);
                }
                return Some(self.decisions[i].1);
            }
            i = i + 1;
        }
        proof {
            lemma_first_match_none(self.decisions@, decision_for(*instrument));
        }
        None
    }

    /// Implementation shortfall of the fills (see `spec_is_bps`).
    fn compute_is_bps(&self, instruments: &Vec<InstrumentId>, fills: &Vec<Fill>) -> (r: Option<i128>)
        requires
            fills@.len() <= MAX_KEPT,
        ensures
            opt_val(r) == spec_is_bps(fills@, self.decisions@),
    {
        let mut total: i128 = 0;
        let mut qty: u128 = 0;
        let mut i: usize = 0;
        while i < fills.len()
            invariant
                i <= fills@.len() <= MAX_KEPT,
                is_totals(fills@.take(i as int), self.decisions@) == Some((total as int, qty as int)),
                qty <= i * (u32::MAX as int),
                -(qty * max_return()) <= total <= qty * max_return(),
            decreases fills@.len() - i,
        {
            assert(fills@.take(i + 1).drop_last() =~= fills@.take(i as int));
            let d = match self.decision_lookup(&fills[i].instrument) {
                Some(d) => d,
                None => {
                    proof {
                        assert(is_totals(fills@.take(i + 1), self.decisions@) is None);
                        lemma_is_totals_none_extends(fills@, self.decisions@, i + 1);
                        assert(fills@.take(fills@.len() as int) =~= fills@);
                    }
                    return None;
                },
            };
            let ret = signed_return_of(&fills[i], &d);
            let q: u128 = fills[i].qty as u128;
            proof {
                assert((i + 1) * (u32::MAX as int) <= MAX_KEPT * (u32::MAX as int)) by (nonlinear_arith)
                    requires
                        i + 1 <= MAX_KEPT,
                ;
                lemma_mul_within(ret as int, q as int, max_return(), u32::MAX as int);
                assert((qty + q) * max_return() == qty * max_return() + q * max_return()) by (nonlinear_arith);
                assert(max_return() * (u32::MAX as int) <= q * max_return() || q * max_return() <= max_return() * (u32::MAX as int));
                assert(q * max_return() == max_return() * q) by (nonlinear_arith);
                lemma_mul_within(ret as int, q as int, max_return(), q as int);
                assert(max_return() * q == q * max_return()) by (nonlinear_arith);
                assert(qty * max_return() <= MAX_KEPT * (u32::MAX as int) * max_return()) by (nonlinear_arith)
                    requires
                        qty <= MAX_KEPT * (u32::MAX as int),
                ;
            }
            total = total + ret * (q as i128);
            qty = qty + q;
            i = i + 1;
        }
        assert(fills@.take(i as int) =~= fills@);
        if qty == 0 {
            return None;
        }
        proof {
            assert(qty * max_return() <= MAX_KEPT * (u32::MAX as int) * max_return()) by (nonlinear_arith)
                requires
                    qty <= MAX_KEPT * (u32::MAX as int),
            ;
        }
        let m: u128 = if total >= 0 {
            total as u128
        } else {
            (-total) as u128
        };
        proof {
            vstd::arithmetic::div_mod::lemma_fundamental_div_mod(m as int, qty as int);
            vstd::arithmetic::div_mod::lemma_mod_pos_bound(m as int, qty as int);
            lemma_scaled_div(m as int, BPS as int, qty as int);
            assert(m / qty <= max_return()) by {
                assert(m <= qty * max_return());
                vstd::arithmetic::div_mod::lemma_div_is_ordered(m as int, qty * max_return(), qty as int);
                assert(qty * max_return() == max_return() * qty) by (nonlinear_arith);
                vstd::arithmetic::div_mod::lemma_div_multiples_vanish(max_return(), qty as int);
            }
            assert((m % qty) * BPS <= qty * BPS) by (nonlinear_arith)
                requires
                    m % qty < qty,
                    0 <= m % qty,
            ;
            assert(qty * BPS <= MAX_KEPT * (u32::MAX as int) * BPS) by (nonlinear_arith)
                requires
                    qty <= MAX_KEPT * (u32::MAX as int),
            ;
            vstd::arithmetic::div_mod::lemma_div_is_ordered_by_denominator(((m % qty) * BPS) as int, 1, qty as int);
            vstd::arithmetic::div_mod::lemma_div_pos_is_pos(((m % qty) * BPS) as int, qty as int);
            vstd::arithmetic::div_mod::lemma_div_pos_is_pos(m as int, qty as int);
        }
        let whole: u128 = (m / qty) * (BPS as u128);
        let part: u128 = (m % qty) * (BPS as u128) / qty;
        let mag: i128 = (whole + part) as i128;
        proof {
            assert(mag == (m * BPS) / (qty as int));
            if total < 0 {
                assert(m == -total);
                assert((-total) * BPS == -(total * BPS)) by (nonlinear_arith);
            }
        }
        if total >= 0 {
            Some(mag)
        } else {
            Some(-mag)
        }
    }

    /// Executed over target quantity (see `spec_fill_rate`).
    fn compute_fill_rate(&self, instruments: &Vec<InstrumentId>, fills: &Vec<Fill>) -> (r: Option<i128>)
        requires
            fills@.len() <= MAX_KEPT,
        ensures
            opt_val(r) == spec_fill_rate(instruments@, fills@, self.decisions@),
    {
        let mut target: u128 = 0;
        let mut i: usize = 0;
        while i < instruments.len()
            invariant
                i <= instruments@.len(),
                target == target_total(instruments@.take(i as int), self.decisions@),
                target <= i * (u32::MAX as int),
            decreases instruments@.len() - i,
        {
            assert(instruments@.take(i + 1).drop_last() =~= instruments@.take(i as int));
            proof {
                assert((i + 1) * (u32::MAX as int) <= (usize::MAX as int) * (u32::MAX as int)) by (nonlinear_arith)
                    requires
                        i + 1 <= usize::MAX,
                ;
            }
            match self.decision_lookup(&instruments[i]) {
                Some(d) => {
                    target = target + d.target_qty as u128;
                },
                None => {},
            }
            i = i + 1;
        }
        assert(instruments@.take(i as int) =~= instruments@);
        let mut executed: u128 = 0;
        let mut j: usize = 0;
        while j < fills.len()
            invariant
                j <= fills@.len() <= MAX_KEPT,
                executed == qty_total(fills@.take(j as int)),
            decreases fills@.len() - j,
        {
            proof {
                assert(fills@.take(j + 1).drop_last() =~= fills@.take(j as int));
                lemma_totals_bounds(fills@.take(j + 1));
                assert((j + 1) * (u32::MAX as int) <= MAX_KEPT * (u32::MAX as int)) by (nonlinear_arith)
                    requires
                        j + 1 <= MAX_KEPT,
                ;
            }
            executed = executed + fills[j].qty as u128;
            j = j + 1;
        }
        assert(fills@.take(j as int) =~= fills@);
        if target == 0 {
            return None;
        }
        proof {
            lemma_totals_bounds(fills@);
            assert(executed * FIXED_ONE <= MAX_KEPT * (u32::MAX as int) * FIXED_ONE) by (nonlinear_arith)
                requires
                    executed <= fills@.len() * (u32::MAX as int),
                    fills@.len() <= MAX_KEPT,
            ;
            vstd::arithmetic::div_mod::lemma_div_is_ordered_by_denominator((executed * FIXED_ONE) as int, 1, target as int);
        }
        Some((executed * (FIXED_ONE as u128) / target) as i128)
    }

    /// Mean adverse-selection measurement at a horizon (see `spec_adverse`).
    fn adverse_selection(&self, fills: &Vec<Fill>, horizon_sec: i64) -> (r: i128)
        requires
            self.wf(),
            fills@.len() <= MAX_KEPT,
        ensures
            r == spec_adverse(fills@, self.adverse_samples@, horizon_sec),
    {
        let mut total: i128 = 0;
        let mut count: u64 = 0;
        let mut i: usize = 0;
        while i < fills.len()
            invariant
                self.wf(),
                i <= fills@.len() <= MAX_KEPT,
                adverse_totals(fills@.take(i as int), self.adverse_samples@, horizon_sec) == (
                    total as int,
                    count as int,
                ),
                count <= i,
                -(count * max_move_bps()) <= total <= count * max_move_bps(),
            decreases fills@.len() - i,
        {
            assert(fills@.take(i + 1).drop_last() =~= fills@.take(i as int));
            proof {
                lemma_first_match(self.adverse_samples@, pending_with(fills@[i as int].order_id));
            }
            match find_pending(&self.adverse_samples, fills[i].order_id) {
                Some(k) => {
                    let sample = self.adverse_samples[k];
                    assert(bounded(sample));
                    let value: Option<i128> = if horizon_sec == 1 {
                        sample.one_sec
                    } else if horizon_sec == 5 {
                        sample.five_sec
                    } else if horizon_sec == 30 {
                        sample.thirty_sec
                    } else {
                        None
                    };
                    match value {
                        Some(v) => {
                            proof {
                                assert((count + 1) * max_move_bps() == count * max_move_bps() + max_move_bps())
                                    by (nonlinear_arith);
                                assert(count * max_move_bps() <= MAX_KEPT * max_move_bps()) by (nonlinear_arith)
                                    requires
                                        count <= MAX_KEPT,
                                ;
                            }
                            total = total + v;
                            count = count + 1;
                        },
                        None => {},
                    }
                },
                None => {},
            }
            i = i + 1;
        }
        assert(fills@.take(i as int) =~= fills@);
        if count == 0 {
            return 0;
        }
        proof {
            assert(count * max_move_bps() <= MAX_KEPT * max_move_bps()) by (nonlinear_arith)
                requires
                    count <= MAX_KEPT,
            ;
        }
        div_trunc(total, count as i128)
    }
}

/// Once some fill lacks a decision, the totals stay undefined.
proof fn lemma_is_totals_none_extends(fills: Seq<Fill>, ds: Seq<(InstrumentId, DecisionInfo)>, n: int)
    requires
        0 <= n <= fills.len(),
        is_totals(fills.take(n), ds) is None,
    ensures
        is_totals(fills.take(fills.len() as int), ds) is None,
    decreases fills.len() - n,
{
    if n < fills.len() {
        assert(fills.take(n + 1).drop_last() =~= fills.take(n));
        lemma_is_totals_none_extends(fills, ds, n + 1);
    }
}

/// An optional figure, zero when it is absent.
pub open spec fn or_zero(o: Option<int>) -> int {
    match o {
        Some(v) => v,
        None => 0,
    }
}

fn has_type(types: &Vec<InstrumentType>, t: InstrumentType) -> (r: bool)
    ensures
        r == types@.contains(t),
{
    let mut i: usize = 0;
    while i < types.len()
        invariant
            i <= types@.len(),
            forall|k: int| 0 <= k < i ==> #[trigger] types@[k] != t,
        decreases types@.len() - i,
    {
        if types[i] == t {
            assert(types@[i as int] == t);
            return true;
        }
        i = i + 1;
    }
    false
}

impl PerformanceTracker {
    /// Figures of the instruments of type `t`.
    pub open spec fn type_metrics(&self, t: InstrumentType) -> InstrumentMetrics {
        let insts = type_instruments(self.decisions@, t);
        let fs = fills_in(self.fills@, insts);
        let ts = trades_in(self.trades@, insts);
        InstrumentMetrics {
            instrument_type: t,
            implementation_shortfall_bps: or_zero(spec_is_bps(fs, self.decisions@)) as i128,
            vwap_outperformance_bps: spec_vwap_outperformance(fs, ts) as i128,
            fill_rate: or_zero(spec_fill_rate(insts, fs, self.decisions@)) as i128,
            maker_ratio: spec_maker_ratio(fs) as i128,
            adverse_selection_1s: spec_adverse(fs, self.adverse_samples@, 1) as i128,
            adverse_selection_5s: spec_adverse(fs, self.adverse_samples@, 5) as i128,
            adverse_selection_30s: spec_adverse(fs, self.adverse_samples@, 30) as i128,
        }
    }

    /// Figures per instrument type, one entry per type that has a decision,
    /// in order of the first decision of each type.
    pub fn metrics_by_instrument_type(&self) -> (r: Vec<InstrumentMetrics>)
        requires
            self.wf(),
        ensures
            r@.len() == decided_types(self.decisions@).len(),
            forall|i: int|
                0 <= i < r@.len() ==> #[trigger] r@[i] == self.type_metrics(decided_types(self.decisions@)[i]),
    {
        let mut types: Vec<InstrumentType> = Vec::new();
        let mut i: usize = 0;
        while i < self.decisions.len()
            invariant
                i <= self.decisions@.len(),
                types@ == decided_types(self.decisions@.take(i as int)),
            decreases self.decisions@.len() - i,
        {
            assert(self.decisions@.take(i + 1).drop_last() =~= self.decisions@.take(i as int));
            let t = self.decisions[i].0.instrument_type;
            if !has_type(&types, t) {
                types.push(t);
            }
            i = i + 1;
        }
        assert(self.decisions@.take(i as int) =~= self.decisions@);
        let mut out: Vec<InstrumentMetrics> = Vec::new();
        let mut k: usize = 0;
        while k < types.len()
            invariant
                self.wf(),
                types@ == decided_types(self.decisions@),
                k <= types@.len(),
                out@.len() == k,
                forall|q: int| 0 <= q < k ==> #[trigger] out@[q] == self.type_metrics(types@[q]),
            decreases types@.len() - k,
        {
            let t = types[k];
            let mut instruments: Vec<InstrumentId> = Vec::new();
            let mut j: usize = 0;
            while j < self.decisions.len()
                invariant
                    j <= self.decisions@.len(),
                    instruments@ == type_instruments(self.decisions@.take(j as int), t),
                decreases self.decisions@.len() - j,
            {
                assert(self.decisions@.take(j + 1).drop_last() =~= self.decisions@.take(j as int));
                if self.decisions[j].0.instrument_type == t {
                    instruments.push(self.decisions[j].0.clone());
                }
                j = j + 1;
            }
            assert(self.decisions@.take(j as int) =~= self.decisions@);
            let fills = select_fills(&self.fills, &instruments);
            let trades = select_trades(&self.trades, &instruments);
            proof {
                lemma_fills_in_len(self.fills@, instruments@);
                lemma_trades_in_len(self.trades@, instruments@);
            }
            let implementation_shortfall_bps = match self.compute_is_bps(&instruments, &fills) {
                Some(v) => v,
                None => 0,
            };
            let vwap_outperformance_bps = compute_vwap_outperformance(&fills, &trades);
            let fill_rate = match self.compute_fill_rate(&instruments, &fills) {
                Some(v) => v,
                None => 0,
            };
            let maker_ratio = compute_maker_ratio(&fills);
            let adverse_selection_1s = self.adverse_selection(&fills, 1);
            let adverse_selection_5s = self.adverse_selection(&fills, 5);
            let adverse_selection_30s = self.adverse_selection(&fills, 30);
            let m = InstrumentMetrics {
                instrument_type: t,
                implementation_shortfall_bps,
                vwap_outperformance_bps,
                fill_rate,
                maker_ratio,
                adverse_selection_1s,
                adverse_selection_5s,
                adverse_selection_30s,
            };
            assert(m == self.type_metrics(t));
            out.push(m);
            k = k + 1;
        }
        out
    }
}

} // verus!
