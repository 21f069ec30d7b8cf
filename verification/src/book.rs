//! The per-symbol order book: the two price-ordered sides, the table of
//! waiting stop orders, the last trade price, and the two monotonic
//! counters (trade sequence, priority tag) that make matching
//! deterministic.
//!
//! Both sides keep their best level at index 0: asks ascend in price,
//! bids descend. No resting level is empty, and at rest the best bid is
//! strictly below the best ask.

use vstd::prelude::*;

use crate::asset::AssetBehavior;
use crate::domain::{
    admitted, lemma_trade_qty_sum_push, qty_sum, trade_qty_sum, CancelOutcome, Order, OrderType,
    RejectReason, Side, StopKind, SubmitOutcome, SubmitResult, TradeReport,
};
use crate::level::{
    after_consume, consumed_of, entry_ok, find_id, lemma_find_id, lemma_find_id_prefix,
    level_ts_below, level_wf, PriceLevel,
};

verus! {

/// Spec-level image of one price level.
#[verifier::ext_equal]
pub ghost struct LevelModel {
    pub price: u64,
    pub orders: Seq<Order>,
}

/// Spec-level image of a whole book.
#[verifier::ext_equal]
pub ghost struct BookModel {
    pub bids: Seq<LevelModel>,
    pub asks: Seq<LevelModel>,
    pub stops: Seq<Order>,
    pub last_price: u64,
    pub seq: u64,
    pub next_ts: u64,
}

/// The image of one side of the book.
pub open spec fn side_model(levels: Seq<PriceLevel>) -> Seq<LevelModel> {
    levels.map(|i: int, l: PriceLevel| LevelModel { price: l.price, orders: l.orders@ })
}

/// One side is well formed: every level is a well-formed non-empty FIFO
/// queue for this side, and prices are strictly ordered, best first
/// (ascending on the ask side, descending on the bid side).
pub open spec fn side_wf(levels: Seq<LevelModel>, side: Side, ascending: bool) -> bool {
    &&& forall|i: int|
        0 <= i < levels.len() ==> level_wf(
            (#[trigger] levels[i]).price,
            levels[i].orders,
            side,
        )
    &&& forall|i: int| 0 <= i < levels.len() ==> (#[trigger] levels[i]).orders.len() >= 1
    &&& forall|i: int, j: int|
        0 <= i < j < levels.len() ==> (if ascending {
            levels[i].price < levels[j].price
        } else {
            levels[i].price > levels[j].price
        })
}

/// Every priority tag on the side lies below `ts`.
pub open spec fn side_ts_below(levels: Seq<LevelModel>, ts: u64) -> bool {
    forall|i: int| 0 <= i < levels.len() ==> level_ts_below((#[trigger] levels[i]).orders, ts)
}

/// A waiting stop entry: an untriggered conditional order at full size.
pub open spec fn stop_ok(o: Order) -> bool {
    &&& o.order_type is Stop
    &&& o.remaining_qty == o.quantity
    &&& o.quantity >= 1
    &&& o.reserve_qty == 0
}

/// The stop table is well formed and all its tags lie below `ts`.
pub open spec fn stops_wf(stops: Seq<Order>, ts: u64) -> bool {
    forall|i: int| 0 <= i < stops.len() ==> stop_ok(#[trigger] stops[i]) && stops[i].submit_ts < ts
}

/// Book invariant: both sides well formed, best bid strictly below best
/// ask whenever both exist (no crossed book at rest), every priority tag
/// strictly below the counter's next value, and the stop table well
/// formed.
pub open spec fn wf_model(m: BookModel) -> bool {
    &&& side_wf(m.asks, Side::Sell, true)
    &&& side_wf(m.bids, Side::Buy, false)
    &&& m.bids.len() > 0 && m.asks.len() > 0 ==> m.bids[0].price < m.asks[0].price
    &&& side_ts_below(m.asks, m.next_ts)
    &&& side_ts_below(m.bids, m.next_ts)
    &&& stops_wf(m.stops, m.next_ts)
}

/// Whether some resting entry in the queue carries the id.
pub open spec fn id_in_level(orders: Seq<Order>, id: u64) -> bool {
    exists|j: int| 0 <= j < orders.len() && orders[j].id == id
}

/// Whether some resting entry on the side carries the id.
pub open spec fn id_in_side(levels: Seq<LevelModel>, id: u64) -> bool {
    exists|i: int| 0 <= i < levels.len() && id_in_level((#[trigger] levels[i]).orders, id)
}

/// Whether the id rests anywhere in the book: on a side or as a stop.
pub open spec fn id_in_book(m: BookModel, id: u64) -> bool {
    id_in_side(m.bids, id) || id_in_side(m.asks, id) || id_in_level(m.stops, id)
}

/// Index of the first (best) level holding the id, or -1 if none does.
pub open spec fn find_level(levels: Seq<LevelModel>, id: u64) -> int
    decreases levels.len(),
{
    if levels.len() == 0 {
        -1
    } else if find_id(levels[0].orders, id) >= 0 {
        0
    } else {
        let r = find_level(levels.drop_first(), id);
        if r < 0 {
            -1
        } else {
            r + 1
        }
    }
}

/// `find_level` names a level holding the id exactly when one exists.
pub proof fn lemma_find_level(levels: Seq<LevelModel>, id: u64)
    ensures
        find_level(levels, id) >= -1,
        find_level(levels, id) >= 0 ==> find_level(levels, id) < levels.len() && find_id(
            levels[find_level(levels, id)].orders,
            id,
        ) >= 0,
        find_level(levels, id) >= 0 <==> id_in_side(levels, id),
        find_level(levels, id) == -1 ==> (forall|i: int|
            0 <= i < levels.len() ==> find_id((#[trigger] levels[i]).orders, id) == -1),
    decreases levels.len(),
{
    if levels.len() > 0 {
        let rest = levels.drop_first();
        lemma_find_id(levels[0].orders, id);
        lemma_find_level(rest, id);
        if find_id(levels[0].orders, id) >= 0 {
            assert(id_in_level(levels[0].orders, id));
        } else {
            if find_level(rest, id) >= 0 {
                assert(levels[find_level(rest, id) + 1] == rest[find_level(rest, id)]);
                assert(id_in_side(rest, id));
                let w = choose|i: int| 0 <= i < rest.len() && id_in_level(rest[i].orders, id);
                assert(id_in_level(levels[w + 1].orders, id));
            } else {
                assert forall|i: int| 0 <= i < levels.len() implies find_id(
                    (#[trigger] levels[i]).orders,
                    id,
                ) == -1 by {
                    if i > 0 {
                        assert(rest[i - 1] == levels[i]);
                    }
                }
                if id_in_side(levels, id) {
                    let w = choose|i: int|
                        0 <= i < levels.len() && id_in_level(levels[i].orders, id);
                    lemma_find_id(levels[w].orders, id);
                }
            }
        }
    }
}

/// If no earlier level holds the id and level `i` does, `find_level`
/// points exactly at `i`.
pub proof fn lemma_find_level_prefix(levels: Seq<LevelModel>, id: u64, i: int)
    requires
        0 <= i < levels.len(),
        find_id(levels[i].orders, id) >= 0,
        forall|k: int| 0 <= k < i ==> find_id((#[trigger] levels[k]).orders, id) == -1,
    ensures
        find_level(levels, id) == i,
    decreases levels.len(),
{
    if i > 0 {
        let rest = levels.drop_first();
        assert forall|k: int| 0 <= k < i - 1 implies find_id((#[trigger] rest[k]).orders, id)
            == -1 by {
            assert(rest[k] == levels[k + 1]);
        }
        assert(rest[i - 1] == levels[i]);
        lemma_find_level_prefix(rest, id, i - 1);
    }
}

/// The side after cancelling the entry in level `k` that carries the id:
/// the entry leaves its queue, and a queue left empty leaves the side.
pub open spec fn level_after_cancel(levels: Seq<LevelModel>, k: int, id: u64) -> Seq<LevelModel> {
    let j = find_id(levels[k].orders, id);
    if levels[k].orders.len() == 1 {
        levels.remove(k)
    } else {
        levels.update(k, LevelModel { price: levels[k].price, orders: levels[k].orders.remove(j) })
    }
}

/// Everything `cancel` promises: found exactly when the id rests
/// somewhere, searched bids then asks then stops, the first carrying
/// entry removed (its level dropped if left empty), everything else --
/// including the counters and the last trade price -- untouched.
pub open spec fn cancel_rel(pre: BookModel, post: BookModel, id: u64, r: CancelOutcome) -> bool {
    let kb = find_level(pre.bids, id);
    let ka = find_level(pre.asks, id);
    let ks = find_id(pre.stops, id);
    &&& r == (if id_in_book(pre, id) {
        CancelOutcome::Cancelled
    } else {
        CancelOutcome::NotFound
    })
    &&& post.last_price == pre.last_price
    &&& post.seq == pre.seq
    &&& post.next_ts == pre.next_ts
    &&& (if kb >= 0 {
        &&& post.bids == level_after_cancel(pre.bids, kb, id)
        &&& post.asks == pre.asks
        &&& post.stops == pre.stops
    } else if ka >= 0 {
        &&& post.bids == pre.bids
        &&& post.asks == level_after_cancel(pre.asks, ka, id)
        &&& post.stops == pre.stops
    } else if ks >= 0 {
        &&& post.bids == pre.bids
        &&& post.asks == pre.asks
        &&& post.stops == pre.stops.remove(ks)
    } else {
        post == pre
    })
}

/// The order book of one symbol.
pub struct OrderBook<A: AssetBehavior> {
    /// Bid levels, strictly descending in price: best bid first.
    pub bids: Vec<PriceLevel>,
    /// Ask levels, strictly ascending in price: best ask first.
    pub asks: Vec<PriceLevel>,
    /// Waiting (untriggered) stop orders.
    pub stop_orders: Vec<Order>,
    /// The asset-class rule plug-in consulted before any mutation.
    pub asset_behavior: A,
    /// Price of the last execution; zero until the first trade.
    pub last_price: u64,
    /// The next trade sequence number.
    pub seq: u64,
    /// The next priority tag to assign; strictly monotonic.
    pub next_ts: u64,
}

impl<A: AssetBehavior> OrderBook<A> {
    /// The book's spec-level image.
    pub open spec fn model(self) -> BookModel {
        BookModel {
            bids: side_model(self.bids@),
            asks: side_model(self.asks@),
            stops: self.stop_orders@,
            last_price: self.last_price,
            seq: self.seq,
            next_ts: self.next_ts,
        }
    }

    /// Book invariant; see [`wf_model`].
    pub open spec fn wf(self) -> bool {
        wf_model(self.model())
    }

    /// An empty book over the given asset rules.
    pub fn new(asset_behavior: A) -> (r: OrderBook<A>)
        ensures
            r.wf(),
            r.asset_behavior == asset_behavior,
            r.model().bids.len() == 0,
            r.model().asks.len() == 0,
            r.model().stops.len() == 0,
            r.model().last_price == 0,
            r.model().seq == 0,
            r.model().next_ts == 0,
    {
        OrderBook {
            bids: Vec::new(),
            asks: Vec::new(),
            stop_orders: Vec::new(),
            asset_behavior,
            last_price: 0,
            seq: 0,
            next_ts: 0,
        }
    }

    /// The highest resting bid price, if any bid rests.
    pub fn best_bid(&self) -> (r: Option<u64>)
        ensures
            r == (if self.model().bids.len() > 0 {
                Some(self.model().bids[0].price)
            } else {
                None::<u64>
            }),
    {
        if self.bids.len() > 0 {
            Some(self.bids[0].price)
        } else {
            None
        }
    }

    /// The lowest resting ask price, if any ask rests.
    pub fn best_ask(&self) -> (r: Option<u64>)
        ensures
            r == (if self.model().asks.len() > 0 {
                Some(self.model().asks[0].price)
            } else {
                None::<u64>
            }),
    {
        if self.asks.len() > 0 {
            Some(self.asks[0].price)
        } else {
            None
        }
    }

    /// Best-effort, idempotent cancel: remove the resting or waiting
    /// order carrying `id`, searching bids, then asks, then stops.
    /// Returns `NotFound`, with the book untouched, if no entry
    /// carries the id. No trade is ever produced.
    pub fn cancel(&mut self, id: u64) -> (r: CancelOutcome)
        requires
            old(self).wf(),
        ensures
            final(self).wf(),
            cancel_rel(old(self).model(), final(self).model(), id, r),
    {
        let mut i: usize = 0;
        while i < self.bids.len()
            invariant
                0 <= i <= self.bids@.len(),
                *self == *old(self),
                old(self).wf(),
                forall|k: int|
                    0 <= k < i ==> find_id(side_model(self.bids@)[k].orders, id) == -1,
            decreases self.bids@.len() - i,
        {
            let hit = self.bids[i].contains(id);
            if hit {
                proof {
                    lemma_find_level_prefix(side_model(self.bids@), id, i as int);
                    lemma_find_level(side_model(self.bids@), id);
                }
                self.cancel_in_side(true, i, id);
                return CancelOutcome::Cancelled;
            }
            i = i + 1;
        }
        proof {
            lemma_side_absent(side_model(self.bids@), id);
        }
        let mut i: usize = 0;
        while i < self.asks.len()
            invariant
                0 <= i <= self.asks@.len(),
                *self == *old(self),
                old(self).wf(),
                find_level(side_model(self.bids@), id) == -1,
                !id_in_side(side_model(self.bids@), id),
                forall|k: int|
                    0 <= k < i ==> find_id(side_model(self.asks@)[k].orders, id) == -1,
            decreases self.asks@.len() - i,
        {
            let hit = self.asks[i].contains(id);
            if hit {
                proof {
                    lemma_find_level_prefix(side_model(self.asks@), id, i as int);
                    lemma_find_level(side_model(self.asks@), id);
                }
                self.cancel_in_side(false, i, id);
                return CancelOutcome::Cancelled;
            }
            i = i + 1;
        }
        proof {
            lemma_side_absent(side_model(self.asks@), id);
        }
        let mut i: usize = 0;
        while i < self.stop_orders.len()
            invariant
                0 <= i <= self.stop_orders@.len(),
                *self == *old(self),
                old(self).wf(),
                find_level(side_model(self.bids@), id) == -1,
                !id_in_side(side_model(self.bids@), id),
                find_level(side_model(self.asks@), id) == -1,
                !id_in_side(side_model(self.asks@), id),
                forall|k: int| 0 <= k < i ==> self.stop_orders@[k].id != id,
            decreases self.stop_orders@.len() - i,
        {
            if self.stop_orders[i].id == id {
                proof {
                    lemma_find_id_prefix(self.stop_orders@, id, i as int);
                    assert(id_in_level(old(self).stop_orders@, id));
                }
                let _ = self.stop_orders.remove(i);
                proof {
                    lemma_stops_wf_remove(old(self).stop_orders@, i as int, self.next_ts);
                }
                return CancelOutcome::Cancelled;
            }
            i = i + 1;
        }
        proof {
            lemma_find_id(self.stop_orders@, id);
            if id_in_level(self.stop_orders@, id) {
                let w = choose|j: int|
                    0 <= j < self.stop_orders@.len() && self.stop_orders@[j].id == id;
            }
        }
        CancelOutcome::NotFound
    }

    /// Remove the entry carrying `id` from level `i` of one side
    /// (bids when `is_bid`, else asks), dropping the level if it is
    /// left empty.
    fn cancel_in_side(&mut self, is_bid: bool, i: usize, id: u64)
        requires
            old(self).wf(),
            is_bid ==> i < old(self).bids@.len() && find_id(
                old(self).bids@[i as int].orders@,
                id,
            ) >= 0,
            !is_bid ==> i < old(self).asks@.len() && find_id(
                old(self).asks@[i as int].orders@,
                id,
            ) >= 0,
        ensures
            final(self).wf(),
            is_bid ==> side_model(final(self).bids@) == level_after_cancel(
                side_model(old(self).bids@),
                i as int,
                id,
            ) && final(self).asks@ == old(self).asks@,
            !is_bid ==> side_model(final(self).asks@) == level_after_cancel(
                side_model(old(self).asks@),
                i as int,
                id,
            ) && final(self).bids@ == old(self).bids@,
            final(self).stop_orders@ == old(self).stop_orders@,
            final(self).last_price == old(self).last_price,
            final(self).seq == old(self).seq,
            final(self).next_ts == old(self).next_ts,
            final(self).asset_behavior == old(self).asset_behavior,
    {
        if is_bid {
            let mut lvl = self.bids.remove(i);
            proof {
                lemma_find_id(lvl.orders@, id);
            }
            let _ = lvl.cancel(id);
            let ghost j = find_id(old(self).bids@[i as int].orders@, id);
            if lvl.is_empty() {
                proof {
                    lemma_side_wf_remove_entry(side_model(old(self).bids@), i as int, j, id, Side::Buy, false, self.next_ts);
                    assert(side_model(self.bids@) =~~= side_model(old(self).bids@).remove(i as int));
                }
            } else {
                let ghost lm = LevelModel {
                    price: old(self).bids@[i as int].price,
                    orders: old(self).bids@[i as int].orders@.remove(j),
                };
                self.bids.insert(i, lvl);
                proof {
                    lemma_side_wf_remove_entry(side_model(old(self).bids@), i as int, j, id, Side::Buy, false, self.next_ts);
                    assert(side_model(self.bids@) =~~= side_model(old(self).bids@).update(i as int, lm));
                }
            }
        } else {
            let mut lvl = self.asks.remove(i);
            proof {
                lemma_find_id(lvl.orders@, id);
            }
            let _ = lvl.cancel(id);
            let ghost j = find_id(old(self).asks@[i as int].orders@, id);
            if lvl.is_empty() {
                proof {
                    lemma_side_wf_remove_entry(side_model(old(self).asks@), i as int, j, id, Side::Sell, true, self.next_ts);
                    assert(side_model(self.asks@) =~~= side_model(old(self).asks@).remove(i as int));
                }
            } else {
                let ghost lm = LevelModel {
                    price: old(self).asks@[i as int].price,
                    orders: old(self).asks@[i as int].orders@.remove(j),
                };
                self.asks.insert(i, lvl);
                proof {
                    lemma_side_wf_remove_entry(side_model(old(self).asks@), i as int, j, id, Side::Sell, true, self.next_ts);
                    assert(side_model(self.asks@) =~~= side_model(old(self).asks@).update(i as int, lm));
                }
            }
        }
    }
}

/// A side none of whose levels holds the id neither finds a level for it
/// nor contains it.
pub proof fn lemma_side_absent(levels: Seq<LevelModel>, id: u64)
    requires
        forall|k: int| 0 <= k < levels.len() ==> find_id((#[trigger] levels[k]).orders, id) == -1,
    ensures
        find_level(levels, id) == -1,
        !id_in_side(levels, id),
{
    lemma_find_level(levels, id);
    if find_level(levels, id) >= 0 {
        assert(find_id(levels[find_level(levels, id)].orders, id) >= 0);
    }
}

/// Removing one entry from level `k` (or the whole level, if it was the
/// only entry) preserves the side's well-formedness and tag bounds.
pub proof fn lemma_side_wf_remove_entry(
    levels: Seq<LevelModel>,
    k: int,
    j: int,
    id: u64,
    side: Side,
    ascending: bool,
    ts: u64,
)
    requires
        side_wf(levels, side, ascending),
        side_ts_below(levels, ts),
        0 <= k < levels.len(),
        0 <= j < levels[k].orders.len(),
        j == find_id(levels[k].orders, id),
    ensures
        side_wf(level_after_cancel(levels, k, id), side, ascending),
        side_ts_below(level_after_cancel(levels, k, id), ts),
        level_after_cancel(levels, k, id).len() > 0 ==> (if ascending {
            level_after_cancel(levels, k, id)[0].price >= levels[0].price
        } else {
            level_after_cancel(levels, k, id)[0].price <= levels[0].price
        }),
{
    let post = level_after_cancel(levels, k, id);
    if levels[k].orders.len() == 1 {
        assert forall|a: int, b: int| 0 <= a < b < post.len() implies (if ascending {
            post[a].price < post[b].price
        } else {
            post[a].price > post[b].price
        }) by {
            let a2 = if a < k {
                a
            } else {
                a + 1
            };
            let b2 = if b < k {
                b
            } else {
                b + 1
            };
            assert(post[a] == levels[a2]);
            assert(post[b] == levels[b2]);
        }
        assert forall|a: int| 0 <= a < post.len() implies level_wf(
            (#[trigger] post[a]).price,
            post[a].orders,
            side,
        ) && post[a].orders.len() >= 1 && level_ts_below(post[a].orders, ts) by {
            let a2 = if a < k {
                a
            } else {
                a + 1
            };
            assert(post[a] == levels[a2]);
        }
    } else {
        let cut = levels[k].orders.remove(j);
        assert forall|a: int| 0 <= a < cut.len() implies entry_ok(
            #[trigger] cut[a],
            levels[k].price,
            side,
        ) by {
            let a2 = if a < j {
                a
            } else {
                a + 1
            };
            assert(cut[a] == levels[k].orders[a2]);
        }
        assert forall|a: int, b: int| 0 <= a < b < cut.len() implies cut[a].submit_ts
            < cut[b].submit_ts by {
            let a2 = if a < j {
                a
            } else {
                a + 1
            };
            let b2 = if b < j {
                b
            } else {
                b + 1
            };
            assert(cut[a] == levels[k].orders[a2]);
            assert(cut[b] == levels[k].orders[b2]);
        }
        assert forall|a: int| 0 <= a < cut.len() implies (#[trigger] cut[a]).submit_ts < ts by {
            let a2 = if a < j {
                a
            } else {
                a + 1
            };
            assert(cut[a] == levels[k].orders[a2]);
        }
        assert forall|a: int| 0 <= a < post.len() implies level_wf(
            (#[trigger] post[a]).price,
            post[a].orders,
            side,
        ) && post[a].orders.len() >= 1 && level_ts_below(post[a].orders, ts) by {
            if a != k {
                assert(post[a] == levels[a]);
            }
        }
        assert forall|a: int, b: int| 0 <= a < b < post.len() implies (if ascending {
            post[a].price < post[b].price
        } else {
            post[a].price > post[b].price
        }) by {
            assert(post[a].price == levels[a].price);
            assert(post[b].price == levels[b].price);
        }
    }
}

/// Total unfilled quantity resting on one side.
pub open spec fn side_qty_sum(levels: Seq<LevelModel>) -> int
    decreases levels.len(),
{
    if levels.len() == 0 {
        0
    } else {
        qty_sum(levels[0].orders) + side_qty_sum(levels.drop_first())
    }
}

/// Whether a taker would cross a maker level at `price`. `ascending`
/// tells which side the makers are: true for asks (a buy taker crosses
/// at or above the level), false for bids (a sell taker crosses at or
/// below it). Market orders cross everything.
pub open spec fn spec_crosses(taker: Order, price: u64, ascending: bool) -> bool {
    taker.order_type is Market || (if ascending {
        taker.price >= price
    } else {
        taker.price <= price
    })
}

/// What one sweep promises of each trade it appends: driven by this
/// taker at its timestamp, of positive quantity, priced no better for
/// the taker than the opposite best before the sweep (`best0`) and --
/// unless the taker is a market order -- no worse than its limit.
pub open spec fn sweep_trade_ok(t: TradeReport, taker: Order, best0: u64, ascending: bool) -> bool {
    &&& t.taker_id == taker.id
    &&& t.ts == taker.timestamp
    &&& 1 <= t.quantity
    &&& (if ascending {
        t.price >= best0 && (!(taker.order_type is Market) ==> t.price <= taker.price)
    } else {
        t.price <= best0 && (!(taker.order_type is Market) ==> t.price >= taker.price)
    })
}

/// Whether the taker crosses the best (front) level.
fn crosses_at(levels: &Vec<PriceLevel>, taker: &Order, ascending: bool) -> (r: bool)
    requires
        levels@.len() > 0,
    ensures
        r == spec_crosses(*taker, levels@[0].price, ascending),
{
    if taker.order_type == OrderType::Market {
        true
    } else if ascending {
        taker.price >= levels[0].price
    } else {
        taker.price <= levels[0].price
    }
}

/// Match the taker against one side of resting levels, best level
/// first, FIFO inside each level, until the taker is spent, the side
/// is exhausted, or the best level no longer crosses. Emits one trade
/// per maker bite, numbered consecutively by `seq`; refilled iceberg
/// slices take fresh tags from `next_ts`; `last_price` follows the
/// trades.
#[verifier::rlimit(100)]
fn sweep_levels(
    levels: &mut Vec<PriceLevel>,
    taker: &mut Order,
    trades: &mut Vec<TradeReport>,
    seq: &mut u64,
    next_ts: &mut u64,
    last_price: &mut u64,
    maker_side: Side,
    ascending: bool,
)
    requires
        side_wf(side_model(old(levels)@), maker_side, ascending),
        side_ts_below(side_model(old(levels)@), *old(next_ts)),
        old(taker).reserve_qty == 0,
        *old(seq) + old(taker).remaining_qty <= u64::MAX,
        *old(next_ts) + old(taker).remaining_qty <= u64::MAX,
    ensures
        side_wf(side_model(final(levels)@), maker_side, ascending),
        side_ts_below(side_model(final(levels)@), *final(next_ts)),
        final(levels)@.len() <= old(levels)@.len(),
        final(levels)@.len() > 0 && old(levels)@.len() > 0 ==> (if ascending {
            final(levels)@[0].price >= old(levels)@[0].price
        } else {
            final(levels)@[0].price <= old(levels)@[0].price
        }),
        *final(taker) == (Order { remaining_qty: final(taker).remaining_qty, ..*old(taker) }),
        final(taker).remaining_qty <= old(taker).remaining_qty,
        final(trades)@.len() >= old(trades)@.len(),
        final(trades)@.subrange(0, old(trades)@.len() as int) == old(trades)@,
        forall|k: int|
            old(trades)@.len() <= k < final(trades)@.len() ==> old(levels)@.len() > 0
                && sweep_trade_ok(
                #[trigger] final(trades)@[k],
                *old(taker),
                old(levels)@[0].price,
                ascending,
            ) && final(trades)@[k].seq == *old(seq) + k - old(trades)@.len(),
        *final(seq) == *old(seq) + final(trades)@.len() - old(trades)@.len(),
        *final(seq) + final(taker).remaining_qty <= *old(seq) + old(taker).remaining_qty,
        *final(next_ts) >= *old(next_ts),
        *final(next_ts) + final(taker).remaining_qty <= *old(next_ts) + old(taker).remaining_qty,
        old(taker).remaining_qty - final(taker).remaining_qty == trade_qty_sum(final(trades)@)
            - trade_qty_sum(old(trades)@),
        side_qty_sum(side_model(final(levels)@)) == side_qty_sum(side_model(old(levels)@)) - (
        trade_qty_sum(final(trades)@) - trade_qty_sum(old(trades)@)),
        final(trades)@.len() == old(trades)@.len() ==> final(levels)@ == old(levels)@
            && *final(last_price) == *old(last_price) && *final(seq) == *old(seq)
            && *final(next_ts) == *old(next_ts),
        final(trades)@.len() > old(trades)@.len() ==> *final(last_price) == final(trades)@.last().price
            && final(trades)@[old(trades)@.len() as int].price == old(levels)@[0].price,
        final(taker).remaining_qty > 0 ==> final(levels)@.len() == 0 || !spec_crosses(
            *old(taker),
            final(levels)@[0].price,
            ascending,
        ),
        exists|states: Seq<SweepState>|
            {
                &&& #[trigger] sweep_trace(
                    states,
                    final(trades)@.skip(old(trades)@.len() as int),
                    *old(taker),
                    ascending,
                )
                &&& states[0] == (SweepState {
                    levels: side_model(old(levels)@),
                    rem: old(taker).remaining_qty,
                    seq: *old(seq),
                    next_ts: *old(next_ts),
                    last: *old(last_price),
                })
                &&& states.last() == (SweepState {
                    levels: side_model(final(levels)@),
                    rem: final(taker).remaining_qty,
                    seq: *final(seq),
                    next_ts: *final(next_ts),
                    last: *final(last_price),
                })
            },
{
    let ghost mut states: Seq<SweepState> = seq![
        SweepState {
            levels: side_model(levels@),
            rem: taker.remaining_qty,
            seq: *seq,
            next_ts: *next_ts,
            last: *last_price,
        },
    ];
    while taker.remaining_qty > 0 && levels.len() > 0 && crosses_at(levels, taker, ascending)
        invariant
            *old(seq) + old(taker).remaining_qty <= u64::MAX,
            *old(next_ts) + old(taker).remaining_qty <= u64::MAX,
            side_wf(side_model(levels@), maker_side, ascending),
            side_ts_below(side_model(levels@), *next_ts),
            levels@.len() <= old(levels)@.len(),
            levels@.len() > 0 && old(levels)@.len() > 0 ==> (if ascending {
                levels@[0].price >= old(levels)@[0].price
            } else {
                levels@[0].price <= old(levels)@[0].price
            }),
            *taker == (Order { remaining_qty: taker.remaining_qty, ..*old(taker) }),
            taker.remaining_qty <= old(taker).remaining_qty,
            trades@.len() >= old(trades)@.len(),
            trades@.subrange(0, old(trades)@.len() as int) == old(trades)@,
            forall|k: int|
                old(trades)@.len() <= k < trades@.len() ==> old(levels)@.len() > 0
                    && sweep_trade_ok(
                    #[trigger] trades@[k],
                    *old(taker),
                    old(levels)@[0].price,
                    ascending,
                ) && trades@[k].seq == *old(seq) + k - old(trades)@.len(),
            *seq == *old(seq) + trades@.len() - old(trades)@.len(),
            *seq + taker.remaining_qty <= *old(seq) + old(taker).remaining_qty,
            *next_ts >= *old(next_ts),
            *next_ts + taker.remaining_qty <= *old(next_ts) + old(taker).remaining_qty,
            old(taker).remaining_qty - taker.remaining_qty == trade_qty_sum(trades@)
                - trade_qty_sum(old(trades)@),
            side_qty_sum(side_model(levels@)) == side_qty_sum(side_model(old(levels)@)) - (
            trade_qty_sum(trades@) - trade_qty_sum(old(trades)@)),
            trades@.len() == old(trades)@.len() ==> levels@ == old(levels)@ && *last_price
                == *old(last_price) && *seq == *old(seq) && *next_ts == *old(next_ts),
            trades@.len() > old(trades)@.len() ==> *last_price == trades@.last().price
                && trades@[old(trades)@.len() as int].price == old(levels)@[0].price,
            sweep_trace(states, trades@.skip(old(trades)@.len() as int), *old(taker), ascending),
            states[0] == (SweepState {
                levels: side_model(old(levels)@),
                rem: old(taker).remaining_qty,
                seq: *old(seq),
                next_ts: *old(next_ts),
                last: *old(last_price),
            }),
            states.last() == (SweepState {
                levels: side_model(levels@),
                rem: taker.remaining_qty,
                seq: *seq,
                next_ts: *next_ts,
                last: *last_price,
            }),
        decreases taker.remaining_qty,
    {
        let lvlprice = front_price(levels);
        let ghost pre_levels = levels@;
        let ghost pre_trades = trades@;
        let ghost entry_rem = taker.remaining_qty;
        let mut lvl = levels.remove(0);
        let ghost rest = levels@;
        proof {
            assert(side_model(pre_levels)[0].orders == lvl.orders@);
            assert(side_model(rest) =~~= side_model(pre_levels).drop_first());
            assert(side_qty_sum(side_model(pre_levels)) == qty_sum(lvl.orders@) + side_qty_sum(
                side_model(rest),
            ));
            lemma_side_tail(side_model(pre_levels), side_model(rest), maker_side, ascending, *next_ts);
            assert(side_model(pre_levels) =~~= side_model(rest).insert(
                0,
                LevelModel { price: lvlprice, orders: lvl.orders@ },
            ));
        }
        while taker.remaining_qty > 0 && lvl.len() > 0
            invariant
                *old(seq) + old(taker).remaining_qty <= u64::MAX,
                *old(next_ts) + old(taker).remaining_qty <= u64::MAX,
                lvl.price == lvlprice,
                level_wf(lvl.price, lvl.orders@, maker_side),
                level_ts_below(lvl.orders@, *next_ts),
                levels@ == rest,
                side_wf(side_model(rest), maker_side, ascending),
                side_ts_below(side_model(rest), *next_ts),
                rest.len() > 0 ==> (if ascending {
                    side_model(rest)[0].price > lvlprice
                } else {
                    side_model(rest)[0].price < lvlprice
                }),
                rest.len() == pre_levels.len() - 1,
                pre_levels.len() <= old(levels)@.len(),
                spec_crosses(*old(taker), lvlprice, ascending),
                old(levels)@.len() > 0,
                (if ascending {
                    lvlprice >= old(levels)@[0].price
                } else {
                    lvlprice <= old(levels)@[0].price
                }),
                *taker == (Order { remaining_qty: taker.remaining_qty, ..*old(taker) }),
                taker.remaining_qty <= entry_rem <= old(taker).remaining_qty,
                trades@.len() == pre_trades.len() ==> taker.remaining_qty == entry_rem
                    && taker.remaining_qty > 0 && lvl.orders@.len() > 0,
                trades@.len() > pre_trades.len() ==> taker.remaining_qty < entry_rem
                    && *last_price == trades@.last().price,
                trades@.len() == old(trades)@.len() ==> lvlprice == old(levels)@[0].price,
                trades@.len() > old(trades)@.len()
                    ==> trades@[old(trades)@.len() as int].price == old(levels)@[0].price,
                trades@.len() >= pre_trades.len() >= old(trades)@.len(),
                trades@.subrange(0, old(trades)@.len() as int) == old(trades)@,
                forall|k: int|
                    old(trades)@.len() <= k < trades@.len() ==> sweep_trade_ok(
                        #[trigger] trades@[k],
                        *old(taker),
                        old(levels)@[0].price,
                        ascending,
                    ) && trades@[k].seq == *old(seq) + k - old(trades)@.len(),
                *seq == *old(seq) + trades@.len() - old(trades)@.len(),
                *seq + taker.remaining_qty <= *old(seq) + old(taker).remaining_qty,
                *next_ts >= *old(next_ts),
                *next_ts + taker.remaining_qty <= *old(next_ts) + old(taker).remaining_qty,
                old(taker).remaining_qty - taker.remaining_qty == trade_qty_sum(trades@)
                    - trade_qty_sum(old(trades)@),
                qty_sum(lvl.orders@) + side_qty_sum(side_model(rest)) == side_qty_sum(
                    side_model(old(levels)@),
                ) - (trade_qty_sum(trades@) - trade_qty_sum(old(trades)@)),
                sweep_trace(states, trades@.skip(old(trades)@.len() as int), *old(taker), ascending),
                states[0] == (SweepState {
                    levels: side_model(old(levels)@),
                    rem: old(taker).remaining_qty,
                    seq: *old(seq),
                    next_ts: *old(next_ts),
                    last: *old(last_price),
                }),
                states.last() == (SweepState {
                    levels: (if lvl.orders@.len() > 0 {
                        side_model(rest).insert(0, LevelModel { price: lvlprice, orders: lvl.orders@ })
                    } else {
                        side_model(rest)
                    }),
                    rem: taker.remaining_qty,
                    seq: *seq,
                    next_ts: *next_ts,
                    last: *last_price,
                }),
            decreases taker.remaining_qty,
        {
            let ghost pre_orders = lvl.orders@;
            let ghost pre_state = SweepState {
                levels: side_model(rest).insert(0, LevelModel { price: lvlprice, orders: lvl.orders@ }),
                rem: taker.remaining_qty,
                seq: *seq,
                next_ts: *next_ts,
                last: *last_price,
            };
            proof {
                assert(pre_state == states.last());
                assert(pre_state.levels[0] == (LevelModel { price: lvlprice, orders: pre_orders }));
            }
            let head = *lvl.peek_head();
            let will_refill = head.remaining_qty <= taker.remaining_qty && head.reserve_qty > 0;
            let consumed = lvl.consume_head(taker.remaining_qty, *next_ts, maker_side);
            if will_refill {
                *next_ts = *next_ts + 1;
                proof {
                    lemma_side_ts_monotone(side_model(rest), (*next_ts - 1) as u64, *next_ts);
                }
            }
            let t = TradeReport {
                seq: *seq,
                maker_id: head.id,
                taker_id: taker.id,
                price: lvlprice,
                quantity: consumed,
                ts: taker.timestamp,
            };
            let ghost mid_trades = trades@;
            trades.push(t);
            proof {
                lemma_trade_qty_sum_push(mid_trades, t);
                assert(trades@.subrange(0, old(trades)@.len() as int) =~= mid_trades.subrange(
                    0,
                    old(trades)@.len() as int,
                ));
            }
            *seq = *seq + 1;
            *last_price = lvlprice;
            taker.remaining_qty = taker.remaining_qty - consumed;
            proof {
                let appended_pre = mid_trades.skip(old(trades)@.len() as int);
                let post_state = SweepState {
                    levels: (if lvl.orders@.len() > 0 {
                        side_model(rest).insert(0, LevelModel { price: lvlprice, orders: lvl.orders@ })
                    } else {
                        side_model(rest)
                    }),
                    rem: taker.remaining_qty,
                    seq: *seq,
                    next_ts: *next_ts,
                    last: *last_price,
                };
                assert(lvl.orders@ == after_consume(pre_orders, pre_state.rem, pre_state.next_ts));
                if lvl.orders@.len() == 0 {
                    assert(pre_state.levels.drop_first() =~~= side_model(rest));
                } else {
                    assert(pre_state.levels.update(
                        0,
                        LevelModel { price: lvlprice, orders: lvl.orders@ },
                    ) =~~= side_model(rest).insert(
                        0,
                        LevelModel { price: lvlprice, orders: lvl.orders@ },
                    ));
                }
                assert(sweep_step(pre_state, post_state, t, *old(taker), ascending));
                let pre_states = states;
                states = states.push(post_state);
                assert(trades@.skip(old(trades)@.len() as int) =~= appended_pre.push(t));
                assert forall|k: int|
                    0 <= k < trades@.skip(old(trades)@.len() as int).len() implies sweep_step(
                    #[trigger] states[k],
                    states[k + 1],
                    trades@.skip(old(trades)@.len() as int)[k],
                    *old(taker),
                    ascending,
                ) by {
                    if k < appended_pre.len() {
                        assert(states[k] == pre_states[k]);
                        assert(states[k + 1] == pre_states[k + 1]);
                        assert(trades@.skip(old(trades)@.len() as int)[k] == appended_pre[k]);
                        assert(sweep_step(
                            pre_states[k],
                            pre_states[k + 1],
                            appended_pre[k],
                            *old(taker),
                            ascending,
                        ));
                    } else {
                        assert(k == appended_pre.len());
                        assert(states[k] == pre_states[k]);
                        assert(pre_states[k] == pre_states.last());
                        assert(states[k + 1] == post_state);
                        assert(trades@.skip(old(trades)@.len() as int)[k] == t);
                    }
                }
            }
        }
        if lvl.len() > 0 {
            levels.insert(0, lvl);
            proof {
                assert(side_model(levels@)[0].orders == lvl.orders@);
                assert(side_model(levels@).drop_first() =~~= side_model(rest));
                assert(side_model(levels@) =~~= side_model(rest).insert(
                    0,
                    LevelModel { price: lvlprice, orders: lvl.orders@ },
                ));
                assert(side_qty_sum(side_model(levels@)) == qty_sum(lvl.orders@) + side_qty_sum(
                    side_model(rest),
                ));
                lemma_side_wf_front(
                    side_model(rest),
                    side_model(levels@),
                    lvlprice,
                    maker_side,
                    ascending,
                    *next_ts,
                );
            }
        }
    }
}

/// The price of the best (front) level.
fn front_price(levels: &Vec<PriceLevel>) -> (r: u64)
    requires
        levels@.len() > 0,
    ensures
        r == side_model(levels@)[0].price,
{
    levels[0].price
}

/// The tail of a well-formed side is a well-formed side whose front
/// price, if any, is strictly past the old front price.
pub proof fn lemma_side_tail(
    pre: Seq<LevelModel>,
    tail: Seq<LevelModel>,
    side: Side,
    ascending: bool,
    ts: u64,
)
    requires
        side_wf(pre, side, ascending),
        side_ts_below(pre, ts),
        pre.len() > 0,
        tail == pre.drop_first(),
    ensures
        side_wf(tail, side, ascending),
        side_ts_below(tail, ts),
        tail.len() > 0 ==> (if ascending {
            tail[0].price > pre[0].price
        } else {
            tail[0].price < pre[0].price
        }),
{
    assert forall|i: int| 0 <= i < tail.len() implies level_wf(
        (#[trigger] tail[i]).price,
        tail[i].orders,
        side,
    ) && tail[i].orders.len() >= 1 && level_ts_below(tail[i].orders, ts) by {
        assert(tail[i] == pre[i + 1]);
    }
    assert forall|a: int, b: int| 0 <= a < b < tail.len() implies (if ascending {
        tail[a].price < tail[b].price
    } else {
        tail[a].price > tail[b].price
    }) by {
        assert(tail[a] == pre[a + 1]);
        assert(tail[b] == pre[b + 1]);
    }
    if tail.len() > 0 {
        assert(tail[0] == pre[1]);
    }
}

/// Raising the bound keeps every tag below it.
pub proof fn lemma_side_ts_monotone(levels: Seq<LevelModel>, ts1: u64, ts2: u64)
    requires
        side_ts_below(levels, ts1),
        ts1 <= ts2,
    ensures
        side_ts_below(levels, ts2),
{
    assert forall|i: int| 0 <= i < levels.len() implies level_ts_below(
        (#[trigger] levels[i]).orders,
        ts2,
    ) by {
        assert(level_ts_below(levels[i].orders, ts1));
        assert forall|j: int| 0 <= j < levels[i].orders.len() implies (#[trigger] levels[i].orders[j]).submit_ts < ts2 by {
            assert(levels[i].orders[j].submit_ts < ts1);
        }
    }
}

/// Putting a non-empty level back in front of the side's tail keeps the
/// side well formed, provided the level kept its price and the tail was
/// the side's tail.
pub proof fn lemma_side_wf_front(
    tail: Seq<LevelModel>,
    post: Seq<LevelModel>,
    front: u64,
    side: Side,
    ascending: bool,
    ts: u64,
)
    requires
        side_wf(tail, side, ascending),
        side_ts_below(tail, ts),
        tail.len() > 0 ==> (if ascending {
            tail[0].price > front
        } else {
            tail[0].price < front
        }),
        post.len() == tail.len() + 1,
        post[0].price == front,
        post[0].orders.len() >= 1,
        level_wf(post[0].price, post[0].orders, side),
        level_ts_below(post[0].orders, ts),
        post.drop_first() == tail,
    ensures
        side_wf(post, side, ascending),
        side_ts_below(post, ts),
{
    assert forall|a: int, b: int| 0 <= a < b < post.len() implies (if ascending {
        post[a].price < post[b].price
    } else {
        post[a].price > post[b].price
    }) by {
        assert(post[b] == tail[b - 1]);
        if a > 0 {
            assert(post[a] == tail[a - 1]);
        } else {
            if b - 1 > 0 {
                assert(tail[0].price == post[1].price);
            }
        }
    }
    assert forall|i: int| 0 <= i < post.len() implies level_wf(
        (#[trigger] post[i]).price,
        post[i].orders,
        side,
    ) && post[i].orders.len() >= 1 && level_ts_below(post[i].orders, ts) by {
        if i > 0 {
            assert(post[i] == tail[i - 1]);
        }
    }
}

/// One maker-side state between the matching steps of a sweep: the
/// maker levels (best first), the taker's remaining quantity, and the
/// counters the step advances.
#[verifier::ext_equal]
pub ghost struct SweepState {
    pub levels: Seq<LevelModel>,
    pub rem: u64,
    pub seq: u64,
    pub next_ts: u64,
    pub last: u64,
}

/// One matching step, fully determined by the state and the taker: the
/// trade bites the head entry of the best level -- the maker -- at that
/// level's price, for exactly the smaller of the two remaining
/// quantities, decrementing maker and taker by that amount; a depleted
/// iceberg slice refills at the tail under a fresh tag, a depleted
/// level leaves the side.
pub open spec fn sweep_step(
    pre: SweepState,
    post: SweepState,
    t: TradeReport,
    taker: Order,
    ascending: bool,
) -> bool {
    let head = pre.levels[0].orders[0];
    let q = consumed_of(head, pre.rem);
    let cut = after_consume(pre.levels[0].orders, pre.rem, pre.next_ts);
    let refill = head.remaining_qty <= pre.rem && head.reserve_qty > 0;
    &&& pre.levels.len() > 0
    &&& pre.levels[0].orders.len() > 0
    &&& pre.rem > 0
    &&& spec_crosses(taker, pre.levels[0].price, ascending)
    &&& t == (TradeReport {
        seq: pre.seq,
        maker_id: head.id,
        taker_id: taker.id,
        price: pre.levels[0].price,
        quantity: q,
        ts: taker.timestamp,
    })
    &&& post.levels == (if cut.len() == 0 {
        pre.levels.drop_first()
    } else {
        pre.levels.update(0, LevelModel { price: pre.levels[0].price, orders: cut })
    })
    &&& post.rem == pre.rem - q
    &&& post.seq == pre.seq + 1
    &&& post.next_ts == pre.next_ts + (if refill {
        1int
    } else {
        0int
    })
    &&& post.last == pre.levels[0].price
}

/// A whole sweep as a chain of matching steps: each trade is one step
/// from the state before it to the state after it.
pub open spec fn sweep_trace(
    states: Seq<SweepState>,
    trades: Seq<TradeReport>,
    taker: Order,
    ascending: bool,
) -> bool {
    &&& states.len() == trades.len() + 1
    &&& forall|k: int|
        0 <= k < trades.len() ==> sweep_step(
            #[trigger] states[k],
            states[k + 1],
            trades[k],
            taker,
            ascending,
        )
}

/// Each matching step is a function of its state: two steps from equal
/// states produce the same trade and the same next state.
pub proof fn lemma_sweep_step_deterministic(
    pre: SweepState,
    post1: SweepState,
    post2: SweepState,
    t1: TradeReport,
    t2: TradeReport,
    taker: Order,
    ascending: bool,
)
    requires
        sweep_step(pre, post1, t1, taker, ascending),
        sweep_step(pre, post2, t2, taker, ascending),
    ensures
        t1 == t2,
        post1 == post2,
{
    assert(post1 =~~= post2);
}

/// Everything one side-sweep promises, bundled over models: the taker's
/// own side and the stop table untouched; the maker side only consumed
/// from the front; the taker loses exactly the traded quantity, which is
/// exactly what left the maker side; appended trades carry consecutive
/// sequence numbers and prices bounded by the maker best before and the
/// taker's limit; and the sweep stops only when the taker is spent, the
/// side empty, or the front no longer crosses.
pub open spec fn sweep_post(
    pre: BookModel,
    post: BookModel,
    t0: Order,
    t1: Order,
    tr0: Seq<TradeReport>,
    tr1: Seq<TradeReport>,
    is_buy: bool,
) -> bool {
    let mk0 = if is_buy {
        pre.asks
    } else {
        pre.bids
    };
    let mk1 = if is_buy {
        post.asks
    } else {
        post.bids
    };
    let own0 = if is_buy {
        pre.bids
    } else {
        pre.asks
    };
    let own1 = if is_buy {
        post.bids
    } else {
        post.asks
    };
    &&& own1 == own0
    &&& post.stops == pre.stops
    &&& mk1.len() <= mk0.len()
    &&& (mk1.len() > 0 && mk0.len() > 0 ==> (if is_buy {
        mk1[0].price >= mk0[0].price
    } else {
        mk1[0].price <= mk0[0].price
    }))
    &&& t1 == (Order { remaining_qty: t1.remaining_qty, ..t0 })
    &&& t1.remaining_qty <= t0.remaining_qty
    &&& tr1.len() >= tr0.len()
    &&& tr1.subrange(0, tr0.len() as int) == tr0
    &&& forall|k: int|
        tr0.len() <= k < tr1.len() ==> mk0.len() > 0 && sweep_trade_ok(
            #[trigger] tr1[k],
            t0,
            mk0[0].price,
            is_buy,
        ) && tr1[k].seq == pre.seq + k - tr0.len()
    &&& post.seq == pre.seq + tr1.len() - tr0.len()
    &&& post.seq + t1.remaining_qty <= pre.seq + t0.remaining_qty
    &&& post.next_ts >= pre.next_ts
    &&& post.next_ts + t1.remaining_qty <= pre.next_ts + t0.remaining_qty
    &&& t0.remaining_qty - t1.remaining_qty == trade_qty_sum(tr1) - trade_qty_sum(tr0)
    &&& side_qty_sum(mk1) == side_qty_sum(mk0) - (trade_qty_sum(tr1) - trade_qty_sum(tr0))
    &&& (tr1.len() == tr0.len() ==> mk1 == mk0 && post.last_price == pre.last_price && post.seq
        == pre.seq && post.next_ts == pre.next_ts)
    &&& (tr1.len() > tr0.len() ==> post.last_price == tr1.last().price && tr1[tr0.len() as int].price
        == mk0[0].price)
    &&& (t1.remaining_qty > 0 ==> mk1.len() == 0 || !spec_crosses(t0, mk1[0].price, is_buy))
    &&& (exists|states: Seq<SweepState>|
        {
            &&& #[trigger] sweep_trace(states, tr1.skip(tr0.len() as int), t0, is_buy)
            &&& states[0] == (SweepState {
                levels: mk0,
                rem: t0.remaining_qty,
                seq: pre.seq,
                next_ts: pre.next_ts,
                last: pre.last_price,
            })
            &&& states.last() == (SweepState {
                levels: mk1,
                rem: t1.remaining_qty,
                seq: post.seq,
                next_ts: post.next_ts,
                last: post.last_price,
            })
        })
}

impl<A: AssetBehavior> OrderBook<A> {
    /// Match an incoming buy against the asks, lowest price first,
    /// FIFO within a level; see [`sweep_post`] for the full promise.
    pub fn match_buy(&mut self, order: &mut Order, trades: &mut Vec<TradeReport>)
        requires
            old(self).wf(),
            old(order).side == Side::Buy,
            old(order).reserve_qty == 0,
            old(self).seq + old(order).remaining_qty <= u64::MAX,
            old(self).next_ts + old(order).remaining_qty <= u64::MAX,
        ensures
            final(self).wf(),
            final(self).asset_behavior == old(self).asset_behavior,
            final(self).bids@ == old(self).bids@,
            final(self).stop_orders@ == old(self).stop_orders@,
            sweep_post(
                old(self).model(),
                final(self).model(),
                *old(order),
                *final(order),
                old(trades)@,
                final(trades)@,
                true,
            ),
    {
        let ghost m0 = self.model();
        sweep_levels(
            &mut self.asks,
            order,
            trades,
            &mut self.seq,
            &mut self.next_ts,
            &mut self.last_price,
            Side::Sell,
            true,
        );
        proof {
            lemma_side_ts_monotone(self.model().bids, m0.next_ts, self.next_ts);
            lemma_stops_ts_monotone(self.stop_orders@, m0.next_ts, self.next_ts);
        }
    }

    /// Match an incoming sell against the bids, highest price first,
    /// FIFO within a level; see [`sweep_post`] for the full promise.
    pub fn match_sell(&mut self, order: &mut Order, trades: &mut Vec<TradeReport>)
        requires
            old(self).wf(),
            old(order).side == Side::Sell,
            old(order).reserve_qty == 0,
            old(self).seq + old(order).remaining_qty <= u64::MAX,
            old(self).next_ts + old(order).remaining_qty <= u64::MAX,
        ensures
            final(self).wf(),
            final(self).asset_behavior == old(self).asset_behavior,
            final(self).asks@ == old(self).asks@,
            final(self).stop_orders@ == old(self).stop_orders@,
            sweep_post(
                old(self).model(),
                final(self).model(),
                *old(order),
                *final(order),
                old(trades)@,
                final(trades)@,
                false,
            ),
    {
        let ghost m0 = self.model();
        sweep_levels(
            &mut self.bids,
            order,
            trades,
            &mut self.seq,
            &mut self.next_ts,
            &mut self.last_price,
            Side::Buy,
            false,
        );
        proof {
            lemma_side_ts_monotone(self.model().asks, m0.next_ts, self.next_ts);
            lemma_stops_ts_monotone(self.stop_orders@, m0.next_ts, self.next_ts);
        }
    }
}

/// Raising the bound keeps every stop tag below it.
pub proof fn lemma_stops_ts_monotone(stops: Seq<Order>, ts1: u64, ts2: u64)
    requires
        stops_wf(stops, ts1),
        ts1 <= ts2,
    ensures
        stops_wf(stops, ts2),
{
    assert forall|i: int| 0 <= i < stops.len() implies stop_ok(#[trigger] stops[i])
        && stops[i].submit_ts < ts2 by {
        assert(stop_ok(stops[i]) && stops[i].submit_ts < ts1);
    }
}

/// Where an entry at `price` joins the side: the index of the first
/// level at or past the price in the side's order (ascending for asks,
/// descending for bids).
pub open spec fn rest_pos(levels: Seq<LevelModel>, price: u64, ascending: bool) -> int
    decreases levels.len(),
{
    if levels.len() == 0 {
        0
    } else if (if ascending {
        levels[0].price >= price
    } else {
        levels[0].price <= price
    }) {
        0
    } else {
        1 + rest_pos(levels.drop_first(), price, ascending)
    }
}

/// The side after resting an entry at its price: appended to the tail
/// of the level at that price, or a fresh one-entry level inserted in
/// price order.
pub open spec fn side_after_rest(levels: Seq<LevelModel>, order: Order, ascending: bool) -> Seq<
    LevelModel,
> {
    let p = rest_pos(levels, order.price, ascending);
    if p < levels.len() && levels[p].price == order.price {
        levels.update(p, LevelModel { price: order.price, orders: levels[p].orders.push(order) })
    } else {
        levels.insert(p, LevelModel { price: order.price, orders: seq![order] })
    }
}

/// `rest_pos` is in range, every earlier level is strictly better than
/// the price, and the level it names (if any) is at or past it.
pub proof fn lemma_rest_pos(levels: Seq<LevelModel>, price: u64, ascending: bool)
    ensures
        0 <= rest_pos(levels, price, ascending) <= levels.len(),
        forall|k: int|
            0 <= k < rest_pos(levels, price, ascending) ==> (if ascending {
                (#[trigger] levels[k]).price < price
            } else {
                levels[k].price > price
            }),
        rest_pos(levels, price, ascending) < levels.len() ==> (if ascending {
            levels[rest_pos(levels, price, ascending)].price >= price
        } else {
            levels[rest_pos(levels, price, ascending)].price <= price
        }),
    decreases levels.len(),
{
    if levels.len() > 0 {
        let rest = levels.drop_first();
        lemma_rest_pos(rest, price, ascending);
        if !(if ascending {
            levels[0].price >= price
        } else {
            levels[0].price <= price
        }) {
            assert forall|k: int| 0 <= k < rest_pos(levels, price, ascending) implies (
            if ascending {
                (#[trigger] levels[k]).price < price
            } else {
                levels[k].price > price
            }) by {
                if k > 0 {
                    assert(levels[k] == rest[k - 1]);
                }
            }
            if rest_pos(levels, price, ascending) < levels.len() {
                assert(levels[rest_pos(levels, price, ascending)] == rest[rest_pos(
                    rest,
                    price,
                    ascending,
                )]);
            }
        }
    }
}

/// If every level before `i` is strictly better than the price and
/// level `i` (if it exists) is not, the resting position is `i`.
pub proof fn lemma_rest_pos_at(levels: Seq<LevelModel>, price: u64, ascending: bool, i: int)
    requires
        0 <= i <= levels.len(),
        forall|k: int|
            0 <= k < i ==> (if ascending {
                (#[trigger] levels[k]).price < price
            } else {
                levels[k].price > price
            }),
        i < levels.len() ==> (if ascending {
            levels[i].price >= price
        } else {
            levels[i].price <= price
        }),
    ensures
        rest_pos(levels, price, ascending) == i,
    decreases levels.len(),
{
    if levels.len() > 0 && i > 0 {
        let rest = levels.drop_first();
        assert forall|k: int| 0 <= k < i - 1 implies (if ascending {
            (#[trigger] rest[k]).price < price
        } else {
            rest[k].price > price
        }) by {
            assert(rest[k] == levels[k + 1]);
        }
        if i - 1 < rest.len() {
            assert(rest[i - 1] == levels[i]);
        }
        lemma_rest_pos_at(rest, price, ascending, i - 1);
    }
}

/// Whether the level's price is strictly better (from the side's point
/// of view) than the given price.
fn price_before(l: &PriceLevel, price: u64, ascending: bool) -> (r: bool)
    ensures
        r == (if ascending {
            l.price < price
        } else {
            l.price > price
        }),
{
    if ascending {
        l.price < price
    } else {
        l.price > price
    }
}

/// Rest an entry on one side in price order; see [`side_after_rest`].
fn rest_into(levels: &mut Vec<PriceLevel>, order: Order, side: Side, ascending: bool, ts_cap: u64)
    requires
        side_wf(side_model(old(levels)@), side, ascending),
        side_ts_below(side_model(old(levels)@), ts_cap),
        side_ts_below(side_model(old(levels)@), order.submit_ts),
        entry_ok(order, order.price, side),
        order.submit_ts < ts_cap,
    ensures
        side_model(final(levels)@) == side_after_rest(side_model(old(levels)@), order, ascending),
        side_wf(side_model(final(levels)@), side, ascending),
        side_ts_below(side_model(final(levels)@), ts_cap),
        final(levels)@.len() >= 1,
        side_model(final(levels)@)[0].price == (if old(levels)@.len() == 0 {
            order.price
        } else if (if ascending {
            side_model(old(levels)@)[0].price < order.price
        } else {
            side_model(old(levels)@)[0].price > order.price
        }) {
            side_model(old(levels)@)[0].price
        } else {
            order.price
        }),
{
    let ghost pre = side_model(levels@);
    let mut i: usize = 0;
    while i < levels.len() && price_before(&levels[i], order.price, ascending)
        invariant
            0 <= i <= levels@.len(),
            levels@ == old(levels)@,
            forall|k: int|
                0 <= k < i ==> (if ascending {
                    (#[trigger] side_model(levels@)[k]).price < order.price
                } else {
                    side_model(levels@)[k].price > order.price
                }),
        decreases levels@.len() - i,
    {
        i = i + 1;
    }
    proof {
        lemma_rest_pos_at(pre, order.price, ascending, i as int);
    }
    if i < levels.len() && levels[i].price == order.price {
        let mut lvl = levels.remove(i);
        lvl.append(order);
        levels.insert(i, lvl);
        let ghost lm = LevelModel { price: order.price, orders: pre[i as int].orders.push(order) };
        proof {
            assert(side_model(levels@) =~~= pre.update(i as int, lm));
            let post = side_model(levels@);
            assert forall|a: int| 0 <= a < post.len() implies level_wf(
                (#[trigger] post[a]).price,
                post[a].orders,
                side,
            ) && post[a].orders.len() >= 1 && level_ts_below(post[a].orders, ts_cap) by {
                if a != i {
                    assert(post[a] == pre[a]);
                } else {
                    assert(level_ts_below(pre[a].orders, order.submit_ts));
                    assert forall|x: int, y: int|
                        0 <= x < y < post[a].orders.len() implies post[a].orders[x].submit_ts
                        < post[a].orders[y].submit_ts by {
                        if y < post[a].orders.len() - 1 {
                            assert(post[a].orders[x] == pre[a].orders[x]);
                            assert(post[a].orders[y] == pre[a].orders[y]);
                        } else {
                            assert(post[a].orders[x] == pre[a].orders[x]);
                        }
                    }
                }
            }
            assert forall|a: int, b: int| 0 <= a < b < post.len() implies (if ascending {
                post[a].price < post[b].price
            } else {
                post[a].price > post[b].price
            }) by {
                assert(post[a].price == pre[a].price);
                assert(post[b].price == pre[b].price);
            }
        }
    } else {
        let mut lvl = PriceLevel::new(order.price);
        lvl.append(order);
        levels.insert(i, lvl);
        let ghost lm = LevelModel { price: order.price, orders: seq![order] };
        proof {
            assert(lvl.orders@ =~= seq![order]);
            assert(side_model(levels@) =~~= pre.insert(i as int, lm));
            lemma_rest_pos(pre, order.price, ascending);
            let post = side_model(levels@);
            assert forall|a: int| 0 <= a < post.len() implies level_wf(
                (#[trigger] post[a]).price,
                post[a].orders,
                side,
            ) && post[a].orders.len() >= 1 && level_ts_below(post[a].orders, ts_cap) by {
                if a < i {
                    assert(post[a] == pre[a]);
                } else if a > i {
                    assert(post[a] == pre[a - 1]);
                }
            }
            assert forall|a: int, b: int| 0 <= a < b < post.len() implies (if ascending {
                post[a].price < post[b].price
            } else {
                post[a].price > post[b].price
            }) by {
                if a < i {
                    assert(post[a] == pre[a]);
                } else if a > i {
                    assert(post[a] == pre[a - 1]);
                }
                if b < i {
                    assert(post[b] == pre[b]);
                } else if b > i {
                    assert(post[b] == pre[b - 1]);
                }
            }
        }
    }
}

impl<A: AssetBehavior> OrderBook<A> {
    /// Rest an admitted residual on its own side at its price, creating
    /// the level if none exists. The entry must not cross the opposite
    /// best, and its priority tag must be fresher than everything
    /// already resting on its side.
    fn rest_order(&mut self, order: Order)
        requires
            old(self).wf(),
            entry_ok(order, order.price, order.side),
            order.submit_ts < old(self).next_ts,
            order.side is Buy ==> side_ts_below(old(self).model().bids, order.submit_ts)
                && (old(self).model().asks.len() > 0 ==> order.price < old(self).model().asks[0].price),
            order.side is Sell ==> side_ts_below(old(self).model().asks, order.submit_ts)
                && (old(self).model().bids.len() > 0 ==> order.price > old(self).model().bids[0].price),
        ensures
            final(self).wf(),
            final(self).asset_behavior == old(self).asset_behavior,
            final(self).stop_orders@ == old(self).stop_orders@,
            final(self).last_price == old(self).last_price,
            final(self).seq == old(self).seq,
            final(self).next_ts == old(self).next_ts,
            order.side is Buy ==> final(self).asks@ == old(self).asks@ && final(self).model().bids
                == side_after_rest(old(self).model().bids, order, false),
            order.side is Sell ==> final(self).bids@ == old(self).bids@
                && final(self).model().asks == side_after_rest(old(self).model().asks, order, true),
    {
        match order.side {
            Side::Buy => {
                rest_into(&mut self.bids, order, Side::Buy, false, self.next_ts);
            },
            Side::Sell => {
                rest_into(&mut self.asks, order, Side::Sell, true, self.next_ts);
            },
        }
    }
}

/// The admission gate, applied before any mutation: market open, a
/// positive quantity, the asset rules' validation, a positive display
/// for icebergs, and a usable trigger for stops -- in that order.
pub open spec fn spec_gate(open: bool, valid: bool, order: Order) -> Option<RejectReason> {
    if !open {
        Some(RejectReason::MarketClosed)
    } else if order.quantity == 0 {
        Some(RejectReason::InvalidQuantity)
    } else if !valid {
        Some(RejectReason::InvalidPrice)
    } else if (match order.order_type {
        OrderType::Iceberg(d) => d == 0,
        _ => false,
    }) {
        Some(RejectReason::InvalidQuantity)
    } else if (match order.order_type {
        OrderType::Stop(t, _) => t == 0,
        _ => false,
    }) {
        Some(RejectReason::StopWithoutTrigger)
    } else {
        None
    }
}

/// What the taker phase of one submission promises: the first `n`
/// trades are the taker's own, each priced within the opposite best
/// before the submit and the taker's own limit, their quantities sum to
/// at most the order's quantity, and the outcome tells exactly how the
/// residual was handled for the order's time-in-force.
pub open spec fn taker_segment(
    m0: BookModel,
    order: Order,
    trades: Seq<TradeReport>,
    n: int,
    outcome: SubmitOutcome,
) -> bool {
    let is_buy = order.side is Buy;
    let mk0 = if is_buy {
        m0.asks
    } else {
        m0.bids
    };
    let taker = admitted(order, m0.next_ts);
    let seg = trades.subrange(0, n);
    &&& 0 <= n <= trades.len()
    &&& forall|k: int|
        0 <= k < n ==> mk0.len() > 0 && sweep_trade_ok(
            #[trigger] trades[k],
            taker,
            mk0[0].price,
            is_buy,
        )
    &&& trade_qty_sum(seg) <= order.quantity
    &&& (n > 0 ==> trades[0].price == mk0[0].price)
    &&& {
        let rem = order.quantity - trade_qty_sum(seg);
        if rem == 0 {
            outcome == SubmitOutcome::Filled
        } else {
            match order.order_type {
                OrderType::Limit | OrderType::Iceberg(_) => outcome == (if n == 0 {
                    SubmitOutcome::Rested
                } else {
                    SubmitOutcome::PartiallyFilledRested
                }),
                OrderType::Market | OrderType::IOC => outcome == SubmitOutcome::Cancelled(
                    rem as u64,
                ),
                OrderType::FOK => outcome == SubmitOutcome::Rejected(RejectReason::FOKUnfillable)
                    && n == 0,
                OrderType::Stop(..) => false,
            }
        }
    }
}

/// The entry a restable residual puts on its own side: a limit rests
/// whole; an iceberg shows at most its display, holding the rest as
/// hidden reserve.
pub open spec fn residual_entry(t: Order) -> Order {
    match t.order_type {
        OrderType::Iceberg(d) => {
            let slice = if d < t.remaining_qty {
                d
            } else {
                t.remaining_qty
            };
            Order { remaining_qty: slice, reserve_qty: (t.remaining_qty - slice) as u64, ..t }
        },
        _ => t,
    }
}

/// The book after a partially executed taker's residual rests on its
/// own side at its price.
pub open spec fn rest_residual(swept: BookModel, t: Order, is_buy: bool) -> BookModel {
    if is_buy {
        BookModel { bids: side_after_rest(swept.bids, residual_entry(t), false), ..swept }
    } else {
        BookModel { asks: side_after_rest(swept.asks, residual_entry(t), true), ..swept }
    }
}

/// The whole taker phase of one admitted non-stop submission, before
/// any stop cascade: `mid` is the admitted book swept by the taker's
/// own `n` trades per [`sweep_post`], with a restable residual rested
/// on its own side -- so when quantity remains unexecuted, the swept
/// opposite side no longer crosses the taker.
pub open spec fn taker_phase(
    m0: BookModel,
    mid: BookModel,
    order: Order,
    trades: Seq<TradeReport>,
    n: int,
) -> bool {
    let is_buy = order.side is Buy;
    let taker = admitted(order, m0.next_ts);
    let m_admit = BookModel { next_ts: (m0.next_ts + 1) as u64, ..m0 };
    let seg = trades.subrange(0, n);
    exists|swept: BookModel, t1: Order|
        {
            &&& #[trigger] sweep_post(
                m_admit,
                swept,
                taker,
                t1,
                Seq::<TradeReport>::empty(),
                seg,
                is_buy,
            )
            &&& mid == (if t1.remaining_qty == 0 {
                swept
            } else {
                match order.order_type {
                    OrderType::Limit | OrderType::Iceberg(_) => rest_residual(swept, t1, is_buy),
                    _ => swept,
                }
            })
        }
}

/// What the stop cascade promises of the book it ran on: a book whose
/// last trade price is unset, or none of whose waiting stops' triggers
/// it reaches, is left exactly as it was; stops only leave the table;
/// and on return nothing more can fire (quiescence).
pub open spec fn cascade_rel(mid: BookModel, post: BookModel) -> bool {
    &&& ((mid.last_price == 0 || (forall|k: int|
        0 <= k < mid.stops.len() ==> !stop_triggered(#[trigger] mid.stops[k], mid.last_price)))
        ==> post == mid)
    &&& (post.last_price == 0 || (forall|k: int|
        0 <= k < post.stops.len() ==> !stop_triggered(#[trigger] post.stops[k], post.last_price)))
    &&& post.stops.len() <= mid.stops.len()
}

/// An upper bound on the counter headroom one pass over the stop table
/// can consume: each stop costs at most its quantity in trades and
/// refills, one admission tag, and slack.
pub open spec fn stops_budget(stops: Seq<Order>) -> int
    decreases stops.len(),
{
    if stops.len() == 0 {
        0
    } else {
        stops[0].quantity + 2 + stops_budget(stops.drop_first())
    }
}

/// The budget is never negative.
pub proof fn lemma_stops_budget_nonneg(stops: Seq<Order>)
    ensures
        stops_budget(stops) >= 0,
    decreases stops.len(),
{
    if stops.len() > 0 {
        lemma_stops_budget_nonneg(stops.drop_first());
    }
}

/// Removing one stop frees exactly its share of the budget.
pub proof fn lemma_stops_budget_remove(stops: Seq<Order>, i: int)
    requires
        0 <= i < stops.len(),
    ensures
        stops_budget(stops.remove(i)) == stops_budget(stops) - stops[i].quantity - 2,
    decreases stops.len(),
{
    if i == 0 {
        assert(stops.remove(0) =~= stops.drop_first());
    } else {
        assert(stops.remove(i).drop_first() =~= stops.drop_first().remove(i - 1));
        lemma_stops_budget_remove(stops.drop_first(), i - 1);
    }
}

/// Whether the last trade price has reached the stop's trigger.
pub open spec fn stop_triggered(o: Order, last: u64) -> bool {
    match o.order_type {
        OrderType::Stop(trig, _) => (if o.side is Buy {
            last >= trig
        } else {
            last <= trig
        }),
        _ => false,
    }
}

/// Executable mirror of [`stop_triggered`].
fn stop_is_triggered(o: &Order, last: u64) -> (r: bool)
    ensures
        r == stop_triggered(*o, last),
{
    match o.order_type {
        OrderType::Stop(trig, _) => match o.side {
            Side::Buy => last >= trig,
            Side::Sell => last <= trig,
        },
        _ => false,
    }
}

/// An element-wise copy of an order queue.
fn copy_orders(v: &Vec<Order>) -> (r: Vec<Order>)
    ensures
        r@ == v@,
{
    let mut r: Vec<Order> = Vec::new();
    let mut i: usize = 0;
    while i < v.len()
        invariant
            0 <= i <= v@.len(),
            r@ == v@.subrange(0, i as int),
        decreases v@.len() - i,
    {
        r.push(v[i]);
        i = i + 1;
        proof {
            assert(r@ =~= v@.subrange(0, i as int));
        }
    }
    proof {
        assert(v@.subrange(0, v@.len() as int) =~= v@);
    }
    r
}

/// A copy of one side that is equal level by level.
fn copy_levels(v: &Vec<PriceLevel>) -> (r: Vec<PriceLevel>)
    ensures
        side_model(r@) == side_model(v@),
{
    let mut r: Vec<PriceLevel> = Vec::new();
    let mut i: usize = 0;
    while i < v.len()
        invariant
            0 <= i <= v@.len(),
            r@.len() == i,
            forall|k: int| 0 <= k < i ==> side_model(r@)[k] == side_model(v@)[k],
        decreases v@.len() - i,
    {
        let lvl = PriceLevel { price: v[i].price, orders: copy_orders(&v[i].orders) };
        r.push(lvl);
        i = i + 1;
    }
    proof {
        assert(side_model(r@) =~~= side_model(v@));
    }
    r
}

impl<A: AssetBehavior> OrderBook<A> {
    /// The waiting stop, among those whose trigger the last trade price
    /// has reached, with the smallest id -- the deterministic cascade
    /// order -- or none.
    fn find_triggered(&self) -> (r: Option<usize>)
        ensures
            match r {
                Some(i) => i < self.stop_orders@.len() && stop_triggered(
                    self.stop_orders@[i as int],
                    self.last_price,
                ) && forall|k: int|
                    0 <= k < self.stop_orders@.len() && stop_triggered(
                        #[trigger] self.stop_orders@[k],
                        self.last_price,
                    ) ==> self.stop_orders@[i as int].id <= self.stop_orders@[k].id,
                None => forall|k: int|
                    0 <= k < self.stop_orders@.len() ==> !stop_triggered(
                        #[trigger] self.stop_orders@[k],
                        self.last_price,
                    ),
            },
    {
        let mut best: Option<usize> = None;
        let mut k: usize = 0;
        while k < self.stop_orders.len()
            invariant
                0 <= k <= self.stop_orders@.len(),
                match best {
                    Some(b) => b < k && stop_triggered(
                        self.stop_orders@[b as int],
                        self.last_price,
                    ) && forall|j: int|
                        0 <= j < k && stop_triggered(
                            #[trigger] self.stop_orders@[j],
                            self.last_price,
                        ) ==> self.stop_orders@[b as int].id <= self.stop_orders@[j].id,
                    None => forall|j: int|
                        0 <= j < k ==> !stop_triggered(
                            #[trigger] self.stop_orders@[j],
                            self.last_price,
                        ),
                },
            decreases self.stop_orders@.len() - k,
        {
            if stop_is_triggered(&self.stop_orders[k], self.last_price) {
                match best {
                    None => {
                        best = Some(k);
                    },
                    Some(b) => {
                        if self.stop_orders[k].id < self.stop_orders[b].id {
                            best = Some(k);
                        }
                    },
                }
            }
            k = k + 1;
        }
        best
    }

    /// Drain the stop cascade: while some waiting stop's trigger is
    /// reached by the last trade price, remove the triggered stop with
    /// the smallest id, turn it into its underlying kind, and re-submit
    /// it through admission, matching and resting. Its trades continue
    /// the book's sequence numbering. A book with no stops, or with no
    /// trade price yet, is left untouched.
    pub fn check_stop_orders(&mut self, trades: &mut Vec<TradeReport>)
        requires
            old(self).wf(),
            old(self).seq + stops_budget(old(self).model().stops) <= u64::MAX,
            old(self).next_ts + stops_budget(old(self).model().stops) <= u64::MAX,
        ensures
            final(self).wf(),
            final(self).asset_behavior == old(self).asset_behavior,
            final(trades)@.len() >= old(trades)@.len(),
            final(trades)@.subrange(0, old(trades)@.len() as int) == old(trades)@,
            final(self).seq == old(self).seq + final(trades)@.len() - old(trades)@.len(),
            forall|k: int|
                old(trades)@.len() <= k < final(trades)@.len()
                    ==> (#[trigger] final(trades)@[k]).seq == old(self).seq + k - old(trades)@.len()
                    && final(trades)@[k].quantity >= 1,
            final(self).model().stops.len() <= old(self).model().stops.len(),
            old(self).last_price == 0 || (forall|k: int|
                0 <= k < old(self).stop_orders@.len() ==> !stop_triggered(
                    #[trigger] old(self).stop_orders@[k],
                    old(self).last_price,
                )) ==> *final(self) == *old(self) && final(trades)@ == old(trades)@,
            final(self).last_price == 0 || (forall|k: int|
                0 <= k < final(self).stop_orders@.len() ==> !stop_triggered(
                    #[trigger] final(self).stop_orders@[k],
                    final(self).last_price,
                )),
    {
        let mut go = true;
        while go
            invariant
                self.wf(),
                self.asset_behavior == old(self).asset_behavior,
                old(self).seq + stops_budget(old(self).model().stops) <= u64::MAX,
                old(self).next_ts + stops_budget(old(self).model().stops) <= u64::MAX,
                trades@.len() >= old(trades)@.len(),
                trades@.subrange(0, old(trades)@.len() as int) == old(trades)@,
                self.seq == old(self).seq + trades@.len() - old(trades)@.len(),
                forall|k: int|
                    old(trades)@.len() <= k < trades@.len()
                        ==> (#[trigger] trades@[k]).seq == old(self).seq + k - old(trades)@.len()
                        && trades@[k].quantity >= 1,
                self.stop_orders@.len() <= old(self).stop_orders@.len(),
                self.seq + stops_budget(self.model().stops) <= old(self).seq + stops_budget(
                    old(self).model().stops,
                ),
                self.next_ts + stops_budget(self.model().stops) <= old(self).next_ts
                    + stops_budget(old(self).model().stops),
                self.next_ts >= old(self).next_ts,
                old(self).last_price == 0 || (forall|k: int|
                    0 <= k < old(self).stop_orders@.len() ==> !stop_triggered(
                        #[trigger] old(self).stop_orders@[k],
                        old(self).last_price,
                    )) ==> *self == *old(self) && trades@ == old(trades)@,
                !go ==> self.last_price == 0 || (forall|k: int|
                    0 <= k < self.stop_orders@.len() ==> !stop_triggered(
                        #[trigger] self.stop_orders@[k],
                        self.last_price,
                    )),
            decreases self.stop_orders@.len(), (if go {
                1int
            } else {
                0int
            }),
        {
            if self.last_price == 0 {
                go = false;
            } else {
                let cand = self.find_triggered();
                match cand {
                    None => {
                        go = false;
                    },
                    Some(i) => {
                        let ghost pre = *self;
                        let stop = self.stop_orders.remove(i);
                        proof {
                            lemma_stops_wf_remove(pre.stop_orders@, i as int, self.next_ts);
                            lemma_stops_budget_remove(pre.stop_orders@, i as int);
                            lemma_stops_budget_nonneg(self.stop_orders@);
                            assert(stop_ok(stop));
                        }
                        let underlying = match stop.order_type {
                            OrderType::Stop(_, StopKind::Market) => OrderType::Market,
                            OrderType::Stop(_, StopKind::Limit) => OrderType::Limit,
                            _ => OrderType::Market,
                        };
                        let open = self.asset_behavior.is_market_open(stop.timestamp);
                        let valid = self.asset_behavior.validate_order(stop.price, stop.quantity);
                        if open && valid {
                            let mut taker = Order {
                                order_type: underlying,
                                remaining_qty: stop.quantity,
                                reserve_qty: 0,
                                submit_ts: self.next_ts,
                                ..stop
                            };
                            let ghost own0 = if taker.side is Buy {
                                self.model().bids
                            } else {
                                self.model().asks
                            };
                            self.next_ts = self.next_ts + 1;
                            proof {
                                lemma_side_ts_monotone(self.model().bids, (self.next_ts - 1) as u64, self.next_ts);
                                lemma_side_ts_monotone(self.model().asks, (self.next_ts - 1) as u64, self.next_ts);
                                lemma_stops_ts_monotone(self.stop_orders@, (self.next_ts - 1) as u64, self.next_ts);
                            }
                            let ghost mid = *self;
                            let ghost mid_trades = trades@;
                            match taker.side {
                                Side::Buy => self.match_buy(&mut taker, trades),
                                Side::Sell => self.match_sell(&mut taker, trades),
                            }
                            proof {
                                assert forall|k: int|
                                    old(trades)@.len() <= k < trades@.len() implies (
                                #[trigger] trades@[k]).seq == old(self).seq + k - old(
                                    trades,
                                )@.len() && trades@[k].quantity >= 1 by {
                                    if k < mid_trades.len() {
                                        assert(trades@.subrange(0, mid_trades.len() as int)[k]
                                            == trades@[k]);
                                        assert(mid_trades[k] == trades@[k]);
                                    }
                                }
                                assert(trades@.subrange(0, old(trades)@.len() as int) =~= mid_trades.subrange(
                                    0,
                                    old(trades)@.len() as int,
                                ));
                            }
                            if taker.remaining_qty > 0 {
                                match taker.order_type {
                                    OrderType::Limit => {
                                        proof {
                                            assert(side_ts_below(own0, taker.submit_ts));
                                        }
                                        self.rest_order(taker);
                                    },
                                    _ => {},
                                }
                            }
                        }
                    },
                }
            }
        }
    }
}

impl<A: AssetBehavior> OrderBook<A> {
    /// Submit one order: gate it against the asset rules, admit it with
    /// a fresh priority tag, route it by kind (stops wait; fill-or-kill
    /// is all-or-nothing; market, immediate-or-cancel, limit and
    /// iceberg match immediately), rest any restable residual, and
    /// drain the stop cascade the trades may have triggered. Returns
    /// the trades in sequence order and exactly one outcome.
    #[verifier::rlimit(100)]
    pub fn match_order(&mut self, order: Order) -> (r: SubmitResult)
        requires
            old(self).wf(),
            old(self).seq + order.quantity + stops_budget(old(self).model().stops) <= u64::MAX,
            old(self).next_ts + 1 + order.quantity + stops_budget(old(self).model().stops)
                <= u64::MAX,
        ensures
            final(self).wf(),
            final(self).asset_behavior == old(self).asset_behavior,
            // a refused order produces its rejection reason, no trade,
            // and leaves the book untouched
            (match spec_gate(
                old(self).asset_behavior.spec_market_open(order.timestamp),
                old(self).asset_behavior.spec_validate(order.price, order.quantity),
                order,
            ) {
                Some(reason) => r.outcome == SubmitOutcome::Rejected(reason) && r.trades@.len()
                    == 0 && final(self).model() == old(self).model(),
                None => true,
            }),
            // a stop rests in the stop table, untouched but for the tag
            spec_gate(
                old(self).asset_behavior.spec_market_open(order.timestamp),
                old(self).asset_behavior.spec_validate(order.price, order.quantity),
                order,
            ) is None && order.order_type is Stop ==> r.outcome == SubmitOutcome::Rested
                && r.trades@.len() == 0 && final(self).model() == (BookModel {
                stops: old(self).model().stops.push(admitted(order, old(self).next_ts)),
                next_ts: (old(self).next_ts + 1) as u64,
                ..old(self).model()
            }),
            // a fill-or-kill fills in full or leaves no mark
            spec_gate(
                old(self).asset_behavior.spec_market_open(order.timestamp),
                old(self).asset_behavior.spec_validate(order.price, order.quantity),
                order,
            ) is None && order.order_type is FOK ==> (r.outcome == SubmitOutcome::Rejected(
                RejectReason::FOKUnfillable,
            ) && r.trades@.len() == 0 && final(self).model() == old(self).model()) || r.outcome
                == SubmitOutcome::Filled,
            // any other admitted order: its own trades come first, are
            // priced within the opposite best and its limit, sum to at
            // most its quantity, and fix the outcome; every trade of
            // the call (cascade included) is numbered consecutively
            spec_gate(
                old(self).asset_behavior.spec_market_open(order.timestamp),
                old(self).asset_behavior.spec_validate(order.price, order.quantity),
                order,
            ) is None && !(order.order_type is Stop) ==> final(self).seq == old(self).seq
                + r.trades@.len() && (forall|k: int|
                0 <= k < r.trades@.len() ==> (#[trigger] r.trades@[k]).seq == old(self).seq + k
                    && r.trades@[k].quantity >= 1) && (exists|n: int|
                taker_segment(old(self).model(), order, r.trades@, n, r.outcome)),
            // the book after: the taker phase rewrites the admitted book
            // exactly (sweep, then the residual rests), and the stop
            // cascade -- run only when trades occurred -- leaves a book
            // on which nothing more can fire
            spec_gate(
                old(self).asset_behavior.spec_market_open(order.timestamp),
                old(self).asset_behavior.spec_validate(order.price, order.quantity),
                order,
            ) is None && !(order.order_type is Stop) && (order.order_type is FOK ==> r.outcome
                == SubmitOutcome::Filled) ==> (exists|mid: BookModel, n: int|
                {
                    &&& 0 <= n <= r.trades@.len()
                    &&& taker_segment(old(self).model(), order, r.trades@, n, r.outcome)
                    &&& #[trigger] taker_phase(old(self).model(), mid, order, r.trades@, n)
                    &&& (r.trades@.len() > 0 ==> cascade_rel(mid, final(self).model()))
                    &&& (r.trades@.len() == 0 ==> final(self).model() == mid)
                }),
    {
        let ghost m0 = self.model();
        let open = self.asset_behavior.is_market_open(order.timestamp);
        if !open {
            return SubmitResult {
                trades: Vec::new(),
                outcome: SubmitOutcome::Rejected(RejectReason::MarketClosed),
            };
        }
        if order.quantity == 0 {
            return SubmitResult {
                trades: Vec::new(),
                outcome: SubmitOutcome::Rejected(RejectReason::InvalidQuantity),
            };
        }
        let valid = self.asset_behavior.validate_order(order.price, order.quantity);
        if !valid {
            return SubmitResult {
                trades: Vec::new(),
                outcome: SubmitOutcome::Rejected(RejectReason::InvalidPrice),
            };
        }
        if let OrderType::Iceberg(d) = order.order_type {
            if d == 0 {
                return SubmitResult {
                    trades: Vec::new(),
                    outcome: SubmitOutcome::Rejected(RejectReason::InvalidQuantity),
                };
            }
        }
        if let OrderType::Stop(trig, _) = order.order_type {
            if trig == 0 {
                return SubmitResult {
                    trades: Vec::new(),
                    outcome: SubmitOutcome::Rejected(RejectReason::StopWithoutTrigger),
                };
            }
        }
        // admit
        let mut taker = order;
        taker.remaining_qty = order.quantity;
        taker.reserve_qty = 0;
        taker.submit_ts = self.next_ts;
        proof {
            assert(taker == admitted(order, m0.next_ts));
        }
        let ghost own0 = if taker.side is Buy {
            self.model().bids
        } else {
            self.model().asks
        };
        proof {
            lemma_stops_budget_nonneg(self.stop_orders@);
        }
        self.next_ts = self.next_ts + 1;
        proof {
            lemma_side_ts_monotone(self.model().bids, (self.next_ts - 1) as u64, self.next_ts);
            lemma_side_ts_monotone(self.model().asks, (self.next_ts - 1) as u64, self.next_ts);
            lemma_stops_ts_monotone(self.stop_orders@, (self.next_ts - 1) as u64, self.next_ts);
            lemma_stops_budget_nonneg(self.stop_orders@);
        }
        let ghost m_admit = self.model();
        proof {
            assert(m_admit =~~= (BookModel { next_ts: (m0.next_ts + 1) as u64, ..m0 }));
        }
        // stops wait for their trigger; no matching attempt
        if let OrderType::Stop(_, _) = taker.order_type {
            self.stop_orders.push(taker);
            proof {
                assert(stop_ok(taker));
                assert(self.model() == (BookModel {
                    stops: m0.stops.push(admitted(order, m0.next_ts)),
                    next_ts: (m0.next_ts + 1) as u64,
                    ..m0
                }));
            }
            return SubmitResult { trades: Vec::new(), outcome: SubmitOutcome::Rested };
        }
        let mut trades: Vec<TradeReport> = Vec::new();
        // fill-or-kill: match against a save point; keep the result
        // only if the taker was fully filled
        if let OrderType::FOK = taker.order_type {
            let saved_seq = self.seq;
            let saved_ts = taker.submit_ts;
            let saved_last = self.last_price;
            if taker.side == Side::Buy {
                let saved = copy_levels(&self.asks);
                self.match_buy(&mut taker, &mut trades);
                if taker.remaining_qty > 0 {
                    self.asks = saved;
                    self.seq = saved_seq;
                    self.next_ts = saved_ts;
                    self.last_price = saved_last;
                    proof {
                        assert(self.model() =~~= m0);
                        assert(Seq::<TradeReport>::empty().subrange(0, 0)
                            =~= Seq::<TradeReport>::empty());
                        assert(taker_segment(
                            m0,
                            order,
                            Seq::<TradeReport>::empty(),
                            0,
                            SubmitOutcome::Rejected(RejectReason::FOKUnfillable),
                        ));
                    }
                    let result = SubmitResult {
                        trades: Vec::new(),
                        outcome: SubmitOutcome::Rejected(RejectReason::FOKUnfillable),
                    };
                    proof {
                        assert(result.trades@ =~= Seq::<TradeReport>::empty());
                        assert(taker_segment(m0, order, result.trades@, 0, result.outcome));
                    }
                    return result;
                }
            } else {
                let saved = copy_levels(&self.bids);
                self.match_sell(&mut taker, &mut trades);
                if taker.remaining_qty > 0 {
                    self.bids = saved;
                    self.seq = saved_seq;
                    self.next_ts = saved_ts;
                    self.last_price = saved_last;
                    proof {
                        assert(self.model() =~~= m0);
                        assert(Seq::<TradeReport>::empty().subrange(0, 0)
                            =~= Seq::<TradeReport>::empty());
                        assert(taker_segment(
                            m0,
                            order,
                            Seq::<TradeReport>::empty(),
                            0,
                            SubmitOutcome::Rejected(RejectReason::FOKUnfillable),
                        ));
                    }
                    let result = SubmitResult {
                        trades: Vec::new(),
                        outcome: SubmitOutcome::Rejected(RejectReason::FOKUnfillable),
                    };
                    proof {
                        assert(result.trades@ =~= Seq::<TradeReport>::empty());
                        assert(taker_segment(m0, order, result.trades@, 0, result.outcome));
                    }
                    return result;
                }
            }
        } else {
            if taker.side == Side::Buy {
                self.match_buy(&mut taker, &mut trades);
            } else {
                self.match_sell(&mut taker, &mut trades);
            }
        }
        let ghost n_taker = trades@.len() as int;
        let ghost t1 = taker;
        let ghost swept_m = self.model();
        proof {
            assert(trade_qty_sum(Seq::<TradeReport>::empty()) == 0);
            assert(trade_qty_sum(trades@) == order.quantity - t1.remaining_qty);
            if order.side is Buy {
                assert(sweep_post(m_admit, swept_m, admitted(order, m0.next_ts), t1,
                    Seq::<TradeReport>::empty(), trades@, true));
            } else {
                assert(sweep_post(m_admit, swept_m, admitted(order, m0.next_ts), t1,
                    Seq::<TradeReport>::empty(), trades@, false));
            }
        }
        // the residual: rest it if the kind rests, drop it otherwise
        let outcome: SubmitOutcome;
        if taker.remaining_qty == 0 {
            outcome = SubmitOutcome::Filled;
        } else {
            match taker.order_type {
                OrderType::Limit => {
                    proof {
                        assert(side_ts_below(own0, taker.submit_ts));
                    }
                    self.rest_order(taker);
                    outcome = if trades.len() == 0 {
                        SubmitOutcome::Rested
                    } else {
                        SubmitOutcome::PartiallyFilledRested
                    };
                },
                OrderType::Iceberg(d) => {
                    let slice: u64 = if d < taker.remaining_qty {
                        d
                    } else {
                        taker.remaining_qty
                    };
                    let entry = Order {
                        remaining_qty: slice,
                        reserve_qty: taker.remaining_qty - slice,
                        ..taker
                    };
                    proof {
                        assert(side_ts_below(own0, taker.submit_ts));
                    }
                    self.rest_order(entry);
                    outcome = if trades.len() == 0 {
                        SubmitOutcome::Rested
                    } else {
                        SubmitOutcome::PartiallyFilledRested
                    };
                },
                _ => {
                    outcome = SubmitOutcome::Cancelled(taker.remaining_qty);
                },
            }
        }
        proof {
            assert(trades@.subrange(0, n_taker) =~= trades@);
            let tk = admitted(order, m0.next_ts);
            let is_buy = order.side is Buy;
            let mk0 = if is_buy {
                m0.asks
            } else {
                m0.bids
            };
            assert(taker_segment(m0, order, trades@, n_taker, outcome)) by {
                let is_buy = order.side is Buy;
                let mk0 = if is_buy {
                    m0.asks
                } else {
                    m0.bids
                };
                let tk = admitted(order, m0.next_ts);
                let seg = trades@.subrange(0, n_taker);
                let rem2 = order.quantity - trade_qty_sum(seg);
                assert(0 <= n_taker <= trades@.len());
                assert(forall|k: int|
                    0 <= k < n_taker ==> mk0.len() > 0 && sweep_trade_ok(
                        #[trigger] trades@[k],
                        tk,
                        mk0[0].price,
                        is_buy,
                    ));
                assert(trade_qty_sum(seg) <= order.quantity);
                assert(rem2 == t1.remaining_qty);
                if rem2 == 0 {
                    assert(outcome == SubmitOutcome::Filled);
                } else {
                    match order.order_type {
                        OrderType::Limit => {
                            assert(outcome == (if n_taker == 0 {
                                SubmitOutcome::Rested
                            } else {
                                SubmitOutcome::PartiallyFilledRested
                            }));
                        },
                        OrderType::Iceberg(d) => {
                            assert(outcome == (if n_taker == 0 {
                                SubmitOutcome::Rested
                            } else {
                                SubmitOutcome::PartiallyFilledRested
                            }));
                        },
                        OrderType::Market => {
                            assert(outcome == SubmitOutcome::Cancelled(rem2 as u64));
                        },
                        OrderType::IOC => {
                            assert(outcome == SubmitOutcome::Cancelled(rem2 as u64));
                        },
                        OrderType::FOK => {
                            assert(false);
                        },
                        OrderType::Stop(t, k) => {
                            assert(false);
                        },
                    }
                }
            }
        }
        let ghost pre_cascade = trades@;
        let ghost mid_m = self.model();
        proof {
            if t1.remaining_qty == 0 {
                assert(mid_m == swept_m);
            } else {
                match order.order_type {
                    OrderType::Limit => {
                        assert(residual_entry(t1) == t1);
                        assert(mid_m =~~= rest_residual(swept_m, t1, order.side is Buy));
                    },
                    OrderType::Iceberg(d) => {
                        assert(mid_m =~~= rest_residual(swept_m, t1, order.side is Buy));
                    },
                    _ => {
                        assert(mid_m == swept_m);
                    },
                }
            }
        }
        if trades.len() > 0 {
            self.check_stop_orders(&mut trades);
        }
        proof {
            if pre_cascade.len() > 0 {
                assert(cascade_rel(mid_m, self.model()));
            } else {
                assert(self.model() == mid_m);
            }
        }
        proof {
            assert(taker_segment(m0, order, trades@, n_taker, outcome)) by {
                let is_buy = order.side is Buy;
                let mk0 = if is_buy {
                    m0.asks
                } else {
                    m0.bids
                };
                let tk = admitted(order, m0.next_ts);
                let seg = trades@.subrange(0, n_taker);
                assert(trades@.subrange(0, pre_cascade.len() as int) == pre_cascade);
                assert(seg =~= pre_cascade.subrange(0, n_taker));
                assert(pre_cascade.subrange(0, n_taker) =~= pre_cascade);
                let rem2 = order.quantity - trade_qty_sum(seg);
                assert(rem2 == t1.remaining_qty);
                assert forall|k: int|
                    0 <= k < n_taker implies mk0.len() > 0 && sweep_trade_ok(
                    #[trigger] trades@[k],
                    tk,
                    mk0[0].price,
                    is_buy,
                ) by {
                    assert(trades@[k] == trades@.subrange(0, pre_cascade.len() as int)[k]);
                    assert(trades@[k] == pre_cascade[k]);
                }
                if rem2 == 0 {
                    assert(outcome == SubmitOutcome::Filled);
                } else {
                    match order.order_type {
                        OrderType::Limit => {
                            assert(outcome == (if n_taker == 0 {
                                SubmitOutcome::Rested
                            } else {
                                SubmitOutcome::PartiallyFilledRested
                            }));
                        },
                        OrderType::Iceberg(d) => {
                            assert(outcome == (if n_taker == 0 {
                                SubmitOutcome::Rested
                            } else {
                                SubmitOutcome::PartiallyFilledRested
                            }));
                        },
                        OrderType::Market => {
                            assert(outcome == SubmitOutcome::Cancelled(rem2 as u64));
                        },
                        OrderType::IOC => {
                            assert(outcome == SubmitOutcome::Cancelled(rem2 as u64));
                        },
                        OrderType::FOK => {
                            assert(false);
                        },
                        OrderType::Stop(t, k) => {
                            assert(false);
                        },
                    }
                }
            }
        }
        proof {
            assert(taker_phase(m0, mid_m, order, trades@, n_taker)) by {
                assert(trades@.subrange(0, pre_cascade.len() as int) == pre_cascade);
                assert(trades@.subrange(0, n_taker) =~= pre_cascade);
                let is_buy = order.side is Buy;
                assert(sweep_post(
                    BookModel { next_ts: (m0.next_ts + 1) as u64, ..m0 },
                    swept_m,
                    admitted(order, m0.next_ts),
                    t1,
                    Seq::<TradeReport>::empty(),
                    trades@.subrange(0, n_taker),
                    is_buy,
                ));
            }
        }
        let result = SubmitResult { trades, outcome };
        proof {
            assert(result.trades@ == trades@);
            assert(taker_segment(m0, order, result.trades@, n_taker, result.outcome));
            assert(taker_phase(m0, mid_m, order, result.trades@, n_taker));
            if result.trades@.len() > 0 {
                assert(cascade_rel(mid_m, self.model()));
            } else {
                assert(self.model() == mid_m);
            }
            assert forall|k: int|
                0 <= k < result.trades@.len() implies (#[trigger] result.trades@[k]).seq == m0.seq
                + k && result.trades@[k].quantity >= 1 by {
                if k < n_taker {
                    assert(trades@.subrange(0, pre_cascade.len() as int) == pre_cascade);
                    assert(trades@[k] == pre_cascade[k]);
                }
            }
        }
        result
    }
}

/// The unfilled total of one queue, clamped at the largest 64-bit value.
pub open spec fn clamped_qty_sum(orders: Seq<Order>) -> u64 {
    if qty_sum(orders) <= u64::MAX {
        qty_sum(orders) as u64
    } else {
        u64::MAX
    }
}

/// Sum a queue's unfilled quantity, saturating at the 64-bit limit.
fn level_depth_total(orders: &Vec<Order>) -> (r: u64)
    ensures
        r == clamped_qty_sum(orders@),
{
    let mut acc: u64 = 0;
    let mut k: usize = 0;
    while k < orders.len()
        invariant
            0 <= k <= orders@.len(),
            acc == clamped_qty_sum(orders@.subrange(0, k as int)),
        decreases orders@.len() - k,
    {
        let ghost pre = orders@.subrange(0, k as int);
        let o = orders[k];
        let add = if u64::MAX - o.remaining_qty < o.reserve_qty {
            u64::MAX
        } else {
            o.remaining_qty + o.reserve_qty
        };
        acc = if u64::MAX - acc < add {
            u64::MAX
        } else {
            acc + add
        };
        k = k + 1;
        proof {
            assert(orders@.subrange(0, k as int) =~= pre.push(o));
            crate::domain::lemma_qty_sum_push(pre, o);
            crate::domain::lemma_qty_sum_nonneg(pre);
            assert(o.unfilled() == o.remaining_qty + o.reserve_qty);
        }
    }
    proof {
        assert(orders@.subrange(0, orders@.len() as int) =~= orders@);
    }
    acc
}

impl<A: AssetBehavior> OrderBook<A> {
    /// A read-only aggregate view: for each of the top `depth` levels
    /// of one side (bids when `bid_side`, else asks), its price and the
    /// total unfilled quantity resting there, best level first. Totals
    /// saturate at the 64-bit limit.
    pub fn snapshot(&self, depth: usize, bid_side: bool) -> (r: Vec<(u64, u64)>)
        ensures
            ({
                let side = if bid_side {
                    self.model().bids
                } else {
                    self.model().asks
                };
                &&& r@.len() == (if depth <= side.len() {
                    depth as int
                } else {
                    side.len() as int
                })
                &&& forall|i: int|
                    0 <= i < r@.len() ==> (#[trigger] r@[i]).0 == side[i].price && r@[i].1
                        == clamped_qty_sum(side[i].orders)
            }),
    {
        let side = if bid_side {
            &self.bids
        } else {
            &self.asks
        };
        let n = if depth <= side.len() {
            depth
        } else {
            side.len()
        };
        let mut r: Vec<(u64, u64)> = Vec::new();
        let mut i: usize = 0;
        while i < n
            invariant
                0 <= i <= n,
                n <= side@.len(),
                r@.len() == i,
                forall|k: int|
                    0 <= k < i ==> (#[trigger] r@[k]).0 == side_model(side@)[k].price && r@[k].1
                        == clamped_qty_sum(side_model(side@)[k].orders),
        decreases n - i,
        {
            let total = level_depth_total(&side[i].orders);
            r.push((side[i].price, total));
            i = i + 1;
        }
        r
    }
}

/// Removing one stop entry preserves the stop table's well-formedness.
pub proof fn lemma_stops_wf_remove(stops: Seq<Order>, k: int, ts: u64)
    requires
        stops_wf(stops, ts),
        0 <= k < stops.len(),
    ensures
        stops_wf(stops.remove(k), ts),
{
    let post = stops.remove(k);
    assert forall|a: int| 0 <= a < post.len() implies stop_ok(#[trigger] post[a])
        && post[a].submit_ts < ts by {
        let a2 = if a < k {
            a
        } else {
            a + 1
        };
        assert(post[a] == stops[a2]);
    }
}

} // verus!
