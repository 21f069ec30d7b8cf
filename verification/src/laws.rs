//! The engine's cross-cutting laws, stated over the book model and
//! proved from the library's own definitions and contracts.

use vstd::prelude::*;

use crate::book::{
    cancel_rel, cascade_rel, find_level, id_in_book, id_in_level, id_in_side, lemma_find_level,
    lemma_sweep_step_deterministic, level_after_cancel, rest_residual, stop_triggered, sweep_post,
    sweep_step, sweep_trace, sweep_trade_ok, taker_phase, taker_segment, wf_model, BookModel,
    SweepState,
};
use crate::domain::{
    trade_qty_sum, Order, OrderType, RejectReason, Side, SubmitOutcome, TradeReport,
};
use crate::level::{entry_ok, find_id, lemma_find_id, level_wf};

verus! {

/// Price-time priority: within one well-formed price level the head --
/// the entry head-biased consumption bites first -- carries the
/// earliest priority tag, and tags increase strictly from head to tail,
/// so of two resting orders at one price the earlier-submitted is
/// always consumed first.
pub proof fn lemma_price_time_priority(price: u64, orders: Seq<Order>, side: Side)
    requires
        level_wf(price, orders, side),
        orders.len() >= 1,
    ensures
        forall|j: int| 1 <= j < orders.len() ==> orders[0].submit_ts < (#[trigger] orders[j]).submit_ts,
{
}

/// No crossed book at rest: a well-formed book quoting both sides has
/// its best bid strictly below its best ask.
pub proof fn lemma_no_crossed_book(m: BookModel)
    requires
        wf_model(m),
        m.bids.len() > 0,
        m.asks.len() > 0,
    ensures
        m.bids[0].price < m.asks[0].price,
{
}

/// Trade-price bound: every trade of a taker's own segment is priced at
/// or past the opposite best quote as it stood before the submission --
/// hence strictly past the taker's own side's best -- and, unless the
/// taker is a market order, within the taker's limit.
pub proof fn lemma_trade_price_bound(
    m0: BookModel,
    order: Order,
    trades: Seq<TradeReport>,
    n: int,
    outcome: SubmitOutcome,
    k: int,
)
    requires
        wf_model(m0),
        taker_segment(m0, order, trades, n, outcome),
        0 <= k < n,
    ensures
        order.side is Buy ==> trades[k].price >= m0.asks[0].price && (m0.bids.len() > 0
            ==> trades[k].price > m0.bids[0].price) && (!(order.order_type is Market)
            ==> trades[k].price <= order.price),
        order.side is Sell ==> trades[k].price <= m0.bids[0].price && (m0.asks.len() > 0
            ==> trades[k].price < m0.asks[0].price) && (!(order.order_type is Market)
            ==> trades[k].price >= order.price),
        // the first trade executes exactly at the opposite best quote,
        // so it lies within [best bid, best ask] as they stood before
        k == 0 ==> trades[0].price == (if order.side is Buy {
            m0.asks[0].price
        } else {
            m0.bids[0].price
        }),
{
    if order.side is Buy {
        assert(m0.asks.len() > 0 && sweep_trade_ok(
            trades[k],
            crate::domain::admitted(order, m0.next_ts),
            m0.asks[0].price,
            true,
        ));
    } else {
        assert(m0.bids.len() > 0 && sweep_trade_ok(
            trades[k],
            crate::domain::admitted(order, m0.next_ts),
            m0.bids[0].price,
            false,
        ));
    }
}

/// Fill-or-kill atomicity: an admitted fill-or-kill's own trade segment
/// sums to exactly its quantity when it fills, and is empty -- with the
/// book left as it was -- when it cannot.
pub proof fn lemma_fok_atomicity(
    m0: BookModel,
    order: Order,
    trades: Seq<TradeReport>,
    n: int,
    outcome: SubmitOutcome,
)
    requires
        taker_segment(m0, order, trades, n, outcome),
        order.order_type is FOK,
    ensures
        outcome == SubmitOutcome::Filled ==> trade_qty_sum(trades.subrange(0, n))
            == order.quantity,
        outcome != SubmitOutcome::Filled ==> n == 0 && outcome == SubmitOutcome::Rejected(
            RejectReason::FOKUnfillable,
        ),
{
}

/// Iceberg hidden invariant: for every resting entry of a well-formed
/// book, the visible slice plus the hidden reserve never exceeds the
/// order's submitted quantity; a positive reserve occurs only on an
/// iceberg, whose visible slice stays within its display bound.
pub proof fn lemma_iceberg_invariant(m: BookModel, bid_side: bool, i: int, j: int)
    requires
        wf_model(m),
        0 <= i < (if bid_side {
            m.bids
        } else {
            m.asks
        }).len(),
        0 <= j < (if bid_side {
            m.bids
        } else {
            m.asks
        })[i].orders.len(),
    ensures
        ({
            let e = (if bid_side {
                m.bids
            } else {
                m.asks
            })[i].orders[j];
            &&& e.remaining_qty + e.reserve_qty <= e.quantity
            &&& e.remaining_qty >= 1
            &&& (e.reserve_qty > 0 ==> e.order_type is Iceberg)
            &&& (match e.order_type {
                OrderType::Iceberg(d) => e.remaining_qty <= d,
                _ => e.reserve_qty == 0,
            })
        }),
{
    let side = if bid_side {
        m.bids
    } else {
        m.asks
    };
    if bid_side {
        assert(entry_ok(side[i].orders[j], side[i].price, Side::Buy));
    } else {
        assert(entry_ok(side[i].orders[j], side[i].price, Side::Sell));
    }
}

/// Conservation of quantity: across one sweep, what the taker's
/// remaining quantity lost is exactly the sum of the trade quantities,
/// which is exactly what left the resting opposite side.
pub proof fn lemma_conservation_of_quantity(
    pre: BookModel,
    post: BookModel,
    t0: Order,
    t1: Order,
    tr0: Seq<TradeReport>,
    tr1: Seq<TradeReport>,
    is_buy: bool,
)
    requires
        crate::book::sweep_post(pre, post, t0, t1, tr0, tr1, is_buy),
    ensures
        t0.remaining_qty - t1.remaining_qty == trade_qty_sum(tr1) - trade_qty_sum(tr0),
        crate::book::side_qty_sum(if is_buy {
            post.asks
        } else {
            post.bids
        }) == crate::book::side_qty_sum(if is_buy {
            pre.asks
        } else {
            pre.bids
        }) - (trade_qty_sum(tr1) - trade_qty_sum(tr0)),
{
}

/// A cancel of an id that rests nowhere reports `NotFound` and leaves
/// the book exactly as it was -- so a no-op cancel between two
/// submissions cannot change what the second one does.
pub proof fn lemma_noop_cancel_preserves_book(
    pre: BookModel,
    post: BookModel,
    id: u64,
    r: crate::domain::CancelOutcome,
)
    requires
        cancel_rel(pre, post, id, r),
        !id_in_book(pre, id),
    ensures
        r == crate::domain::CancelOutcome::NotFound,
        post == pre,
{
    lemma_find_level(pre.bids, id);
    lemma_find_level(pre.asks, id);
    lemma_find_id(pre.stops, id);
    if find_id(pre.stops, id) >= 0 {
        assert(id_in_level(pre.stops, id));
    }
}

/// Every trade of a sweep consumes the head of the best maker level as
/// it stands at that instant: the trade carries that maker's id and the
/// level's price, for exactly the smaller of the two remaining
/// quantities, and decrements maker and taker by that amount. With
/// [`lemma_price_time_priority`] -- the head carries the earliest
/// priority tag -- this is price-time priority lifted to the sweep.
pub proof fn lemma_sweep_consumes_heads(
    states: Seq<SweepState>,
    trades: Seq<TradeReport>,
    taker: Order,
    ascending: bool,
    k: int,
)
    requires
        sweep_trace(states, trades, taker, ascending),
        0 <= k < trades.len(),
    ensures
        ({
            let head = states[k].levels[0].orders[0];
            &&& states[k].levels.len() > 0
            &&& states[k].levels[0].orders.len() > 0
            &&& trades[k].maker_id == head.id
            &&& trades[k].price == states[k].levels[0].price
            &&& trades[k].quantity == (if states[k].rem < head.remaining_qty {
                states[k].rem
            } else {
                head.remaining_qty
            })
            &&& states[k + 1].rem == states[k].rem - trades[k].quantity
        }),
{
    assert(sweep_step(states[k], states[k + 1], trades[k], taker, ascending));
}

/// Two matching chains from the same state agree step by step.
proof fn lemma_traces_agree(
    sa: Seq<SweepState>,
    tra: Seq<TradeReport>,
    sb: Seq<SweepState>,
    trb: Seq<TradeReport>,
    taker: Order,
    ascending: bool,
    k: int,
)
    requires
        sweep_trace(sa, tra, taker, ascending),
        sweep_trace(sb, trb, taker, ascending),
        sa[0] == sb[0],
        0 <= k <= tra.len(),
        k <= trb.len(),
    ensures
        sa[k] == sb[k],
        forall|j: int| 0 <= j < k ==> tra[j] == trb[j],
    decreases k,
{
    if k > 0 {
        lemma_traces_agree(sa, tra, sb, trb, taker, ascending, k - 1);
        lemma_sweep_step_deterministic(
            sa[k - 1],
            sa[k],
            sb[k],
            tra[k - 1],
            trb[k - 1],
            taker,
            ascending,
        );
    }
}

/// Determinism of a sweep: from equal books, equal takers and equal
/// prior trade logs, the sweep promise admits exactly one outcome --
/// the same trades, the same taker residual, the same maker side and
/// the same counters. Replaying the same ingress therefore replays the
/// same executions.
pub proof fn lemma_sweep_deterministic(
    pre: BookModel,
    post1: BookModel,
    post2: BookModel,
    t0: Order,
    t1a: Order,
    t1b: Order,
    tr0: Seq<TradeReport>,
    tr1a: Seq<TradeReport>,
    tr1b: Seq<TradeReport>,
    is_buy: bool,
)
    requires
        sweep_post(pre, post1, t0, t1a, tr0, tr1a, is_buy),
        sweep_post(pre, post2, t0, t1b, tr0, tr1b, is_buy),
    ensures
        tr1a == tr1b,
        t1a == t1b,
        (if is_buy {
            post1.asks
        } else {
            post1.bids
        }) == (if is_buy {
            post2.asks
        } else {
            post2.bids
        }),
        post1.seq == post2.seq,
        post1.next_ts == post2.next_ts,
        post1.last_price == post2.last_price,
{
    let mk0 = if is_buy {
        pre.asks
    } else {
        pre.bids
    };
    let mk1a = if is_buy {
        post1.asks
    } else {
        post1.bids
    };
    let mk1b = if is_buy {
        post2.asks
    } else {
        post2.bids
    };
    let appa = tr1a.skip(tr0.len() as int);
    let appb = tr1b.skip(tr0.len() as int);
    let init = SweepState {
        levels: mk0,
        rem: t0.remaining_qty,
        seq: pre.seq,
        next_ts: pre.next_ts,
        last: pre.last_price,
    };
    let enda = SweepState {
        levels: mk1a,
        rem: t1a.remaining_qty,
        seq: post1.seq,
        next_ts: post1.next_ts,
        last: post1.last_price,
    };
    let endb = SweepState {
        levels: mk1b,
        rem: t1b.remaining_qty,
        seq: post2.seq,
        next_ts: post2.next_ts,
        last: post2.last_price,
    };
    let sa = choose|s: Seq<SweepState>|
        sweep_trace(s, appa, t0, is_buy) && s[0] == init && s.last() == enda;
    let sb = choose|s: Seq<SweepState>|
        sweep_trace(s, appb, t0, is_buy) && s[0] == init && s.last() == endb;
    if appa.len() < appb.len() {
        lemma_traces_agree(sa, appa, sb, appb, t0, is_buy, appa.len() as int);
        assert(sb[appa.len() as int] == enda);
        assert(sweep_step(
            sb[appa.len() as int],
            sb[appa.len() as int + 1],
            appb[appa.len() as int],
            t0,
            is_buy,
        ));
        assert(false);
    }
    if appb.len() < appa.len() {
        lemma_traces_agree(sb, appb, sa, appa, t0, is_buy, appb.len() as int);
        assert(sa[appb.len() as int] == endb);
        assert(sweep_step(
            sa[appb.len() as int],
            sa[appb.len() as int + 1],
            appa[appb.len() as int],
            t0,
            is_buy,
        ));
        assert(false);
    }
    lemma_traces_agree(sa, appa, sb, appb, t0, is_buy, appa.len() as int);
    assert(sa.last() == sa[appa.len() as int]);
    assert(sb.last() == sb[appb.len() as int]);
    assert(enda == endb);
    assert(tr1a =~= tr1b) by {
        assert forall|i: int| 0 <= i < tr1a.len() implies tr1a[i] == tr1b[i] by {
            if i < tr0.len() {
                assert(tr1a.subrange(0, tr0.len() as int)[i] == tr1a[i]);
                assert(tr1b.subrange(0, tr0.len() as int)[i] == tr1b[i]);
            } else {
                assert(appa[i - tr0.len()] == tr1a[i]);
                assert(appb[i - tr0.len()] == tr1b[i]);
            }
        }
    }
    assert(t1a == (Order { remaining_qty: t1a.remaining_qty, ..t0 }));
    assert(t1b == (Order { remaining_qty: t1b.remaining_qty, ..t0 }));
}

/// Determinism of one submission, replayed: two runs of the taker phase
/// of the same admitted order on equal books produce the same taker
/// trades, the same book, and the same outcome; and when the book they
/// leave has nothing for the stop cascade to fire -- in particular on a
/// book with no waiting stops -- the whole submission is determined:
/// replaying the same ingress replays byte-identical trade reports.
pub proof fn lemma_submit_deterministic(
    m0: BookModel,
    order: Order,
    tra: Seq<TradeReport>,
    na: int,
    outa: SubmitOutcome,
    mida: BookModel,
    fina: BookModel,
    trb: Seq<TradeReport>,
    nb: int,
    outb: SubmitOutcome,
    midb: BookModel,
    finb: BookModel,
)
    requires
        taker_segment(m0, order, tra, na, outa),
        taker_phase(m0, mida, order, tra, na),
        taker_segment(m0, order, trb, nb, outb),
        taker_phase(m0, midb, order, trb, nb),
        // the per-call sequence numbering ties each trade log to its
        // taker segment
        na == tra.len(),
        nb == trb.len(),
        // nothing is left for the cascade to fire
        m0.stops.len() == 0,
        tra.len() > 0 ==> cascade_rel(mida, fina),
        tra.len() == 0 ==> fina == mida,
        trb.len() > 0 ==> cascade_rel(midb, finb),
        trb.len() == 0 ==> finb == midb,
    ensures
        tra == trb,
        outa == outb,
        fina == finb,
{
    let is_buy = order.side is Buy;
    let taker = crate::domain::admitted(order, m0.next_ts);
    let m_admit = BookModel { next_ts: (m0.next_ts + 1) as u64, ..m0 };
    let sega = tra.subrange(0, na);
    let segb = trb.subrange(0, nb);
    let (swepta, t1a): (BookModel, Order) = choose|swept: BookModel, t1: Order|
        sweep_post(m_admit, swept, taker, t1, Seq::<TradeReport>::empty(), sega, is_buy) && mida
            == (if t1.remaining_qty == 0 {
            swept
        } else {
            match order.order_type {
                OrderType::Limit | OrderType::Iceberg(_) => rest_residual(swept, t1, is_buy),
                _ => swept,
            }
        });
    let (sweptb, t1b): (BookModel, Order) = choose|swept: BookModel, t1: Order|
        sweep_post(m_admit, swept, taker, t1, Seq::<TradeReport>::empty(), segb, is_buy) && midb
            == (if t1.remaining_qty == 0 {
            swept
        } else {
            match order.order_type {
                OrderType::Limit | OrderType::Iceberg(_) => rest_residual(swept, t1, is_buy),
                _ => swept,
            }
        });
    lemma_sweep_deterministic(
        m_admit,
        swepta,
        sweptb,
        taker,
        t1a,
        t1b,
        Seq::<TradeReport>::empty(),
        sega,
        segb,
        is_buy,
    );
    assert(sega =~= tra);
    assert(segb =~= trb);
    assert(tra == trb);
    assert(swepta =~~= sweptb);
    assert(mida == midb);
    assert(mida.stops == m0.stops);
    if tra.len() > 0 {
        assert(forall|k: int|
            0 <= k < mida.stops.len() ==> !stop_triggered(#[trigger] mida.stops[k], mida.last_price));
        assert(fina == mida);
        assert(finb == midb);
    }
}

/// At most one resting or waiting entry anywhere in the book carries
/// the id -- the discipline the ingress contract demands of callers.
pub open spec fn id_at_most_once(m: BookModel, id: u64) -> bool {
    &&& (forall|i: int, x: int|
        0 <= i < m.bids.len() && 0 <= x < m.bids[i].orders.len() && (#[trigger] m.bids[i].orders[x]).id
            == id ==> i == find_level(m.bids, id) && x == find_id(m.bids[i].orders, id))
    &&& (forall|i: int, x: int|
        0 <= i < m.asks.len() && 0 <= x < m.asks[i].orders.len() && (#[trigger] m.asks[i].orders[x]).id
            == id ==> i == find_level(m.asks, id) && x == find_id(m.asks[i].orders, id))
    &&& (forall|x: int|
        0 <= x < m.stops.len() && (#[trigger] m.stops[x]).id == id ==> x == find_id(m.stops, id))
    &&& !(id_in_side(m.bids, id) && id_in_side(m.asks, id))
    &&& !(id_in_side(m.bids, id) && id_in_level(m.stops, id))
    &&& !(id_in_side(m.asks, id) && id_in_level(m.stops, id))
}

/// After a successful cancel of an id that rested exactly once, the id
/// is gone from the whole book.
pub proof fn lemma_cancel_removes_id(b0: BookModel, b1: BookModel, id: u64, r1: crate::domain::CancelOutcome)
    requires
        cancel_rel(b0, b1, id, r1),
        id_in_book(b0, id),
        id_at_most_once(b0, id),
    ensures
        r1 == crate::domain::CancelOutcome::Cancelled,
        !id_in_book(b1, id),
{
    lemma_find_level(b0.bids, id);
    lemma_find_level(b0.asks, id);
    lemma_find_id(b0.stops, id);
    let kb = find_level(b0.bids, id);
    let ka = find_level(b0.asks, id);
    let ks = find_id(b0.stops, id);
    if kb >= 0 {
        lemma_find_id(b0.bids[kb].orders, id);
        let jb = find_id(b0.bids[kb].orders, id);
        let post = level_after_cancel(b0.bids, kb, id);
        assert forall|i: int, x: int|
            0 <= i < post.len() && 0 <= x < post[i].orders.len() implies (#[trigger] post[i].orders[x]).id
            != id by {
            if b0.bids[kb].orders.len() == 1 {
                let i2 = if i < kb {
                    i
                } else {
                    i + 1
                };
                assert(post[i] == b0.bids[i2]);
                assert(b0.bids[i2].orders[x] == post[i].orders[x]);
            } else {
                if i != kb {
                    assert(post[i] == b0.bids[i]);
                } else {
                    let x2 = if x < jb {
                        x
                    } else {
                        x + 1
                    };
                    assert(post[i].orders[x] == b0.bids[kb].orders[x2]);
                }
            }
        }
        if id_in_side(b1.bids, id) {
            let w = choose|i: int| 0 <= i < b1.bids.len() && id_in_level(b1.bids[i].orders, id);
            let wx = choose|x: int| 0 <= x < b1.bids[w].orders.len() && b1.bids[w].orders[x].id == id;
            assert(false);
        }
        assert(!id_in_side(b0.asks, id));
        assert(!id_in_level(b0.stops, id));
    } else if ka >= 0 {
        lemma_find_id(b0.asks[ka].orders, id);
        let ja = find_id(b0.asks[ka].orders, id);
        let post = level_after_cancel(b0.asks, ka, id);
        assert forall|i: int, x: int|
            0 <= i < post.len() && 0 <= x < post[i].orders.len() implies (#[trigger] post[i].orders[x]).id
            != id by {
            if b0.asks[ka].orders.len() == 1 {
                let i2 = if i < ka {
                    i
                } else {
                    i + 1
                };
                assert(post[i] == b0.asks[i2]);
                assert(b0.asks[i2].orders[x] == post[i].orders[x]);
            } else {
                if i != ka {
                    assert(post[i] == b0.asks[i]);
                } else {
                    let x2 = if x < ja {
                        x
                    } else {
                        x + 1
                    };
                    assert(post[i].orders[x] == b0.asks[ka].orders[x2]);
                }
            }
        }
        if id_in_side(b1.asks, id) {
            let w = choose|i: int| 0 <= i < b1.asks.len() && id_in_level(b1.asks[i].orders, id);
            let wx = choose|x: int| 0 <= x < b1.asks[w].orders.len() && b1.asks[w].orders[x].id == id;
            assert(false);
        }
        assert(!id_in_side(b0.bids, id));
        assert(!id_in_level(b0.stops, id));
    } else {
        assert(ks >= 0);
        let post = b0.stops.remove(ks);
        assert forall|x: int| 0 <= x < post.len() implies (#[trigger] post[x]).id != id by {
            let x2 = if x < ks {
                x
            } else {
                x + 1
            };
            assert(post[x] == b0.stops[x2]);
        }
        if id_in_level(b1.stops, id) {
            let wx = choose|x: int| 0 <= x < b1.stops.len() && b1.stops[x].id == id;
            assert(false);
        }
        assert(!id_in_side(b0.bids, id));
        assert(!id_in_side(b0.asks, id));
    }
}

/// Cancel idempotence: cancelling an id that rests exactly once yields
/// `Cancelled`; a second cancel of the same id yields `NotFound` and
/// leaves the book exactly as the first cancel left it. No trade is
/// produced: a cancel never touches the trade log at all.
pub proof fn lemma_cancel_idempotent(
    b0: BookModel,
    b1: BookModel,
    b2: BookModel,
    id: u64,
    r1: crate::domain::CancelOutcome,
    r2: crate::domain::CancelOutcome,
)
    requires
        cancel_rel(b0, b1, id, r1),
        cancel_rel(b1, b2, id, r2),
        id_in_book(b0, id),
        id_at_most_once(b0, id),
    ensures
        r1 == crate::domain::CancelOutcome::Cancelled,
        r2 == crate::domain::CancelOutcome::NotFound,
        b2 == b1,
{
    lemma_cancel_removes_id(b0, b1, id, r1);
    lemma_find_level(b1.bids, id);
    lemma_find_level(b1.asks, id);
    lemma_find_id(b1.stops, id);
    if find_id(b1.stops, id) >= 0 {
        assert(id_in_level(b1.stops, id));
    }
}

} // verus!
