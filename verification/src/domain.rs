//! Fixed-point domain types: sides, order kinds, orders, trade reports,
//! and the outcomes a submission or a cancel can produce.

use vstd::prelude::*;

verus! {

/// Which side of the book an order belongs to.
#[derive(Clone, Copy, Debug, PartialEq, Eq, Structural)]
pub enum Side {
    Buy,
    Sell,
}

/// The kind an untriggered stop order turns into once it fires.
#[derive(Clone, Copy, Debug, PartialEq, Eq, Structural)]
pub enum StopKind {
    /// Becomes a limit order at the stop's stored price.
    Limit,
    /// Becomes a market order.
    Market,
}

/// Time-in-force / display variants of an order.
#[derive(Clone, Copy, Debug, PartialEq, Eq, Structural)]
pub enum OrderType {
    /// Rest indefinitely at the limit price.
    Limit,
    /// Match at any price; the residual never rests.
    Market,
    /// Fill or kill: all-or-nothing, never rests.
    FOK,
    /// Immediate or cancel: match what crosses, cancel the residual.
    IOC,
    /// Limit order displaying at most the given quantity at a time.
    Iceberg(u64),
    /// Conditional order: trigger price and the kind it becomes on trigger.
    Stop(u64, StopKind),
}

/// An order record. `id`, `price`, `quantity`, `side`, `order_type` and the
/// wall-clock `timestamp` are supplied by the caller; `remaining_qty`,
/// `reserve_qty` and `submit_ts` are maintained by the engine.
///
/// For a resting iceberg, `remaining_qty` is the visible slice and
/// `reserve_qty` the hidden reserve; for every other kind `reserve_qty`
/// is zero and `remaining_qty` is the whole unfilled quantity.
#[derive(Clone, Copy, Debug, PartialEq, Eq, Structural)]
pub struct Order {
    pub id: u64,
    pub price: u64,
    pub quantity: u64,
    pub side: Side,
    pub order_type: OrderType,
    pub timestamp: u64,
    pub remaining_qty: u64,
    pub reserve_qty: u64,
    pub submit_ts: u64,
}

impl Order {
    /// Build an ingress order; the engine-maintained fields start at zero
    /// (`remaining_qty` is set from `quantity` on admission).
    pub fn new(
        id: u64,
        price: u64,
        quantity: u64,
        side: Side,
        order_type: OrderType,
        timestamp: u64,
    ) -> (r: Order)
        ensures
            r == (Order {
                id,
                price,
                quantity,
                side,
                order_type,
                timestamp,
                remaining_qty: 0,
                reserve_qty: 0,
                submit_ts: 0,
            }),
    {
        Order { id, price, quantity, side, order_type, timestamp, remaining_qty: 0, reserve_qty: 0, submit_ts: 0 }
    }

    /// Total quantity of this order still unfilled: the visible part plus,
    /// for an iceberg, its hidden reserve.
    pub open spec fn unfilled(self) -> int {
        self.remaining_qty + self.reserve_qty
    }
}

/// One execution. `seq` is strictly increasing per book; `ts` is the
/// wall-clock timestamp of the taker that drove the match.
#[derive(Clone, Copy, Debug, PartialEq, Eq, Structural)]
pub struct TradeReport {
    pub seq: u64,
    pub maker_id: u64,
    pub taker_id: u64,
    pub price: u64,
    pub quantity: u64,
    pub ts: u64,
}

/// Why a submission was refused without touching the book.
#[derive(Clone, Copy, Debug, PartialEq, Eq, Structural)]
pub enum RejectReason {
    /// The asset's market is closed at the order's timestamp.
    MarketClosed,
    /// The asset rules refused the price (tick size, bounds).
    InvalidPrice,
    /// The quantity is zero or refused by the asset rules.
    InvalidQuantity,
    /// The router knows no book for the symbol.
    UnknownSymbol,
    /// A fill-or-kill order that cannot be filled in full.
    FOKUnfillable,
    /// A stop order with no usable trigger price.
    StopWithoutTrigger,
}

/// The single outcome every submission ends with, after its trades.
#[derive(Clone, Copy, Debug, PartialEq, Eq, Structural)]
pub enum SubmitOutcome {
    /// The order (or its untriggered stop) now rests in the book.
    Rested,
    /// The order was fully executed.
    Filled,
    /// Part executed, the remainder rests.
    PartiallyFilledRested,
    /// The unfilled residual (carried here) was dropped, as the
    /// time-in-force demands.
    Cancelled(u64),
    /// Refused before any mutation.
    Rejected(RejectReason),
}

/// Outcome of a cancel request.
#[derive(Clone, Copy, Debug, PartialEq, Eq, Structural)]
pub enum CancelOutcome {
    /// The order was resting (or waiting as a stop) and is now removed.
    Cancelled,
    /// No resting or waiting order carries this id.
    NotFound,
}

/// What one submission returns: its executions in sequence order,
/// followed by exactly one outcome.
pub struct SubmitResult {
    pub trades: Vec<TradeReport>,
    pub outcome: SubmitOutcome,
}

/// The order as the engine admits it: full remaining quantity, no
/// hidden reserve yet, and a fresh priority tag.
pub open spec fn admitted(order: Order, ts: u64) -> Order {
    Order { remaining_qty: order.quantity, reserve_qty: 0, submit_ts: ts, ..order }
}

/// Total unfilled quantity over a queue of resting orders.
pub open spec fn qty_sum(s: Seq<Order>) -> int
    decreases s.len(),
{
    if s.len() == 0 {
        0
    } else {
        s[0].unfilled() + qty_sum(s.drop_first())
    }
}

/// Total executed quantity over a run of trade reports.
pub open spec fn trade_qty_sum(s: Seq<TradeReport>) -> int
    decreases s.len(),
{
    if s.len() == 0 {
        0
    } else {
        trade_qty_sum(s.drop_last()) + s.last().quantity
    }
}

/// Appending one order adds exactly its unfilled quantity to the sum.
pub proof fn lemma_qty_sum_push(s: Seq<Order>, o: Order)
    ensures
        qty_sum(s.push(o)) == qty_sum(s) + o.unfilled(),
    decreases s.len(),
{
    assert(qty_sum(s.push(o)) == s.push(o)[0].unfilled() + qty_sum(s.push(o).drop_first()));
    if s.len() == 0 {
        assert(s.push(o)[0] == o);
        assert(s.push(o).drop_first() =~= Seq::<Order>::empty());
    } else {
        assert(s.push(o)[0] == s[0]);
        assert(s.push(o).drop_first() =~= s.drop_first().push(o));
        lemma_qty_sum_push(s.drop_first(), o);
    }
}


/// A queue's unfilled total is never negative.
pub proof fn lemma_qty_sum_nonneg(s: Seq<Order>)
    ensures
        qty_sum(s) >= 0,
    decreases s.len(),
{
    if s.len() > 0 {
        lemma_qty_sum_nonneg(s.drop_first());
    }
}

/// Replacing the head changes the sum by the difference of the two heads.
pub proof fn lemma_qty_sum_update_head(s: Seq<Order>, o: Order)
    requires
        s.len() >= 1,
    ensures
        qty_sum(s.update(0, o)) == qty_sum(s) - s[0].unfilled() + o.unfilled(),
{
    assert(s.update(0, o).drop_first() =~= s.drop_first());
}

/// Appending one trade adds exactly its quantity to the executed total.
pub proof fn lemma_trade_qty_sum_push(s: Seq<TradeReport>, t: TradeReport)
    ensures
        trade_qty_sum(s.push(t)) == trade_qty_sum(s) + t.quantity,
{
    assert(s.push(t).drop_last() =~= s);
}


} // verus!
