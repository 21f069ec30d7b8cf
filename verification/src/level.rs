//! A price level: the FIFO queue of resting orders at one price on one
//! side of the book. Appends go to the tail, consumption bites the head,
//! and a depleted iceberg slice is re-queued at the tail with a fresh
//! priority tag (priority loss on refill).

use vstd::prelude::*;

use crate::domain::{qty_sum, Order, OrderType, Side};

verus! {

/// Whether an order of this kind may rest in a price level.
pub open spec fn restable(t: OrderType) -> bool {
    t is Limit || t is Iceberg
}

/// The displayed-slice bound of an iceberg; zero for every other kind.
pub open spec fn display_of(t: OrderType) -> u64 {
    match t {
        OrderType::Iceberg(d) => d,
        _ => 0,
    }
}

/// A single resting entry is well formed for its level and side:
/// it carries the level's price, a positive visible quantity, and its
/// hidden reserve is only what an iceberg's display bound forces off
/// the book.
pub open spec fn entry_ok(o: Order, price: u64, side: Side) -> bool {
    &&& o.price == price
    &&& o.side == side
    &&& 1 <= o.remaining_qty
    &&& o.unfilled() <= o.quantity
    &&& restable(o.order_type)
    &&& match o.order_type {
        OrderType::Iceberg(d) => 1 <= d && o.remaining_qty <= d,
        _ => o.reserve_qty == 0,
    }
}

/// The queue of resting orders at one price.
pub struct PriceLevel {
    pub price: u64,
    pub orders: Vec<Order>,
}

/// Every entry is well formed and the queue is strictly FIFO: priority
/// tags increase from head to tail.
pub open spec fn level_wf(price: u64, orders: Seq<Order>, side: Side) -> bool {
    &&& forall|i: int| 0 <= i < orders.len() ==> entry_ok(#[trigger] orders[i], price, side)
    &&& forall|i: int, j: int| 0 <= i < j < orders.len() ==> orders[i].submit_ts < orders[j].submit_ts
}

/// All priority tags in the queue lie below `ts`.
pub open spec fn level_ts_below(orders: Seq<Order>, ts: u64) -> bool {
    forall|i: int| 0 <= i < orders.len() ==> #[trigger] orders[i].submit_ts < ts
}

/// The quantity `consume_head` takes off the head.
pub open spec fn consumed_of(head: Order, qty: u64) -> u64 {
    if qty < head.remaining_qty {
        qty
    } else {
        head.remaining_qty
    }
}

/// The next visible slice of a depleted iceberg: as much of the reserve
/// as the display bound allows, re-tagged with a fresh priority tag.
pub open spec fn refill(o: Order, fresh_ts: u64) -> Order {
    let d = display_of(o.order_type);
    let slice = if o.reserve_qty < d {
        o.reserve_qty
    } else {
        d
    };
    Order { remaining_qty: slice, reserve_qty: (o.reserve_qty - slice) as u64, submit_ts: fresh_ts, ..o }
}

/// The queue after `consume_head(qty, fresh_ts)`: the head loses
/// `consumed_of` lots; a fully consumed head is popped, and a fully
/// consumed iceberg slice with reserve left is refilled at the tail.
pub open spec fn after_consume(s: Seq<Order>, qty: u64, fresh_ts: u64) -> Seq<Order> {
    let head = s[0];
    let q = consumed_of(head, qty);
    if q < head.remaining_qty {
        s.update(0, Order { remaining_qty: (head.remaining_qty - q) as u64, ..head })
    } else if head.reserve_qty > 0 {
        s.drop_first().push(refill(head, fresh_ts))
    } else {
        s.drop_first()
    }
}

/// Smallest index whose entry carries `id`, or -1 if none does.
pub open spec fn find_id(s: Seq<Order>, id: u64) -> int
    decreases s.len(),
{
    if s.len() == 0 {
        -1
    } else if s[0].id == id {
        0
    } else {
        let r = find_id(s.drop_first(), id);
        if r < 0 {
            -1
        } else {
            r + 1
        }
    }
}

/// `find_id` names an in-range entry with the id, and -1 only when the
/// id is absent.
pub proof fn lemma_find_id(s: Seq<Order>, id: u64)
    ensures
        find_id(s, id) >= 0 ==> find_id(s, id) < s.len() && s[find_id(s, id)].id == id,
        find_id(s, id) == -1 <==> (forall|i: int| 0 <= i < s.len() ==> s[i].id != id),
        find_id(s, id) >= -1,
    decreases s.len(),
{
    if s.len() > 0 {
        lemma_find_id(s.drop_first(), id);
        if s[0].id != id {
            let rest = s.drop_first();
            if find_id(rest, id) == -1 {
                assert forall|i: int| 0 <= i < s.len() implies s[i].id != id by {
                    if i > 0 {
                        assert(rest[i - 1] == s[i]);
                    }
                }
            } else {
                assert(s[find_id(rest, id) + 1] == rest[find_id(rest, id)]);
            }
        }
    }
}

impl PriceLevel {
    /// An empty level at the given price.
    pub fn new(price: u64) -> (r: PriceLevel)
        ensures
            r.price == price,
            r.orders@.len() == 0,
    {
        PriceLevel { price, orders: Vec::new() }
    }

    /// Number of resting entries.
    pub fn len(&self) -> (r: usize)
        ensures
            r == self.orders@.len(),
    {
        self.orders.len()
    }

    /// Whether the level holds no entry.
    pub fn is_empty(&self) -> (r: bool)
        ensures
            r <==> self.orders@.len() == 0,
    {
        self.orders.is_empty()
    }

    /// The head entry: the oldest resting order at this price.
    pub fn peek_head(&self) -> (r: &Order)
        requires
            self.orders@.len() >= 1,
        ensures
            *r == self.orders@[0],
    {
        &self.orders[0]
    }

    /// Whether some entry carries the given id.
    pub fn contains(&self, id: u64) -> (r: bool)
        ensures
            r <==> find_id(self.orders@, id) >= 0,
    {
        let mut i: usize = 0;
        while i < self.orders.len()
            invariant
                0 <= i <= self.orders@.len(),
                forall|k: int| 0 <= k < i ==> self.orders@[k].id != id,
            decreases self.orders@.len() - i,
        {
            if self.orders[i].id == id {
                proof {
                    lemma_find_id_prefix(self.orders@, id, i as int);
                }
                return true;
            }
            i = i + 1;
        }
        proof {
            lemma_find_id(self.orders@, id);
        }
        false
    }

    /// FIFO append at the tail. The fresh entry must be younger than
    /// everything already queued, so priority order is preserved.
    pub fn append(&mut self, order: Order)
        requires
            entry_ok(order, old(self).price, order.side),
            level_ts_below(old(self).orders@, order.submit_ts),
        ensures
            final(self).price == old(self).price,
            final(self).orders@ == old(self).orders@.push(order),
            qty_sum(final(self).orders@) == qty_sum(old(self).orders@) + order.unfilled(),
    {
        proof {
            crate::domain::lemma_qty_sum_push(self.orders@, order);
        }
        self.orders.push(order);
    }

    /// Head-biased consumption: take up to `qty` lots off the head
    /// entry. A head left at zero is popped; a popped iceberg with
    /// hidden reserve is refilled at the tail under `fresh_ts`,
    /// losing time priority. Returns the lots actually consumed.
    pub fn consume_head(&mut self, qty: u64, fresh_ts: u64, side: Side) -> (consumed: u64)
        requires
            old(self).orders@.len() >= 1,
            qty >= 1,
            level_wf(old(self).price, old(self).orders@, side),
            level_ts_below(old(self).orders@, fresh_ts),
        ensures
            consumed == consumed_of(old(self).orders@[0], qty),
            1 <= consumed <= qty,
            consumed <= old(self).orders@[0].remaining_qty,
            final(self).price == old(self).price,
            final(self).orders@ == after_consume(old(self).orders@, qty, fresh_ts),
            qty_sum(final(self).orders@) == qty_sum(old(self).orders@) - consumed,
            level_wf(final(self).price, final(self).orders@, side),
            level_ts_below(final(self).orders@, fresh_ts) || (final(self).orders@.len() >= 1
                && final(self).orders@.last().submit_ts == fresh_ts
                && forall|i: int|
                0 <= i < final(self).orders@.len() - 1
                    ==> #[trigger] final(self).orders@[i].submit_ts < fresh_ts),
            final(self).orders@.len() >= old(self).orders@.len() - 1,
    {
        let ghost pre = self.orders@;
        let head = self.orders[0];
        let consumed: u64 = if qty < head.remaining_qty {
            qty
        } else {
            head.remaining_qty
        };
        if consumed < head.remaining_qty {
            let updated = Order { remaining_qty: head.remaining_qty - consumed, ..head };
            self.orders[0] = updated;
            proof {
                crate::domain::lemma_qty_sum_update_head(pre, updated);
            }
        } else if head.reserve_qty > 0 {
            let d = match head.order_type {
                OrderType::Iceberg(d) => d,
                _ => 0,
            };
            let slice: u64 = if head.reserve_qty < d {
                head.reserve_qty
            } else {
                d
            };
            let refilled = Order {
                remaining_qty: slice,
                reserve_qty: head.reserve_qty - slice,
                submit_ts: fresh_ts,
                ..head
            };
            let _ = self.orders.remove(0);
            proof {
                assert(self.orders@ =~= pre.drop_first());
                crate::domain::lemma_qty_sum_push(self.orders@, refilled);
            }
            self.orders.push(refilled);
            proof {
                assert(refilled == refill(pre[0], fresh_ts));
                assert(self.orders@ =~= after_consume(pre, qty, fresh_ts));
            }
        } else {
            let _ = self.orders.remove(0);
            proof {
                assert(self.orders@ =~= pre.drop_first());
            }
        }
        consumed
    }

    /// Remove the first entry whose id matches; the relative order of
    /// the rest is untouched. Returns whether an entry was removed.
    pub fn cancel(&mut self, id: u64) -> (found: bool)
        ensures
            found <==> find_id(old(self).orders@, id) >= 0,
            final(self).price == old(self).price,
            final(self).orders@ == (if find_id(old(self).orders@, id) >= 0 {
                old(self).orders@.remove(find_id(old(self).orders@, id))
            } else {
                old(self).orders@
            }),
    {
        let mut i: usize = 0;
        while i < self.orders.len()
            invariant
                0 <= i <= self.orders@.len(),
                self.orders@ == old(self).orders@,
                self.price == old(self).price,
                forall|k: int| 0 <= k < i ==> old(self).orders@[k].id != id,
            decreases self.orders@.len() - i,
        {
            if self.orders[i].id == id {
                proof {
                    lemma_find_id_prefix(self.orders@, id, i as int);
                }
                let _ = self.orders.remove(i);
                return true;
            }
            i = i + 1;
        }
        proof {
            lemma_find_id(self.orders@, id);
        }
        false
    }
}

/// If no entry before `i` carries the id and entry `i` does, then `i`
/// is exactly where `find_id` points.
pub proof fn lemma_find_id_prefix(s: Seq<Order>, id: u64, i: int)
    requires
        0 <= i < s.len(),
        s[i].id == id,
        forall|k: int| 0 <= k < i ==> s[k].id != id,
    ensures
        find_id(s, id) == i,
    decreases s.len(),
{
    if i > 0 {
        lemma_find_id_prefix(s.drop_first(), id, i - 1);
    }
}

} // verus!
