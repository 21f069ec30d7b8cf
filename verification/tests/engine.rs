use matching_engine::asset::{AssetBehavior, AssetType, CryptoAsset, StockAsset};
use matching_engine::book::OrderBook;
use matching_engine::domain::{
    CancelOutcome, Order, OrderType, RejectReason, Side, StopKind, SubmitOutcome, TradeReport,
};

fn buy(id: u64, price: u64, qty: u64, kind: OrderType) -> Order {
    Order::new(id, price, qty, Side::Buy, kind, 1_000)
}

fn sell(id: u64, price: u64, qty: u64, kind: OrderType) -> Order {
    Order::new(id, price, qty, Side::Sell, kind, 1_000)
}

fn trade_tuple(t: &TradeReport) -> (u64, u64, u64) {
    (t.maker_id, t.price, t.quantity)
}

#[test]
fn limit_buy_sweeps_two_ask_levels() {
    let mut book = OrderBook::new(CryptoAsset);
    assert_eq!(book.match_order(sell(1, 100, 5, OrderType::Limit)).outcome, SubmitOutcome::Rested);
    assert_eq!(book.match_order(sell(2, 101, 3, OrderType::Limit)).outcome, SubmitOutcome::Rested);

    let r = book.match_order(buy(10, 101, 6, OrderType::Limit));
    let got: Vec<(u64, u64, u64)> = r.trades.iter().map(trade_tuple).collect();
    assert_eq!(got, vec![(1, 100, 5), (2, 101, 1)]);
    assert_eq!(r.outcome, SubmitOutcome::Filled);
    assert_eq!(book.best_ask(), Some(101));
    assert_eq!(book.best_bid(), None);
    assert_eq!(book.asks[0].orders[0].remaining_qty, 2);
}

#[test]
fn market_buy_residual_is_cancelled() {
    let mut book = OrderBook::new(CryptoAsset);
    book.match_order(sell(1, 100, 5, OrderType::Limit));

    let r = book.match_order(buy(11, 0, 8, OrderType::Market));
    let got: Vec<(u64, u64, u64)> = r.trades.iter().map(trade_tuple).collect();
    assert_eq!(got, vec![(1, 100, 5)]);
    assert_eq!(r.outcome, SubmitOutcome::Cancelled(3));
    assert_eq!(book.best_ask(), None);
}

#[test]
fn fok_unfillable_leaves_book_untouched() {
    let mut book = OrderBook::new(CryptoAsset);
    book.match_order(sell(1, 100, 5, OrderType::Limit));

    let r = book.match_order(buy(12, 100, 8, OrderType::FOK));
    assert!(r.trades.is_empty());
    assert_eq!(r.outcome, SubmitOutcome::Rejected(RejectReason::FOKUnfillable));
    assert_eq!(book.best_ask(), Some(100));
    assert_eq!(book.asks[0].orders[0].remaining_qty, 5);
}

#[test]
fn fok_fillable_fills_in_full() {
    let mut book = OrderBook::new(CryptoAsset);
    book.match_order(sell(1, 100, 5, OrderType::Limit));

    let r = book.match_order(buy(12, 100, 5, OrderType::FOK));
    let got: Vec<(u64, u64, u64)> = r.trades.iter().map(trade_tuple).collect();
    assert_eq!(got, vec![(1, 100, 5)]);
    assert_eq!(r.outcome, SubmitOutcome::Filled);
    assert_eq!(book.best_ask(), None);
}

#[test]
fn ioc_partial_fill_consumes_what_crosses() {
    let mut book = OrderBook::new(CryptoAsset);
    book.match_order(sell(1, 100, 5, OrderType::Limit));

    let r = book.match_order(buy(13, 100, 3, OrderType::IOC));
    let got: Vec<(u64, u64, u64)> = r.trades.iter().map(trade_tuple).collect();
    assert_eq!(got, vec![(1, 100, 3)]);
    assert_eq!(r.outcome, SubmitOutcome::Filled);
    assert_eq!(book.asks[0].orders[0].remaining_qty, 2);
}

#[test]
fn ioc_residual_never_rests() {
    let mut book = OrderBook::new(CryptoAsset);
    book.match_order(sell(1, 100, 2, OrderType::Limit));

    let r = book.match_order(buy(13, 100, 5, OrderType::IOC));
    assert_eq!(r.outcome, SubmitOutcome::Cancelled(3));
    assert_eq!(book.best_bid(), None);
    assert_eq!(book.best_ask(), None);
}

#[test]
fn iceberg_rests_display_slice_with_hidden_reserve() {
    let mut book = OrderBook::new(CryptoAsset);

    let r = book.match_order(buy(14, 100, 10, OrderType::Iceberg(3)));
    assert!(r.trades.is_empty());
    assert_eq!(r.outcome, SubmitOutcome::Rested);
    assert_eq!(book.best_bid(), Some(100));
    assert_eq!(book.bids[0].orders[0].remaining_qty, 3);
    assert_eq!(book.bids[0].orders[0].reserve_qty, 7);
}

#[test]
fn iceberg_refill_loses_priority_and_keeps_matching() {
    let mut book = OrderBook::new(CryptoAsset);
    book.match_order(buy(14, 100, 10, OrderType::Iceberg(3)));

    // The sell consumes the visible slice, the reserve refills a fresh
    // slice at the tail, and the taker keeps matching against it.
    let r = book.match_order(sell(15, 100, 4, OrderType::Limit));
    let got: Vec<(u64, u64, u64)> = r.trades.iter().map(trade_tuple).collect();
    assert_eq!(got, vec![(14, 100, 3), (14, 100, 1)]);
    assert_eq!(r.outcome, SubmitOutcome::Filled);
    assert_eq!(book.bids[0].orders[0].remaining_qty, 2);
    assert_eq!(book.bids[0].orders[0].reserve_qty, 4);
    // the refilled slice carries a fresh (larger) priority tag
    assert!(book.bids[0].orders[0].submit_ts > 0);
}

#[test]
fn stop_rests_then_triggers_into_market() {
    let mut book = OrderBook::new(CryptoAsset);
    book.match_order(buy(30, 98, 5, OrderType::Limit));
    let r = book.match_order(sell(20, 0, 2, OrderType::Stop(98, StopKind::Market)));
    assert_eq!(r.outcome, SubmitOutcome::Rested);
    assert_eq!(book.stop_orders.len(), 1);

    // the sell trades at 98, which reaches the sell-stop's trigger; the
    // stop fires as a market sell against the remaining bids
    let r = book.match_order(sell(21, 95, 3, OrderType::Limit));
    let got: Vec<(u64, u64, u64)> = r.trades.iter().map(trade_tuple).collect();
    assert_eq!(got, vec![(30, 98, 3), (30, 98, 2)]);
    assert_eq!(r.outcome, SubmitOutcome::Filled);
    assert!(book.stop_orders.is_empty());
    assert_eq!(book.best_bid(), None);
}

#[test]
fn stop_limit_triggers_and_rests_its_residual() {
    let mut book = OrderBook::new(CryptoAsset);
    book.match_order(buy(30, 98, 1, OrderType::Limit));
    book.match_order(sell(20, 97, 4, OrderType::Stop(98, StopKind::Limit)));

    let r = book.match_order(sell(21, 98, 1, OrderType::Limit));
    let got: Vec<(u64, u64, u64)> = r.trades.iter().map(trade_tuple).collect();
    // the taker consumes the bid; the triggered stop-limit finds no bid
    // left and rests at its stored price
    assert_eq!(got, vec![(30, 98, 1)]);
    assert!(book.stop_orders.is_empty());
    assert_eq!(book.best_ask(), Some(97));
    assert_eq!(book.asks[0].orders[0].id, 20);
    assert_eq!(book.asks[0].orders[0].remaining_qty, 4);
}

#[test]
fn trade_sequence_numbers_are_consecutive_per_book() {
    let mut book = OrderBook::new(CryptoAsset);
    book.match_order(sell(1, 100, 2, OrderType::Limit));
    book.match_order(sell(2, 101, 2, OrderType::Limit));
    let r1 = book.match_order(buy(3, 101, 3, OrderType::Limit));
    assert_eq!(r1.trades.iter().map(|t| t.seq).collect::<Vec<u64>>(), vec![0, 1]);
    book.match_order(sell(4, 99, 1, OrderType::Limit));
    let r2 = book.match_order(buy(5, 99, 1, OrderType::Market));
    assert_eq!(r2.trades.iter().map(|t| t.seq).collect::<Vec<u64>>(), vec![2]);
}

#[test]
fn price_time_priority_within_a_level() {
    let mut book = OrderBook::new(CryptoAsset);
    book.match_order(sell(1, 100, 2, OrderType::Limit));
    book.match_order(sell(2, 100, 2, OrderType::Limit));

    let r = book.match_order(buy(3, 100, 3, OrderType::Limit));
    let got: Vec<(u64, u64, u64)> = r.trades.iter().map(trade_tuple).collect();
    // the earlier-submitted maker (id 1) is consumed first
    assert_eq!(got, vec![(1, 100, 2), (2, 100, 1)]);
}

#[test]
fn no_crossed_book_after_partial_rest() {
    let mut book = OrderBook::new(CryptoAsset);
    book.match_order(sell(1, 100, 2, OrderType::Limit));
    let r = book.match_order(buy(2, 99, 3, OrderType::Limit));
    assert_eq!(r.outcome, SubmitOutcome::Rested);
    let bid = book.best_bid().unwrap();
    let ask = book.best_ask().unwrap();
    assert!(bid < ask);
    assert_eq!((bid, ask), (99, 100));
}

#[test]
fn zero_quantity_is_rejected_without_mutation() {
    let mut book = OrderBook::new(CryptoAsset);
    let r = book.match_order(buy(1, 100, 0, OrderType::Limit));
    assert!(r.trades.is_empty());
    assert_eq!(r.outcome, SubmitOutcome::Rejected(RejectReason::InvalidQuantity));
    assert_eq!(book.best_bid(), None);
}

#[test]
fn zero_display_iceberg_is_rejected() {
    let mut book = OrderBook::new(CryptoAsset);
    let r = book.match_order(buy(1, 100, 5, OrderType::Iceberg(0)));
    assert_eq!(r.outcome, SubmitOutcome::Rejected(RejectReason::InvalidQuantity));
}

#[test]
fn zero_trigger_stop_is_rejected() {
    let mut book = OrderBook::new(CryptoAsset);
    let r = book.match_order(sell(1, 100, 5, OrderType::Stop(0, StopKind::Market)));
    assert_eq!(r.outcome, SubmitOutcome::Rejected(RejectReason::StopWithoutTrigger));
    assert!(book.stop_orders.is_empty());
}

#[test]
fn cancel_is_idempotent_and_makes_no_trade() {
    let mut book = OrderBook::new(CryptoAsset);
    book.match_order(buy(7, 95, 4, OrderType::Limit));
    assert_eq!(book.cancel(7), CancelOutcome::Cancelled);
    assert_eq!(book.cancel(7), CancelOutcome::NotFound);
    assert_eq!(book.best_bid(), None);
}

#[test]
fn cancel_finds_orders_on_either_side_and_in_stops() {
    let mut book = OrderBook::new(CryptoAsset);
    book.match_order(buy(1, 95, 4, OrderType::Limit));
    book.match_order(sell(2, 105, 4, OrderType::Limit));
    book.match_order(sell(3, 0, 1, OrderType::Stop(90, StopKind::Market)));
    assert_eq!(book.cancel(2), CancelOutcome::Cancelled);
    assert_eq!(book.best_ask(), None);
    assert_eq!(book.cancel(3), CancelOutcome::Cancelled);
    assert!(book.stop_orders.is_empty());
    assert_eq!(book.cancel(1), CancelOutcome::Cancelled);
    assert_eq!(book.cancel(99), CancelOutcome::NotFound);
}

#[test]
fn cancel_preserves_order_of_the_rest() {
    let mut book = OrderBook::new(CryptoAsset);
    book.match_order(sell(1, 100, 1, OrderType::Limit));
    book.match_order(sell(2, 100, 2, OrderType::Limit));
    book.match_order(sell(3, 100, 3, OrderType::Limit));
    assert_eq!(book.cancel(2), CancelOutcome::Cancelled);
    let r = book.match_order(buy(4, 100, 4, OrderType::Market));
    let got: Vec<(u64, u64, u64)> = r.trades.iter().map(trade_tuple).collect();
    assert_eq!(got, vec![(1, 100, 1), (3, 100, 3)]);
}

#[test]
fn replaying_the_same_ingress_gives_identical_trades() {
    let script: Vec<Order> = vec![
        sell(1, 100, 5, OrderType::Limit),
        sell(2, 101, 3, OrderType::Limit),
        buy(3, 101, 6, OrderType::Limit),
        buy(4, 99, 2, OrderType::Iceberg(1)),
        sell(5, 99, 2, OrderType::Market),
        sell(6, 0, 1, OrderType::Stop(99, StopKind::Market)),
        buy(7, 100, 1, OrderType::Limit),
        sell(8, 98, 1, OrderType::Limit),
    ];
    let mut a = OrderBook::new(CryptoAsset);
    let mut b = OrderBook::new(CryptoAsset);
    let mut trades_a: Vec<TradeReport> = Vec::new();
    let mut trades_b: Vec<TradeReport> = Vec::new();
    for o in script.iter() {
        trades_a.extend(a.match_order(*o).trades);
    }
    for o in script.iter() {
        trades_b.extend(b.match_order(*o).trades);
    }
    assert_eq!(trades_a, trades_b);
    assert_eq!(a.best_bid(), b.best_bid());
    assert_eq!(a.best_ask(), b.best_ask());
}

#[test]
fn unrelated_cancel_does_not_change_a_stops_trades() {
    // run one: trigger the stop directly
    let mut a = OrderBook::new(CryptoAsset);
    a.match_order(buy(30, 98, 5, OrderType::Limit));
    a.match_order(sell(20, 0, 2, OrderType::Stop(98, StopKind::Market)));
    let ra = a.match_order(sell(21, 95, 3, OrderType::Limit));

    // run two: same, with a no-op cancel attempt in between
    let mut b = OrderBook::new(CryptoAsset);
    b.match_order(buy(30, 98, 5, OrderType::Limit));
    b.match_order(sell(20, 0, 2, OrderType::Stop(98, StopKind::Market)));
    assert_eq!(b.cancel(4242), CancelOutcome::NotFound);
    let rb = b.match_order(sell(21, 95, 3, OrderType::Limit));

    let ta: Vec<(u64, u64, u64)> = ra.trades.iter().map(trade_tuple).collect();
    let tb: Vec<(u64, u64, u64)> = rb.trades.iter().map(trade_tuple).collect();
    assert_eq!(ta, tb);
    assert_eq!(ra.outcome, rb.outcome);
}

#[test]
fn conservation_taker_trades_never_exceed_quantity() {
    let mut book = OrderBook::new(CryptoAsset);
    book.match_order(sell(1, 100, 3, OrderType::Limit));
    book.match_order(sell(2, 101, 9, OrderType::Limit));
    let r = book.match_order(buy(3, 101, 7, OrderType::Limit));
    let total: u64 = r.trades.iter().map(|t| t.quantity).sum();
    assert_eq!(total, 7);
    assert_eq!(book.asks[0].orders[0].remaining_qty, 5);
}

#[test]
fn snapshot_aggregates_resting_quantity_per_level() {
    let mut book = OrderBook::new(CryptoAsset);
    book.match_order(buy(1, 99, 4, OrderType::Limit));
    book.match_order(buy(2, 99, 2, OrderType::Limit));
    book.match_order(buy(3, 98, 1, OrderType::Limit));
    book.match_order(buy(4, 97, 9, OrderType::Iceberg(5)));
    book.match_order(sell(5, 105, 3, OrderType::Limit));
    assert_eq!(book.snapshot(2, true), vec![(99, 6), (98, 1)]);
    // the iceberg's hidden reserve counts toward the resting depth
    assert_eq!(book.snapshot(9, true), vec![(99, 6), (98, 1), (97, 9)]);
    assert_eq!(book.snapshot(9, false), vec![(105, 3)]);
    assert_eq!(book.snapshot(0, true), vec![]);
}

#[test]
fn asset_rules_report_their_class_and_precision() {
    assert_eq!(CryptoAsset.get_type(), AssetType::Crypto);
    assert_eq!(CryptoAsset.get_pip_precision(), 8);
    assert!(CryptoAsset.is_market_open(0));
    assert!(CryptoAsset.validate_order(1, 1));
    assert_eq!(StockAsset.get_type(), AssetType::Stock);
    assert_eq!(StockAsset.get_pip_precision(), 2);
}
