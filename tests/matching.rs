use order_matching::ohlc::{Ohlc, OhlcTracker};
use order_matching::order_book::OrderBook;
use order_matching::types::{Order, Side, Trade};

fn order(id: u128, side: Side, price: u64, qty: u32) -> Order {
    Order { id, side, price, qty, timestamp: 1_000 + id as i64 }
}

fn levels(book: &OrderBook, side: Side) -> Vec<(u64, Vec<(u32, u128)>)> {
    book.depth(side)
        .into_iter()
        .map(|(p, orders)| (p, orders.iter().map(|o| (o.qty, o.id)).collect()))
        .collect()
}

#[test]
fn price_priority_sweeps_best_first() {
    let mut book = OrderBook::new();
    let mut ohlc = OhlcTracker::new();
    assert!(book.process_order(order(1, Side::Sell, 12, 5), &mut ohlc).is_empty());
    assert!(book.process_order(order(2, Side::Sell, 10, 5), &mut ohlc).is_empty());
    assert!(book.process_order(order(3, Side::Sell, 11, 5), &mut ohlc).is_empty());
    let trades = book.process_order(order(4, Side::Buy, 12, 15), &mut ohlc);
    let prices: Vec<u64> = trades.iter().map(|t| t.price).collect();
    assert_eq!(prices, vec![10, 11, 12]);
    assert!(trades.iter().all(|t| t.qty == 5 && t.aggressor == 4));
    assert!(levels(&book, Side::Sell).is_empty());
    assert!(levels(&book, Side::Buy).is_empty());
}

#[test]
fn price_priority_stops_at_limit() {
    let mut book = OrderBook::new();
    let mut ohlc = OhlcTracker::new();
    book.process_order(order(1, Side::Sell, 10, 5), &mut ohlc);
    book.process_order(order(2, Side::Sell, 11, 5), &mut ohlc);
    book.process_order(order(3, Side::Sell, 12, 5), &mut ohlc);
    let trades = book.process_order(order(4, Side::Buy, 11, 20), &mut ohlc);
    assert_eq!(
        trades,
        vec![
            Trade { price: 10, qty: 5, aggressor: 4 },
            Trade { price: 11, qty: 5, aggressor: 4 },
        ]
    );
    assert_eq!(levels(&book, Side::Sell), vec![(12, vec![(5, 3)])]);
    assert_eq!(levels(&book, Side::Buy), vec![(11, vec![(10, 4)])]);
}

#[test]
fn time_priority_first_arrival_trades_first() {
    let mut book = OrderBook::new();
    let mut ohlc = OhlcTracker::new();
    book.process_order(order(1, Side::Sell, 10, 5), &mut ohlc);
    book.process_order(order(2, Side::Sell, 10, 5), &mut ohlc);
    let trades = book.process_order(order(3, Side::Buy, 10, 3), &mut ohlc);
    assert_eq!(trades, vec![Trade { price: 10, qty: 3, aggressor: 3 }]);
    assert_eq!(levels(&book, Side::Sell), vec![(10, vec![(2, 1), (5, 2)])]);
}

#[test]
fn partial_fill_keeps_front_position() {
    let mut book = OrderBook::new();
    let mut ohlc = OhlcTracker::new();
    book.process_order(order(1, Side::Buy, 50, 10), &mut ohlc);
    book.process_order(order(2, Side::Buy, 50, 7), &mut ohlc);
    let trades = book.process_order(order(3, Side::Sell, 50, 4), &mut ohlc);
    assert_eq!(trades, vec![Trade { price: 50, qty: 4, aggressor: 3 }]);
    assert_eq!(levels(&book, Side::Buy), vec![(50, vec![(6, 1), (7, 2)])]);
    assert!(levels(&book, Side::Sell).is_empty());
}

#[test]
fn levels_stay_in_sync_with_best_price() {
    let mut book = OrderBook::new();
    let mut ohlc = OhlcTracker::new();
    book.process_order(order(1, Side::Buy, 20, 1), &mut ohlc);
    book.process_order(order(2, Side::Buy, 22, 1), &mut ohlc);
    book.process_order(order(3, Side::Buy, 21, 1), &mut ohlc);
    book.process_order(order(4, Side::Buy, 22, 1), &mut ohlc);
    assert_eq!(book.best_price(Side::Buy), Some(22));
    assert_eq!(
        levels(&book, Side::Buy),
        vec![(22, vec![(1, 2), (1, 4)]), (21, vec![(1, 3)]), (20, vec![(1, 1)])]
    );
    book.process_order(order(5, Side::Sell, 21, 2), &mut ohlc);
    assert_eq!(book.best_price(Side::Buy), Some(21));
    assert_eq!(levels(&book, Side::Buy), vec![(21, vec![(1, 3)]), (20, vec![(1, 1)])]);
    book.process_order(order(6, Side::Sell, 1, 2), &mut ohlc);
    assert_eq!(book.best_price(Side::Buy), None);
    assert!(levels(&book, Side::Buy).is_empty());
    assert_eq!(book.best_price(Side::Sell), None);
}

#[test]
fn sell_levels_listed_lowest_first() {
    let mut book = OrderBook::new();
    let mut ohlc = OhlcTracker::new();
    book.process_order(order(1, Side::Sell, 30, 1), &mut ohlc);
    book.process_order(order(2, Side::Sell, 10, 2), &mut ohlc);
    book.process_order(order(3, Side::Sell, 20, 3), &mut ohlc);
    assert_eq!(book.best_price(Side::Sell), Some(10));
    assert_eq!(
        levels(&book, Side::Sell),
        vec![(10, vec![(2, 2)]), (20, vec![(3, 3)]), (30, vec![(1, 1)])]
    );
}

#[test]
fn aggregate_open_high_low_close() {
    let mut ohlc = OhlcTracker::new();
    for (i, p) in [100u64, 105, 98, 102].iter().enumerate() {
        ohlc.update(*p, i as i64);
    }
    assert_eq!(
        ohlc.snapshot(),
        Some(Ohlc { open: 100, high: 105, low: 98, close: 102, last_timestamp: 3 })
    );
}

#[test]
fn aggregate_first_trade_sets_all() {
    let mut ohlc = OhlcTracker::new();
    ohlc.update(42, 7);
    assert_eq!(
        ohlc.snapshot(),
        Some(Ohlc { open: 42, high: 42, low: 42, close: 42, last_timestamp: 7 })
    );
}

#[test]
fn aggregate_fed_by_matching() {
    let mut book = OrderBook::new();
    let mut ohlc = OhlcTracker::new();
    book.process_order(order(1, Side::Sell, 10, 1), &mut ohlc);
    book.process_order(order(2, Side::Sell, 12, 1), &mut ohlc);
    assert_eq!(ohlc.snapshot(), None);
    book.process_order(order(3, Side::Buy, 12, 2), &mut ohlc);
    assert_eq!(
        ohlc.snapshot(),
        Some(Ohlc { open: 10, high: 12, low: 10, close: 12, last_timestamp: 1_003 })
    );
}

#[test]
fn no_cross_on_empty_book_rests_fully() {
    let mut book = OrderBook::new();
    let mut ohlc = OhlcTracker::new();
    let trades = book.process_order(order(1, Side::Buy, 5, 9), &mut ohlc);
    assert!(trades.is_empty());
    assert_eq!(levels(&book, Side::Buy), vec![(5, vec![(9, 1)])]);
    assert_eq!(ohlc.snapshot(), None);
}

#[test]
fn no_cross_above_limit_rests_fully() {
    let mut book = OrderBook::new();
    let mut ohlc = OhlcTracker::new();
    book.process_order(order(1, Side::Sell, 6, 4), &mut ohlc);
    book.process_order(order(2, Side::Sell, 8, 4), &mut ohlc);
    let trades = book.process_order(order(3, Side::Buy, 5, 9), &mut ohlc);
    assert!(trades.is_empty());
    assert_eq!(levels(&book, Side::Buy), vec![(5, vec![(9, 3)])]);
    assert_eq!(levels(&book, Side::Sell), vec![(6, vec![(4, 1)]), (8, vec![(4, 2)])]);
}

#[test]
fn exact_match_clears_level() {
    let mut book = OrderBook::new();
    let mut ohlc = OhlcTracker::new();
    book.process_order(order(1, Side::Buy, 15, 8), &mut ohlc);
    book.process_order(order(2, Side::Buy, 14, 3), &mut ohlc);
    let trades = book.process_order(order(3, Side::Sell, 15, 8), &mut ohlc);
    assert_eq!(trades, vec![Trade { price: 15, qty: 8, aggressor: 3 }]);
    assert_eq!(levels(&book, Side::Buy), vec![(14, vec![(3, 2)])]);
    assert_eq!(book.best_price(Side::Buy), Some(14));
    assert!(levels(&book, Side::Sell).is_empty());
}

#[test]
fn sell_trades_at_resting_buy_price() {
    let mut book = OrderBook::new();
    let mut ohlc = OhlcTracker::new();
    book.process_order(order(1, Side::Buy, 20, 2), &mut ohlc);
    let trades = book.process_order(order(2, Side::Sell, 18, 5), &mut ohlc);
    assert_eq!(trades, vec![Trade { price: 20, qty: 2, aggressor: 2 }]);
    assert_eq!(levels(&book, Side::Sell), vec![(18, vec![(3, 2)])]);
    assert!(levels(&book, Side::Buy).is_empty());
}

#[test]
fn zero_quantity_is_no_op() {
    let mut book = OrderBook::new();
    let mut ohlc = OhlcTracker::new();
    book.process_order(order(1, Side::Sell, 10, 3), &mut ohlc);
    let trades = book.process_order(order(2, Side::Buy, 10, 0), &mut ohlc);
    assert!(trades.is_empty());
    assert!(levels(&book, Side::Buy).is_empty());
    assert_eq!(levels(&book, Side::Sell), vec![(10, vec![(3, 1)])]);
    assert_eq!(ohlc.snapshot(), None);
}

#[test]
fn empty_state_queries() {
    let book = OrderBook::new();
    let ohlc = OhlcTracker::new();
    assert!(book.depth(Side::Buy).is_empty());
    assert!(book.depth(Side::Sell).is_empty());
    assert_eq!(book.best_price(Side::Buy), None);
    assert_eq!(book.best_price(Side::Sell), None);
    assert_eq!(ohlc.snapshot(), None);
}
