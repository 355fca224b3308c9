use trading_engine::book::OrderBook;
use trading_engine::types::{Order, OrderId, OrderSide, SCALE};

fn limit(id: u64, side: OrderSide, price: u64, quantity: u64) -> Order {
    Order::new_limit(
        OrderId::new(id),
        "client".to_string(),
        "BTCUSDT".to_string(),
        side,
        price,
        quantity,
        0,
    )
}

#[test]
fn test_add_and_match_orders() {
    let mut book = OrderBook::new("BTCUSDT".to_string());

    let sell_order = limit(1, OrderSide::Sell, 50000 * SCALE, SCALE);
    book.add_order(sell_order, 0);

    assert_eq!(book.best_ask(), Some(50000 * SCALE));
    assert_eq!(book.order_count(), 1);

    let buy_order = limit(2, OrderSide::Buy, 50000 * SCALE, SCALE / 2);
    let (_, trades) = book.add_order(buy_order, 0);

    assert_eq!(trades.len(), 1);
    assert_eq!(trades[0].quantity, SCALE / 2);
    assert_eq!(book.order_count(), 1);
}

#[test]
fn test_cancel_order() {
    let mut book = OrderBook::new("BTCUSDT".to_string());

    let order = limit(1, OrderSide::Buy, 50000 * SCALE, SCALE);
    let order_id = order.id;
    book.add_order(order, 0);

    assert_eq!(book.order_count(), 1);

    let cancelled = book.cancel_order(order_id);
    assert!(cancelled.is_some());
    assert_eq!(book.order_count(), 0);
}

#[test]
fn test_price_time_priority() {
    let mut book = OrderBook::new("BTCUSDT".to_string());

    let sell1 = limit(1, OrderSide::Sell, 50000 * SCALE, SCALE / 2);
    let sell1_id = sell1.id;
    book.add_order(sell1, 0);

    let sell2 = limit(2, OrderSide::Sell, 50000 * SCALE, SCALE / 2);
    book.add_order(sell2, 0);

    let buy = limit(3, OrderSide::Buy, 50000 * SCALE, SCALE / 2);
    let (_, trades) = book.add_order(buy, 0);

    assert_eq!(trades.len(), 1);
    assert_eq!(trades[0].maker_order_id, sell1_id);
}

#[test]
fn test_spread_calculation() {
    let mut book = OrderBook::new("BTCUSDT".to_string());
    book.add_order(limit(1, OrderSide::Buy, 50000 * SCALE, SCALE), 0);
    book.add_order(limit(2, OrderSide::Sell, 50050 * SCALE, SCALE), 0);

    let spread = book.spread().unwrap();
    let mid = book.mid_price().unwrap();

    assert_eq!(spread, 50 * SCALE);
    assert_eq!(mid, 50025 * SCALE);
}

#[test]
fn empty_book_has_no_spread_or_mid() {
    let book = OrderBook::new("BTCUSDT".to_string());
    assert_eq!(book.best_bid(), None);
    assert_eq!(book.best_ask(), None);
    assert_eq!(book.spread(), None);
    assert_eq!(book.mid_price(), None);
}

#[test]
fn mid_price_rounds_down_to_a_unit() {
    let mut book = OrderBook::new("BTCUSDT".to_string());
    book.add_order(limit(1, OrderSide::Buy, 100, SCALE), 0);
    book.add_order(limit(2, OrderSide::Sell, 103, SCALE), 0);
    assert_eq!(book.mid_price(), Some(101));
    assert_eq!(book.spread(), Some(3));
}

#[test]
fn trades_happen_at_the_resting_price() {
    let mut book = OrderBook::new("BTCUSDT".to_string());
    book.add_order(limit(1, OrderSide::Sell, 100 * SCALE, SCALE), 0);
    let (taker, trades) = book.add_order(limit(2, OrderSide::Buy, 105 * SCALE, SCALE), 0);
    assert_eq!(trades.len(), 1);
    assert_eq!(trades[0].price, 100 * SCALE);
    assert_eq!(trades[0].maker.price, Some(100 * SCALE));
    assert_eq!(taker.filled_quantity, SCALE);
}

#[test]
fn depth_lists_levels_best_first_with_totals() {
    let mut book = OrderBook::new("BTCUSDT".to_string());
    book.add_order(limit(1, OrderSide::Buy, 99, 5), 0);
    book.add_order(limit(2, OrderSide::Buy, 100, 3), 0);
    book.add_order(limit(3, OrderSide::Buy, 100, 4), 0);
    book.add_order(limit(4, OrderSide::Sell, 102, 6), 0);
    book.add_order(limit(5, OrderSide::Sell, 101, 2), 0);
    let (bids, asks) = book.get_depth(1);
    assert_eq!(bids, vec![(100, 7)]);
    assert_eq!(asks, vec![(101, 2)]);
    let (bids, asks) = book.get_depth(10);
    assert_eq!(bids, vec![(100, 7), (99, 5)]);
    assert_eq!(asks, vec![(101, 2), (102, 6)]);
}

#[test]
fn cancel_of_unknown_order_changes_nothing() {
    let mut book = OrderBook::new("BTCUSDT".to_string());
    book.add_order(limit(1, OrderSide::Buy, 99, 5), 0);
    assert!(book.cancel_order(OrderId::new(42)).is_none());
    assert_eq!(book.order_count(), 1);
}

#[test]
fn equal_quantities_fill_both_and_remove_the_level() {
    let mut book = OrderBook::new("BTCUSDT".to_string());
    book.add_order(limit(1, OrderSide::Sell, 100, 7), 0);
    let (taker, trades) = book.add_order(limit(2, OrderSide::Buy, 100, 7), 0);
    assert_eq!(taker.status, trading_engine::types::OrderStatus::Filled);
    assert_eq!(trades[0].maker.status, trading_engine::types::OrderStatus::Filled);
    assert_eq!(book.best_ask(), None);
    assert_eq!(book.order_count(), 0);
}

#[test]
fn sequence_counts_trades_rests_and_cancels() {
    let mut book = OrderBook::new("BTCUSDT".to_string());
    book.add_order(limit(1, OrderSide::Sell, 100, 2), 0);
    book.add_order(limit(2, OrderSide::Sell, 101, 2), 0);
    assert_eq!(book.sequence, 2);
    let (_, trades) = book.add_order(limit(3, OrderSide::Buy, 101, 5), 0);
    assert_eq!(trades.iter().map(|t| t.trade_id).collect::<Vec<u64>>(), vec![3, 4]);
    assert_eq!(book.sequence, 5);
    book.cancel_order(OrderId::new(3));
    assert_eq!(book.sequence, 6);
    book.cancel_order(OrderId::new(3));
    assert_eq!(book.sequence, 6);
}
