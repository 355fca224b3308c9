use trading_engine::book::LockFreeMatchingAlgorithm;
use trading_engine::engine::{ExecutionReport, MatchingEngine};
use trading_engine::types::{ExecutionType, Order, OrderSide, OrderStatus, SCALE};

fn limit(engine: &mut MatchingEngine, side: OrderSide, price: u64, quantity: u64) -> Order {
    let id = engine.mint_order_id();
    Order::new_limit(id, "client".to_string(), "BTCUSDT".to_string(), side, price, quantity, 0)
}

fn market(engine: &mut MatchingEngine, side: OrderSide, quantity: u64) -> Order {
    let id = engine.mint_order_id();
    Order::new_market(id, "client".to_string(), "BTCUSDT".to_string(), side, quantity, 0)
}

fn depth(engine: &MatchingEngine) -> (Vec<(u64, u128)>, Vec<(u64, u128)>) {
    engine.get_depth(&"BTCUSDT".to_string(), 10)
}

#[test]
fn simple_limit_cross() {
    let mut engine = MatchingEngine::new(true);
    let sell = limit(&mut engine, OrderSide::Sell, 50000 * SCALE, SCALE);
    let reports = engine.submit_order(sell, 1);
    assert_eq!(reports.len(), 1);
    assert_eq!(reports[0].execution_type, ExecutionType::New);
    assert_eq!(reports[0].leaves_quantity, SCALE);

    let buy = limit(&mut engine, OrderSide::Buy, 50000 * SCALE, SCALE);
    let buy_id = buy.id;
    let reports = engine.submit_order(buy, 2);
    assert_eq!(reports.len(), 2);
    assert_eq!(reports[0].order_id, buy_id);
    assert_eq!(reports[0].execution_type, ExecutionType::Fill);
    assert_eq!(reports[1].execution_type, ExecutionType::Fill);
    for r in &reports {
        assert_eq!(r.last_price, Some(50000 * SCALE));
        assert_eq!(r.last_quantity, SCALE);
    }
    let book = &engine.books[0];
    assert_eq!(book.best_bid(), None);
    assert_eq!(book.best_ask(), None);
}

#[test]
fn price_time_priority_scenario() {
    let mut engine = MatchingEngine::new(true);
    let a = limit(&mut engine, OrderSide::Sell, 50000 * SCALE, SCALE / 2);
    let a_id = a.id;
    engine.submit_order(a, 1);
    let b = limit(&mut engine, OrderSide::Sell, 50000 * SCALE, SCALE / 2);
    let b_id = b.id;
    engine.submit_order(b, 2);
    let buy = limit(&mut engine, OrderSide::Buy, 50000 * SCALE, SCALE / 2);
    let reports = engine.submit_order(buy, 3);
    assert_eq!(reports.len(), 2);
    assert_eq!(reports[1].order_id, a_id);
    let (_, asks) = depth(&engine);
    assert_eq!(asks, vec![(50000 * SCALE, (SCALE / 2) as u128)]);
    assert!(engine.get_order(b_id).is_some());
    assert!(engine.get_order(a_id).is_none());
}

#[test]
fn walking_the_book() {
    let mut engine = MatchingEngine::new(true);
    for p in [100u64, 101, 102] {
        let o = limit(&mut engine, OrderSide::Sell, p * SCALE, SCALE);
        engine.submit_order(o, 1);
    }
    let buy = limit(&mut engine, OrderSide::Buy, 101 * SCALE, 5 * SCALE / 2);
    let reports = engine.submit_order(buy, 2);
    let taker_fills: Vec<&ExecutionReport> = reports.iter().step_by(2).collect();
    assert_eq!(reports.len(), 4);
    assert_eq!(taker_fills[0].last_price, Some(100 * SCALE));
    assert_eq!(taker_fills[0].last_quantity, SCALE);
    assert_eq!(taker_fills[1].last_price, Some(101 * SCALE));
    assert_eq!(taker_fills[1].last_quantity, SCALE);
    assert_eq!(taker_fills[1].execution_type, ExecutionType::PartialFill);
    assert_eq!(taker_fills[1].leaves_quantity, SCALE / 2);
    let book = &engine.books[0];
    assert_eq!(book.best_bid(), Some(101 * SCALE));
    assert_eq!(book.best_ask(), Some(102 * SCALE));
    let (bids, _) = depth(&engine);
    assert_eq!(bids, vec![(101 * SCALE, (SCALE / 2) as u128)]);
}

#[test]
fn market_order_into_empty_side() {
    let mut engine = MatchingEngine::new(true);
    let buy = market(&mut engine, OrderSide::Buy, SCALE);
    let reports = engine.submit_order(buy, 1);
    assert_eq!(reports.len(), 1);
    assert_eq!(reports[0].execution_type, ExecutionType::Rejected);
    assert_eq!(reports[0].order_status, OrderStatus::Rejected);
    assert_eq!(reports[0].cumulative_quantity, 0);
    assert_eq!(reports[0].leaves_quantity, SCALE);
    let (bids, asks) = depth(&engine);
    assert!(bids.is_empty() && asks.is_empty());
}

#[test]
fn market_remainder_is_rejected_after_fills() {
    let mut engine = MatchingEngine::new(true);
    let sell = limit(&mut engine, OrderSide::Sell, 100, 3);
    engine.submit_order(sell, 1);
    let buy = market(&mut engine, OrderSide::Buy, 5);
    let reports = engine.submit_order(buy, 2);
    assert_eq!(reports.len(), 3);
    assert_eq!(reports[0].execution_type, ExecutionType::PartialFill);
    assert_eq!(reports[1].execution_type, ExecutionType::Fill);
    assert_eq!(reports[2].execution_type, ExecutionType::Rejected);
    assert_eq!(reports[2].cumulative_quantity, 3);
    assert_eq!(reports[2].leaves_quantity, 2);
    let (bids, asks) = depth(&engine);
    assert!(bids.is_empty() && asks.is_empty());
}

#[test]
fn cancel_during_partial_fill() {
    let mut engine = MatchingEngine::new(true);
    let sell = limit(&mut engine, OrderSide::Sell, 50000 * SCALE, 2 * SCALE);
    let sell_id = sell.id;
    engine.submit_order(sell, 1);
    let buy = limit(&mut engine, OrderSide::Buy, 50000 * SCALE, SCALE);
    engine.submit_order(buy, 2);
    let report = engine.cancel_order(sell_id, 3).unwrap();
    assert_eq!(report.execution_type, ExecutionType::Cancelled);
    assert_eq!(report.order_status, OrderStatus::Cancelled);
    assert_eq!(report.cumulative_quantity, SCALE);
    // what left the book when it was cancelled
    assert_eq!(report.leaves_quantity, SCALE);
    let (bids, asks) = depth(&engine);
    assert!(bids.is_empty() && asks.is_empty());
}

#[test]
fn submit_then_cancel_restores_the_book() {
    let mut engine = MatchingEngine::new(true);
    let other = limit(&mut engine, OrderSide::Buy, 90, 4);
    engine.submit_order(other, 1);
    let before = depth(&engine);
    let o = limit(&mut engine, OrderSide::Buy, 95, 7);
    let id = o.id;
    engine.submit_order(o, 2);
    let report = engine.cancel_order(id, 3).unwrap();
    assert_eq!(report.leaves_quantity, 7);
    assert_eq!(report.cumulative_quantity, 0);
    assert_eq!(depth(&engine), before);
}

#[test]
fn cancel_of_filled_order_is_none() {
    let mut engine = MatchingEngine::new(true);
    let sell = limit(&mut engine, OrderSide::Sell, 100, 5);
    let sell_id = sell.id;
    engine.submit_order(sell, 1);
    let buy = limit(&mut engine, OrderSide::Buy, 100, 5);
    let buy_id = buy.id;
    engine.submit_order(buy, 2);
    assert!(engine.cancel_order(sell_id, 3).is_none());
    assert!(engine.cancel_order(buy_id, 3).is_none());
}

#[test]
fn equal_quantities_report_both_filled() {
    let mut engine = MatchingEngine::new(true);
    let sell = limit(&mut engine, OrderSide::Sell, 100, 5);
    engine.submit_order(sell, 1);
    let buy = limit(&mut engine, OrderSide::Buy, 100, 5);
    let reports = engine.submit_order(buy, 2);
    assert_eq!(reports.len(), 2);
    assert_eq!(reports[0].order_status, OrderStatus::Filled);
    assert_eq!(reports[1].order_status, OrderStatus::Filled);
    let (_, asks) = depth(&engine);
    assert!(asks.is_empty());
}

#[test]
fn taker_reports_add_up_to_its_fill() {
    let mut engine = MatchingEngine::new(true);
    for (p, q) in [(100u64, 2u64), (101, 3), (103, 4)] {
        let o = limit(&mut engine, OrderSide::Sell, p, q);
        engine.submit_order(o, 1);
    }
    let buy = limit(&mut engine, OrderSide::Buy, 103, 8);
    let buy_id = buy.id;
    let reports = engine.submit_order(buy, 2);
    let total: u64 = reports.iter().filter(|r| r.order_id == buy_id).map(|r| r.last_quantity).sum();
    let last = reports.iter().filter(|r| r.order_id == buy_id).last().unwrap();
    assert_eq!(total, 8);
    assert_eq!(last.cumulative_quantity, 8);
    for r in reports.iter().filter(|r| r.order_id == buy_id) {
        assert_eq!(r.cumulative_quantity + r.leaves_quantity, 8);
    }
}

#[test]
fn invalid_orders_are_rejected_without_change() {
    let mut engine = MatchingEngine::new(true);
    let zero_qty = limit(&mut engine, OrderSide::Buy, 100, 0);
    let r = engine.submit_order(zero_qty, 1);
    assert_eq!(r.len(), 1);
    assert_eq!(r[0].execution_type, ExecutionType::Rejected);
    let zero_price = limit(&mut engine, OrderSide::Buy, 0, 5);
    let r = engine.submit_order(zero_price, 1);
    assert_eq!(r[0].execution_type, ExecutionType::Rejected);
    assert!(engine.books.is_empty());
}

#[test]
fn duplicate_order_id_is_rejected() {
    let mut engine = MatchingEngine::new(true);
    let o = limit(&mut engine, OrderSide::Buy, 100, 5);
    let again = o.duplicate();
    engine.submit_order(o, 1);
    let r = engine.submit_order(again, 2);
    assert_eq!(r.len(), 1);
    assert_eq!(r[0].execution_type, ExecutionType::Rejected);
    let (bids, _) = depth(&engine);
    assert_eq!(bids, vec![(100, 5)]);
}

#[test]
fn unknown_symbol_is_rejected_without_auto_create() {
    let mut engine = MatchingEngine::new(false);
    let o = limit(&mut engine, OrderSide::Buy, 100, 5);
    let r = engine.submit_order(o, 1);
    assert_eq!(r[0].execution_type, ExecutionType::Rejected);
    assert!(engine.books.is_empty());
}

#[test]
fn book_never_stays_crossed() {
    let mut engine = MatchingEngine::new(true);
    let prices: [(OrderSide, u64, u64); 8] = [
        (OrderSide::Sell, 105, 3),
        (OrderSide::Buy, 100, 2),
        (OrderSide::Sell, 103, 1),
        (OrderSide::Buy, 104, 2),
        (OrderSide::Buy, 106, 1),
        (OrderSide::Sell, 99, 5),
        (OrderSide::Buy, 101, 4),
        (OrderSide::Sell, 102, 2),
    ];
    for (side, price, qty) in prices {
        let o = limit(&mut engine, side, price, qty);
        engine.submit_order(o, 1);
        let book = &engine.books[0];
        if let (Some(bid), Some(ask)) = (book.best_bid(), book.best_ask()) {
            assert!(bid < ask);
        }
    }
}

#[test]
fn counters_follow_commands() {
    let mut engine = MatchingEngine::new(true);
    let o = limit(&mut engine, OrderSide::Buy, 100, 5);
    let id = o.id;
    engine.submit_order(o, 1);
    let bad = limit(&mut engine, OrderSide::Buy, 100, 0);
    engine.submit_order(bad, 1);
    engine.cancel_order(id, 2);
    assert_eq!(engine.metrics.orders_processed, 1);
    assert_eq!(engine.metrics.orders_rejected, 1);
    assert_eq!(engine.metrics.orders_cancelled, 1);
}

#[test]
fn preview_matches_leave_the_book_alone() {
    let mut engine = MatchingEngine::new(true);
    let a = limit(&mut engine, OrderSide::Sell, 100, 2);
    let a_id = a.id;
    engine.submit_order(a, 1);
    let b = limit(&mut engine, OrderSide::Sell, 101, 2);
    let b_id = b.id;
    engine.submit_order(b, 1);
    let probe = limit(&mut engine, OrderSide::Buy, 101, 3);
    let book = &engine.books[0];
    let preview = LockFreeMatchingAlgorithm::find_best_matches(&probe, &book.bids, &book.asks);
    assert_eq!(preview, vec![(a_id, 100, 2), (b_id, 101, 1)]);
    assert_eq!(depth(&engine).1, vec![(100, 2), (101, 2)]);
}
