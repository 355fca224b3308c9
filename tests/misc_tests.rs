use trading_engine::connector::ConnectionConfig;
use trading_engine::latency::LatencyTracker;
use trading_engine::metrics::AtomicMetrics;
use trading_engine::sparse_vector::SparseVector;
use trading_engine::paper::{attempt_fill, FillResult};
use trading_engine::types::{units_from_decimal, Order, OrderId, OrderSide, OrderStatus, Symbol};

#[test]
fn test_connection_config() {
    let config = ConnectionConfig::default();
    assert_eq!(config.exchange_name, "unknown");
    assert!(config.testnet);
    assert_eq!(config.rate_limit_requests_per_second, 10);
}

#[test]
fn test_latency_tracker() {
    let mut tracker = LatencyTracker::new(1000);

    tracker.record_latency(1000);
    tracker.record_latency(2000);
    tracker.record_latency(3000);

    let dist = tracker.get_distribution();
    assert_eq!(dist.sample_count, 3);
    assert_eq!(dist.min, 1000);
    assert_eq!(dist.max, 3000);
}

#[test]
fn latency_window_drops_oldest_and_quantiles() {
    let mut tracker = LatencyTracker::new(4);
    for x in [50u64, 10, 40, 30, 20] {
        tracker.record_latency(x);
    }
    let dist = tracker.get_distribution();
    assert_eq!(dist.sample_count, 4);
    assert_eq!(dist.min, 10);
    assert_eq!(dist.max, 40);
    assert_eq!(dist.mean, 25);
    assert_eq!(dist.p50, 30);
    assert_eq!(dist.p95, 40);
    tracker.reset();
    let empty = tracker.get_distribution();
    assert_eq!(empty.sample_count, 0);
    assert_eq!(empty.min, u64::MAX);
}

#[test]
fn test_sparse_vector_basic() {
    let mut sparse = SparseVector::new(100);
    assert!(sparse.set(10, "test".to_string()).is_ok());
    assert_eq!(sparse.get(10), Some(&"test".to_string()));
}

#[test]
fn sparse_vector_bounds_and_default() {
    let mut sparse = SparseVector::with_default(5, 7u32);
    assert!(sparse.set(5, 1).is_err());
    assert_eq!(sparse.set(2, 9), Ok(None));
    assert_eq!(sparse.set(2, 8), Ok(Some(9)));
    assert_eq!(sparse.get(2), Some(&8));
    assert_eq!(sparse.get(3), Some(&7));
    assert_eq!(sparse.get(9), None);
    assert_eq!(sparse.len(), 5);
    assert!(!sparse.is_empty());
    assert_eq!(sparse.capacity(), 5);
}

#[test]
fn counters_return_previous_value() {
    let mut m = AtomicMetrics::new(0);
    assert_eq!(m.increment_orders_processed(), 0);
    assert_eq!(m.increment_orders_processed(), 1);
    assert_eq!(m.increment_orders_rejected(), 0);
    let s = m.get_snapshot(9);
    assert_eq!(s.orders_processed, 2);
    assert_eq!(s.orders_rejected, 1);
    assert_eq!(s.timestamp, 9);
    m.reset(10);
    assert_eq!(m.get_snapshot(11).orders_processed, 0);
}

#[test]
fn side_names() {
    assert_eq!(OrderSide::Buy.to_string(), "BUY");
    assert_eq!(OrderSide::Sell.to_string(), "SELL");
    assert_eq!(Symbol::new("ETHUSDT".to_string()).0, "ETHUSDT");
}

#[test]
fn paper_fills_follow_the_last_price() {
    let mut market = Order::new_market(OrderId::new(1), "c".to_string(), "BTCUSDT".to_string(), OrderSide::Buy, 5, 0);
    let r = attempt_fill(&mut market, 50000);
    assert_eq!(r, FillResult { filled_quantity: 5, fill_price: 50000 });
    assert_eq!(market.status, OrderStatus::Filled);

    let mut buy = Order::new_limit(OrderId::new(2), "c".to_string(), "BTCUSDT".to_string(), OrderSide::Buy, 49000, 3, 0);
    let r = attempt_fill(&mut buy, 50000);
    assert_eq!(r, FillResult { filled_quantity: 0, fill_price: 50000 });
    assert_eq!(buy.status, OrderStatus::Pending);
    let r = attempt_fill(&mut buy, 48000);
    assert_eq!(r, FillResult { filled_quantity: 3, fill_price: 49000 });
    assert_eq!(buy.filled_quantity, 3);
}

#[test]
fn decimals_convert_to_units() {
    assert_eq!(units_from_decimal(5, 1), Some(50_000_000));
    assert_eq!(units_from_decimal(50000, 0), Some(5_000_000_000_000));
    assert_eq!(units_from_decimal(123, 8), Some(123));
    assert_eq!(units_from_decimal(1, 9), None);
    assert_eq!(units_from_decimal(-1, 0), None);
    assert_eq!(units_from_decimal(184_467_440_737, 0), Some(18_446_744_073_700_000_000));
    assert_eq!(units_from_decimal(184_467_440_738, 0), None);
    assert_eq!(units_from_decimal(i128::MAX, 8), None);
}
