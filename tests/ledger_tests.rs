use trading_engine::engine::ExecutionReport;
use trading_engine::ledger::{Ledger, LedgerError, Portfolio, Position, PositionSide};
use trading_engine::market::{BookLevel, MarketEvent, MarketStats, OrderBookSnapshot, Trade};
use trading_engine::types::{ExecutionType, OrderId, OrderSide, OrderStatus, SCALE};

/// Whole currency units in value units (quantity unit times price unit).
fn money(x: i128) -> i128 {
    x * (SCALE as i128) * (SCALE as i128)
}

fn units(x: u64) -> u64 {
    x * SCALE
}

fn fill(side: OrderSide, quantity: u64, price: u64) -> ExecutionReport {
    ExecutionReport {
        execution_id: 1,
        order_id: OrderId::new(1),
        trade_id: Some(1),
        client_id: "client1".to_string(),
        symbol: "BTCUSDT".to_string(),
        side,
        execution_type: ExecutionType::Fill,
        order_status: OrderStatus::Filled,
        price: Some(price),
        last_price: Some(price),
        last_quantity: quantity,
        cumulative_quantity: quantity,
        leaves_quantity: 0,
        sequence: 1,
        timestamp: 0,
        latency_nanos: 0,
    }
}

#[test]
fn test_portfolio_calculation() {
    let initial_cash = money(100000);
    let mut portfolio = Portfolio::new("test_account".to_string(), initial_cash);
    portfolio.on_execution(&fill(OrderSide::Buy, SCALE / 10, units(50000)), 1).unwrap();
    let cost = initial_cash - portfolio.cash_balance;
    portfolio.on_mark_price(&"BTCUSDT".to_string(), units(55000)).unwrap();
    let summary = portfolio.summary().unwrap();
    let market_value = summary.total_equity - summary.cash_balance;

    assert_eq!(cost, money(5000));
    assert_eq!(portfolio.cash_balance, money(95000));
    assert_eq!(market_value, money(5500));
    assert_eq!(summary.unrealized_pnl, money(500));
    assert_eq!(summary.total_equity, money(100500));
}

#[test]
fn test_position_averaging() {
    let mut position = Position::new("BTCUSDT".to_string());
    let mut cash: i128 = 0;
    position.update_from_fill(&mut cash, OrderSide::Buy, SCALE / 10, units(50000), 0).unwrap();
    position.update_from_fill(&mut cash, OrderSide::Buy, SCALE / 5, units(52000), 0).unwrap();

    let total_quantity = position.quantity;
    let total_cost = -cash;
    let average = position.average_cost;
    let rounded = (average + (SCALE as i128) / 2) / (SCALE as i128);

    assert_eq!(total_quantity, (3 * SCALE / 10) as i128);
    assert_eq!(total_cost, money(15400));
    assert_eq!(rounded, 51333);
}

#[test]
fn trading_service_test_position_updates() {
    let mut position = Position::new("BTCUSDT".to_string());
    let mut cash: i128 = 0;

    position.update_from_fill(&mut cash, OrderSide::Buy, SCALE, units(50000), 0).unwrap();
    assert_eq!(position.quantity, SCALE as i128);
    assert_eq!(position.average_cost, units(50000) as i128);

    position.update_from_fill(&mut cash, OrderSide::Buy, SCALE, units(52000), 0).unwrap();
    assert_eq!(position.quantity, 2 * SCALE as i128);
    assert_eq!(position.average_cost, units(51000) as i128);

    position.update_from_fill(&mut cash, OrderSide::Sell, SCALE, units(53000), 0).unwrap();
    assert_eq!(position.quantity, SCALE as i128);
    assert_eq!(position.realized_pnl, money(2000));
}

#[test]
fn test_portfolio_creation() {
    let portfolio = Portfolio::new("test_account".to_string(), money(100000));
    let summary = portfolio.summary().unwrap();
    assert_eq!(summary.total_equity, money(100000));
    assert_eq!(summary.cash_balance, money(100000));
    assert_eq!(summary.positions_count, 0);
}

#[test]
fn position_reversal() {
    let mut portfolio = Portfolio::new("acct".to_string(), money(100000));
    portfolio.on_execution(&fill(OrderSide::Buy, SCALE, units(50000)), 1).unwrap();
    assert_eq!(portfolio.cash_balance, money(50000));
    assert_eq!(portfolio.positions[0].quantity, SCALE as i128);
    assert_eq!(portfolio.positions[0].average_cost, units(50000) as i128);

    portfolio.on_execution(&fill(OrderSide::Sell, 2 * SCALE, units(52000)), 2).unwrap();
    assert_eq!(portfolio.positions[0].realized_pnl, money(2000));
    assert_eq!(portfolio.positions[0].quantity, -(SCALE as i128));
    assert_eq!(portfolio.positions[0].average_cost, units(52000) as i128);
    assert_eq!(portfolio.cash_balance, money(154000));

    portfolio.on_mark_price(&"BTCUSDT".to_string(), units(51000)).unwrap();
    assert_eq!(portfolio.positions[0].unrealized_pnl, money(1000));
}

#[test]
fn closing_a_position_resets_cost() {
    let mut position = Position::new("X".to_string());
    let mut cash: i128 = 0;
    position.update_from_fill(&mut cash, OrderSide::Sell, 3, 10, 0).unwrap();
    position.update_from_fill(&mut cash, OrderSide::Buy, 3, 7, 0).unwrap();
    assert_eq!(position.quantity, 0);
    assert_eq!(position.average_cost, 0);
    assert_eq!(position.realized_pnl, 9);
    assert_eq!(cash, 9);
}

#[test]
fn marking_twice_changes_nothing_more() {
    let mut portfolio = Portfolio::new("acct".to_string(), money(10));
    portfolio.on_execution(&fill(OrderSide::Buy, 2, 40), 1).unwrap();
    portfolio.on_mark_price(&"BTCUSDT".to_string(), 45).unwrap();
    let once = (portfolio.positions[0].unrealized_pnl, portfolio.positions[0].mark_price, portfolio.positions[0].quantity);
    portfolio.on_mark_price(&"BTCUSDT".to_string(), 45).unwrap();
    let twice = (portfolio.positions[0].unrealized_pnl, portfolio.positions[0].mark_price, portfolio.positions[0].quantity);
    assert_eq!(once, twice);
    assert_eq!(once.0, 10);
}

#[test]
fn pnl_identity_on_a_history() {
    let cash0 = money(1000);
    let mut portfolio = Portfolio::new("acct".to_string(), cash0);
    portfolio.on_execution(&fill(OrderSide::Buy, 4, 100), 1).unwrap();
    portfolio.on_execution(&fill(OrderSide::Buy, 4, 110), 2).unwrap();
    portfolio.on_execution(&fill(OrderSide::Sell, 10, 120), 3).unwrap();
    portfolio.on_execution(&fill(OrderSide::Buy, 1, 90), 4).unwrap();
    let mark: u64 = 95;
    portfolio.on_mark_price(&"BTCUSDT".to_string(), mark).unwrap();
    let p = &portfolio.positions[0];
    let lhs = p.realized_pnl + p.unrealized_pnl;
    let rhs = (portfolio.cash_balance - cash0) + p.quantity * mark as i128;
    assert_eq!(lhs, rhs);
}

#[test]
fn reports_other_than_fills_change_nothing() {
    let mut portfolio = Portfolio::new("acct".to_string(), 500);
    let mut r = fill(OrderSide::Buy, 2, 40);
    r.execution_type = ExecutionType::New;
    portfolio.on_execution(&r, 1).unwrap();
    assert_eq!(portfolio.cash_balance, 500);
    assert!(portfolio.positions.is_empty());
}

#[test]
fn overflowing_fill_is_refused() {
    let mut position = Position::new("X".to_string());
    let mut cash: i128 = i128::MIN + 5;
    let r = position.update_from_fill(&mut cash, OrderSide::Buy, 2, 10, 0);
    assert!(r.is_err());
    assert_eq!(cash, i128::MIN + 5);
    assert_eq!(position.quantity, 0);
}

fn snapshot(bid: u64, ask: u64) -> MarketEvent {
    MarketEvent::BookSnapshot(OrderBookSnapshot {
        symbol: "BTCUSDT".to_string(),
        exchange: "binance".to_string(),
        bids: vec![BookLevel { price: bid, quantity: 1, order_count: 1 }],
        asks: vec![BookLevel { price: ask, quantity: 1, order_count: 1 }],
        timestamp: 5,
        sequence: 9,
        last_update_id: 1,
    })
}

#[test]
fn accounts_are_created_once() {
    let mut ledger = Ledger::new();
    assert_eq!(ledger.create_portfolio("a".to_string(), money(100000)), Ok(()));
    assert_eq!(ledger.create_portfolio("a".to_string(), money(5)), Err(LedgerError::AccountExists));
    let s = ledger.summary(&"a".to_string()).unwrap();
    assert_eq!(s.cash_balance, money(100000));
    assert_eq!(s.total_equity, money(100000));
    assert!(ledger.summary(&"b".to_string()).is_none());
}

#[test]
fn execution_for_unknown_account_is_refused() {
    let mut ledger = Ledger::new();
    let r = ledger.on_execution(&"nobody".to_string(), &fill(OrderSide::Buy, 1, 10), 0);
    assert_eq!(r, Err(LedgerError::UnknownAccount));
}

#[test]
fn market_events_mark_positions() {
    let mut ledger = Ledger::new();
    ledger.create_portfolio("a".to_string(), money(100000)).unwrap();
    ledger.on_execution(&"a".to_string(), &fill(OrderSide::Buy, SCALE, units(50000)), 1).unwrap();
    let trade = MarketEvent::Trade(Trade {
        symbol: "BTCUSDT".to_string(),
        exchange: "binance".to_string(),
        price: units(50000),
        quantity: SCALE,
        timestamp: 3,
        is_buyer_maker: false,
        sequence: 1,
    });
    assert_eq!(trade.mark_price(), Some(units(50000)));
    ledger.on_market_event(&snapshot(units(50100), units(50300))).unwrap();
    let s = ledger.summary(&"a".to_string()).unwrap();
    assert_eq!(s.unrealized_pnl, money(200));
    assert_eq!(s.total_equity, money(100200));
    assert_eq!(ledger.portfolios[0].positions[0].mark_price, Some(units(50200)));
}

#[test]
fn market_event_fields() {
    let stats = MarketEvent::Stats(MarketStats {
        symbol: "ETHUSDT".to_string(),
        open_price: 1,
        high_price: 2,
        low_price: 1,
        close_price: 2,
        volume: 10,
        quote_volume: 20,
        timestamp: 77,
        count: 3,
    });
    assert_eq!(stats.mark_price(), None);
    assert_eq!(stats.sequence(), None);
    assert_eq!(stats.timestamp(), 77);
    assert_eq!(stats.symbol(), "ETHUSDT");
    let snap = snapshot(101, 104);
    assert_eq!(snap.mark_price(), Some(102));
    assert_eq!(snap.sequence(), Some(9));
}

#[test]
fn portfolio_service_test_position_updates() {
    let mut ledger = Ledger::new();
    ledger.create_portfolio("test_account".to_string(), money(100000)).unwrap();
    let mut report = fill(OrderSide::Buy, SCALE, units(50000));
    report.latency_nanos = 5000;
    ledger.on_execution(&"test_account".to_string(), &report, 0).unwrap();
    let position = &ledger.portfolios[0].positions[0];
    assert_eq!(position.symbol, "BTCUSDT");
    assert_eq!(position.quantity, SCALE as i128);
    assert_eq!(position.side(), PositionSide::Long);
}
