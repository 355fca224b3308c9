//! Market-data events, as the ledger reads them.

use vstd::prelude::*;

use crate::types::TickSide;

verus! {

pub struct MarketTick {
    pub symbol: String,
    pub exchange: String,
    pub price: u64,
    pub quantity: u64,
    pub side: TickSide,
    pub timestamp: u64,
    pub sequence: u64,
}

pub struct BookLevel {
    pub price: u64,
    pub quantity: u64,
    pub order_count: u32,
}

/// Levels of an outside book, best first on each side.
pub struct OrderBookSnapshot {
    pub symbol: String,
    pub exchange: String,
    pub bids: Vec<BookLevel>,
    pub asks: Vec<BookLevel>,
    pub timestamp: u64,
    pub sequence: u64,
    pub last_update_id: u64,
}

pub struct Trade {
    pub symbol: String,
    pub exchange: String,
    pub price: u64,
    pub quantity: u64,
    pub timestamp: u64,
    pub is_buyer_maker: bool,
    pub sequence: u64,
}

pub struct MarketStats {
    pub symbol: String,
    pub open_price: u64,
    pub high_price: u64,
    pub low_price: u64,
    pub close_price: u64,
    pub volume: u64,
    pub quote_volume: u64,
    pub timestamp: u64,
    pub count: u64,
}

/// One message of the market-data stream.
pub enum MarketEvent {
    Tick(MarketTick),
    BookSnapshot(OrderBookSnapshot),
    Trade(Trade),
    Stats(MarketStats),
}

impl MarketEvent {
    pub open spec fn symbol_spec(&self) -> Seq<char> {
        match self {
            MarketEvent::Tick(t) => t.symbol@,
            MarketEvent::BookSnapshot(s) => s.symbol@,
            MarketEvent::Trade(t) => t.symbol@,
            MarketEvent::Stats(s) => s.symbol@,
        }
    }

    /// The price a position in this symbol is marked at on this event: a trade's
    /// price, or the midpoint (rounded down to a unit) of a snapshot's best bid and
    /// best ask when it has both; other events mark nothing.
    pub open spec fn mark_spec(&self) -> Option<u64> {
        match self {
            MarketEvent::Trade(t) => Some(t.price),
            MarketEvent::BookSnapshot(s) => if s.bids@.len() > 0 && s.asks@.len() > 0 {
                Some(((s.bids@[0].price + s.asks@[0].price) / 2) as u64)
            } else {
                None
            },
            _ => None,
        }
    }

    pub fn symbol(&self) -> (r: &String)
        ensures
            r@ == self.symbol_spec(),
    {
        match self {
            MarketEvent::Tick(t) => &t.symbol,
            MarketEvent::BookSnapshot(s) => &s.symbol,
            MarketEvent::Trade(t) => &t.symbol,
            MarketEvent::Stats(s) => &s.symbol,
        }
    }

    pub fn timestamp(&self) -> (r: u64)
        ensures
            r == match self {
                MarketEvent::Tick(t) => t.timestamp,
                MarketEvent::BookSnapshot(s) => s.timestamp,
                MarketEvent::Trade(t) => t.timestamp,
                MarketEvent::Stats(s) => s.timestamp,
            },
    {
        match self {
            MarketEvent::Tick(t) => t.timestamp,
            MarketEvent::BookSnapshot(s) => s.timestamp,
            MarketEvent::Trade(t) => t.timestamp,
            MarketEvent::Stats(s) => s.timestamp,
        }
    }

    /// The stream sequence number; statistics carry none.
    pub fn sequence(&self) -> (r: Option<u64>)
        ensures
            r == match self {
                MarketEvent::Tick(t) => Some(t.sequence),
                MarketEvent::BookSnapshot(s) => Some(s.sequence),
                MarketEvent::Trade(t) => Some(t.sequence),
                MarketEvent::Stats(_) => None,
            },
    {
        match self {
            MarketEvent::Tick(t) => Some(t.sequence),
            MarketEvent::BookSnapshot(s) => Some(s.sequence),
            MarketEvent::Trade(t) => Some(t.sequence),
            MarketEvent::Stats(_) => None,
        }
    }

    pub fn mark_price(&self) -> (r: Option<u64>)
        ensures
            r == self.mark_spec(),
    {
        match self {
            MarketEvent::Trade(t) => Some(t.price),
            MarketEvent::BookSnapshot(s) => {
                if s.bids.len() > 0 && s.asks.len() > 0 {
                    let sum = s.bids[0].price as u128 + s.asks[0].price as u128;
                    Some((sum / 2) as u64)
                } else {
                    None
                }
            },
            _ => None,
        }
    }
}

} // verus!
