//! Event counters.

use vstd::prelude::*;

verus! {

/// Event counters of the engine. Each increment hands back the count before it and
/// wraps at the largest `u64`.
pub struct AtomicMetrics {
    pub orders_processed: u64,
    pub orders_matched: u64,
    pub orders_cancelled: u64,
    pub orders_rejected: u64,
    pub messages_received: u64,
    pub messages_sent: u64,
    pub market_data_events: u64,
    pub websocket_reconnects: u64,
    pub last_reset: u64,
}

/// The counters at one moment.
#[derive(Clone, Copy, Debug, PartialEq, Eq, Structural)]
pub struct MetricsSnapshot {
    pub orders_processed: u64,
    pub orders_matched: u64,
    pub orders_cancelled: u64,
    pub orders_rejected: u64,
    pub messages_received: u64,
    pub messages_sent: u64,
    pub market_data_events: u64,
    pub websocket_reconnects: u64,
    pub timestamp: u64,
}

fn bump(c: &mut u64) -> (r: u64)
    ensures
        r == *old(c),
        *final(c) == old(c).wrapping_add(1),
{
    let r = *c;
    *c = c.wrapping_add(1);
    r
}

impl AtomicMetrics {
    /// All counters zero, reset at `now`.
    pub fn new(now: u64) -> (r: AtomicMetrics)
        ensures
            r.orders_processed == 0 && r.orders_matched == 0 && r.orders_cancelled == 0 && r.orders_rejected == 0,
            r.messages_received == 0 && r.messages_sent == 0 && r.market_data_events == 0 && r.websocket_reconnects == 0,
            r.last_reset == now,
    {
        AtomicMetrics {
            orders_processed: 0,
            orders_matched: 0,
            orders_cancelled: 0,
            orders_rejected: 0,
            messages_received: 0,
            messages_sent: 0,
            market_data_events: 0,
            websocket_reconnects: 0,
            last_reset: now,
        }
    }

    pub fn increment_orders_processed(&mut self) -> (r: u64)
        ensures
            r == old(self).orders_processed,
            *final(self) == (AtomicMetrics { orders_processed: old(self).orders_processed.wrapping_add(1), ..*old(self) }),
    {
        bump(&mut self.orders_processed)
    }

    pub fn increment_orders_matched(&mut self) -> (r: u64)
        ensures
            r == old(self).orders_matched,
            *final(self) == (AtomicMetrics { orders_matched: old(self).orders_matched.wrapping_add(1), ..*old(self) }),
    {
        bump(&mut self.orders_matched)
    }

    pub fn increment_orders_cancelled(&mut self) -> (r: u64)
        ensures
            r == old(self).orders_cancelled,
            *final(self) == (AtomicMetrics { orders_cancelled: old(self).orders_cancelled.wrapping_add(1), ..*old(self) }),
    {
        bump(&mut self.orders_cancelled)
    }

    pub fn increment_orders_rejected(&mut self) -> (r: u64)
        ensures
            r == old(self).orders_rejected,
            *final(self) == (AtomicMetrics { orders_rejected: old(self).orders_rejected.wrapping_add(1), ..*old(self) }),
    {
        bump(&mut self.orders_rejected)
    }

    pub fn increment_messages_received(&mut self) -> (r: u64)
        ensures
            r == old(self).messages_received,
            *final(self) == (AtomicMetrics { messages_received: old(self).messages_received.wrapping_add(1), ..*old(self) }),
    {
        bump(&mut self.messages_received)
    }

    pub fn increment_messages_sent(&mut self) -> (r: u64)
        ensures
            r == old(self).messages_sent,
            *final(self) == (AtomicMetrics { messages_sent: old(self).messages_sent.wrapping_add(1), ..*old(self) }),
    {
        bump(&mut self.messages_sent)
    }

    pub fn increment_market_data_events(&mut self) -> (r: u64)
        ensures
            r == old(self).market_data_events,
            *final(self) == (AtomicMetrics { market_data_events: old(self).market_data_events.wrapping_add(1), ..*old(self) }),
    {
        bump(&mut self.market_data_events)
    }

    pub fn increment_websocket_reconnects(&mut self) -> (r: u64)
        ensures
            r == old(self).websocket_reconnects,
            *final(self) == (AtomicMetrics { websocket_reconnects: old(self).websocket_reconnects.wrapping_add(1), ..*old(self) }),
    {
        bump(&mut self.websocket_reconnects)
    }

    /// The counters, stamped `now`.
    pub fn get_snapshot(&self, now: u64) -> (r: MetricsSnapshot)
        ensures
            r == (MetricsSnapshot {
                orders_processed: self.orders_processed,
                orders_matched: self.orders_matched,
                orders_cancelled: self.orders_cancelled,
                orders_rejected: self.orders_rejected,
                messages_received: self.messages_received,
                messages_sent: self.messages_sent,
                market_data_events: self.market_data_events,
                websocket_reconnects: self.websocket_reconnects,
                timestamp: now,
            }),
    {
        MetricsSnapshot {
            orders_processed: self.orders_processed,
            orders_matched: self.orders_matched,
            orders_cancelled: self.orders_cancelled,
            orders_rejected: self.orders_rejected,
            messages_received: self.messages_received,
            messages_sent: self.messages_sent,
            market_data_events: self.market_data_events,
            websocket_reconnects: self.websocket_reconnects,
            timestamp: now,
        }
    }

    /// Sets every counter to zero and records `now` as the reset time.
    pub fn reset(&mut self, now: u64)
        ensures
            *final(self) == AtomicMetrics::new_spec(now),
    {
        *self = AtomicMetrics::new(now);
    }

    pub open spec fn new_spec(now: u64) -> AtomicMetrics {
        AtomicMetrics {
            orders_processed: 0,
            orders_matched: 0,
            orders_cancelled: 0,
            orders_rejected: 0,
            messages_received: 0,
            messages_sent: 0,
            market_data_events: 0,
            websocket_reconnects: 0,
            last_reset: now,
        }
    }
}

} // verus!
