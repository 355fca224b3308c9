//! Paper fills against the last traded price.

use vstd::prelude::*;

use crate::types::{Order, OrderSide, OrderStatus, OrderType};

verus! {

/// What a paper order got: how much filled, and at what price.
#[derive(Clone, Copy, Debug, PartialEq, Eq, Structural)]
pub struct FillResult {
    pub filled_quantity: u64,
    pub fill_price: u64,
}

/// Whether a paper order fills against the last traded price: a market order always;
/// a limit buy when the price is at or below its limit, a limit sell when at or above.
pub open spec fn paper_fills(o: Order, current: u64) -> bool {
    match o.order_type {
        OrderType::Market => true,
        OrderType::Limit => match o.price {
            Some(p) => match o.side {
                OrderSide::Buy => current <= p,
                OrderSide::Sell => current >= p,
            },
            None => false,
        },
    }
}

/// Fills a paper order against the last traded price `current_price`. A fill takes
/// all that is left, at the market price for a market order and at the limit for a
/// limit order, and leaves the order `Filled`; an order that does not fill is left
/// `Pending` and the result reports nothing filled at the market price.
pub fn attempt_fill(order: &mut Order, current_price: u64) -> (r: FillResult)
    requires
        old(order).filled_quantity <= old(order).quantity,
    ensures
        paper_fills(*old(order), current_price) ==> {
            &&& r.filled_quantity == old(order).remaining_spec()
            &&& r.fill_price == (match old(order).order_type {
                OrderType::Market => current_price,
                OrderType::Limit => match old(order).price {
                    Some(p) => p,
                    None => current_price,
                },
            })
            &&& *final(order) == (Order {
                filled_quantity: old(order).quantity,
                status: OrderStatus::Filled,
                ..*old(order)
            })
        },
        !paper_fills(*old(order), current_price) ==> {
            &&& r == (FillResult { filled_quantity: 0, fill_price: current_price })
            &&& *final(order) == (Order { status: OrderStatus::Pending, ..*old(order) })
        },
{
    let can_fill = match order.order_type {
        OrderType::Market => true,
        OrderType::Limit => match order.price {
            Some(p) => match order.side {
                OrderSide::Buy => current_price <= p,
                OrderSide::Sell => current_price >= p,
            },
            None => false,
        },
    };
    if can_fill {
        let fill_price = match order.order_type {
            OrderType::Market => current_price,
            OrderType::Limit => match order.price {
                Some(p) => p,
                None => current_price,
            },
        };
        let fill_quantity = order.quantity - order.filled_quantity;
        order.filled_quantity = order.quantity;
        order.status = OrderStatus::Filled;
        FillResult { filled_quantity: fill_quantity, fill_price }
    } else {
        order.status = OrderStatus::Pending;
        FillResult { filled_quantity: 0, fill_price: current_price }
    }
}

} // verus!
