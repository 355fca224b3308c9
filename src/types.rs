//! Orders and their vocabulary. Prices and quantities are fixed-point decimals held
//! as `u64` counts of `1 / SCALE`.

use vstd::prelude::*;

verus! {

/// Units per whole number: every price and quantity is a fixed-point decimal with
/// eight places, held as a count of `1 / SCALE` units.
pub const SCALE: u64 = 100_000_000;

pub open spec fn pow10(n: nat) -> int
    decreases n,
{
    if n == 0 {
        1
    } else {
        10 * pow10((n - 1) as nat)
    }
}

/// Units for the decimal `mantissa * 10^-scale`, when it is non-negative, has at most
/// eight places, and fits.
pub open spec fn units_spec(mantissa: i128, scale: u32) -> Option<u64> {
    if 0 <= mantissa && scale <= 8 && mantissa * pow10((8 - scale) as nat) <= u64::MAX {
        Some((mantissa * pow10((8 - scale) as nat)) as u64)
    } else {
        None
    }
}

proof fn lemma_pow10_grows(m: int, j: nat, k: nat)
    requires
        m >= 0,
        j <= k,
    ensures
        m * pow10(j) <= m * pow10(k),
        pow10(j) >= 1,
    decreases k,
{
    if k > j {
        lemma_pow10_grows(m, j, (k - 1) as nat);
        assert(m * pow10(k) == 10 * (m * pow10((k - 1) as nat))) by (nonlinear_arith)
            requires
                pow10(k) == 10 * pow10((k - 1) as nat),
        ;
    } else if j > 0 {
        lemma_pow10_grows(m, (j - 1) as nat, (j - 1) as nat);
    }
}

/// Converts a decimal given as mantissa and scale (value `mantissa * 10^-scale`) to
/// units of `1 / SCALE`: `None` when it is negative, has more than eight places, or
/// does not fit.
pub fn units_from_decimal(mantissa: i128, scale: u32) -> (r: Option<u64>)
    ensures
        r == units_spec(mantissa, scale),
{
    if mantissa < 0 || scale > 8 {
        return None;
    }
    let n: u32 = 8 - scale;
    let mut v: u128 = mantissa as u128;
    proof {
        lemma_pow10_grows(mantissa as int, 0, n as nat);
    }
    if v > u64::MAX as u128 {
        return None;
    }
    let mut k: u32 = 0;
    while k < n
        invariant
            k <= n,
            n == 8 - scale,
            v as int == mantissa * pow10(k as nat),
            v <= u64::MAX,
            mantissa >= 0,
        decreases n - k,
    {
        assert(pow10((k + 1) as nat) == 10 * pow10(k as nat));
        assert(mantissa * pow10((k + 1) as nat) == 10 * (mantissa * pow10(k as nat))) by (nonlinear_arith)
            requires
                pow10((k + 1) as nat) == 10 * pow10(k as nat),
        ;
        v = v * 10;
        k = k + 1;
        if v > u64::MAX as u128 {
            proof {
                lemma_pow10_grows(mantissa as int, k as nat, n as nat);
            }
            return None;
        }
    }
    Some(v as u64)
}

/// Process-monotonic identifier of an order, minted by the engine.
#[derive(Clone, Copy, Debug, PartialEq, Eq, Structural, Hash)]
pub struct OrderId(pub u64);

impl OrderId {
    pub fn new(value: u64) -> (r: OrderId)
        ensures
            r.0 == value,
    {
        OrderId(value)
    }
}

/// Opaque key naming one book.
#[derive(Clone, Debug, PartialEq, Eq, Hash)]
pub struct Symbol(pub String);

impl Symbol {
    pub fn new(s: String) -> (r: Symbol)
        ensures
            r.0@ == s@,
    {
        Symbol(s)
    }
}

#[derive(Clone, Copy, Debug, PartialEq, Eq, Structural, Hash)]
pub enum OrderSide {
    Buy,
    Sell,
}

impl OrderSide {
    pub open spec fn opposite_spec(self) -> OrderSide {
        match self {
            OrderSide::Buy => OrderSide::Sell,
            OrderSide::Sell => OrderSide::Buy,
        }
    }

    pub fn opposite(self) -> (r: OrderSide)
        ensures
            r == self.opposite_spec(),
    {
        match self {
            OrderSide::Buy => OrderSide::Sell,
            OrderSide::Sell => OrderSide::Buy,
        }
    }

    /// The side's name in capitals.
    pub fn to_string(&self) -> (r: String)
        ensures
            *self == OrderSide::Buy ==> r@ == "BUY"@,
            *self == OrderSide::Sell ==> r@ == "SELL"@,
    {
        match self {
            OrderSide::Buy => String::from_str("BUY"),
            OrderSide::Sell => String::from_str("SELL"),
        }
    }
}

#[derive(Clone, Copy, Debug, PartialEq, Eq, Structural, Hash)]
pub enum OrderType {
    /// Executes immediately against the best available prices; never rests.
    Market,
    /// Executes only at its price or better; the remainder rests.
    Limit,
}

#[derive(Clone, Copy, Debug, PartialEq, Eq, Structural, Hash)]
pub enum OrderStatus {
    Pending,
    PartiallyFilled,
    Filled,
    Cancelled,
    Rejected,
}

#[derive(Clone, Copy, Debug, PartialEq, Eq, Structural, Hash)]
pub enum ExecutionType {
    New,
    PartialFill,
    Fill,
    Cancelled,
    Rejected,
}

#[derive(Clone, Copy, Debug, PartialEq, Eq, Structural, Hash)]
pub enum TickSide {
    Bid,
    Ask,
    Trade,
}

/// An order. `price` is `Some` exactly for limit orders.
#[derive(Debug)]
pub struct Order {
    pub id: OrderId,
    pub client_id: String,
    pub symbol: String,
    pub side: OrderSide,
    pub order_type: OrderType,
    pub quantity: u64,
    pub price: Option<u64>,
    pub filled_quantity: u64,
    pub status: OrderStatus,
    pub timestamp: u64,
}

/// Status that a live order has after `filled` of `quantity` has traded.
pub open spec fn fill_status(filled: int, quantity: int) -> OrderStatus {
    if filled >= quantity {
        OrderStatus::Filled
    } else if filled == 0 {
        OrderStatus::Pending
    } else {
        OrderStatus::PartiallyFilled
    }
}

impl Order {
    pub open spec fn remaining_spec(self) -> int {
        self.quantity - self.filled_quantity
    }

    /// The order after `q` more of it has traded.
    pub open spec fn filled_by(self, q: int) -> Order {
        Order {
            filled_quantity: (self.filled_quantity + q) as u64,
            status: fill_status(self.filled_quantity + q, self.quantity as int),
            ..self
        }
    }

    /// The quantities agree with each other and with the status of a live order.
    pub open spec fn live(self) -> bool {
        &&& self.filled_quantity <= self.quantity
        &&& self.status == fill_status(self.filled_quantity as int, self.quantity as int)
    }

    /// Whether a taker with this order's side and type may trade at `level_price`.
    pub open spec fn crosses(self, level_price: int) -> bool {
        match self.price {
            None => true,
            Some(p) => match self.side {
                OrderSide::Buy => p >= level_price,
                OrderSide::Sell => p <= level_price,
            },
        }
    }

    pub fn new_limit(
        id: OrderId,
        client_id: String,
        symbol: String,
        side: OrderSide,
        price: u64,
        quantity: u64,
        timestamp: u64,
    ) -> (r: Order)
        ensures
            r.id == id,
            r.client_id@ == client_id@,
            r.symbol@ == symbol@,
            r.side == side,
            r.order_type == OrderType::Limit,
            r.price == Some(price),
            r.quantity == quantity,
            r.filled_quantity == 0,
            r.status == OrderStatus::Pending,
            r.timestamp == timestamp,
    {
        Order {
            id,
            client_id,
            symbol,
            side,
            order_type: OrderType::Limit,
            quantity,
            price: Some(price),
            filled_quantity: 0,
            status: OrderStatus::Pending,
            timestamp,
        }
    }

    pub fn new_market(
        id: OrderId,
        client_id: String,
        symbol: String,
        side: OrderSide,
        quantity: u64,
        timestamp: u64,
    ) -> (r: Order)
        ensures
            r.id == id,
            r.client_id@ == client_id@,
            r.symbol@ == symbol@,
            r.side == side,
            r.order_type == OrderType::Market,
            r.price.is_none(),
            r.quantity == quantity,
            r.filled_quantity == 0,
            r.status == OrderStatus::Pending,
            r.timestamp == timestamp,
    {
        Order {
            id,
            client_id,
            symbol,
            side,
            order_type: OrderType::Market,
            quantity,
            price: None,
            filled_quantity: 0,
            status: OrderStatus::Pending,
            timestamp,
        }
    }

    /// A field-for-field copy.
    pub fn duplicate(&self) -> (r: Order)
        ensures
            r == *self,
    {
        Order {
            id: self.id,
            client_id: self.client_id.clone(),
            symbol: self.symbol.clone(),
            side: self.side,
            order_type: self.order_type,
            quantity: self.quantity,
            price: self.price,
            filled_quantity: self.filled_quantity,
            status: self.status,
            timestamp: self.timestamp,
        }
    }

    pub fn remaining_quantity(&self) -> (r: u64)
        requires
            self.filled_quantity <= self.quantity,
        ensures
            r == self.remaining_spec(),
    {
        self.quantity - self.filled_quantity
    }

    pub fn is_filled(&self) -> (r: bool)
        ensures
            r == (self.filled_quantity >= self.quantity),
    {
        self.filled_quantity >= self.quantity
    }

    /// Records that `q` more of the order has traded.
    pub fn fill(&mut self, q: u64)
        requires
            old(self).filled_quantity + q <= old(self).quantity,
        ensures
            *final(self) == old(self).filled_by(q as int),
    {
        self.filled_quantity = self.filled_quantity + q;
        if self.filled_quantity >= self.quantity {
            self.status = OrderStatus::Filled;
        } else if self.filled_quantity == 0 {
            self.status = OrderStatus::Pending;
        } else {
            self.status = OrderStatus::PartiallyFilled;
        }
    }

    /// Whether this order, as a taker, may trade at `level_price`.
    pub fn can_match(&self, level_price: u64) -> (r: bool)
        ensures
            r == self.crosses(level_price as int),
    {
        match self.price {
            None => true,
            Some(p) => match self.side {
                OrderSide::Buy => p >= level_price,
                OrderSide::Sell => p <= level_price,
            },
        }
    }
}

} // verus!
