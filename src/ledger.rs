//! Positions, cash and PnL built from execution reports and marks.

use vstd::prelude::*;

use crate::engine::ExecutionReport;
use crate::market::MarketEvent;
use crate::types::{ExecutionType, OrderSide};

verus! {

/// Amounts of money are counted in value units: one quantity unit times one price
/// unit, so that a quantity times a price is exact.
pub open spec fn in_i128(x: int) -> bool {
    i128::MIN <= x <= i128::MAX
}

pub open spec fn sign(x: int) -> int {
    if x > 0 {
        1
    } else if x < 0 {
        -1
    } else {
        0
    }
}

pub open spec fn abs(x: int) -> int {
    if x < 0 {
        -x
    } else {
        x
    }
}

/// A position as mathematical values: signed quantity, average cost, realized PnL.
pub struct PositionModel {
    pub quantity: int,
    pub average_cost: int,
    pub realized: int,
}

/// The position after a fill of signed quantity `delta` at `price`: a flat position
/// opens at the fill price; adding averages the cost; reducing realizes
/// `|delta| * (price - cost) * sign(quantity)` and keeps the cost (reset to zero when
/// flat); a reversal realizes on the old quantity and opens the rest at the fill price.
pub open spec fn apply_fill(p: PositionModel, delta: int, price: int) -> PositionModel {
    let q = p.quantity;
    let a = p.average_cost;
    if delta == 0 {
        p
    } else if q == 0 {
        PositionModel { quantity: delta, average_cost: price, realized: p.realized }
    } else if sign(delta) == sign(q) {
        PositionModel {
            quantity: q + delta,
            average_cost: (abs(q) * a + abs(delta) * price) / (abs(q) + abs(delta)),
            realized: p.realized,
        }
    } else if abs(delta) <= abs(q) {
        PositionModel {
            quantity: q + delta,
            average_cost: if q + delta == 0 { 0 } else { a },
            realized: p.realized + abs(delta) * (price - a) * sign(q),
        }
    } else {
        PositionModel { quantity: q + delta, average_cost: price, realized: p.realized + abs(q) * (price - a) * sign(q) }
    }
}

/// Cash after a fill: buying pays, selling receives.
pub open spec fn cash_after(cash: int, delta: int, price: int) -> int {
    cash - delta * price
}

/// Whether every amount the update passes through fits in an `i128`.
pub open spec fn fill_fits(p: PositionModel, cash: int, delta: int, price: int) -> bool {
    let q = p.quantity;
    let a = p.average_cost;
    &&& in_i128(delta * price)
    &&& in_i128(cash - delta * price)
    &&& (delta != 0 && q != 0 && sign(delta) == sign(q)) ==> {
        &&& in_i128(abs(q))
        &&& in_i128(abs(q) * a)
        &&& in_i128(abs(delta) * price)
        &&& in_i128(abs(q) * a + abs(delta) * price)
        &&& in_i128(abs(q) + abs(delta))
        &&& in_i128(q + delta)
    }
    &&& (delta != 0 && q != 0 && sign(delta) != sign(q)) ==> {
        &&& in_i128(price - a)
        &&& abs(delta) <= abs(q) ==> in_i128(-delta * (price - a)) && in_i128(p.realized + -delta * (price - a))
        &&& abs(delta) > abs(q) ==> in_i128(q * (price - a)) && in_i128(p.realized + q * (price - a))
    }
}

/// Mark-to-market PnL of a position at `mark`.
pub open spec fn unrealized_at(p: PositionModel, mark: int) -> int {
    p.quantity * (mark - p.average_cost)
}

#[derive(Clone, Copy, Debug, PartialEq, Eq, Structural)]
pub enum LedgerError {
    /// An amount would not fit in the ledger's fixed-width integers; nothing changed.
    Overflow,
    /// The account already has a portfolio.
    AccountExists,
    /// The account has no portfolio.
    UnknownAccount,
}

#[derive(Clone, Copy, Debug, PartialEq, Eq, Structural)]
pub enum PositionSide {
    Long,
    Short,
    Flat,
}

/// One symbol's position. Quantities and prices are in units of `1 / SCALE`; PnL in
/// value units (quantity unit times price unit).
pub struct Position {
    pub symbol: String,
    pub quantity: i128,
    pub average_cost: i128,
    pub realized_pnl: i128,
    pub unrealized_pnl: i128,
    pub mark_price: Option<u64>,
    pub last_update: u64,
}

impl Position {
    pub open spec fn model(&self) -> PositionModel {
        PositionModel {
            quantity: self.quantity as int,
            average_cost: self.average_cost as int,
            realized: self.realized_pnl as int,
        }
    }

    /// Long when the quantity is positive, short when negative, flat at zero.
    pub fn side(&self) -> (r: PositionSide)
        ensures
            self.quantity > 0 ==> r == PositionSide::Long,
            self.quantity < 0 ==> r == PositionSide::Short,
            self.quantity == 0 ==> r == PositionSide::Flat,
    {
        if self.quantity > 0 {
            PositionSide::Long
        } else if self.quantity < 0 {
            PositionSide::Short
        } else {
            PositionSide::Flat
        }
    }

    /// The average cost is never negative.
    pub open spec fn wf(&self) -> bool {
        self.average_cost >= 0
    }

    pub fn new(symbol: String) -> (r: Position)
        ensures
            r.wf(),
            r.symbol@ == symbol@,
            r.model() == (PositionModel { quantity: 0, average_cost: 0, realized: 0 }),
            r.unrealized_pnl == 0,
            r.mark_price.is_none(),
    {
        Position {
            symbol,
            quantity: 0,
            average_cost: 0,
            realized_pnl: 0,
            unrealized_pnl: 0,
            mark_price: None,
            last_update: 0,
        }
    }

    /// Applies a fill of `quantity` on `side` at `price` to the position and to `cash`.
    /// When some amount would not fit, returns `Overflow` and changes nothing.
    pub fn update_from_fill(&mut self, cash: &mut i128, side: OrderSide, quantity: u64, price: u64, now: u64) -> (r: Result<(), LedgerError>)
        requires
            old(self).wf(),
        ensures
            final(self).wf(),
            ({
                let delta = match side {
                    OrderSide::Buy => quantity as int,
                    OrderSide::Sell => -(quantity as int),
                };
                &&& r.is_ok() == fill_fits(old(self).model(), *old(cash) as int, delta, price as int)
                &&& r.is_ok() ==> {
                    &&& final(self).model() == apply_fill(old(self).model(), delta, price as int)
                    &&& *final(cash) as int == cash_after(*old(cash) as int, delta, price as int)
                }
                &&& r.is_err() ==> *final(self) == *old(self) && *final(cash) == *old(cash)
            }),
            final(self).symbol == old(self).symbol,
            final(self).unrealized_pnl == old(self).unrealized_pnl,
            final(self).mark_price == old(self).mark_price,
    {
        let ghost p0 = self.model();
        let d: i128 = match side {
            OrderSide::Buy => quantity as i128,
            OrderSide::Sell => -(quantity as i128),
        };
        let px: i128 = price as i128;
        let q = self.quantity;
        let a = self.average_cost;
        let flow = match d.checked_mul(px) {
            Some(v) => v,
            None => return Err(LedgerError::Overflow),
        };
        let cash2 = match cash.checked_sub(flow) {
            Some(v) => v,
            None => return Err(LedgerError::Overflow),
        };
        let mut q2: i128 = q;
        let mut a2: i128 = a;
        let mut r2: i128 = self.realized_pnl;
        if d == 0 {
        } else if q == 0 {
            q2 = d;
            a2 = px;
        } else if (d > 0) == (q > 0) {
            if q == i128::MIN {
                return Err(LedgerError::Overflow);
            }
            let aq: i128 = if q < 0 { -q } else { q };
            let ad: i128 = quantity as i128;
            assert(sign(d as int) == sign(q as int));
            assert(abs(d as int) == ad as int);
            assert(abs(q as int) == aq as int);
            let t1 = match aq.checked_mul(a) {
                Some(v) => v,
                None => return Err(LedgerError::Overflow),
            };
            let t2 = match ad.checked_mul(px) {
                Some(v) => v,
                None => return Err(LedgerError::Overflow),
            };
            let num = match t1.checked_add(t2) {
                Some(v) => v,
                None => return Err(LedgerError::Overflow),
            };
            let den = match aq.checked_add(ad) {
                Some(v) => v,
                None => return Err(LedgerError::Overflow),
            };
            q2 = match q.checked_add(d) {
                Some(v) => v,
                None => return Err(LedgerError::Overflow),
            };
            assert(den > 0);
            a2 = euclid_div(num, den);
        } else {
            let diff = match px.checked_sub(a) {
                Some(v) => v,
                None => return Err(LedgerError::Overflow),
            };
            let ad: i128 = quantity as i128;
            let aq_le = if q < 0 { q <= -ad } else { ad <= q };
            assert(sign(d as int) != sign(q as int));
            assert(abs(d as int) == ad as int);
            assert(aq_le == (abs(d as int) <= abs(q as int)));
            if aq_le {
                let g = match (-d).checked_mul(diff) {
                    Some(v) => v,
                    None => return Err(LedgerError::Overflow),
                };
                r2 = match self.realized_pnl.checked_add(g) {
                    Some(v) => v,
                    None => return Err(LedgerError::Overflow),
                };
                q2 = q + d;
                a2 = if q2 == 0 { 0 } else { a };
                proof {
                    assert(abs(d as int) * (px - a) * sign(q as int) == -d * (px - a)) by (nonlinear_arith)
                        requires
                            sign(q as int) == -sign(d as int),
                            d != 0,
                    ;
                }
            } else {
                let g = match q.checked_mul(diff) {
                    Some(v) => v,
                    None => return Err(LedgerError::Overflow),
                };
                r2 = match self.realized_pnl.checked_add(g) {
                    Some(v) => v,
                    None => return Err(LedgerError::Overflow),
                };
                q2 = q + d;
                a2 = px;
                proof {
                    assert(abs(q as int) * (px - a) * sign(q as int) == q * (px - a)) by (nonlinear_arith)
                        requires
                            q != 0,
                    ;
                }
            }
        }
        proof {
            let delta = match side {
                OrderSide::Buy => quantity as int,
                OrderSide::Sell => -(quantity as int),
            };
            assert(delta == d as int);
            assert(fill_fits(p0, *old(cash) as int, delta, price as int));
            assert(cash2 as int == cash_after(*old(cash) as int, delta, price as int));
            assert(apply_fill(p0, delta, price as int).quantity == q2);
            assert(apply_fill(p0, delta, price as int).average_cost == a2);
            assert(apply_fill(p0, delta, price as int).realized == r2);
        }
        self.quantity = q2;
        self.average_cost = a2;
        self.realized_pnl = r2;
        self.last_update = now;
        *cash = cash2;
        Ok(())
    }
}

impl Position {
    /// The position marked at `mark`: unrealized PnL recomputed, the mark kept.
    pub open spec fn marked(self, mark: u64) -> Position {
        Position {
            unrealized_pnl: unrealized_at(self.model(), mark as int) as i128,
            mark_price: Some(mark),
            ..self
        }
    }

    /// Refreshes unrealized PnL at `mark`. `Overflow`, with nothing changed, when the
    /// amount does not fit.
    pub fn update_unrealized_pnl(&mut self, mark: u64) -> (r: Result<(), LedgerError>)
        ensures
            r.is_ok() == (in_i128(mark - old(self).average_cost) && in_i128(unrealized_at(old(self).model(), mark as int))),
            r.is_ok() ==> *final(self) == old(self).marked(mark),
            r.is_err() ==> *final(self) == *old(self),
    {
        let diff = match (mark as i128).checked_sub(self.average_cost) {
            Some(v) => v,
            None => return Err(LedgerError::Overflow),
        };
        let u = match self.quantity.checked_mul(diff) {
            Some(v) => v,
            None => return Err(LedgerError::Overflow),
        };
        self.unrealized_pnl = u;
        self.mark_price = Some(mark);
        Ok(())
    }
}

/// Marking twice at the same price leaves the position as marking once does.
pub proof fn law_mark_idempotent(p: Position, mark: u64)
    ensures
        p.marked(mark).marked(mark) == p.marked(mark),
{
}

/// Position and cash flow after replaying `fills` (signed quantity, price) from flat.
pub open spec fn replay(fills: Seq<(int, int)>) -> (PositionModel, int)
    decreases fills.len(),
{
    if fills.len() == 0 {
        (PositionModel { quantity: 0, average_cost: 0, realized: 0 }, 0)
    } else {
        let prev = replay(fills.drop_last());
        let f = fills.last();
        (apply_fill(prev.0, f.0, f.1), cash_after(prev.1, f.0, f.1))
    }
}

/// Whether averaging on an add divides exactly (no rounding of the average cost).
pub open spec fn exact_step(p: PositionModel, delta: int, price: int) -> bool {
    (delta != 0 && p.quantity != 0 && sign(delta) == sign(p.quantity)) ==> (abs(p.quantity) * p.average_cost
        + abs(delta) * price) % (abs(p.quantity) + abs(delta)) == 0
}

/// Whether no step of the history rounded an average cost.
pub open spec fn exact_history(fills: Seq<(int, int)>) -> bool
    decreases fills.len(),
{
    fills.len() == 0 || (exact_history(fills.drop_last()) && exact_step(
        replay(fills.drop_last()).0,
        fills.last().0,
        fills.last().1,
    ))
}

proof fn lemma_step_keeps_basis(p: PositionModel, c: int, delta: int, price: int)
    requires
        p.realized - p.quantity * p.average_cost == c,
        exact_step(p, delta, price),
    ensures
        ({
            let p2 = apply_fill(p, delta, price);
            p2.realized - p2.quantity * p2.average_cost == cash_after(c, delta, price)
        }),
{
    let q = p.quantity;
    let a = p.average_cost;
    let p2 = apply_fill(p, delta, price);
    if delta == 0 {
    } else if q == 0 {
        assert(q * a == 0);
    } else if sign(delta) == sign(q) {
        let num = abs(q) * a + abs(delta) * price;
        let den = abs(q) + abs(delta);
        assert(den > 0);
        let a2 = num / den;
        assert(a2 * den == num) by (nonlinear_arith)
            requires
                num % den == 0,
                den > 0,
                a2 == num / den,
        ;
        if q > 0 {
            assert(abs(q) == q && abs(delta) == delta);
            assert((q + delta) * a2 == q * a + delta * price) by (nonlinear_arith)
                requires
                    a2 * (q + delta) == q * a + delta * price,
            ;
        } else {
            assert(abs(q) == -q && abs(delta) == -delta);
            assert((q + delta) * a2 == q * a + delta * price) by (nonlinear_arith)
                requires
                    a2 * (-q + -delta) == -q * a + -delta * price,
            ;
        }
        assert(p2.realized - p2.quantity * p2.average_cost == c - delta * price);
    } else if abs(delta) <= abs(q) {
        assert(abs(delta) * (price - a) * sign(q) == -delta * (price - a)) by (nonlinear_arith)
            requires
                sign(q) == -sign(delta),
                delta != 0,
        ;
        assert((q + delta) * a == q * a + delta * a) by (nonlinear_arith);
        assert(-delta * (price - a) == -(delta * price) + delta * a) by (nonlinear_arith);
        if q + delta == 0 {
            assert((q + delta) * a == 0) by (nonlinear_arith)
                requires
                    q + delta == 0,
            ;
            assert(p2.quantity == 0);
            assert(p2.quantity * p2.average_cost == 0) by (nonlinear_arith)
                requires
                    p2.quantity == 0,
            ;
        }
        assert(p2.realized - p2.quantity * p2.average_cost == c - delta * price);
    } else {
        assert(abs(q) * (price - a) * sign(q) == q * (price - a)) by (nonlinear_arith)
            requires
                q != 0,
        ;
        assert((q + delta) * price == q * price + delta * price) by (nonlinear_arith);
        assert(q * (price - a) == q * price - q * a) by (nonlinear_arith);
        assert(p2.realized - p2.quantity * p2.average_cost == c - delta * price);
    }
}

/// Over any history of fills on one symbol in which no average cost was rounded,
/// realized plus unrealized PnL at a mark equals the cash flow plus the position
/// valued at that mark.
pub proof fn law_pnl_identity(fills: Seq<(int, int)>, mark: int)
    requires
        exact_history(fills),
    ensures
        ({
            let (p, cash) = replay(fills);
            p.realized + unrealized_at(p, mark) == cash + p.quantity * mark
        }),
    decreases fills.len(),
{
    lemma_replay_basis(fills);
    let (p, cash) = replay(fills);
    assert(p.quantity * (mark - p.average_cost) == p.quantity * mark - p.quantity * p.average_cost) by (nonlinear_arith);
}

proof fn lemma_replay_basis(fills: Seq<(int, int)>)
    requires
        exact_history(fills),
    ensures
        replay(fills).0.realized - replay(fills).0.quantity * replay(fills).0.average_cost == replay(fills).1,
    decreases fills.len(),
{
    if fills.len() > 0 {
        lemma_replay_basis(fills.drop_last());
        let prev = replay(fills.drop_last());
        lemma_step_keeps_basis(prev.0, prev.1, fills.last().0, fills.last().1);
    }
}

/// Signed quantity of a fill: positive for a buy, negative for a sell.
pub open spec fn signed_quantity(side: OrderSide, quantity: u64) -> int {
    match side {
        OrderSide::Buy => quantity as int,
        OrderSide::Sell => -(quantity as int),
    }
}

/// Whether a report carries a trade for the ledger.
pub open spec fn is_fill_report(r: ExecutionReport) -> bool {
    &&& (r.execution_type == ExecutionType::Fill || r.execution_type == ExecutionType::PartialFill)
    &&& r.last_quantity > 0
    &&& r.last_price.is_some()
}

/// Index of the first position for `sym`, or -1.
pub open spec fn position_index(ps: Seq<Position>, sym: Seq<char>) -> int
    decreases ps.len(),
{
    if ps.len() == 0 {
        -1
    } else if ps[0].symbol@ == sym {
        0
    } else {
        let r = position_index(ps.drop_first(), sym);
        if r < 0 {
            -1
        } else {
            r + 1
        }
    }
}

pub proof fn lemma_position_index_at(ps: Seq<Position>, sym: Seq<char>, i: int)
    requires
        0 <= i <= ps.len(),
        forall|k: int| 0 <= k < i ==> (#[trigger] ps[k]).symbol@ != sym,
        i < ps.len() ==> ps[i].symbol@ == sym,
    ensures
        position_index(ps, sym) == (if i < ps.len() { i } else { -1 }),
    decreases i,
{
    if i > 0 {
        assert(ps[0].symbol@ != sym);
        assert forall|k: int| 0 <= k < i - 1 implies (#[trigger] ps.drop_first()[k]).symbol@ != sym by {
            assert(ps[k + 1].symbol@ != sym);
        }
        lemma_position_index_at(ps.drop_first(), sym, i - 1);
    }
}

/// What one position adds to total equity: its quantity at the mark, or at cost
/// when no mark is known.
pub open spec fn position_value(p: Position) -> int {
    match p.mark_price {
        Some(m) => p.quantity * m,
        None => p.quantity * p.average_cost,
    }
}

pub open spec fn realized_sum(ps: Seq<Position>) -> int
    decreases ps.len(),
{
    if ps.len() == 0 {
        0
    } else {
        realized_sum(ps.drop_last()) + ps.last().realized_pnl
    }
}

pub open spec fn unrealized_sum(ps: Seq<Position>) -> int
    decreases ps.len(),
{
    if ps.len() == 0 {
        0
    } else {
        unrealized_sum(ps.drop_last()) + ps.last().unrealized_pnl
    }
}

pub open spec fn value_sum(ps: Seq<Position>) -> int
    decreases ps.len(),
{
    if ps.len() == 0 {
        0
    } else {
        value_sum(ps.drop_last()) + position_value(ps.last())
    }
}

/// Whether every running total of the summary fits in an `i128`.
pub open spec fn sums_fit(ps: Seq<Position>) -> bool
    decreases ps.len(),
{
    ps.len() == 0 || {
        &&& sums_fit(ps.drop_last())
        &&& in_i128(realized_sum(ps))
        &&& in_i128(unrealized_sum(ps))
        &&& in_i128(position_value(ps.last()))
        &&& in_i128(value_sum(ps))
    }
}

pub struct PortfolioSummary {
    pub cash_balance: i128,
    pub total_equity: i128,
    pub positions_count: usize,
    pub realized_pnl: i128,
    pub unrealized_pnl: i128,
}

/// One account: cash and a position per symbol traded.
pub struct Portfolio {
    pub account_id: String,
    pub cash_balance: i128,
    pub positions: Vec<Position>,
}

impl Portfolio {
    pub open spec fn wf(&self) -> bool {
        forall|k: int| 0 <= k < self.positions@.len() ==> (#[trigger] self.positions@[k]).wf()
    }

    pub fn new(account_id: String, initial_cash: i128) -> (r: Portfolio)
        ensures
            r.wf(),
            r.account_id@ == account_id@,
            r.cash_balance == initial_cash,
            r.positions@.len() == 0,
    {
        Portfolio { account_id, cash_balance: initial_cash, positions: Vec::new() }
    }

    fn find_position(&self, symbol: &String) -> (r: Option<usize>)
        ensures
            match r {
                None => position_index(self.positions@, symbol@) < 0,
                Some(i) => position_index(self.positions@, symbol@) == i && i < self.positions@.len()
                    && self.positions@[i as int].symbol@ == symbol@,
            },
    {
        let mut i: usize = 0;
        while i < self.positions.len()
            invariant
                0 <= i <= self.positions@.len(),
                forall|k: int| 0 <= k < i ==> (#[trigger] self.positions@[k]).symbol@ != symbol@,
            decreases self.positions.len() - i,
        {
            if self.positions[i].symbol == *symbol {
                proof {
                    lemma_position_index_at(self.positions@, symbol@, i as int);
                }
                return Some(i);
            }
            i = i + 1;
        }
        proof {
            lemma_position_index_at(self.positions@, symbol@, i as int);
        }
        None
    }

    /// Books the trade a fill report carries: the symbol's position (opened flat if
    /// new) and cash move as `apply_fill` and `cash_after` say. Other reports change
    /// nothing. `Overflow`, with nothing changed, when an amount does not fit.
    pub fn on_execution(&mut self, report: &ExecutionReport, now: u64) -> (r: Result<(), LedgerError>)
        requires
            old(self).wf(),
        ensures
            final(self).wf(),
            booked(*old(self), *final(self), *report, r),
    {
        let price = match report.last_price {
            Some(p) => p,
            None => return Ok(()),
        };
        let is_fill = match report.execution_type {
            ExecutionType::Fill => true,
            ExecutionType::PartialFill => true,
            _ => false,
        };
        if !is_fill || report.last_quantity == 0 {
            return Ok(());
        }
        let ghost ps = self.positions@;
        match self.find_position(&report.symbol) {
            Some(i) => {
                let mut pos = self.positions.remove(i);
                assert(pos == ps[i as int]);
                let res = pos.update_from_fill(&mut self.cash_balance, report.side, report.last_quantity, price, now);
                self.positions.insert(i, pos);
                proof {
                    if res.is_err() {
                        assert(self.positions@ =~= ps);
                    }
                    assert forall|k: int| 0 <= k < self.positions@.len() implies (#[trigger] self.positions@[k]).wf() by {
                        if k != i as int {
                            assert(self.positions@[k] == ps[k]);
                        }
                    }
                    assert forall|k: int| 0 <= k < ps.len() && k != i as int implies #[trigger] self.positions@[k] == ps[k] by {}
                }
                res
            },
            None => {
                let mut pos = Position::new(report.symbol.clone());
                let res = pos.update_from_fill(&mut self.cash_balance, report.side, report.last_quantity, price, now);
                if res.is_ok() {
                    self.positions.push(pos);
                    proof {
                        assert forall|k: int| 0 <= k < ps.len() implies #[trigger] self.positions@[k] == ps[k] by {}
                    }
                }
                res
            },
        }
    }

    /// Marks the position for `symbol`, if there is one, at `mark`.
    pub fn on_mark_price(&mut self, symbol: &String, mark: u64) -> (r: Result<(), LedgerError>)
        requires
            old(self).wf(),
        ensures
            final(self).wf(),
            r.is_ok() == mark_fits(*old(self), symbol@, mark),
            marked_portfolio(*old(self), *final(self), symbol@, mark),
    {
        let ghost ps = self.positions@;
        match self.find_position(symbol) {
            Some(i) => {
                let mut pos = self.positions.remove(i);
                assert(pos == ps[i as int]);
                let res = pos.update_unrealized_pnl(mark);
                self.positions.insert(i, pos);
                proof {
                    if res.is_err() {
                        assert(self.positions@ =~= ps);
                    } else {
                        assert(self.positions@ =~= ps.update(i as int, ps[i as int].marked(mark)));
                    }
                    assert forall|k: int| 0 <= k < self.positions@.len() implies (#[trigger] self.positions@[k]).wf() by {
                        if k != i as int {
                            assert(self.positions@[k] == ps[k]);
                        }
                    }
                }
                res
            },
            None => Ok(()),
        }
    }

    /// Cash, total equity (cash plus each position at its mark, or at cost when no
    /// mark is known), number of positions, and realized and unrealized PnL summed over
    /// positions; `None` when a running total does not fit.
    pub fn summary(&self) -> (r: Option<PortfolioSummary>)
        ensures
            r.is_some() == (sums_fit(self.positions@) && in_i128(self.cash_balance + value_sum(self.positions@))),
            r.is_some() ==> {
                let s = r.unwrap();
                &&& s.cash_balance == self.cash_balance
                &&& s.total_equity == self.cash_balance + value_sum(self.positions@)
                &&& s.positions_count == self.positions@.len()
                &&& s.realized_pnl == realized_sum(self.positions@)
                &&& s.unrealized_pnl == unrealized_sum(self.positions@)
            },
    {
        let ghost ps = self.positions@;
        let mut realized: i128 = 0;
        let mut unrealized: i128 = 0;
        let mut value: i128 = 0;
        let mut i: usize = 0;
        while i < self.positions.len()
            invariant
                0 <= i <= ps.len(),
                ps == self.positions@,
                sums_fit(ps.take(i as int)),
                realized == realized_sum(ps.take(i as int)),
                unrealized == unrealized_sum(ps.take(i as int)),
                value == value_sum(ps.take(i as int)),
            decreases ps.len() - i,
        {
            let p = &self.positions[i];
            let ghost t = ps.take(i as int + 1);
            proof {
                assert(t.drop_last() =~= ps.take(i as int));
                assert(t.last() == ps[i as int]);
                if sums_fit(ps) {
                    lemma_sums_fit_prefix(ps, i as int + 1);
                }
            }
            let v = match p.mark_price {
                Some(m) => p.quantity.checked_mul(m as i128),
                None => p.quantity.checked_mul(p.average_cost),
            };
            let v = match v {
                Some(x) => x,
                None => return None,
            };
            realized = match realized.checked_add(p.realized_pnl) {
                Some(x) => x,
                None => return None,
            };
            unrealized = match unrealized.checked_add(p.unrealized_pnl) {
                Some(x) => x,
                None => return None,
            };
            value = match value.checked_add(v) {
                Some(x) => x,
                None => return None,
            };
            i = i + 1;
        }
        proof {
            assert(ps.take(i as int) =~= ps);
        }
        let total = match self.cash_balance.checked_add(value) {
            Some(x) => x,
            None => return None,
        };
        Some(PortfolioSummary {
            cash_balance: self.cash_balance,
            total_equity: total,
            positions_count: self.positions.len(),
            realized_pnl: realized,
            unrealized_pnl: unrealized,
        })
    }
}

pub proof fn lemma_sums_fit_prefix(ps: Seq<Position>, j: int)
    requires
        sums_fit(ps),
        0 <= j <= ps.len(),
    ensures
        sums_fit(ps.take(j)),
    decreases ps.len(),
{
    if j == ps.len() {
        assert(ps.take(j) =~= ps);
    } else {
        lemma_sums_fit_prefix(ps.drop_last(), j);
        assert(ps.drop_last().take(j) =~= ps.take(j));
    }
}

/// Whether marking the position for `sym` (if any) at `mark` fits in an `i128`.
pub open spec fn mark_fits(p: Portfolio, sym: Seq<char>, mark: u64) -> bool {
    let ps = p.positions@;
    let idx = position_index(ps, sym);
    idx < 0 || (in_i128(mark - ps[idx].average_cost) && in_i128(unrealized_at(ps[idx].model(), mark as int)))
}

/// `p1` is `p0` with the position for `sym` marked at `mark`, when there is one and
/// the amount fits; else `p0` as it was.
pub open spec fn marked_portfolio(p0: Portfolio, p1: Portfolio, sym: Seq<char>, mark: u64) -> bool {
    let ps = p0.positions@;
    let idx = position_index(ps, sym);
    &&& p1.cash_balance == p0.cash_balance
    &&& p1.account_id == p0.account_id
    &&& p1.positions@ == (if idx >= 0 && mark_fits(p0, sym, mark) {
        ps.update(idx, ps[idx].marked(mark))
    } else {
        ps
    })
}

impl Portfolio {
    /// Marks the event's symbol at the event's mark price, if it has one.
    pub fn on_market_event(&mut self, event: &MarketEvent) -> (r: Result<(), LedgerError>)
        requires
            old(self).wf(),
        ensures
            final(self).wf(),
            event.mark_spec().is_none() ==> r.is_ok() && *final(self) == *old(self),
            event.mark_spec().is_some() ==> {
                &&& r.is_ok() == mark_fits(*old(self), event.symbol_spec(), event.mark_spec().unwrap())
                &&& marked_portfolio(*old(self), *final(self), event.symbol_spec(), event.mark_spec().unwrap())
            },
    {
        match event.mark_price() {
            Some(m) => self.on_mark_price(event.symbol(), m),
            None => Ok(()),
        }
    }
}

/// Index of the first portfolio of `account`, or -1.
pub open spec fn account_index(ps: Seq<Portfolio>, account: Seq<char>) -> int
    decreases ps.len(),
{
    if ps.len() == 0 {
        -1
    } else if ps[0].account_id@ == account {
        0
    } else {
        let r = account_index(ps.drop_first(), account);
        if r < 0 {
            -1
        } else {
            r + 1
        }
    }
}

pub proof fn lemma_account_index_at(ps: Seq<Portfolio>, account: Seq<char>, i: int)
    requires
        0 <= i <= ps.len(),
        forall|k: int| 0 <= k < i ==> (#[trigger] ps[k]).account_id@ != account,
        i < ps.len() ==> ps[i].account_id@ == account,
    ensures
        account_index(ps, account) == (if i < ps.len() { i } else { -1 }),
    decreases i,
{
    if i > 0 {
        assert(ps[0].account_id@ != account);
        assert forall|k: int| 0 <= k < i - 1 implies (#[trigger] ps.drop_first()[k]).account_id@ != account by {
            assert(ps[k + 1].account_id@ != account);
        }
        lemma_account_index_at(ps.drop_first(), account, i - 1);
    }
}

/// The portfolios of all accounts, one per account.
pub struct Ledger {
    pub portfolios: Vec<Portfolio>,
}

impl Ledger {
    pub open spec fn wf(&self) -> bool {
        forall|k: int| 0 <= k < self.portfolios@.len() ==> (#[trigger] self.portfolios@[k]).wf()
    }

    pub fn new() -> (r: Ledger)
        ensures
            r.wf(),
            r.portfolios@.len() == 0,
    {
        Ledger { portfolios: Vec::new() }
    }

    fn find_account(&self, account_id: &String) -> (r: Option<usize>)
        ensures
            match r {
                None => account_index(self.portfolios@, account_id@) < 0,
                Some(i) => account_index(self.portfolios@, account_id@) == i && i < self.portfolios@.len(),
            },
    {
        let mut i: usize = 0;
        while i < self.portfolios.len()
            invariant
                0 <= i <= self.portfolios@.len(),
                forall|k: int| 0 <= k < i ==> (#[trigger] self.portfolios@[k]).account_id@ != account_id@,
            decreases self.portfolios.len() - i,
        {
            if self.portfolios[i].account_id == *account_id {
                proof {
                    lemma_account_index_at(self.portfolios@, account_id@, i as int);
                }
                return Some(i);
            }
            i = i + 1;
        }
        proof {
            lemma_account_index_at(self.portfolios@, account_id@, i as int);
        }
        None
    }

    /// Opens a portfolio with `initial_cash`; `AccountExists`, changing nothing, when
    /// the account has one.
    pub fn create_portfolio(&mut self, account_id: String, initial_cash: i128) -> (r: Result<(), LedgerError>)
        requires
            old(self).wf(),
        ensures
            final(self).wf(),
            account_index(old(self).portfolios@, account_id@) >= 0 ==> r == Err::<(), LedgerError>(LedgerError::AccountExists)
                && final(self).portfolios@ == old(self).portfolios@,
            account_index(old(self).portfolios@, account_id@) < 0 ==> {
                &&& r.is_ok()
                &&& final(self).portfolios@.len() == old(self).portfolios@.len() + 1
                &&& final(self).portfolios@.drop_last() == old(self).portfolios@
                &&& final(self).portfolios@.last().account_id@ == account_id@
                &&& final(self).portfolios@.last().cash_balance == initial_cash
                &&& final(self).portfolios@.last().positions@.len() == 0
            },
    {
        if self.find_account(&account_id).is_some() {
            return Err(LedgerError::AccountExists);
        }
        let ghost ps = self.portfolios@;
        self.portfolios.push(Portfolio::new(account_id, initial_cash));
        assert(self.portfolios@.drop_last() =~= ps);
        assert forall|k: int| 0 <= k < self.portfolios@.len() implies (#[trigger] self.portfolios@[k]).wf() by {
            if k < ps.len() {
                assert(self.portfolios@[k] == ps[k]);
            }
        }
        Ok(())
    }

    /// Books a report on the account's portfolio; `UnknownAccount`, changing nothing,
    /// when the account has none.
    pub fn on_execution(&mut self, account_id: &String, report: &ExecutionReport, now: u64) -> (r: Result<(), LedgerError>)
        requires
            old(self).wf(),
        ensures
            final(self).wf(),
            final(self).portfolios@.len() == old(self).portfolios@.len(),
            account_index(old(self).portfolios@, account_id@) < 0 ==> r == Err::<(), LedgerError>(LedgerError::UnknownAccount)
                && final(self).portfolios@ == old(self).portfolios@,
            account_index(old(self).portfolios@, account_id@) >= 0 ==> {
                let i = account_index(old(self).portfolios@, account_id@);
                &&& forall|k: int| 0 <= k < old(self).portfolios@.len() && k != i ==> #[trigger] final(self).portfolios@[k] == old(self).portfolios@[k]
                &&& booked(old(self).portfolios@[i], final(self).portfolios@[i], *report, r)
            },
    {
        match self.find_account(account_id) {
            None => Err(LedgerError::UnknownAccount),
            Some(i) => {
                let ghost ps = self.portfolios@;
                let mut p = self.portfolios.remove(i);
                assert(p == ps[i as int]);
                let r = p.on_execution(report, now);
                let ghost p1 = p;
                self.portfolios.insert(i, p);
                proof {
                    assert(self.portfolios@ == ps.update(i as int, p1));
                    assert forall|k: int| 0 <= k < self.portfolios@.len() implies (#[trigger] self.portfolios@[k]).wf() by {
                        if k != i as int {
                            assert(self.portfolios@[k] == ps[k]);
                        }
                    }
                }
                r
            },
        }
    }

    /// Marks every portfolio that holds the event's symbol. Each portfolio is marked
    /// or, where its amount does not fit, left as it was; `Overflow` if any was left.
    pub fn on_market_event(&mut self, event: &MarketEvent) -> (r: Result<(), LedgerError>)
        requires
            old(self).wf(),
        ensures
            final(self).wf(),
            final(self).portfolios@.len() == old(self).portfolios@.len(),
            event.mark_spec().is_none() ==> r.is_ok() && final(self).portfolios@ == old(self).portfolios@,
            event.mark_spec().is_some() ==> {
                &&& forall|k: int|
                    0 <= k < old(self).portfolios@.len() ==> marked_portfolio(
                        #[trigger] old(self).portfolios@[k],
                        final(self).portfolios@[k],
                        event.symbol_spec(),
                        event.mark_spec().unwrap(),
                    )
                &&& r.is_ok() == forall|k: int|
                    0 <= k < old(self).portfolios@.len() ==> mark_fits(
                        #[trigger] old(self).portfolios@[k],
                        event.symbol_spec(),
                        event.mark_spec().unwrap(),
                    )
            },
    {
        let m = match event.mark_price() {
            Some(m) => m,
            None => return Ok(()),
        };
        let symbol = event.symbol();
        let ghost ps = self.portfolios@;
        let mut all_fit = true;
        let mut i: usize = 0;
        while i < self.portfolios.len()
            invariant
                0 <= i <= ps.len(),
                self.portfolios@.len() == ps.len(),
                self.wf(),
                m == event.mark_spec().unwrap(),
                symbol@ == event.symbol_spec(),
                forall|k: int| 0 <= k < i ==> marked_portfolio(#[trigger] ps[k], self.portfolios@[k], symbol@, m),
                forall|k: int| i <= k < ps.len() ==> #[trigger] self.portfolios@[k] == ps[k],
                all_fit == forall|k: int| 0 <= k < i ==> mark_fits(#[trigger] ps[k], symbol@, m),
            decreases ps.len() - i,
        {
            let ghost pre = self.portfolios@;
            let mut p = self.portfolios.remove(i);
            assert(p == ps[i as int]);
            let r = p.on_mark_price(symbol, m);
            let ghost p1 = p;
            self.portfolios.insert(i, p);
            if r.is_err() {
                all_fit = false;
            }
            proof {
                assert(self.portfolios@ == pre.update(i as int, p1));
                assert forall|k: int| 0 <= k < self.portfolios@.len() implies (#[trigger] self.portfolios@[k]).wf() by {
                    if k != i as int {
                        assert(self.portfolios@[k] == pre[k]);
                    }
                }
                assert forall|k: int| 0 <= k < i + 1 implies marked_portfolio(#[trigger] ps[k], self.portfolios@[k], symbol@, m) by {
                    if k < i {
                        assert(self.portfolios@[k] == pre[k]);
                    }
                }
                assert forall|k: int| i + 1 <= k < ps.len() implies #[trigger] self.portfolios@[k] == ps[k] by {
                    assert(self.portfolios@[k] == pre[k]);
                }
            }
            i = i + 1;
        }
        if all_fit {
            Ok(())
        } else {
            Err(LedgerError::Overflow)
        }
    }

    /// The summary of the account's portfolio, as `Portfolio::summary` gives it;
    /// `None` for an unknown account.
    pub fn summary(&self, account_id: &String) -> (r: Option<PortfolioSummary>)
        ensures
            account_index(self.portfolios@, account_id@) < 0 ==> r.is_none(),
            account_index(self.portfolios@, account_id@) >= 0 ==> {
                let p = self.portfolios@[account_index(self.portfolios@, account_id@)];
                &&& r.is_some() == (sums_fit(p.positions@) && in_i128(p.cash_balance + value_sum(p.positions@)))
                &&& r.is_some() ==> summarizes_portfolio(r.unwrap(), p)
            },
    {
        match self.find_account(account_id) {
            None => None,
            Some(i) => self.portfolios[i].summary(),
        }
    }
}

/// `s` is the summary of `p`.
pub open spec fn summarizes_portfolio(s: PortfolioSummary, p: Portfolio) -> bool {
    &&& s.cash_balance == p.cash_balance
    &&& s.total_equity == p.cash_balance + value_sum(p.positions@)
    &&& s.positions_count == p.positions@.len()
    &&& s.realized_pnl == realized_sum(p.positions@)
    &&& s.unrealized_pnl == unrealized_sum(p.positions@)
}

/// `p1` and `r` are what `Portfolio::on_execution` makes of `p0` and `report`.
pub open spec fn booked(p0: Portfolio, p1: Portfolio, report: ExecutionReport, r: Result<(), LedgerError>) -> bool {
    &&& p1.account_id == p0.account_id
    &&& !is_fill_report(report) ==> r.is_ok() && p1.positions@ == p0.positions@ && p1.cash_balance == p0.cash_balance
    &&& is_fill_report(report) ==> {
        let ps = p0.positions@;
        let idx = position_index(ps, report.symbol@);
        let i = if idx >= 0 { idx } else { ps.len() as int };
        let q0 = if idx >= 0 { ps[idx].model() } else { PositionModel { quantity: 0, average_cost: 0, realized: 0 } };
        let delta = signed_quantity(report.side, report.last_quantity);
        let price = report.last_price.unwrap() as int;
        &&& r.is_ok() == fill_fits(q0, p0.cash_balance as int, delta, price)
        &&& r.is_ok() ==> {
            &&& p1.cash_balance as int == cash_after(p0.cash_balance as int, delta, price)
            &&& p1.positions@.len() == (if idx >= 0 { ps.len() as int } else { ps.len() + 1 as int })
            &&& p1.positions@[i].model() == apply_fill(q0, delta, price)
            &&& p1.positions@[i].symbol@ == report.symbol@
            &&& forall|k: int| 0 <= k < ps.len() && k != i ==> #[trigger] p1.positions@[k] == ps[k]
        }
        &&& r.is_err() ==> p1.positions@ == ps && p1.cash_balance == p0.cash_balance
    }
}

/// Floor division of a non-negative numerator by a positive denominator.
fn euclid_div(num: i128, den: i128) -> (r: i128)
    requires
        num >= 0,
        den > 0,
    ensures
        r as int == num as int / den as int,
{
    let n = num as u128;
    let d = den as u128;
    let r = n / d;
    assert(r <= n) by (nonlinear_arith)
        requires
            r == n / d,
            d > 0,
    ;
    r as i128
}

} // verus!
