//! One symbol's order book: bids and asks as best-first price levels with FIFO
//! queues, the matching walk under price-time priority, resting and cancelling,
//! and the laws they obey.

use vstd::prelude::*;

use crate::types::{Order, OrderId, OrderSide, OrderStatus, OrderType};

verus! {

/// All resting orders at one price on one side, in arrival order.
pub struct PriceLevel {
    pub price: u64,
    pub total_quantity: u128,
    pub orders: Vec<Order>,
}

/// What a price level holds, as mathematical values.
pub struct LevelModel {
    pub price: int,
    pub total: int,
    pub orders: Seq<Order>,
}

impl View for PriceLevel {
    type V = LevelModel;

    open spec fn view(&self) -> LevelModel {
        LevelModel { price: self.price as int, total: self.total_quantity as int, orders: self.orders@ }
    }
}

/// The levels of one side, best price first.
pub open spec fn levels_view(levels: Seq<PriceLevel>) -> Seq<LevelModel> {
    levels.map_values(|l: PriceLevel| l@)
}

/// Sum of the remaining quantities of a queue.
pub open spec fn sum_remaining(s: Seq<Order>) -> int
    decreases s.len(),
{
    if s.len() == 0 {
        0
    } else {
        s[0].remaining_spec() + sum_remaining(s.drop_first())
    }
}

/// Number of resting orders over a side.
pub open spec fn count_orders(levels: Seq<LevelModel>) -> int
    decreases levels.len(),
{
    if levels.len() == 0 {
        0
    } else {
        levels[0].orders.len() + count_orders(levels.drop_first())
    }
}

/// Whether price `a` comes before price `b` on `side` (higher bids, lower asks first).
pub open spec fn better(side: OrderSide, a: int, b: int) -> bool {
    match side {
        OrderSide::Buy => a > b,
        OrderSide::Sell => a < b,
    }
}

/// A resting order: a live limit order on `side` at `price` with something left.
pub open spec fn resting_ok(o: Order, side: OrderSide, price: int) -> bool {
    &&& o.live()
    &&& o.filled_quantity < o.quantity
    &&& o.side == side
    &&& o.order_type == OrderType::Limit
    &&& o.price.is_some()
    &&& o.price.unwrap() == price
}

/// A level is non-empty, its total is the sum of what its orders have left, and
/// every order in it rests at its price on its side.
pub open spec fn level_wf(l: LevelModel, side: OrderSide) -> bool {
    &&& l.orders.len() > 0
    &&& l.total == sum_remaining(l.orders)
    &&& forall|j: int| 0 <= j < l.orders.len() ==> resting_ok(#[trigger] l.orders[j], side, l.price)
}

/// Every level is well formed and the prices run strictly best first.
pub open spec fn side_wf(levels: Seq<LevelModel>, side: OrderSide) -> bool {
    &&& forall|i: int| 0 <= i < levels.len() ==> level_wf(#[trigger] levels[i], side)
    &&& forall|i: int, j: int|
        0 <= i < j < levels.len() ==> #[trigger] better(side, levels[i].price, levels[j].price)
}

pub proof fn lemma_sum_push(s: Seq<Order>, o: Order)
    ensures
        sum_remaining(s.push(o)) == sum_remaining(s) + o.remaining_spec(),
    decreases s.len(),
{
    if s.len() > 0 {
        assert(s.push(o).drop_first() =~= s.drop_first().push(o));
        lemma_sum_push(s.drop_first(), o);
    } else {
        assert(s.push(o).drop_first() =~= Seq::<Order>::empty());
        assert(s.push(o)[0] == o);
        assert(sum_remaining(Seq::<Order>::empty()) == 0);
        assert(sum_remaining(s) == 0);
    }
}

pub proof fn lemma_sum_remove(s: Seq<Order>, i: int)
    requires
        0 <= i < s.len(),
    ensures
        sum_remaining(s.remove(i)) == sum_remaining(s) - s[i].remaining_spec(),
    decreases s.len(),
{
    if i > 0 {
        assert(s.remove(i).drop_first() =~= s.drop_first().remove(i - 1));
        lemma_sum_remove(s.drop_first(), i - 1);
    } else {
        assert(s.remove(0) =~= s.drop_first());
    }
}

pub proof fn lemma_sum_bounds(s: Seq<Order>, side: OrderSide, price: int)
    requires
        forall|j: int| 0 <= j < s.len() ==> resting_ok(#[trigger] s[j], side, price),
    ensures
        0 <= sum_remaining(s) <= s.len() * 0xffff_ffff_ffff_ffff,
        s.len() > 0 ==> sum_remaining(s) >= s[0].remaining_spec(),
    decreases s.len(),
{
    if s.len() > 0 {
        assert(resting_ok(s[0], side, price));
        assert forall|j: int| 0 <= j < s.drop_first().len() implies resting_ok(
            #[trigger] s.drop_first()[j],
            side,
            price,
        ) by {
            assert(resting_ok(s[j + 1], side, price));
        }
        lemma_sum_bounds(s.drop_first(), side, price);
        assert(sum_remaining(s) <= s.len() * 0xffff_ffff_ffff_ffff) by (nonlinear_arith)
            requires
                sum_remaining(s) == s[0].remaining_spec() + sum_remaining(s.drop_first()),
                sum_remaining(s.drop_first()) <= (s.len() - 1) * 0xffff_ffff_ffff_ffff,
                s[0].remaining_spec() <= 0xffff_ffff_ffff_ffff,
        ;
    }
}

/// One trade in the mathematical view: the maker as it stands after the trade,
/// the price, and the quantity.
pub struct FillModel {
    pub maker: Order,
    pub price: int,
    pub quantity: int,
}

pub struct MatchOutcome {
    pub levels: Seq<LevelModel>,
    pub taker: Order,
    pub fills: Seq<FillModel>,
}

pub open spec fn min_int(a: int, b: int) -> int {
    if a <= b {
        a
    } else {
        b
    }
}

pub open spec fn nonneg(a: int) -> nat {
    if a > 0 {
        a as nat
    } else {
        0
    }
}

pub open spec fn front_len(levels: Seq<LevelModel>) -> nat {
    if levels.len() > 0 {
        levels[0].orders.len()
    } else {
        0
    }
}

/// The opposite side after one trade of `q` against the front order of the best level.
pub open spec fn after_trade(levels: Seq<LevelModel>, q: int) -> Seq<LevelModel> {
    let lvl = levels[0];
    let maker2 = lvl.orders[0].filled_by(q);
    let orders2 = if maker2.remaining_spec() <= 0 {
        lvl.orders.drop_first()
    } else {
        lvl.orders.update(0, maker2)
    };
    if orders2.len() == 0 {
        levels.drop_first()
    } else {
        levels.update(0, LevelModel { price: lvl.price, total: lvl.total - q, orders: orders2 })
    }
}

/// The matching walk: while the taker has something left and crosses the best level,
/// it trades with that level's oldest order at the level's price, for the smaller
/// of the two remainders; filled makers leave their queue and empty levels leave
/// the side.
pub open spec fn match_walk(levels: Seq<LevelModel>, taker: Order) -> MatchOutcome
    decreases levels.len(), front_len(levels), nonneg(taker.remaining_spec()),
{
    if taker.remaining_spec() <= 0 || levels.len() == 0 || !taker.crosses(levels[0].price) {
        MatchOutcome { levels, taker, fills: seq![] }
    } else if levels[0].orders.len() == 0 {
        match_walk(levels.drop_first(), taker)
    } else {
        let maker = levels[0].orders[0];
        let q = min_int(taker.remaining_spec(), maker.remaining_spec());
        let fill = FillModel { maker: maker.filled_by(q), price: levels[0].price, quantity: q };
        let rest = match_walk(after_trade(levels, q), taker.filled_by(q));
        MatchOutcome { levels: rest.levels, taker: rest.taker, fills: seq![fill] + rest.fills }
    }
}

/// Total quantity over a sequence of trades.
pub open spec fn sum_fills(s: Seq<FillModel>) -> int
    decreases s.len(),
{
    if s.len() == 0 {
        0
    } else {
        s[0].quantity + sum_fills(s.drop_first())
    }
}

/// The resting orders of a side in priority order: best level first, oldest first.
pub open spec fn flatten(levels: Seq<LevelModel>) -> Seq<Order>
    decreases levels.len(),
{
    if levels.len() == 0 {
        seq![]
    } else {
        levels[0].orders + flatten(levels.drop_first())
    }
}

pub proof fn lemma_after_trade_wf(levels: Seq<LevelModel>, side: OrderSide, q: int)
    requires
        side_wf(levels, side),
        levels.len() > 0,
        0 < q <= levels[0].orders[0].remaining_spec(),
    ensures
        side_wf(after_trade(levels, q), side),
        after_trade(levels, q).len() > 0 ==> !better(side, after_trade(levels, q)[0].price, levels[0].price),
        levels[0].orders[0].filled_by(q).remaining_spec() <= 0 ==> flatten(after_trade(levels, q)) == flatten(levels).drop_first(),
        levels[0].orders[0].filled_by(q).remaining_spec() > 0 ==> flatten(after_trade(levels, q)) == flatten(levels).update(0, levels[0].orders[0].filled_by(q)),
{
    let lvl = levels[0];
    assert(level_wf(lvl, side));
    let maker = lvl.orders[0];
    assert(resting_ok(maker, side, lvl.price));
    let maker2 = maker.filled_by(q);
    let orders2 = if maker2.remaining_spec() <= 0 {
        lvl.orders.drop_first()
    } else {
        lvl.orders.update(0, maker2)
    };
    let lvl2 = LevelModel { price: lvl.price, total: lvl.total - q, orders: orders2 };
    assert(lvl.orders.update(0, maker2).drop_first() =~= lvl.orders.drop_first());
    assert forall|j: int| 0 <= j < orders2.len() implies resting_ok(#[trigger] orders2[j], side, lvl.price) by {
        if maker2.remaining_spec() <= 0 {
            assert(resting_ok(lvl.orders[j + 1], side, lvl.price));
        } else if j > 0 {
            assert(resting_ok(lvl.orders[j], side, lvl.price));
        }
    }
    assert(sum_remaining(lvl.orders.update(0, maker2)) == maker2.remaining_spec() + sum_remaining(lvl.orders.drop_first()));
    let after = after_trade(levels, q);
    assert(flatten(levels) == lvl.orders + flatten(levels.drop_first()));
    if orders2.len() == 0 {
        assert(after == levels.drop_first());
        assert forall|i: int| 0 <= i < after.len() implies level_wf(#[trigger] after[i], side) by {
            assert(level_wf(levels[i + 1], side));
        }
        assert forall|i: int, j: int| 0 <= i < j < after.len() implies #[trigger] better(side, after[i].price, after[j].price) by {
            assert(better(side, levels[i + 1].price, levels[j + 1].price));
        }
        if after.len() > 0 {
            assert(better(side, levels[0].price, levels[1].price));
        }
        assert(lvl.orders.len() == 1);
        assert(flatten(levels).drop_first() =~= flatten(levels.drop_first()));
    } else {
        assert(after == levels.update(0, lvl2));
        assert forall|i: int| 0 <= i < after.len() implies level_wf(#[trigger] after[i], side) by {
            if i > 0 {
                assert(level_wf(levels[i], side));
            }
        }
        assert forall|i: int, j: int| 0 <= i < j < after.len() implies #[trigger] better(side, after[i].price, after[j].price) by {
            assert(better(side, levels[i].price, levels[j].price));
        }
        assert(flatten(after) == orders2 + flatten(after.drop_first()));
        assert(after.drop_first() =~= levels.drop_first());
        if maker2.remaining_spec() <= 0 {
            assert(flatten(after) =~= flatten(levels).drop_first());
        } else {
            assert(flatten(after) =~= flatten(levels).update(0, maker2));
        }
    }
}

/// What the walk promises: the side stays well formed and never gains a better price;
/// the taker changes only in what it has filled, by the sum of the trades; every trade
/// is at its maker's resting price; the makers traded are the side's resting orders in
/// priority order, each but the last filled completely; and the walk stops only when
/// the taker is filled, the side is empty, or the best price no longer crosses.
pub proof fn lemma_walk(levels: Seq<LevelModel>, taker: Order, side: OrderSide)
    requires
        side_wf(levels, side),
        taker.live(),
    ensures
        ({
            let out = match_walk(levels, taker);
            &&& side_wf(out.levels, side)
            &&& out.levels.len() > 0 ==> levels.len() > 0 && !better(side, out.levels[0].price, levels[0].price)
            &&& out.taker.live()
            &&& out.taker == (Order { filled_quantity: out.taker.filled_quantity, status: out.taker.status, ..taker })
            &&& out.taker.filled_quantity - taker.filled_quantity == sum_fills(out.fills)
            &&& out.fills.len() <= flatten(levels).len()
            &&& forall|k: int| 0 <= k < out.fills.len() ==> {
                &&& (#[trigger] out.fills[k]).quantity > 0
                &&& out.fills[k].maker.price == Some(out.fills[k].price as u64)
                &&& out.fills[k].maker.id == flatten(levels)[k].id
                &&& out.fills[k].maker == flatten(levels)[k].filled_by(out.fills[k].quantity)
                &&& out.fills[k].maker.side == side
                &&& out.fills[k].maker.live()
                &&& k + 1 < out.fills.len() ==> out.fills[k].maker.remaining_spec() == 0
            }
            &&& out.taker.remaining_spec() == 0 || out.levels.len() == 0 || !out.taker.crosses(out.levels[0].price)
            &&& out.fills.len() == 0 ==> out.levels == levels && out.taker == taker
        }),
    decreases levels.len(), front_len(levels), nonneg(taker.remaining_spec()),
{
    if taker.remaining_spec() <= 0 || levels.len() == 0 || !taker.crosses(levels[0].price) {
    } else {
        assert(level_wf(levels[0], side));
        let maker = levels[0].orders[0];
        assert(resting_ok(maker, side, levels[0].price));
        let q = min_int(taker.remaining_spec(), maker.remaining_spec());
        let after = after_trade(levels, q);
        lemma_after_trade_wf(levels, side, q);
        let t2 = taker.filled_by(q);
        lemma_walk(after, t2, side);
        let rest = match_walk(after, t2);
        let out = match_walk(levels, taker);
        let fill = FillModel { maker: maker.filled_by(q), price: levels[0].price, quantity: q };
        assert(out.fills == seq![fill] + rest.fills);
        assert(flatten(levels) == levels[0].orders + flatten(levels.drop_first()));
        assert(flatten(levels)[0] == maker);
        assert(sum_fills(out.fills) == q + sum_fills(rest.fills)) by {
            assert(out.fills.drop_first() =~= rest.fills);
        }
        if after.len() > 0 && out.levels.len() > 0 {
            if after[0].price != levels[0].price {
                assert(levels.len() > 1);
            }
        }
        if maker.filled_by(q).remaining_spec() > 0 {
            assert(t2.remaining_spec() == 0);
            assert(rest.fills.len() == 0);
        }
        assert forall|k: int| 0 <= k < out.fills.len() implies {
            &&& (#[trigger] out.fills[k]).quantity > 0
            &&& out.fills[k].maker.price == Some(out.fills[k].price as u64)
            &&& out.fills[k].maker.id == flatten(levels)[k].id
            &&& out.fills[k].maker == flatten(levels)[k].filled_by(out.fills[k].quantity)
            &&& out.fills[k].maker.side == side
            &&& out.fills[k].maker.live()
            &&& k + 1 < out.fills.len() ==> out.fills[k].maker.remaining_spec() == 0
        } by {
            if k > 0 {
                assert(out.fills[k] == rest.fills[k - 1]);
                if maker.filled_by(q).remaining_spec() <= 0 {
                    assert(flatten(after)[k - 1] == flatten(levels)[k]);
                }
            }
        }
    }
}

/// The book's sequence number `n` changes after `s`: it counts modulo 2^64.
pub open spec fn seq_after(s: u64, n: int) -> int {
    (s + n) % 0x1_0000_0000_0000_0000
}

pub proof fn lemma_seq_step(s0: u64, k: int, cur: u64)
    requires
        k >= 0,
        cur as int == seq_after(s0, k),
    ensures
        cur.wrapping_add(1) as int == seq_after(s0, k + 1),
{
    vstd::arithmetic::div_mod::lemma_add_mod_noop(s0 + k, 1, 0x1_0000_0000_0000_0000);
    assert(1int % 0x1_0000_0000_0000_0000 == 1);
}

/// One trade: the maker rested at `price`; `maker` is the maker as it stands after it.
pub struct MatchResult {
    pub trade_id: u64,
    pub maker_order_id: OrderId,
    pub taker_order_id: OrderId,
    pub symbol: String,
    pub price: u64,
    pub quantity: u64,
    pub timestamp: u64,
    pub maker: Order,
}

impl View for MatchResult {
    type V = FillModel;

    open spec fn view(&self) -> FillModel {
        FillModel { maker: self.maker, price: self.price as int, quantity: self.quantity as int }
    }
}

pub open spec fn fills_view(s: Seq<MatchResult>) -> Seq<FillModel> {
    s.map_values(|m: MatchResult| m@)
}

/// The bookkeeping fields of a trade made for `taker` at time `now` on `symbol`.
pub open spec fn trade_tagged(m: MatchResult, taker: OrderId, symbol: Seq<char>, now: u64) -> bool {
    &&& m.taker_order_id == taker
    &&& m.maker_order_id == m.maker.id
    &&& m.symbol@ == symbol
    &&& m.timestamp == now
}

/// Runs the matching walk on `levels` (the side opposite the taker), trade by trade.
#[verifier::rlimit(50)]
fn walk_side(
    levels: &mut Vec<PriceLevel>,
    side: OrderSide,
    taker: &mut Order,
    symbol: &String,
    sequence: &mut u64,
    now: u64,
) -> (fills: Vec<MatchResult>)
    requires
        side_wf(levels_view(old(levels)@), side),
        old(taker).live(),
    ensures
        match_walk(levels_view(old(levels)@), *old(taker)) == (MatchOutcome {
            levels: levels_view(final(levels)@),
            taker: *final(taker),
            fills: fills_view(fills@),
        }),
        forall|k: int| 0 <= k < fills.len() ==> trade_tagged(#[trigger] fills@[k], old(taker).id, symbol@, now),
        *final(sequence) as int == seq_after(*old(sequence), fills@.len() as int),
        forall|k: int| 0 <= k < fills.len() ==> (#[trigger] fills@[k]).trade_id as int == seq_after(*old(sequence), k + 1),
{
    let ghost orig = levels_view(levels@);
    let ghost s0 = *sequence;
    proof {
        assert(seq_after(s0, 0) == s0 as int);
    }
    let ghost taker0 = *taker;
    let mut fills: Vec<MatchResult> = Vec::new();
    while taker.filled_quantity < taker.quantity && levels.len() > 0 && taker.can_match(levels[0].price)
        invariant
            side_wf(levels_view(levels@), side),
            taker.live(),
            taker.id == taker0.id,
            match_walk(orig, taker0) == (MatchOutcome {
                levels: match_walk(levels_view(levels@), *taker).levels,
                taker: match_walk(levels_view(levels@), *taker).taker,
                fills: fills_view(fills@) + match_walk(levels_view(levels@), *taker).fills,
            }),
            forall|k: int| 0 <= k < fills.len() ==> trade_tagged(#[trigger] fills@[k], taker0.id, symbol@, now),
            *sequence as int == seq_after(s0, fills@.len() as int),
            forall|k: int| 0 <= k < fills.len() ==> (#[trigger] fills@[k]).trade_id as int == seq_after(s0, k + 1),
        decreases levels.len(), front_len(levels_view(levels@)), nonneg(taker.remaining_spec()),
    {
        let ghost pre = levels_view(levels@);
        let ghost pre_taker = *taker;
        let ghost pre_fills = fills_view(fills@);
        assert(level_wf(pre[0], side));
        let mut lvl = levels.remove(0);
        assert(lvl@ == pre[0]);
        let mut maker = lvl.orders.remove(0);
        assert(maker == pre[0].orders[0]);
        assert(resting_ok(maker, side, lvl.price as int));
        let t_rem = taker.quantity - taker.filled_quantity;
        let m_rem = maker.quantity - maker.filled_quantity;
        let q = if t_rem <= m_rem { t_rem } else { m_rem };
        proof {
            lemma_sum_bounds(pre[0].orders, side, pre[0].price);
        }
        taker.fill(q);
        maker.fill(q);
        lvl.total_quantity = lvl.total_quantity - q as u128;
        proof {
            lemma_seq_step(s0, fills@.len() as int, *sequence);
        }
        *sequence = sequence.wrapping_add(1);
        let m = MatchResult {
            trade_id: *sequence,
            maker_order_id: maker.id,
            taker_order_id: taker.id,
            symbol: symbol.clone(),
            price: lvl.price,
            quantity: q,
            timestamp: now,
            maker: maker.duplicate(),
        };
        fills.push(m);
        if maker.filled_quantity < maker.quantity {
            lvl.orders.insert(0, maker);
        }
        if lvl.orders.len() > 0 {
            levels.insert(0, lvl);
        }
        proof {
            lemma_after_trade_wf(pre, side, q as int);
            let after = after_trade(pre, q as int);
            assert(pre[0].orders.update(0, pre[0].orders[0].filled_by(q as int)) =~= pre[0].orders.remove(0).insert(0, pre[0].orders[0].filled_by(q as int)));
            assert(pre[0].orders.drop_first() =~= pre[0].orders.remove(0));
            assert(levels_view(levels@) =~= after);
            assert(fills_view(fills@) =~= pre_fills.push(m@));
            let w = match_walk(levels_view(levels@), *taker);
            assert(match_walk(pre, pre_taker).fills == seq![m@] + w.fills);
            assert(pre_fills + match_walk(pre, pre_taker).fills =~= fills_view(fills@) + w.fills);
        }
    }
    fills
}

/// Where a level at `price` belongs on a side: after every strictly better level.
pub open spec fn insertion_point(levels: Seq<LevelModel>, side: OrderSide, price: int) -> int
    decreases levels.len(),
{
    if levels.len() == 0 || !better(side, levels[0].price, price) {
        0
    } else {
        1 + insertion_point(levels.drop_first(), side, price)
    }
}

/// The side after `o` rests on it: appended to the queue of its price level, or in a
/// new level at its place in price order.
pub open spec fn rest_order(levels: Seq<LevelModel>, side: OrderSide, o: Order) -> Seq<LevelModel> {
    let p = o.price.unwrap() as int;
    let i = insertion_point(levels, side, p);
    if i < levels.len() && levels[i].price == p {
        levels.update(
            i,
            LevelModel { price: p, total: levels[i].total + o.remaining_spec(), orders: levels[i].orders.push(o) },
        )
    } else {
        levels.insert(i, LevelModel { price: p, total: o.remaining_spec(), orders: seq![o] })
    }
}

pub proof fn lemma_insertion_point(levels: Seq<LevelModel>, side: OrderSide, price: int)
    ensures
        0 <= insertion_point(levels, side, price) <= levels.len(),
        forall|j: int| 0 <= j < insertion_point(levels, side, price) ==> #[trigger] better(side, levels[j].price, price),
        insertion_point(levels, side, price) < levels.len() ==> !better(side, levels[insertion_point(levels, side, price)].price, price),
    decreases levels.len(),
{
    if levels.len() > 0 && better(side, levels[0].price, price) {
        lemma_insertion_point(levels.drop_first(), side, price);
        let i = insertion_point(levels, side, price);
        assert forall|j: int| 0 <= j < i implies #[trigger] better(side, levels[j].price, price) by {
            if j > 0 {
                assert(levels[j] == levels.drop_first()[j - 1]);
            }
        }
    }
}

pub proof fn lemma_insertion_point_at(levels: Seq<LevelModel>, side: OrderSide, price: int, i: int)
    requires
        0 <= i <= levels.len(),
        forall|j: int| 0 <= j < i ==> #[trigger] better(side, levels[j].price, price),
        i == levels.len() || !better(side, levels[i].price, price),
    ensures
        insertion_point(levels, side, price) == i,
    decreases i,
{
    if i > 0 {
        assert(better(side, levels[0].price, price));
        assert forall|j: int| 0 <= j < i - 1 implies #[trigger] better(side, levels.drop_first()[j].price, price) by {
            assert(better(side, levels[j + 1].price, price));
        }
        lemma_insertion_point_at(levels.drop_first(), side, price, i - 1);
    }
}

/// Resting keeps the side well formed, and its best price is the order's or the old best.
pub proof fn lemma_rest_wf(levels: Seq<LevelModel>, side: OrderSide, o: Order)
    requires
        side_wf(levels, side),
        resting_ok(o, side, o.price.unwrap() as int),
    ensures
        side_wf(rest_order(levels, side, o), side),
        rest_order(levels, side, o).len() > 0,
        rest_order(levels, side, o)[0].price == o.price.unwrap() as int || (levels.len() > 0
            && rest_order(levels, side, o)[0].price == levels[0].price),
{
    let p = o.price.unwrap() as int;
    lemma_insertion_point(levels, side, p);
    let i = insertion_point(levels, side, p);
    let r = rest_order(levels, side, o);
    if i < levels.len() && levels[i].price == p {
        let l = levels[i];
        assert(level_wf(l, side));
        lemma_sum_push(l.orders, o);
        assert forall|k: int| 0 <= k < r.len() implies level_wf(#[trigger] r[k], side) by {
            if k == i {
                assert forall|j: int| 0 <= j < r[k].orders.len() implies resting_ok(#[trigger] r[k].orders[j], side, r[k].price) by {
                    if j < l.orders.len() {
                        assert(resting_ok(l.orders[j], side, l.price));
                    }
                }
            } else {
                assert(level_wf(levels[k], side));
            }
        }
        assert forall|a: int, b: int| 0 <= a < b < r.len() implies #[trigger] better(side, r[a].price, r[b].price) by {
            assert(better(side, levels[a].price, levels[b].price));
        }
    } else {
        let nl = LevelModel { price: p, total: o.remaining_spec(), orders: seq![o] };
        assert(sum_remaining(seq![o]) == o.remaining_spec()) by {
            assert(seq![o].drop_first() =~= Seq::<Order>::empty());
            assert(sum_remaining(Seq::<Order>::empty()) == 0);
            assert(seq![o][0] == o);
        }
        assert forall|k: int| 0 <= k < r.len() implies level_wf(#[trigger] r[k], side) by {
            if k < i {
                assert(level_wf(levels[k], side));
            } else if k > i {
                assert(level_wf(levels[k - 1], side));
            } else {
                assert(r[k] == nl);
                assert forall|j: int| 0 <= j < nl.orders.len() implies resting_ok(#[trigger] nl.orders[j], side, nl.price) by {
                    assert(nl.orders[j] == o);
                }
            }
        }
        if i < levels.len() {
            assert(better(side, p, levels[i].price));
        }
        assert forall|a: int, b: int| 0 <= a < b < r.len() implies #[trigger] better(side, r[a].price, r[b].price) by {
            if b < i {
                assert(better(side, levels[a].price, levels[b].price));
            } else if b == i {
                assert(better(side, levels[a].price, p));
            } else if a < i {
                assert(better(side, levels[a].price, levels[b - 1].price));
            } else if a == i {
                if b - 1 > i {
                    assert(better(side, levels[i].price, levels[b - 1].price));
                }
            } else {
                assert(better(side, levels[a - 1].price, levels[b - 1].price));
            }
        }
    }
}

pub fn better_exec(side: OrderSide, a: u64, b: u64) -> (r: bool)
    ensures
        r == better(side, a as int, b as int),
{
    match side {
        OrderSide::Buy => a > b,
        OrderSide::Sell => a < b,
    }
}

/// Rests `order` on `levels`, a side on which it belongs.
fn rest_on_side(levels: &mut Vec<PriceLevel>, side: OrderSide, order: Order)
    requires
        side_wf(levels_view(old(levels)@), side),
        resting_ok(order, side, order.price.unwrap() as int),
    ensures
        levels_view(final(levels)@) == rest_order(levels_view(old(levels)@), side, order),
{
    let ghost pre = levels_view(levels@);
    let p: u64 = match order.price {
        Some(x) => x,
        None => 0,
    };
    let mut i: usize = 0;
    while i < levels.len() && better_exec(side, levels[i].price, p)
        invariant
            0 <= i <= levels.len(),
            levels_view(levels@) == pre,
            forall|j: int| 0 <= j < i ==> #[trigger] better(side, pre[j].price, p as int),
        decreases levels.len() - i,
    {
        i = i + 1;
    }
    proof {
        lemma_insertion_point_at(pre, side, p as int, i as int);
    }
    let rem: u64 = order.quantity - order.filled_quantity;
    if i < levels.len() && levels[i].price == p {
        let mut lvl = levels.remove(i);
        assert(lvl@ == pre[i as int]);
        assert(level_wf(pre[i as int], side));
        let ghost old_orders = lvl.orders@;
        lvl.orders.push(order);
        let n = lvl.orders.len();
        proof {
            lemma_sum_push(old_orders, order);
            assert forall|j: int| 0 <= j < lvl.orders@.len() implies resting_ok(#[trigger] lvl.orders@[j], side, p as int) by {
                if j < old_orders.len() {
                    assert(resting_ok(old_orders[j], side, pre[i as int].price));
                }
            }
            lemma_sum_bounds(lvl.orders@, side, p as int);
            assert(sum_remaining(lvl.orders@) <= 0xffff_ffff_ffff_ffff * 0xffff_ffff_ffff_ffff) by (nonlinear_arith)
                requires
                    sum_remaining(lvl.orders@) <= n * 0xffff_ffff_ffff_ffff,
                    n <= 0xffff_ffff_ffff_ffff,
            ;
        }
        lvl.total_quantity = lvl.total_quantity + rem as u128;
        levels.insert(i, lvl);
        assert(levels_view(levels@) =~= rest_order(pre, side, order));
    } else {
        let mut orders: Vec<Order> = Vec::new();
        orders.push(order);
        levels.insert(i, PriceLevel { price: p, total_quantity: rem as u128, orders });
        assert(levels_view(levels@) =~= rest_order(pre, side, order));
    }
}

/// A new order the book can take: positive quantity, nothing traded yet, and a
/// positive price exactly when it is a limit order.
pub open spec fn valid_new_order(o: Order) -> bool {
    &&& o.quantity > 0
    &&& o.filled_quantity == 0
    &&& o.status == OrderStatus::Pending
    &&& (o.order_type == OrderType::Limit) == o.price.is_some()
    &&& o.price.is_some() ==> o.price.unwrap() > 0
}

/// The taker's own side after matching: a limit remainder rests, anything else leaves
/// the side as it was.
pub open spec fn own_side_after(own: Seq<LevelModel>, side: OrderSide, t: Order) -> Seq<LevelModel> {
    if t.order_type == OrderType::Limit && t.remaining_spec() > 0 {
        rest_order(own, side, t)
    } else {
        own
    }
}

/// The order handed back by `add_order`: a market remainder is rejected.
pub open spec fn taker_result(t: Order) -> Order {
    if t.order_type == OrderType::Market && t.remaining_spec() > 0 {
        Order { status: OrderStatus::Rejected, ..t }
    } else {
        t
    }
}

pub open spec fn not_crossed(bids: Seq<LevelModel>, asks: Seq<LevelModel>) -> bool {
    bids.len() > 0 && asks.len() > 0 ==> bids[0].price < asks[0].price
}

/// Whether an order with `id` rests on the side.
pub open spec fn has_order(levels: Seq<LevelModel>, id: OrderId) -> bool {
    exists|i: int, j: int|
        0 <= i < levels.len() && 0 <= j < levels[i].orders.len() && #[trigger] levels[i].orders[j].id == id
}

/// Whether (i, j) holds the first order with `id` in priority order.
pub open spec fn first_at(levels: Seq<LevelModel>, id: OrderId, i: int, j: int) -> bool {
    &&& 0 <= i < levels.len()
    &&& 0 <= j < levels[i].orders.len()
    &&& levels[i].orders[j].id == id
    &&& forall|a: int, b: int|
        0 <= a < i && 0 <= b < levels[a].orders.len() ==> #[trigger] levels[a].orders[b].id != id
    &&& forall|b: int| 0 <= b < j ==> #[trigger] levels[i].orders[b].id != id
}

/// The side without the order at (i, j); a level left empty goes.
pub open spec fn remove_at(levels: Seq<LevelModel>, i: int, j: int) -> Seq<LevelModel> {
    let l = levels[i];
    let orders2 = l.orders.remove(j);
    if orders2.len() == 0 {
        levels.remove(i)
    } else {
        levels.update(i, LevelModel { price: l.price, total: l.total - l.orders[j].remaining_spec(), orders: orders2 })
    }
}

pub proof fn lemma_first_at_unique(levels: Seq<LevelModel>, id: OrderId, i: int, j: int, i2: int, j2: int)
    requires
        first_at(levels, id, i, j),
        first_at(levels, id, i2, j2),
    ensures
        i == i2 && j == j2,
{
    if i < i2 {
        assert(levels[i].orders[j].id != id);
    } else if i2 < i {
        assert(levels[i2].orders[j2].id != id);
    } else if j < j2 {
        assert(levels[i].orders[j].id != id);
    } else if j2 < j {
        assert(levels[i].orders[j2].id != id);
    }
}

pub proof fn lemma_remove_at_wf(levels: Seq<LevelModel>, side: OrderSide, i: int, j: int)
    requires
        side_wf(levels, side),
        0 <= i < levels.len(),
        0 <= j < levels[i].orders.len(),
    ensures
        side_wf(remove_at(levels, i, j), side),
        remove_at(levels, i, j).len() > 0 ==> !better(side, remove_at(levels, i, j)[0].price, levels[0].price),
{
    let l = levels[i];
    assert(level_wf(l, side));
    let orders2 = l.orders.remove(j);
    lemma_sum_remove(l.orders, j);
    let r = remove_at(levels, i, j);
    if orders2.len() == 0 {
        assert forall|k: int| 0 <= k < r.len() implies level_wf(#[trigger] r[k], side) by {
            if k < i {
                assert(level_wf(levels[k], side));
            } else {
                assert(level_wf(levels[k + 1], side));
            }
        }
        assert forall|a: int, b: int| 0 <= a < b < r.len() implies #[trigger] better(side, r[a].price, r[b].price) by {
            if b < i {
                assert(better(side, levels[a].price, levels[b].price));
            } else if a < i {
                assert(better(side, levels[a].price, levels[b + 1].price));
            } else {
                assert(better(side, levels[a + 1].price, levels[b + 1].price));
            }
        }
        if r.len() > 0 && i == 0 {
            assert(better(side, levels[0].price, levels[1].price));
        }
    } else {
        assert forall|k: int| 0 <= k < r.len() implies level_wf(#[trigger] r[k], side) by {
            if k == i {
                assert forall|b: int| 0 <= b < orders2.len() implies resting_ok(#[trigger] orders2[b], side, l.price) by {
                    if b < j {
                        assert(resting_ok(l.orders[b], side, l.price));
                    } else {
                        assert(resting_ok(l.orders[b + 1], side, l.price));
                    }
                }
            } else {
                assert(level_wf(levels[k], side));
            }
        }
        assert forall|a: int, b: int| 0 <= a < b < r.len() implies #[trigger] better(side, r[a].price, r[b].price) by {
            assert(better(side, levels[a].price, levels[b].price));
        }
    }
}

/// The first position of an order with `id` on the side, if any.
fn find_on_side(levels: &Vec<PriceLevel>, id: OrderId) -> (r: Option<(usize, usize)>)
    ensures
        match r {
            None => !has_order(levels_view(levels@), id),
            Some((i, j)) => first_at(levels_view(levels@), id, i as int, j as int),
        },
{
    let ghost v = levels_view(levels@);
    let mut i: usize = 0;
    while i < levels.len()
        invariant
            0 <= i <= levels.len(),
            v == levels_view(levels@),
            forall|a: int, b: int| 0 <= a < i && 0 <= b < v[a].orders.len() ==> #[trigger] v[a].orders[b].id != id,
        decreases levels.len() - i,
    {
        let mut j: usize = 0;
        while j < levels[i].orders.len()
            invariant
                0 <= i < levels.len(),
                0 <= j <= levels[i as int].orders.len(),
                v == levels_view(levels@),
                forall|a: int, b: int| 0 <= a < i && 0 <= b < v[a].orders.len() ==> #[trigger] v[a].orders[b].id != id,
                forall|b: int| 0 <= b < j ==> #[trigger] v[i as int].orders[b].id != id,
            decreases levels[i as int].orders.len() - j,
        {
            assert(v[i as int].orders[j as int] == levels[i as int].orders[j as int]);
            if levels[i].orders[j].id == id {
                return Some((i, j));
            }
            j = j + 1;
        }
        i = i + 1;
    }
    proof {
        assert forall|a: int, b: int| 0 <= a < v.len() && 0 <= b < v[a].orders.len() implies #[trigger] v[a].orders[b].id != id by {}
    }
    None
}

/// Takes the order at (i, j) off the side.
fn remove_from_side(levels: &mut Vec<PriceLevel>, side: OrderSide, i: usize, j: usize) -> (o: Order)
    requires
        side_wf(levels_view(old(levels)@), side),
        i < old(levels)@.len(),
        j < old(levels)@[i as int].orders@.len(),
    ensures
        levels_view(final(levels)@) == remove_at(levels_view(old(levels)@), i as int, j as int),
        o == levels_view(old(levels)@)[i as int].orders[j as int],
{
    let ghost pre = levels_view(levels@);
    let mut lvl = levels.remove(i);
    assert(lvl@ == pre[i as int]);
    assert(level_wf(pre[i as int], side));
    let o = lvl.orders.remove(j);
    proof {
        lemma_sum_remove(pre[i as int].orders, j as int);
        lemma_sum_bounds(lvl.orders@, side, pre[i as int].price);
        assert(resting_ok(o, side, pre[i as int].price));
    }
    lvl.total_quantity = lvl.total_quantity - (o.quantity - o.filled_quantity) as u128;
    if lvl.orders.len() > 0 {
        levels.insert(i, lvl);
    }
    assert(levels_view(levels@) =~= remove_at(pre, i as int, j as int));
    o
}

/// One book: bids best (highest) first, asks best (lowest) first.
pub struct OrderBook {
    pub symbol: String,
    pub bids: Vec<PriceLevel>,
    pub asks: Vec<PriceLevel>,
    pub sequence: u64,
}

impl OrderBook {
    pub open spec fn bids_view(&self) -> Seq<LevelModel> {
        levels_view(self.bids@)
    }

    pub open spec fn asks_view(&self) -> Seq<LevelModel> {
        levels_view(self.asks@)
    }

    pub open spec fn side_view(&self, side: OrderSide) -> Seq<LevelModel> {
        match side {
            OrderSide::Buy => self.bids_view(),
            OrderSide::Sell => self.asks_view(),
        }
    }

    /// Both sides well formed and the book not crossed.
    pub open spec fn wf(&self) -> bool {
        &&& side_wf(self.bids_view(), OrderSide::Buy)
        &&& side_wf(self.asks_view(), OrderSide::Sell)
        &&& not_crossed(self.bids_view(), self.asks_view())
    }

    pub fn new(symbol: String) -> (r: OrderBook)
        ensures
            r.wf(),
            r.symbol@ == symbol@,
            r.bids_view().len() == 0,
            r.asks_view().len() == 0,
    {
        OrderBook { symbol, bids: Vec::new(), asks: Vec::new(), sequence: 0 }
    }

    /// Matches `order` against the opposite side, rests a limit remainder and rejects a
    /// market remainder. Returns the order as it stands after, and the trades.
    pub fn add_order(&mut self, order: Order, now: u64) -> (r: (Order, Vec<MatchResult>))
        requires
            old(self).wf(),
            valid_new_order(order),
        ensures
            final(self).wf(),
            final(self).symbol@ == old(self).symbol@,
            ({
                let walk = match_walk(old(self).side_view(order.side.opposite_spec()), order);
                &&& final(self).side_view(order.side.opposite_spec()) == walk.levels
                &&& final(self).side_view(order.side) == own_side_after(old(self).side_view(order.side), order.side, walk.taker)
                &&& fills_view(r.1@) == walk.fills
                &&& r.0 == taker_result(walk.taker)
            }),
            forall|k: int| 0 <= k < r.1.len() ==> trade_tagged(#[trigger] r.1@[k], order.id, old(self).symbol@, now),
            forall|k: int| 0 <= k < r.1.len() ==> (#[trigger] r.1@[k]).trade_id as int == seq_after(old(self).sequence, k + 1),
            final(self).sequence as int == seq_after(
                old(self).sequence,
                r.1@.len() + (if r.0.order_type == OrderType::Limit && r.0.remaining_spec() > 0 { 1int } else { 0int }),
            ),
    {
        let ghost bids0 = self.bids_view();
        let ghost asks0 = self.asks_view();
        let mut taker = order;
        let side = taker.side;
        let fills = match side {
            OrderSide::Buy => walk_side(&mut self.asks, OrderSide::Sell, &mut taker, &self.symbol, &mut self.sequence, now),
            OrderSide::Sell => walk_side(&mut self.bids, OrderSide::Buy, &mut taker, &self.symbol, &mut self.sequence, now),
        };
        proof {
            match side {
                OrderSide::Buy => lemma_walk(asks0, order, OrderSide::Sell),
                OrderSide::Sell => lemma_walk(bids0, order, OrderSide::Buy),
            }
        }
        if taker.filled_quantity < taker.quantity {
            match taker.order_type {
                OrderType::Limit => {
                    let resting = taker.duplicate();
                    proof {
                        lemma_rest_wf(self.side_view(side), side, resting);
                    }
                    match side {
                        OrderSide::Buy => rest_on_side(&mut self.bids, OrderSide::Buy, resting),
                        OrderSide::Sell => rest_on_side(&mut self.asks, OrderSide::Sell, resting),
                    }
                    proof {
                        lemma_seq_step(old(self).sequence, fills@.len() as int, self.sequence);
                    }
                    self.sequence = self.sequence.wrapping_add(1);
                },
                OrderType::Market => {
                    taker.status = OrderStatus::Rejected;
                },
            }
        }
        (taker, fills)
    }
}

/// `b1` is `b0` without the first resting order with `id` (bids searched before
/// asks), and `o` is that order, cancelled.
pub open spec fn cancelled_from(b0: OrderBook, b1: OrderBook, id: OrderId, o: Order) -> bool {
    exists|side: OrderSide, i: int, j: int|
        {
            &&& #[trigger] first_at(b0.side_view(side), id, i, j)
            &&& (side == OrderSide::Sell ==> !has_order(b0.bids_view(), id))
            &&& b1.side_view(side) == remove_at(b0.side_view(side), i, j)
            &&& b1.side_view(side.opposite_spec()) == b0.side_view(side.opposite_spec())
            &&& o == (Order { status: OrderStatus::Cancelled, ..b0.side_view(side)[i].orders[j] })
        }
}

impl OrderBook {
    /// Removes the first resting order with `id`, bids searched before asks, and hands
    /// it back cancelled; `None`, with the book unchanged, when no order has that id.
    pub fn cancel_order(&mut self, id: OrderId) -> (r: Option<Order>)
        requires
            old(self).wf(),
        ensures
            final(self).wf(),
            final(self).symbol@ == old(self).symbol@,
            match r {
                None => {
                    &&& *final(self) == *old(self)
                    &&& !has_order(old(self).bids_view(), id)
                    &&& !has_order(old(self).asks_view(), id)
                    &&& final(self).bids_view() == old(self).bids_view()
                    &&& final(self).asks_view() == old(self).asks_view()
                },
                Some(o) => cancelled_from(*old(self), *final(self), id, o) && final(self).sequence as int == seq_after(
                    old(self).sequence,
                    1,
                ),
            },
    {
        let ghost bids0 = self.bids_view();
        let ghost asks0 = self.asks_view();
        let ghost b0 = *self;
        match find_on_side(&self.bids, id) {
            Some((i, j)) => {
                proof {
                    lemma_remove_at_wf(bids0, OrderSide::Buy, i as int, j as int);
                }
                let mut o = remove_from_side(&mut self.bids, OrderSide::Buy, i, j);
                o.status = OrderStatus::Cancelled;
                proof {
                    lemma_seq_step(self.sequence, 0, self.sequence);
                }
                self.sequence = self.sequence.wrapping_add(1);
                assert(first_at(bids0, id, i as int, j as int));
                assert(self.side_view(OrderSide::Buy) == remove_at(bids0, i as int, j as int));
                assert(self.side_view(OrderSide::Buy.opposite_spec()) == asks0);
                assert(o == (Order { status: OrderStatus::Cancelled, ..bids0[i as int].orders[j as int] }));
                assert(self.wf());
                let ghost side = OrderSide::Buy;
                assert({
                    &&& first_at(b0.side_view(side), id, i as int, j as int)
                    &&& (side == OrderSide::Sell ==> !has_order(bids0, id))
                    &&& self.side_view(side) == remove_at(bids0, i as int, j as int)
                    &&& self.side_view(side.opposite_spec()) == asks0
                    &&& o == (Order { status: OrderStatus::Cancelled, ..bids0[i as int].orders[j as int] })
                });
                return Some(o);
            },
            None => {},
        }
        match find_on_side(&self.asks, id) {
            Some((i, j)) => {
                proof {
                    lemma_remove_at_wf(asks0, OrderSide::Sell, i as int, j as int);
                }
                let mut o = remove_from_side(&mut self.asks, OrderSide::Sell, i, j);
                o.status = OrderStatus::Cancelled;
                proof {
                    lemma_seq_step(self.sequence, 0, self.sequence);
                }
                self.sequence = self.sequence.wrapping_add(1);
                assert(first_at(asks0, id, i as int, j as int));
                assert(self.side_view(OrderSide::Sell) == remove_at(asks0, i as int, j as int));
                assert(self.side_view(OrderSide::Sell.opposite_spec()) == bids0);
                assert(o == (Order { status: OrderStatus::Cancelled, ..asks0[i as int].orders[j as int] }));
                assert(self.wf());
                let ghost side = OrderSide::Sell;
                assert({
                    &&& first_at(b0.side_view(side), id, i as int, j as int)
                    &&& (side == OrderSide::Sell ==> !has_order(bids0, id))
                    &&& self.side_view(side) == remove_at(asks0, i as int, j as int)
                    &&& self.side_view(side.opposite_spec()) == bids0
                    &&& o == (Order { status: OrderStatus::Cancelled, ..asks0[i as int].orders[j as int] })
                });
                Some(o)
            },
            None => None,
        }
    }

    /// The first resting order with `id`, bids searched before asks.
    pub fn get_order(&self, id: OrderId) -> (r: Option<Order>)
        ensures
            match r {
                None => !has_order(self.bids_view(), id) && !has_order(self.asks_view(), id),
                Some(o) => exists|side: OrderSide, i: int, j: int|
                    {
                        &&& #[trigger] first_at(self.side_view(side), id, i, j)
                        &&& o == self.side_view(side)[i].orders[j]
                    },
            },
    {
        match find_on_side(&self.bids, id) {
            Some((i, j)) => {
                let o = self.bids[i].orders[j].duplicate();
                assert(first_at(self.side_view(OrderSide::Buy), id, i as int, j as int));
                return Some(o);
            },
            None => {},
        }
        match find_on_side(&self.asks, id) {
            Some((i, j)) => {
                let o = self.asks[i].orders[j].duplicate();
                assert(first_at(self.side_view(OrderSide::Sell), id, i as int, j as int));
                Some(o)
            },
            None => None,
        }
    }

    /// Highest resting buy price.
    pub fn best_bid(&self) -> (r: Option<u64>)
        ensures
            r == (if self.bids_view().len() == 0 { None } else { Some(self.bids_view()[0].price as u64) }),
    {
        if self.bids.len() == 0 {
            None
        } else {
            Some(self.bids[0].price)
        }
    }

    /// Lowest resting sell price.
    pub fn best_ask(&self) -> (r: Option<u64>)
        ensures
            r == (if self.asks_view().len() == 0 { None } else { Some(self.asks_view()[0].price as u64) }),
    {
        if self.asks.len() == 0 {
            None
        } else {
            Some(self.asks[0].price)
        }
    }

    /// Best ask minus best bid, when both sides have orders.
    pub fn spread(&self) -> (r: Option<u64>)
        requires
            self.wf(),
        ensures
            r == (if self.bids_view().len() == 0 || self.asks_view().len() == 0 {
                None
            } else {
                Some((self.asks_view()[0].price - self.bids_view()[0].price) as u64)
            }),
    {
        match (self.best_ask(), self.best_bid()) {
            (Some(ask), Some(bid)) => Some(ask - bid),
            _ => None,
        }
    }

    /// Halfway between best bid and best ask, rounded down to a unit, when both sides
    /// have orders.
    pub fn mid_price(&self) -> (r: Option<u64>)
        requires
            self.wf(),
        ensures
            r == (if self.bids_view().len() == 0 || self.asks_view().len() == 0 {
                None
            } else {
                Some(((self.asks_view()[0].price + self.bids_view()[0].price) / 2) as u64)
            }),
    {
        match (self.best_ask(), self.best_bid()) {
            (Some(ask), Some(bid)) => Some(bid + (ask - bid) / 2),
            _ => None,
        }
    }

    /// Price and total quantity of the first `n` levels of each side, best first.
    pub fn get_depth(&self, n: usize) -> (r: (Vec<(u64, u128)>, Vec<(u64, u128)>))
        ensures
            r.0@.len() == min_int(n as int, self.bids_view().len() as int),
            r.1@.len() == min_int(n as int, self.asks_view().len() as int),
            forall|k: int| 0 <= k < r.0@.len() ==> #[trigger] r.0@[k] == (self.bids@[k].price, self.bids@[k].total_quantity),
            forall|k: int| 0 <= k < r.1@.len() ==> #[trigger] r.1@[k] == (self.asks@[k].price, self.asks@[k].total_quantity),
    {
        (side_depth(&self.bids, n), side_depth(&self.asks, n))
    }

    /// Number of resting orders, saturating at the largest `usize`.
    pub fn order_count(&self) -> (r: usize)
        ensures
            r == min_int(count_orders(self.bids_view()) + count_orders(self.asks_view()), usize::MAX as int),
    {
        let b = side_count(&self.bids);
        let a = side_count(&self.asks);
        b.saturating_add(a)
    }
}

fn side_depth(levels: &Vec<PriceLevel>, n: usize) -> (r: Vec<(u64, u128)>)
    ensures
        r@.len() == min_int(n as int, levels@.len() as int),
        forall|k: int| 0 <= k < r@.len() ==> #[trigger] r@[k] == (levels@[k].price, levels@[k].total_quantity),
{
    let mut out: Vec<(u64, u128)> = Vec::new();
    let mut i: usize = 0;
    while i < levels.len() && i < n
        invariant
            i <= levels.len(),
            i <= n,
            out@.len() == i,
            forall|k: int| 0 <= k < i ==> #[trigger] out@[k] == (levels@[k].price, levels@[k].total_quantity),
        decreases levels.len() - i,
    {
        out.push((levels[i].price, levels[i].total_quantity));
        i = i + 1;
    }
    out
}

fn side_count(levels: &Vec<PriceLevel>) -> (r: usize)
    ensures
        r == min_int(count_orders(levels_view(levels@)), usize::MAX as int),
{
    let ghost v = levels_view(levels@);
    let mut total: usize = 0;
    let mut i: usize = levels.len();
    proof {
        lemma_count_nonneg(v.skip(i as int));
        assert(v.skip(i as int) =~= Seq::<LevelModel>::empty());
    }
    while i > 0
        invariant
            i <= levels.len(),
            v == levels_view(levels@),
            total == min_int(count_orders(v.skip(i as int)), usize::MAX as int),
        decreases i,
    {
        i = i - 1;
        proof {
            assert(v.skip(i as int).drop_first() =~= v.skip(i as int + 1));
            lemma_count_nonneg(v.skip(i as int + 1));
        }
        total = total.saturating_add(levels[i].orders.len());
    }
    assert(v.skip(0) =~= v);
    total
}

pub proof fn lemma_count_nonneg(levels: Seq<LevelModel>)
    ensures
        count_orders(levels) >= 0,
    decreases levels.len(),
{
    if levels.len() > 0 {
        lemma_count_nonneg(levels.drop_first());
    }
}

/// Every resting order's id is below `floor`.
pub open spec fn ids_below(levels: Seq<LevelModel>, floor: u64) -> bool {
    forall|i: int, j: int|
        0 <= i < levels.len() && 0 <= j < levels[i].orders.len() ==> (#[trigger] levels[i].orders[j]).id.0 < floor
}

pub proof fn lemma_after_trade_ids(levels: Seq<LevelModel>, q: int, floor: u64)
    requires
        ids_below(levels, floor),
        levels.len() > 0,
        levels[0].orders.len() > 0,
    ensures
        ids_below(after_trade(levels, q), floor),
        levels[0].orders[0].id.0 < floor,
{
    let a = after_trade(levels, q);
    let lvl = levels[0];
    let maker2 = lvl.orders[0].filled_by(q);
    let orders2 = if maker2.remaining_spec() <= 0 {
        lvl.orders.drop_first()
    } else {
        lvl.orders.update(0, maker2)
    };
    assert forall|i: int, j: int| 0 <= i < a.len() && 0 <= j < a[i].orders.len() implies (#[trigger] a[i].orders[j]).id.0 < floor by {
        if orders2.len() == 0 {
            assert(a[i].orders[j] == levels[i + 1].orders[j]);
        } else if i > 0 {
            assert(a[i].orders[j] == levels[i].orders[j]);
        } else if maker2.remaining_spec() <= 0 {
            assert(a[i].orders[j] == levels[0].orders[j + 1]);
        } else if j > 0 {
            assert(a[i].orders[j] == levels[0].orders[j]);
        } else {
            assert(levels[0].orders[0].id.0 < floor);
        }
    }
}

/// The walk keeps every id below `floor`, and every maker it trades with is below it.
pub proof fn lemma_walk_ids(levels: Seq<LevelModel>, taker: Order, side: OrderSide, floor: u64)
    requires
        side_wf(levels, side),
        taker.live(),
        ids_below(levels, floor),
    ensures
        ids_below(match_walk(levels, taker).levels, floor),
        forall|k: int|
            0 <= k < match_walk(levels, taker).fills.len() ==> (#[trigger] match_walk(levels, taker).fills[k]).maker.id.0 < floor,
    decreases levels.len(), front_len(levels), nonneg(taker.remaining_spec()),
{
    if taker.remaining_spec() <= 0 || levels.len() == 0 || !taker.crosses(levels[0].price) {
    } else {
        assert(level_wf(levels[0], side));
        let maker = levels[0].orders[0];
        assert(resting_ok(maker, side, levels[0].price));
        let q = min_int(taker.remaining_spec(), maker.remaining_spec());
        lemma_after_trade_wf(levels, side, q);
        lemma_after_trade_ids(levels, q, floor);
        lemma_walk_ids(after_trade(levels, q), taker.filled_by(q), side, floor);
        let rest = match_walk(after_trade(levels, q), taker.filled_by(q));
        let out = match_walk(levels, taker);
        assert forall|k: int| 0 <= k < out.fills.len() implies (#[trigger] out.fills[k]).maker.id.0 < floor by {
            if k > 0 {
                assert(out.fills[k] == rest.fills[k - 1]);
            }
        }
    }
}

pub proof fn lemma_rest_ids(levels: Seq<LevelModel>, side: OrderSide, o: Order, floor: u64)
    requires
        ids_below(levels, floor),
        o.id.0 < floor,
    ensures
        ids_below(rest_order(levels, side, o), floor),
{
    let p = o.price.unwrap() as int;
    lemma_insertion_point(levels, side, p);
    let i = insertion_point(levels, side, p);
    let r = rest_order(levels, side, o);
    assert forall|a: int, b: int| 0 <= a < r.len() && 0 <= b < r[a].orders.len() implies (#[trigger] r[a].orders[b]).id.0 < floor by {
        if i < levels.len() && levels[i].price == p {
            if a == i && b == levels[i].orders.len() {
                assert(r[a].orders[b] == o);
            } else {
                assert(r[a].orders[b] == levels[a].orders[b]);
            }
        } else if a < i {
            assert(r[a].orders[b] == levels[a].orders[b]);
        } else if a > i {
            assert(r[a].orders[b] == levels[a - 1].orders[b]);
        } else {
            assert(r[a].orders[b] == o);
        }
    }
}

pub proof fn lemma_remove_ids(levels: Seq<LevelModel>, i: int, j: int, floor: u64)
    requires
        ids_below(levels, floor),
        0 <= i < levels.len(),
        0 <= j < levels[i].orders.len(),
    ensures
        ids_below(remove_at(levels, i, j), floor),
{
    let r = remove_at(levels, i, j);
    let orders2 = levels[i].orders.remove(j);
    assert forall|a: int, b: int| 0 <= a < r.len() && 0 <= b < r[a].orders.len() implies (#[trigger] r[a].orders[b]).id.0 < floor by {
        if orders2.len() == 0 {
            if a < i {
                assert(r[a].orders[b] == levels[a].orders[b]);
            } else {
                assert(r[a].orders[b] == levels[a + 1].orders[b]);
            }
        } else if a != i {
            assert(r[a].orders[b] == levels[a].orders[b]);
        } else if b < j {
            assert(r[a].orders[b] == levels[a].orders[b]);
        } else {
            assert(r[a].orders[b] == levels[a].orders[b + 1]);
        }
    }
}

pub proof fn lemma_ids_below_mono(levels: Seq<LevelModel>, f1: u64, f2: u64)
    requires
        ids_below(levels, f1),
        f1 <= f2,
    ensures
        ids_below(levels, f2),
{
}

pub proof fn lemma_below_not_has(levels: Seq<LevelModel>, floor: u64, id: OrderId)
    requires
        ids_below(levels, floor),
        id.0 >= floor,
    ensures
        !has_order(levels, id),
{
    assert forall|i: int, j: int| 0 <= i < levels.len() && 0 <= j < levels[i].orders.len() implies #[trigger] levels[i].orders[j].id != id by {
        assert(levels[i].orders[j].id.0 < floor);
    }
}

/// Price-time priority: the walk trades with the side's resting orders in priority
/// order (best price first, oldest first within a price) and takes each one in full
/// before the next; so of two orders A and B resting at one price with A queued
/// first, no part of B trades while A has something left.
pub proof fn law_price_time_priority(levels: Seq<LevelModel>, taker: Order, side: OrderSide)
    requires
        side_wf(levels, side),
        taker.live(),
    ensures
        forall|k: int|
            0 <= k < match_walk(levels, taker).fills.len() ==> {
                &&& (#[trigger] match_walk(levels, taker).fills[k]).maker.id == flatten(levels)[k].id
                &&& k + 1 < match_walk(levels, taker).fills.len() ==> match_walk(levels, taker).fills[k].maker.remaining_spec() == 0
            },
{
    lemma_walk(levels, taker, side);
}

/// Resting-price rule: every trade is at the price its maker rests at, never the
/// taker's.
pub proof fn law_resting_price(levels: Seq<LevelModel>, taker: Order, side: OrderSide)
    requires
        side_wf(levels, side),
        taker.live(),
    ensures
        forall|k: int|
            0 <= k < match_walk(levels, taker).fills.len() ==> {
                &&& (#[trigger] match_walk(levels, taker).fills[k]).maker.price == Some(match_walk(levels, taker).fills[k].price as u64)
                &&& flatten(levels)[k].price == Some(match_walk(levels, taker).fills[k].price as u64)
            },
{
    lemma_walk(levels, taker, side);
    let out = match_walk(levels, taker);
    assert forall|k: int| 0 <= k < out.fills.len() implies flatten(levels)[k].price == Some(
        #[trigger] out.fills[k].price as u64,
    ) by {
        assert(out.fills[k].maker == flatten(levels)[k].filled_by(out.fills[k].quantity));
    }
}

/// When equal remaining quantities meet at the front of the best level and that level
/// holds one order, both orders are filled in one trade and the level is gone.
pub proof fn law_equal_quantities(levels: Seq<LevelModel>, taker: Order, side: OrderSide)
    requires
        side_wf(levels, side),
        taker.live(),
        levels.len() > 0,
        levels[0].orders.len() == 1,
        taker.crosses(levels[0].price),
        taker.remaining_spec() == levels[0].orders[0].remaining_spec(),
        taker.remaining_spec() > 0,
    ensures
        match_walk(levels, taker).fills.len() == 1,
        match_walk(levels, taker).fills[0].maker.status == OrderStatus::Filled,
        match_walk(levels, taker).taker.status == OrderStatus::Filled,
        match_walk(levels, taker).levels == levels.drop_first(),
{
    let maker = levels[0].orders[0];
    let q = taker.remaining_spec();
    let t2 = taker.filled_by(q);
    assert(t2.remaining_spec() == 0);
    assert(maker.filled_by(q).remaining_spec() == 0);
    assert(levels[0].orders.drop_first().len() == 0);
    assert(after_trade(levels, q) == levels.drop_first());
    assert(match_walk(levels.drop_first(), t2).fills.len() == 0);
}

/// The position of `o` after it rests on a side that held no order with its id.
pub proof fn lemma_rest_position(levels: Seq<LevelModel>, side: OrderSide, o: Order)
    requires
        side_wf(levels, side),
        !has_order(levels, o.id),
    ensures
        exists|i: int, j: int|
            {
                &&& #[trigger] first_at(rest_order(levels, side, o), o.id, i, j)
                &&& remove_at(rest_order(levels, side, o), i, j) == levels
                &&& rest_order(levels, side, o)[i].orders[j] == o
            },
{
    let p = o.price.unwrap() as int;
    lemma_insertion_point(levels, side, p);
    let i = insertion_point(levels, side, p);
    let r = rest_order(levels, side, o);
    if i < levels.len() && levels[i].price == p {
        let l = levels[i];
        let j = l.orders.len() as int;
        assert(r[i].orders[j] == o);
        assert forall|a: int, b: int| 0 <= a < i && 0 <= b < r[a].orders.len() implies #[trigger] r[a].orders[b].id != o.id by {
            assert(r[a] == levels[a]);
        }
        assert forall|b: int| 0 <= b < j implies #[trigger] r[i].orders[b].id != o.id by {
            assert(r[i].orders[b] == l.orders[b]);
        }
        assert(first_at(r, o.id, i, j));
        assert(level_wf(l, side));
        assert(r[i].orders.remove(j) =~= l.orders);
        assert(remove_at(r, i, j) =~= levels) by {
            assert(r[i].total - o.remaining_spec() == l.total);
        }
    } else {
        assert(r[i].orders[0] == o);
        assert forall|a: int, b: int| 0 <= a < i && 0 <= b < r[a].orders.len() implies #[trigger] r[a].orders[b].id != o.id by {
            assert(r[a] == levels[a]);
        }
        assert(first_at(r, o.id, i, 0));
        assert(r[i].orders.remove(0).len() == 0);
        assert(remove_at(r, i, 0) =~= levels);
    }
}

/// Submitting a limit order that rests without trading and then cancelling it gives
/// back the book as it was, and the cancelled order still has its whole quantity.
pub proof fn law_submit_cancel_round_trip(b0: OrderBook, o: Order, b1: OrderBook, b2: OrderBook, c: Order)
    requires
        b0.wf(),
        valid_new_order(o),
        o.order_type == OrderType::Limit,
        !has_order(b0.bids_view(), o.id),
        !has_order(b0.asks_view(), o.id),
        match_walk(b0.side_view(o.side.opposite_spec()), o).fills.len() == 0,
        b1.side_view(o.side.opposite_spec()) == match_walk(b0.side_view(o.side.opposite_spec()), o).levels,
        b1.side_view(o.side) == own_side_after(
            b0.side_view(o.side),
            o.side,
            match_walk(b0.side_view(o.side.opposite_spec()), o).taker,
        ),
        cancelled_from(b1, b2, o.id, c),
    ensures
        b2.bids_view() == b0.bids_view(),
        b2.asks_view() == b0.asks_view(),
        c.remaining_spec() == o.quantity,
{
    let side = o.side;
    let opp = side.opposite_spec();
    lemma_walk(b0.side_view(opp), o, opp);
    let walk = match_walk(b0.side_view(opp), o);
    assert(walk.taker == o);
    assert(walk.levels == b0.side_view(opp));
    assert(b0.side_view(side) == b0.bids_view() || b0.side_view(side) == b0.asks_view());
    assert(!has_order(b0.side_view(side), o.id));
    assert(!has_order(b0.side_view(opp), o.id));
    lemma_rest_position(b0.side_view(side), side, o);
    let own1 = rest_order(b0.side_view(side), side, o);
    assert(b1.side_view(side) == own1);
    let (i0, j0) = choose|i: int, j: int|
        {
            &&& #[trigger] first_at(own1, o.id, i, j)
            &&& remove_at(own1, i, j) == b0.side_view(side)
            &&& own1[i].orders[j] == o
        };
    let (s2, i, j) = choose|s2: OrderSide, i: int, j: int|
        {
            &&& #[trigger] first_at(b1.side_view(s2), o.id, i, j)
            &&& (s2 == OrderSide::Sell ==> !has_order(b1.bids_view(), o.id))
            &&& b2.side_view(s2) == remove_at(b1.side_view(s2), i, j)
            &&& b2.side_view(s2.opposite_spec()) == b1.side_view(s2.opposite_spec())
            &&& c == (Order { status: OrderStatus::Cancelled, ..b1.side_view(s2)[i].orders[j] })
        };
    if s2 != side {
        assert(s2 == opp);
        assert(b1.side_view(s2) == b0.side_view(opp));
        assert(b0.side_view(opp)[i].orders[j].id == o.id);
        assert(false);
    }
    lemma_first_at_unique(own1, o.id, i, j, i0, j0);
    assert(b2.side_view(side) == b0.side_view(side));
    assert(b2.side_view(opp) == b0.side_view(opp));
    match side {
        OrderSide::Buy => {},
        OrderSide::Sell => {},
    }
}

/// No two resting orders of a side share an id.
pub open spec fn ids_distinct(levels: Seq<LevelModel>) -> bool {
    forall|i1: int, j1: int, i2: int, j2: int|
        0 <= i1 < levels.len() && 0 <= j1 < levels[i1].orders.len() && 0 <= i2 < levels.len() && 0 <= j2
            < levels[i2].orders.len() && (#[trigger] levels[i1].orders[j1]).id == (#[trigger] levels[i2].orders[j2]).id
            ==> i1 == i2 && j1 == j2
}

/// Where the order at (i, j) of `after_trade(levels, q)` stood before the trade.
pub open spec fn pre_trade_pos(levels: Seq<LevelModel>, q: int, i: int, j: int) -> (int, int) {
    let maker2 = levels[0].orders[0].filled_by(q);
    let removed = maker2.remaining_spec() <= 0;
    if removed && levels[0].orders.len() == 1 {
        (i + 1, j)
    } else if removed && i == 0 {
        (0, j + 1)
    } else {
        (i, j)
    }
}

pub proof fn lemma_pre_trade_pos(levels: Seq<LevelModel>, q: int, i: int, j: int)
    requires
        levels.len() > 0,
        levels[0].orders.len() > 0,
        0 <= i < after_trade(levels, q).len(),
        0 <= j < after_trade(levels, q)[i].orders.len(),
    ensures
        ({
            let (a, b) = pre_trade_pos(levels, q, i, j);
            &&& 0 <= a < levels.len()
            &&& 0 <= b < levels[a].orders.len()
            &&& levels[a].orders[b].id == after_trade(levels, q)[i].orders[j].id
            &&& (a, b) != (0int, 0int) || levels[0].orders[0].filled_by(q).remaining_spec() > 0
        }),
{
}

/// Ids that rest after `op` rested before.
pub open spec fn ids_within(after: Seq<LevelModel>, before: Seq<LevelModel>) -> bool {
    forall|id: OrderId| #[trigger] has_order(after, id) ==> has_order(before, id)
}

pub proof fn lemma_after_trade_distinct(levels: Seq<LevelModel>, q: int)
    requires
        ids_distinct(levels),
        levels.len() > 0,
        levels[0].orders.len() > 0,
    ensures
        ids_distinct(after_trade(levels, q)),
        ids_within(after_trade(levels, q), levels),
        levels[0].orders[0].filled_by(q).remaining_spec() <= 0 ==> !has_order(after_trade(levels, q), levels[0].orders[0].id),
{
    let a = after_trade(levels, q);
    assert forall|i1: int, j1: int, i2: int, j2: int|
        0 <= i1 < a.len() && 0 <= j1 < a[i1].orders.len() && 0 <= i2 < a.len() && 0 <= j2 < a[i2].orders.len()
            && (#[trigger] a[i1].orders[j1]).id == (#[trigger] a[i2].orders[j2]).id implies i1 == i2 && j1 == j2 by {
        lemma_pre_trade_pos(levels, q, i1, j1);
        lemma_pre_trade_pos(levels, q, i2, j2);
        let (x1, y1) = pre_trade_pos(levels, q, i1, j1);
        let (x2, y2) = pre_trade_pos(levels, q, i2, j2);
        assert(levels[x1].orders[y1].id == levels[x2].orders[y2].id);
    }
    assert forall|id: OrderId| #[trigger] has_order(a, id) implies has_order(levels, id) by {
        let (i, j) = choose|i: int, j: int| 0 <= i < a.len() && 0 <= j < a[i].orders.len() && #[trigger] a[i].orders[j].id == id;
        lemma_pre_trade_pos(levels, q, i, j);
        let (x, y) = pre_trade_pos(levels, q, i, j);
        assert(levels[x].orders[y].id == id);
    }
    if levels[0].orders[0].filled_by(q).remaining_spec() <= 0 {
        if has_order(a, levels[0].orders[0].id) {
            let (i, j) = choose|i: int, j: int|
                0 <= i < a.len() && 0 <= j < a[i].orders.len() && #[trigger] a[i].orders[j].id == levels[0].orders[0].id;
            lemma_pre_trade_pos(levels, q, i, j);
            let (x, y) = pre_trade_pos(levels, q, i, j);
            assert(levels[x].orders[y].id == levels[0].orders[0].id);
        }
    }
}

/// The walk keeps ids distinct, adds none, and a maker it fills completely no longer
/// rests.
pub proof fn lemma_walk_distinct(levels: Seq<LevelModel>, taker: Order, side: OrderSide)
    requires
        side_wf(levels, side),
        taker.live(),
        ids_distinct(levels),
    ensures
        ids_distinct(match_walk(levels, taker).levels),
        ids_within(match_walk(levels, taker).levels, levels),
        forall|k: int|
            0 <= k < match_walk(levels, taker).fills.len() && (#[trigger] match_walk(levels, taker).fills[k]).maker.remaining_spec() == 0
                ==> !has_order(match_walk(levels, taker).levels, match_walk(levels, taker).fills[k].maker.id),
    decreases levels.len(), front_len(levels), nonneg(taker.remaining_spec()),
{
    if taker.remaining_spec() <= 0 || levels.len() == 0 || !taker.crosses(levels[0].price) {
    } else {
        assert(level_wf(levels[0], side));
        let maker = levels[0].orders[0];
        assert(resting_ok(maker, side, levels[0].price));
        let q = min_int(taker.remaining_spec(), maker.remaining_spec());
        let after = after_trade(levels, q);
        lemma_after_trade_wf(levels, side, q);
        lemma_after_trade_distinct(levels, q);
        let t2 = taker.filled_by(q);
        lemma_walk_distinct(after, t2, side);
        let rest = match_walk(after, t2);
        let out = match_walk(levels, taker);
        assert forall|id: OrderId| #[trigger] has_order(out.levels, id) implies has_order(levels, id) by {
            assert(has_order(after, id));
        }
        assert forall|k: int|
            0 <= k < out.fills.len() && (#[trigger] out.fills[k]).maker.remaining_spec() == 0 implies !has_order(out.levels, out.fills[k].maker.id) by {
            if k > 0 {
                assert(out.fills[k] == rest.fills[k - 1]);
            } else {
                assert(out.fills[0].maker == maker.filled_by(q));
                if has_order(out.levels, maker.id) {
                    assert(has_order(after, maker.id));
                }
            }
        }
    }
}

pub proof fn lemma_rest_distinct(levels: Seq<LevelModel>, side: OrderSide, o: Order)
    requires
        ids_distinct(levels),
        !has_order(levels, o.id),
    ensures
        ids_distinct(rest_order(levels, side, o)),
        forall|id: OrderId| #[trigger] has_order(rest_order(levels, side, o), id) ==> has_order(levels, id) || id == o.id,
{
    let p = o.price.unwrap() as int;
    lemma_insertion_point(levels, side, p);
    let i = insertion_point(levels, side, p);
    let r = rest_order(levels, side, o);
    let upd = i < levels.len() && levels[i].price == p;
    // where (a, b) of r stood in levels, or None for `o` itself
    assert forall|a: int, b: int| 0 <= a < r.len() && 0 <= b < r[a].orders.len() implies (#[trigger] r[a].orders[b] == o)
        || (if upd { levels[a].orders.len() > b && r[a].orders[b] == levels[a].orders[b] } else if a < i {
        levels[a].orders.len() > b && r[a].orders[b] == levels[a].orders[b]
    } else {
        a > i && levels[a - 1].orders.len() > b && r[a].orders[b] == levels[a - 1].orders[b]
    }) by {}
    assert forall|a1: int, b1: int, a2: int, b2: int|
        0 <= a1 < r.len() && 0 <= b1 < r[a1].orders.len() && 0 <= a2 < r.len() && 0 <= b2 < r[a2].orders.len()
            && (#[trigger] r[a1].orders[b1]).id == (#[trigger] r[a2].orders[b2]).id implies a1 == a2 && b1 == b2 by {
        if upd {
            let last = levels[i].orders.len() as int;
            if (a1 == i && b1 == last) != (a2 == i && b2 == last) {
                if a1 == i && b1 == last {
                    assert(r[a2].orders[b2] == levels[a2].orders[b2]);
                } else {
                    assert(r[a1].orders[b1] == levels[a1].orders[b1]);
                }
            } else if !(a1 == i && b1 == last) {
                assert(r[a1].orders[b1] == levels[a1].orders[b1]);
                assert(r[a2].orders[b2] == levels[a2].orders[b2]);
            }
        } else {
            let x1 = if a1 < i { a1 } else { a1 - 1 };
            let x2 = if a2 < i { a2 } else { a2 - 1 };
            if (a1 == i) != (a2 == i) {
                if a1 == i {
                    assert(r[a2].orders[b2] == levels[x2].orders[b2]);
                } else {
                    assert(r[a1].orders[b1] == levels[x1].orders[b1]);
                }
            } else if a1 != i {
                assert(r[a1].orders[b1] == levels[x1].orders[b1]);
                assert(r[a2].orders[b2] == levels[x2].orders[b2]);
            }
        }
    }
    assert forall|id: OrderId| #[trigger] has_order(r, id) implies has_order(levels, id) || id == o.id by {
        let (a, b) = choose|a: int, b: int| 0 <= a < r.len() && 0 <= b < r[a].orders.len() && #[trigger] r[a].orders[b].id == id;
        if upd {
            if !(a == i && b == levels[i].orders.len()) {
                assert(r[a].orders[b] == levels[a].orders[b]);
            }
        } else if a < i {
            assert(r[a].orders[b] == levels[a].orders[b]);
        } else if a > i {
            assert(r[a].orders[b] == levels[a - 1].orders[b]);
        }
    }
}

pub proof fn lemma_remove_distinct(levels: Seq<LevelModel>, i: int, j: int)
    requires
        ids_distinct(levels),
        0 <= i < levels.len(),
        0 <= j < levels[i].orders.len(),
    ensures
        ids_distinct(remove_at(levels, i, j)),
        ids_within(remove_at(levels, i, j), levels),
        !has_order(remove_at(levels, i, j), levels[i].orders[j].id),
{
    let r = remove_at(levels, i, j);
    let gone = levels[i].orders.len() == 1;
    assert forall|a: int, b: int| 0 <= a < r.len() && 0 <= b < r[a].orders.len() implies {
        let (x, y) = remove_pre_pos(levels, i, j, a, b);
        &&& 0 <= x < levels.len() && 0 <= y < levels[x].orders.len()
        &&& (#[trigger] r[a].orders[b]) == levels[x].orders[y]
        &&& (x, y) != (i, j)
    } by {}
    assert forall|a1: int, b1: int, a2: int, b2: int|
        0 <= a1 < r.len() && 0 <= b1 < r[a1].orders.len() && 0 <= a2 < r.len() && 0 <= b2 < r[a2].orders.len()
            && (#[trigger] r[a1].orders[b1]).id == (#[trigger] r[a2].orders[b2]).id implies a1 == a2 && b1 == b2 by {
        let (x1, y1) = remove_pre_pos(levels, i, j, a1, b1);
        let (x2, y2) = remove_pre_pos(levels, i, j, a2, b2);
        assert(levels[x1].orders[y1].id == levels[x2].orders[y2].id);
    }
    assert forall|id: OrderId| #[trigger] has_order(r, id) implies has_order(levels, id) by {
        let (a, b) = choose|a: int, b: int| 0 <= a < r.len() && 0 <= b < r[a].orders.len() && #[trigger] r[a].orders[b].id == id;
        let (x, y) = remove_pre_pos(levels, i, j, a, b);
        assert(levels[x].orders[y].id == id);
    }
    if has_order(r, levels[i].orders[j].id) {
        let (a, b) = choose|a: int, b: int|
            0 <= a < r.len() && 0 <= b < r[a].orders.len() && #[trigger] r[a].orders[b].id == levels[i].orders[j].id;
        let (x, y) = remove_pre_pos(levels, i, j, a, b);
        assert(levels[x].orders[y].id == levels[i].orders[j].id);
    }
}

/// Where the order at (a, b) of `remove_at(levels, i, j)` stood before.
pub open spec fn remove_pre_pos(levels: Seq<LevelModel>, i: int, j: int, a: int, b: int) -> (int, int) {
    if levels[i].orders.len() == 1 {
        if a < i {
            (a, b)
        } else {
            (a + 1, b)
        }
    } else if a == i && b >= j {
        (a, b + 1)
    } else {
        (a, b)
    }
}

/// Every resting order's id occurs once in the whole book.
pub open spec fn ids_unique(b: OrderBook) -> bool {
    &&& ids_distinct(b.bids_view())
    &&& ids_distinct(b.asks_view())
    &&& forall|id: OrderId| #[trigger] has_order(b.bids_view(), id) ==> !has_order(b.asks_view(), id)
}

/// Index consistency: in a book whose ids are unique, the id of a resting order
/// names exactly one place, one side, one level (hence one price) and one position
/// in its queue.
pub proof fn law_index_consistency(b: OrderBook, s1: OrderSide, i1: int, j1: int, s2: OrderSide, i2: int, j2: int)
    requires
        ids_unique(b),
        0 <= i1 < b.side_view(s1).len(),
        0 <= j1 < b.side_view(s1)[i1].orders.len(),
        0 <= i2 < b.side_view(s2).len(),
        0 <= j2 < b.side_view(s2)[i2].orders.len(),
        b.side_view(s1)[i1].orders[j1].id == b.side_view(s2)[i2].orders[j2].id,
    ensures
        s1 == s2 && i1 == i2 && j1 == j2,
        b.side_view(s1)[i1].price == b.side_view(s2)[i2].price,
{
    let id = b.side_view(s1)[i1].orders[j1].id;
    if s1 != s2 {
        assert(has_order(b.side_view(s1), id));
        assert(has_order(b.side_view(s2), id));
        if s1 == OrderSide::Buy {
            assert(has_order(b.bids_view(), id));
        } else {
            assert(has_order(b.bids_view(), id));
        }
    }
    assert(b.side_view(s1)[i1].orders[j1] == b.side_view(s1)[i1].orders[j1]);
}

impl PriceLevel {
    /// A deep copy.
    pub fn duplicate(&self) -> (r: PriceLevel)
        ensures
            r@ == self@,
    {
        let mut orders: Vec<Order> = Vec::new();
        let mut i: usize = 0;
        while i < self.orders.len()
            invariant
                0 <= i <= self.orders@.len(),
                orders@ == self.orders@.take(i as int),
            decreases self.orders.len() - i,
        {
            orders.push(self.orders[i].duplicate());
            i = i + 1;
            assert(orders@ =~= self.orders@.take(i as int));
        }
        assert(self.orders@.take(i as int) =~= self.orders@);
        PriceLevel { price: self.price, total_quantity: self.total_quantity, orders }
    }
}

fn copy_side(levels: &Vec<PriceLevel>) -> (r: Vec<PriceLevel>)
    ensures
        levels_view(r@) == levels_view(levels@),
{
    let mut out: Vec<PriceLevel> = Vec::new();
    let mut i: usize = 0;
    while i < levels.len()
        invariant
            0 <= i <= levels@.len(),
            out@.len() == i,
            levels_view(out@) == levels_view(levels@.take(i as int)),
        decreases levels.len() - i,
    {
        let ghost pre = out@;
        let d = levels[i].duplicate();
        out.push(d);
        proof {
            let t1 = levels@.take(i as int + 1);
            assert(levels_view(out@).len() == levels_view(t1).len());
            assert forall|j: int| 0 <= j < i + 1 implies #[trigger] levels_view(out@)[j] == levels_view(t1)[j] by {
                if j < i {
                    assert(out@[j] == pre[j]);
                    assert(levels_view(pre)[j] == levels_view(levels@.take(i as int))[j]);
                    assert(t1[j] == levels@.take(i as int)[j]);
                }
            }
            assert(levels_view(out@) =~= levels_view(t1));
        }
        i = i + 1;
    }
    assert(levels@.take(i as int) =~= levels@);
    out
}

/// Previews matching without touching the book.
pub struct LockFreeMatchingAlgorithm;

impl LockFreeMatchingAlgorithm {
    /// The trades `incoming_order` would make against the side opposite it, as
    /// (maker id, price, quantity), in the order the walk would make them; the
    /// book itself is left as it is.
    pub fn find_best_matches(incoming_order: &Order, bids: &Vec<PriceLevel>, asks: &Vec<PriceLevel>) -> (r: Vec<(OrderId, u64, u64)>)
        requires
            side_wf(levels_view(bids@), OrderSide::Buy),
            side_wf(levels_view(asks@), OrderSide::Sell),
            incoming_order.live(),
        ensures
            ({
                let opp = match incoming_order.side {
                    OrderSide::Buy => levels_view(asks@),
                    OrderSide::Sell => levels_view(bids@),
                };
                let fills = match_walk(opp, *incoming_order).fills;
                &&& r@.len() == fills.len()
                &&& forall|k: int|
                    0 <= k < r@.len() ==> #[trigger] r@[k] == (fills[k].maker.id, fills[k].price as u64, fills[k].quantity as u64)
            }),
    {
        let mut taker = incoming_order.duplicate();
        let mut sequence: u64 = 0;
        let symbol = incoming_order.symbol.clone();
        let fills = match incoming_order.side {
            OrderSide::Buy => {
                let mut copy = copy_side(asks);
                walk_side(&mut copy, OrderSide::Sell, &mut taker, &symbol, &mut sequence, 0)
            },
            OrderSide::Sell => {
                let mut copy = copy_side(bids);
                walk_side(&mut copy, OrderSide::Buy, &mut taker, &symbol, &mut sequence, 0)
            },
        };
        let ghost fv = fills_view(fills@);
        let mut out: Vec<(OrderId, u64, u64)> = Vec::new();
        let mut k: usize = 0;
        while k < fills.len()
            invariant
                0 <= k <= fills@.len(),
                fv == fills_view(fills@),
                out@.len() == k,
                forall|j: int| 0 <= j < k ==> #[trigger] out@[j] == (fv[j].maker.id, fv[j].price as u64, fv[j].quantity as u64),
            decreases fills.len() - k,
        {
            let m = &fills[k];
            assert(fv[k as int] == m@);
            out.push((m.maker.id, m.price, m.quantity));
            k = k + 1;
        }
        out
    }
}

} // verus!
