//! The dispatcher: one book per symbol, order ids, execution reports.

use vstd::prelude::*;

use crate::book::{
    cancelled_from, fills_view, has_order, ids_below, lemma_ids_below_mono, lemma_remove_ids,
    lemma_rest_ids, lemma_walk, lemma_walk_ids, match_walk, own_side_after, remove_at, sum_fills,
    valid_new_order, min_int, flatten, side_wf, ids_unique, lemma_walk_distinct, lemma_rest_distinct,
    lemma_remove_distinct, lemma_below_not_has, ids_distinct, FillModel, LevelModel, MatchOutcome, MatchResult, OrderBook, first_at,
};
use crate::metrics::AtomicMetrics;
use crate::types::{ExecutionType, Order, OrderId, OrderSide, OrderStatus, OrderType};

verus! {

/// A report of one change to one order.
pub struct ExecutionReport {
    pub execution_id: u64,
    pub order_id: OrderId,
    pub trade_id: Option<u64>,
    pub client_id: String,
    pub symbol: String,
    pub side: OrderSide,
    pub execution_type: ExecutionType,
    pub order_status: OrderStatus,
    pub price: Option<u64>,
    pub last_price: Option<u64>,
    pub last_quantity: u64,
    pub cumulative_quantity: u64,
    pub leaves_quantity: u64,
    pub sequence: u64,
    pub timestamp: u64,
    /// Time the command took, set by the caller that measured it; the engine leaves 0.
    pub latency_nanos: u64,
}

/// What a report says of its order.
pub struct ReportModel {
    pub order_id: OrderId,
    pub execution_type: ExecutionType,
    pub status: OrderStatus,
    pub last_price: Option<u64>,
    pub last_quantity: int,
    pub cumulative: int,
    pub leaves: int,
}

impl View for ExecutionReport {
    type V = ReportModel;

    open spec fn view(&self) -> ReportModel {
        ReportModel {
            order_id: self.order_id,
            execution_type: self.execution_type,
            status: self.order_status,
            last_price: self.last_price,
            last_quantity: self.last_quantity as int,
            cumulative: self.cumulative_quantity as int,
            leaves: self.leaves_quantity as int,
        }
    }
}

pub open spec fn reports_view(s: Seq<ExecutionReport>) -> Seq<ReportModel> {
    s.map_values(|r: ExecutionReport| r@)
}

/// A report of `o` as it stands: traded so far, and what is left.
pub open spec fn state_report(o: Order, t: ExecutionType, last_price: Option<u64>, last_quantity: int) -> ReportModel {
    ReportModel {
        order_id: o.id,
        execution_type: t,
        status: o.status,
        last_price,
        last_quantity,
        cumulative: o.filled_quantity as int,
        leaves: o.remaining_spec(),
    }
}

pub open spec fn fill_type(o: Order) -> ExecutionType {
    if o.remaining_spec() <= 0 {
        ExecutionType::Fill
    } else {
        ExecutionType::PartialFill
    }
}

/// The report of an order refused at submission: nothing traded, all of it left.
pub open spec fn reject_report(o: Order) -> ReportModel {
    ReportModel {
        order_id: o.id,
        execution_type: ExecutionType::Rejected,
        status: OrderStatus::Rejected,
        last_price: None,
        last_quantity: 0,
        cumulative: 0,
        leaves: o.quantity as int,
    }
}

/// Two reports per trade, in the order the trades happened: the taker's, then the maker's.
pub open spec fn trade_reports(taker: Order, fills: Seq<FillModel>) -> Seq<ReportModel>
    decreases fills.len(),
{
    if fills.len() == 0 {
        seq![]
    } else {
        let f = fills[0];
        let t2 = taker.filled_by(f.quantity);
        seq![
            state_report(t2, fill_type(t2), Some(f.price as u64), f.quantity),
            state_report(f.maker, fill_type(f.maker), Some(f.price as u64), f.quantity),
        ] + trade_reports(t2, fills.drop_first())
    }
}

/// What follows the trade reports: a market remainder is rejected; an order that
/// rests without trading is reported new.
pub open spec fn closing_reports(walk: MatchOutcome) -> Seq<ReportModel> {
    let t = walk.taker;
    if t.order_type == OrderType::Market && t.remaining_spec() > 0 {
        seq![state_report(Order { status: OrderStatus::Rejected, ..t }, ExecutionType::Rejected, None, 0)]
    } else if walk.fills.len() == 0 {
        seq![state_report(t, ExecutionType::New, None, 0)]
    } else {
        seq![]
    }
}

pub open spec fn submit_reports(o: Order, walk: MatchOutcome) -> Seq<ReportModel> {
    trade_reports(o, walk.fills) + closing_reports(walk)
}

/// The report of a cancelled order: what it traded before, and what left the book.
pub open spec fn cancel_report(o: Order) -> ReportModel {
    state_report(o, ExecutionType::Cancelled, None, 0)
}

/// Index of the first book for `sym`, or -1.
pub open spec fn book_index(books: Seq<OrderBook>, sym: Seq<char>) -> int
    decreases books.len(),
{
    if books.len() == 0 {
        -1
    } else if books[0].symbol@ == sym {
        0
    } else {
        let r = book_index(books.drop_first(), sym);
        if r < 0 {
            -1
        } else {
            r + 1
        }
    }
}

/// The two sides (bids, asks) of the book for `sym`; empty where there is none.
pub open spec fn sides_for(books: Seq<OrderBook>, sym: Seq<char>) -> (Seq<LevelModel>, Seq<LevelModel>) {
    let i = book_index(books, sym);
    if i >= 0 {
        (books[i].bids_view(), books[i].asks_view())
    } else {
        (Seq::empty(), Seq::empty())
    }
}

pub open spec fn pick(sides: (Seq<LevelModel>, Seq<LevelModel>), side: OrderSide) -> Seq<LevelModel> {
    match side {
        OrderSide::Buy => sides.0,
        OrderSide::Sell => sides.1,
    }
}

pub proof fn lemma_book_index_at(books: Seq<OrderBook>, sym: Seq<char>, i: int)
    requires
        0 <= i <= books.len(),
        forall|k: int| 0 <= k < i ==> (#[trigger] books[k]).symbol@ != sym,
        i < books.len() ==> books[i].symbol@ == sym,
    ensures
        book_index(books, sym) == (if i < books.len() { i } else { -1 }),
    decreases i,
{
    if i > 0 {
        assert(books[0].symbol@ != sym);
        assert forall|k: int| 0 <= k < i - 1 implies (#[trigger] books.drop_first()[k]).symbol@ != sym by {
            assert(books[k + 1].symbol@ != sym);
        }
        lemma_book_index_at(books.drop_first(), sym, i - 1);
    }
}

pub proof fn lemma_sum_fills_nonneg(f: Seq<FillModel>)
    requires
        forall|k: int| 0 <= k < f.len() ==> (#[trigger] f[k]).quantity >= 0,
    ensures
        sum_fills(f) >= 0,
    decreases f.len(),
{
    if f.len() > 0 {
        assert forall|k: int| 0 <= k < f.drop_first().len() implies (#[trigger] f.drop_first()[k]).quantity >= 0 by {
            assert(f[k + 1].quantity >= 0);
        }
        lemma_sum_fills_nonneg(f.drop_first());
    }
}

fn make_report(
    o: &Order,
    t: ExecutionType,
    last_price: Option<u64>,
    last_quantity: u64,
    trade_id: Option<u64>,
    execution_id: u64,
    sequence: u64,
    now: u64,
) -> (r: ExecutionReport)
    requires
        o.filled_quantity <= o.quantity,
    ensures
        r@ == state_report(*o, t, last_price, last_quantity as int),
{
    ExecutionReport {
        execution_id,
        order_id: o.id,
        trade_id,
        client_id: o.client_id.clone(),
        symbol: o.symbol.clone(),
        side: o.side,
        execution_type: t,
        order_status: o.status,
        price: o.price,
        last_price,
        last_quantity,
        cumulative_quantity: o.filled_quantity,
        leaves_quantity: o.quantity - o.filled_quantity,
        sequence,
        timestamp: now,
        latency_nanos: 0,
    }
}

fn fill_type_exec(o: &Order) -> (r: ExecutionType)
    ensures
        r == fill_type(*o),
{
    if o.filled_quantity >= o.quantity {
        ExecutionType::Fill
    } else {
        ExecutionType::PartialFill
    }
}

/// Owns one book per symbol and turns commands into execution reports.
pub struct MatchingEngine {
    pub books: Vec<OrderBook>,
    /// Whether an order for an unknown symbol opens a new book (else it is rejected).
    pub auto_create_books: bool,
    /// Next id that `mint_order_id` hands out.
    pub next_mint: u64,
    /// Submitted ids must be at least this; every resting order's id is below it.
    pub id_floor: u64,
    pub next_execution_id: u64,
    /// Orders taken, refused and cancelled so far.
    pub metrics: AtomicMetrics,
}

impl MatchingEngine {
    pub open spec fn wf(&self) -> bool {
        forall|k: int|
            0 <= k < self.books@.len() ==> {
                &&& (#[trigger] self.books@[k]).wf()
                &&& ids_unique(self.books@[k])
                &&& ids_below(self.books@[k].bids_view(), self.id_floor)
                &&& ids_below(self.books@[k].asks_view(), self.id_floor)
            }
    }

    /// Whether a submission of `o` is taken: a valid new order with an id not used
    /// before, for a known symbol or with books opened on demand.
    pub open spec fn accepts(&self, o: Order) -> bool {
        &&& valid_new_order(o)
        &&& o.id.0 >= self.id_floor
        &&& o.id.0 < u64::MAX
        &&& (self.auto_create_books || book_index(self.books@, o.symbol@) >= 0)
    }

    pub fn new(auto_create_books: bool) -> (r: MatchingEngine)
        ensures
            r.wf(),
            r.books@.len() == 0,
            r.auto_create_books == auto_create_books,
            r.next_mint == 1,
            r.id_floor == 1,
    {
        MatchingEngine {
            books: Vec::new(),
            auto_create_books,
            next_mint: 1,
            id_floor: 1,
            next_execution_id: 1,
            metrics: AtomicMetrics::new(0),
        }
    }

    /// Hands out a fresh order id; ids rise by one per call.
    pub fn mint_order_id(&mut self) -> (r: OrderId)
        ensures
            r.0 == old(self).next_mint,
            final(self).next_mint == old(self).next_mint.wrapping_add(1),
            final(self).books == old(self).books,
            final(self).id_floor == old(self).id_floor,
            final(self).auto_create_books == old(self).auto_create_books,
            final(self).metrics == old(self).metrics,
    {
        let r = OrderId(self.next_mint);
        self.next_mint = self.next_mint.wrapping_add(1);
        r
    }

    fn next_exec_id(&mut self) -> (r: u64)
        ensures
            final(self).books == old(self).books,
            final(self).id_floor == old(self).id_floor,
            final(self).auto_create_books == old(self).auto_create_books,
            final(self).next_mint == old(self).next_mint,
            final(self).metrics == old(self).metrics,
    {
        let r = self.next_execution_id;
        self.next_execution_id = self.next_execution_id.wrapping_add(1);
        r
    }

    fn find_book(&self, symbol: &String) -> (r: Option<usize>)
        ensures
            match r {
                None => book_index(self.books@, symbol@) < 0,
                Some(i) => book_index(self.books@, symbol@) == i && i < self.books@.len() && self.books@[i as int].symbol@ == symbol@,
            },
    {
        let mut i: usize = 0;
        while i < self.books.len()
            invariant
                0 <= i <= self.books@.len(),
                forall|k: int| 0 <= k < i ==> (#[trigger] self.books@[k]).symbol@ != symbol@,
            decreases self.books.len() - i,
        {
            if self.books[i].symbol == *symbol {
                proof {
                    lemma_book_index_at(self.books@, symbol@, i as int);
                }
                return Some(i);
            }
            i = i + 1;
        }
        proof {
            lemma_book_index_at(self.books@, symbol@, i as int);
        }
        None
    }

    /// Reports for the trades of one taker, two per trade, each stamped with its
    /// trade's sequence number.
    fn trade_reports_exec(&mut self, taker0: &Order, fills: &Vec<MatchResult>, now: u64) -> (out: Vec<ExecutionReport>)
        requires
            taker0.live(),
            taker0.filled_quantity + sum_fills(fills_view(fills@)) <= taker0.quantity,
            forall|k: int| 0 <= k < fills@.len() ==> (#[trigger] fills@[k]).maker.live(),
        ensures
            reports_view(out@) == trade_reports(*taker0, fills_view(fills@)),
            final(self).books == old(self).books,
            final(self).id_floor == old(self).id_floor,
            final(self).auto_create_books == old(self).auto_create_books,
            final(self).next_mint == old(self).next_mint,
            final(self).metrics == old(self).metrics,
    {
        let ghost f = fills_view(fills@);
        let mut cur = taker0.duplicate();
        let mut out: Vec<ExecutionReport> = Vec::new();
        let mut k: usize = 0;
        proof {
            assert(f.skip(0) =~= f);
            assert(reports_view(out@) =~= Seq::<ReportModel>::empty());
        }
        while k < fills.len()
            invariant
                0 <= k <= fills@.len(),
                f == fills_view(fills@),
                cur.live(),
                cur.filled_quantity + sum_fills(f.skip(k as int)) <= cur.quantity,
                trade_reports(*taker0, f) == reports_view(out@) + trade_reports(cur, f.skip(k as int)),
                forall|j: int| 0 <= j < fills@.len() ==> (#[trigger] fills@[j]).maker.live(),
                self.books == old(self).books,
                self.id_floor == old(self).id_floor,
                self.auto_create_books == old(self).auto_create_books,
                self.next_mint == old(self).next_mint,
                self.metrics == old(self).metrics,
            decreases fills.len() - k,
        {
            let ghost pre_out = reports_view(out@);
            let ghost pre_cur = cur;
            let fl = &fills[k];
            proof {
                assert(f.skip(k as int).drop_first() =~= f.skip(k as int + 1));
                assert(f.skip(k as int)[0] == f[k as int]);
                lemma_sum_fills_nonneg(f.skip(k as int + 1));
            }
            cur.fill(fl.quantity);
            let e1 = self.next_exec_id();
            let r1 = make_report(&cur, fill_type_exec(&cur), Some(fl.price), fl.quantity, Some(fl.trade_id), e1, fl.trade_id, now);
            let e2 = self.next_exec_id();
            assert(fl.maker.live());
            let r2 = make_report(&fl.maker, fill_type_exec(&fl.maker), Some(fl.price), fl.quantity, Some(fl.trade_id), e2, fl.trade_id, now);
            out.push(r1);
            out.push(r2);
            k = k + 1;
            proof {
                assert(reports_view(out@) =~= pre_out + seq![r1@, r2@]);
                let tail = trade_reports(pre_cur, f.skip(k as int - 1));
                assert(tail == seq![r1@, r2@] + trade_reports(cur, f.skip(k as int)));
                assert(pre_out + tail =~= reports_view(out@) + trade_reports(cur, f.skip(k as int)));
            }
        }
        proof {
            assert(f.skip(k as int) =~= Seq::<FillModel>::empty());
            assert(reports_view(out@) + trade_reports(cur, f.skip(k as int)) =~= reports_view(out@));
        }
        out
    }
}

impl MatchingEngine {
    fn reject(&mut self, order: &Order, now: u64) -> (r: Vec<ExecutionReport>)
        ensures
            r@.len() == 1,
            reports_view(r@) == seq![reject_report(*order)],
            final(self).books == old(self).books,
            final(self).id_floor == old(self).id_floor,
            final(self).auto_create_books == old(self).auto_create_books,
            final(self).next_mint == old(self).next_mint,
            final(self).metrics == old(self).metrics,
    {
        let e = self.next_exec_id();
        let rep = ExecutionReport {
            execution_id: e,
            order_id: order.id,
            trade_id: None,
            client_id: order.client_id.clone(),
            symbol: order.symbol.clone(),
            side: order.side,
            execution_type: ExecutionType::Rejected,
            order_status: OrderStatus::Rejected,
            price: order.price,
            last_price: None,
            last_quantity: 0,
            cumulative_quantity: 0,
            leaves_quantity: order.quantity,
            sequence: 0,
            timestamp: now,
            latency_nanos: 0,
        };
        let mut v: Vec<ExecutionReport> = Vec::new();
        v.push(rep);
        assert(reports_view(v@) =~= seq![reject_report(*order)]);
        v
    }

    /// Matches a taken order in `book` and reports on it.
    fn match_in_book(&mut self, book: &mut OrderBook, order: Order, now: u64) -> (r: Vec<ExecutionReport>)
        requires
            old(book).wf(),
            ids_unique(*old(book)),
            valid_new_order(order),
            ids_below(old(book).bids_view(), old(self).id_floor),
            ids_below(old(book).asks_view(), old(self).id_floor),
            old(self).id_floor <= order.id.0 < u64::MAX,
        ensures
            final(book).wf(),
            ids_unique(*final(book)),
            final(book).symbol@ == old(book).symbol@,
            ids_below(final(book).bids_view(), (order.id.0 + 1) as u64),
            ids_below(final(book).asks_view(), (order.id.0 + 1) as u64),
            ({
                let walk = match_walk(old(book).side_view(order.side.opposite_spec()), order);
                &&& final(book).side_view(order.side.opposite_spec()) == walk.levels
                &&& final(book).side_view(order.side) == own_side_after(old(book).side_view(order.side), order.side, walk.taker)
                &&& reports_view(r@) == submit_reports(order, walk)
            }),
            r@.len() >= 1,
            final(self).books == old(self).books,
            final(self).id_floor == old(self).id_floor,
            final(self).auto_create_books == old(self).auto_create_books,
            final(self).next_mint == old(self).next_mint,
            final(self).metrics == old(self).metrics,
    {
        let ghost floor0 = self.id_floor;
        let ghost side = order.side;
        let ghost opp = old(book).side_view(side.opposite_spec());
        let ghost own = old(book).side_view(side);
        let taker0 = order.duplicate();
        let id = order.id;
        let (taker, fills) = book.add_order(order, now);
        let ghost walk = match_walk(opp, taker0);
        proof {
            lemma_walk(opp, taker0, side.opposite_spec());
            lemma_walk_ids(opp, taker0, side.opposite_spec(), floor0);
            lemma_ids_below_mono(walk.levels, floor0, (id.0 + 1) as u64);
            lemma_ids_below_mono(own, floor0, (id.0 + 1) as u64);
            if walk.taker.order_type == OrderType::Limit && walk.taker.remaining_spec() > 0 {
                lemma_rest_ids(own, side, walk.taker, (id.0 + 1) as u64);
            }
            assert(ids_below(book.side_view(side), (id.0 + 1) as u64));
            assert(ids_below(book.side_view(side.opposite_spec()), (id.0 + 1) as u64));
            lemma_sides_unique_after_submit(*old(book), *book, taker0, floor0);
            assert forall|k: int| 0 <= k < fills@.len() implies (#[trigger] fills@[k]).maker.live() by {
                assert(fills_view(fills@)[k] == fills@[k]@);
                assert(walk.fills[k].maker.live());
            }
        }
        let seq_now = book.sequence;
        let mut reports = self.trade_reports_exec(&taker0, &fills, now);
        let ghost trade_part = reports_view(reports@);
        if taker.order_type == OrderType::Market && taker.filled_quantity < taker.quantity {
            let e = self.next_exec_id();
            let rep = make_report(&taker, ExecutionType::Rejected, None, 0, None, e, seq_now, now);
            reports.push(rep);
        } else if fills.len() == 0 {
            let e = self.next_exec_id();
            let rep = make_report(&taker, ExecutionType::New, None, 0, None, e, seq_now, now);
            reports.push(rep);
        }
        proof {
            assert(reports_view(reports@) =~= trade_part + closing_reports(walk));
            if fills@.len() > 0 {
                assert(reports@.len() >= 2) by {
                    assert(trade_part.len() >= 2);
                }
            }
        }
        reports
    }

    /// Submits a new order. A refused one gets a single `Rejected` report and changes
    /// nothing; a taken one is matched in its symbol's book (opened if need be), and the
    /// reports say, trade by trade, what happened to it and to each maker.
    pub fn submit_order(&mut self, order: Order, now: u64) -> (r: Vec<ExecutionReport>)
        requires
            old(self).wf(),
        ensures
            final(self).wf(),
            final(self).auto_create_books == old(self).auto_create_books,
            r@.len() >= 1,
            !old(self).accepts(order) ==> {
                &&& reports_view(r@) == seq![reject_report(order)]
                &&& final(self).books@ == old(self).books@
                &&& final(self).metrics == (AtomicMetrics {
                    orders_rejected: old(self).metrics.orders_rejected.wrapping_add(1),
                    ..old(self).metrics
                })
            },
            old(self).accepts(order) ==> {
                let idx = book_index(old(self).books@, order.symbol@);
                let i = if idx >= 0 { idx } else { old(self).books@.len() as int };
                let sides = sides_for(old(self).books@, order.symbol@);
                let walk = match_walk(pick(sides, order.side.opposite_spec()), order);
                &&& final(self).books@.len() == (if idx >= 0 { old(self).books@.len() as int } else { old(self).books@.len() + 1 as int })
                &&& forall|k: int| 0 <= k < old(self).books@.len() && k != i ==> #[trigger] final(self).books@[k] == old(self).books@[k]
                &&& final(self).books@[i].symbol@ == order.symbol@
                &&& final(self).books@[i].side_view(order.side.opposite_spec()) == walk.levels
                &&& final(self).books@[i].side_view(order.side) == own_side_after(pick(sides, order.side), order.side, walk.taker)
                &&& reports_view(r@) == submit_reports(order, walk)
                &&& final(self).metrics == (AtomicMetrics {
                    orders_processed: old(self).metrics.orders_processed.wrapping_add(1),
                    ..old(self).metrics
                })
            },
    {
        let valid = order.quantity > 0 && order.filled_quantity == 0 && order.status == OrderStatus::Pending
            && match order.order_type {
            OrderType::Limit => match order.price {
                Some(p) => p > 0,
                None => false,
            },
            OrderType::Market => order.price.is_none(),
        };
        if !valid || order.id.0 < self.id_floor || order.id.0 == u64::MAX {
            self.metrics.increment_orders_rejected();
            return self.reject(&order, now);
        }
        let found = self.find_book(&order.symbol);
        if found.is_none() && !self.auto_create_books {
            self.metrics.increment_orders_rejected();
            return self.reject(&order, now);
        }
        let ghost books0 = self.books@;
        let ghost floor0 = self.id_floor;
        let ghost sides = sides_for(books0, order.symbol@);
        let i: usize = match found {
            Some(i) => i,
            None => self.books.len(),
        };
        let mut book = match found {
            Some(i) => self.books.remove(i),
            None => OrderBook::new(order.symbol.clone()),
        };
        proof {
            if found.is_some() {
                assert(book == books0[i as int]);
            } else {
                assert forall|x: OrderId| #[trigger] has_order(book.bids_view(), x) implies !has_order(book.asks_view(), x) by {}
            }
        }
        let id = order.id;
        let ghost side = order.side;
        let ghost o0 = order;
        proof {
            assert(book.side_view(side) == pick(sides, side));
            assert(book.side_view(side.opposite_spec()) == pick(sides, side.opposite_spec()));
        }
        let reports = self.match_in_book(&mut book, order, now);
        let ghost book1 = book;
        self.books.insert(i, book);
        assert(self.books@[i as int] == book1);
        self.id_floor = id.0 + 1;
        self.metrics.increment_orders_processed();
        proof {
            assert forall|k: int| 0 <= k < self.books@.len() implies {
                &&& (#[trigger] self.books@[k]).wf()
                &&& ids_unique(self.books@[k])
                &&& ids_below(self.books@[k].bids_view(), self.id_floor)
                &&& ids_below(self.books@[k].asks_view(), self.id_floor)
            } by {
                if k != i as int {
                    assert(self.books@[k] == books0[k]);
                    lemma_ids_below_mono(self.books@[k].bids_view(), floor0, self.id_floor);
                    lemma_ids_below_mono(self.books@[k].asks_view(), floor0, self.id_floor);
                }
            }
            assert forall|k: int| 0 <= k < books0.len() && k != i as int implies #[trigger] self.books@[k] == books0[k] by {}
            let idx = book_index(books0, o0.symbol@);
            assert(idx == (if found.is_some() { i as int } else { -1 }));
            assert(self.books@.len() == (if idx >= 0 { books0.len() as int } else { books0.len() + 1 as int }));
            let ii = if idx >= 0 { idx } else { books0.len() as int };
            assert(ii == i as int);
            let walk = match_walk(pick(sides, o0.side.opposite_spec()), o0);
            assert(self.books@[ii].symbol@ == o0.symbol@);
            assert(self.books@[ii].side_view(o0.side.opposite_spec()) == walk.levels);
            assert(self.books@[ii].side_view(o0.side) == own_side_after(pick(sides, o0.side), o0.side, walk.taker));
            assert(reports_view(reports@) == submit_reports(o0, walk));
        }
        reports
    }
}

/// Whether no book holds a resting order with `id`.
pub open spec fn nowhere(books: Seq<OrderBook>, id: OrderId) -> bool {
    forall|k: int|
        0 <= k < books.len() ==> !has_order((#[trigger] books[k]).bids_view(), id) && !has_order(books[k].asks_view(), id)
}

impl MatchingEngine {
    /// Cancels the resting order with `id`: `None`, with nothing changed, when no book
    /// holds it (unknown, filled, or already cancelled); else the first book that holds
    /// it loses it, and the report says what it had traded and what left the book.
    pub fn cancel_order(&mut self, id: OrderId, now: u64) -> (r: Option<ExecutionReport>)
        requires
            old(self).wf(),
        ensures
            final(self).wf(),
            final(self).auto_create_books == old(self).auto_create_books,
            final(self).id_floor == old(self).id_floor,
            final(self).books@.len() == old(self).books@.len(),
            match r {
                None => nowhere(old(self).books@, id) && final(self).books@ == old(self).books@
                    && final(self).metrics == old(self).metrics,
                Some(rep) => final(self).metrics == (AtomicMetrics {
                    orders_cancelled: old(self).metrics.orders_cancelled.wrapping_add(1),
                    ..old(self).metrics
                }) && exists|k: int, o: Order|
                    {
                        &&& 0 <= k < old(self).books@.len()
                        &&& nowhere(old(self).books@.take(k), id)
                        &&& #[trigger] cancelled_from(old(self).books@[k], final(self).books@[k], id, o)
                        &&& rep@ == cancel_report(o)
                        &&& forall|k2: int| 0 <= k2 < old(self).books@.len() && k2 != k ==> #[trigger] final(self).books@[k2] == old(self).books@[k2]
                    },
            },
    {
        let ghost books0 = self.books@;
        let mut k: usize = 0;
        while k < self.books.len()
            invariant
                0 <= k <= self.books@.len(),
                self.books@ == books0,
                books0 == old(self).books@,
                self.wf(),
                nowhere(books0.take(k as int), id),
                self.auto_create_books == old(self).auto_create_books,
                self.id_floor == old(self).id_floor,
                self.metrics == old(self).metrics,
            decreases self.books.len() - k,
        {
            let mut book = self.books.remove(k);
            assert(book == books0[k as int]);
            let res = book.cancel_order(id);
            let ghost book1 = book;
            self.books.insert(k, book);
            assert(self.books@ == books0.update(k as int, book1));
            match res {
                Some(o) => {
                    proof {
                        let b0 = books0[k as int];
                        let (side, i, j) = choose|side: OrderSide, i: int, j: int|
                            {
                                &&& #[trigger] first_at(b0.side_view(side), id, i, j)
                                &&& (side == OrderSide::Sell ==> !has_order(b0.bids_view(), id))
                                &&& book1.side_view(side) == remove_at(b0.side_view(side), i, j)
                                &&& book1.side_view(side.opposite_spec()) == b0.side_view(side.opposite_spec())
                                &&& o == (Order { status: OrderStatus::Cancelled, ..b0.side_view(side)[i].orders[j] })
                            };
                        lemma_remove_ids(b0.side_view(side), i, j, self.id_floor);
                        lemma_unique_after_cancel(b0, book1, side, i, j);
                        assert(b0.wf());
                        assert(ids_below(b0.side_view(side), self.id_floor));
                        assert(ids_below(book1.side_view(side), self.id_floor));
                        assert(ids_below(book1.side_view(side.opposite_spec()), self.id_floor));
                        assert(ids_below(book1.bids_view(), self.id_floor));
                        assert(ids_below(book1.asks_view(), self.id_floor));
                        assert forall|k2: int| 0 <= k2 < self.books@.len() implies {
                            &&& (#[trigger] self.books@[k2]).wf()
                            &&& ids_unique(self.books@[k2])
                            &&& ids_below(self.books@[k2].bids_view(), self.id_floor)
                            &&& ids_below(self.books@[k2].asks_view(), self.id_floor)
                        } by {
                            if k2 != k as int {
                                assert(self.books@[k2] == books0[k2]);
                            }
                        }
                        assert forall|k2: int| 0 <= k2 < books0.len() && k2 != k as int implies #[trigger] self.books@[k2] == books0[k2] by {}
                    }
                    self.metrics.increment_orders_cancelled();
                    let e = self.next_exec_id();
                    let rep = make_report(&o, ExecutionType::Cancelled, None, 0, None, e, self.books[k].sequence, now);
                    assert(self.books@ == books0.update(k as int, book1));
                    assert(cancelled_from(books0[k as int], self.books@[k as int], id, o));
                    assert(self.books@.len() == books0.len());
                    assert({
                        &&& 0 <= k < books0.len()
                        &&& nowhere(books0.take(k as int), id)
                        &&& cancelled_from(books0[k as int], self.books@[k as int], id, o)
                        &&& rep@ == cancel_report(o)
                        &&& forall|k2: int| 0 <= k2 < books0.len() && k2 != k ==> #[trigger] self.books@[k2] == books0[k2]
                    });
                    return Some(rep);
                },
                None => {
                    proof {
                        assert(self.books@ =~= books0);
                        assert(nowhere(books0.take(k as int + 1), id)) by {
                            assert forall|k2: int| 0 <= k2 < k + 1 implies !has_order((#[trigger] books0.take(k as int + 1)[k2]).bids_view(), id) && !has_order(books0.take(k as int + 1)[k2].asks_view(), id) by {
                                if k2 < k {
                                    assert(books0.take(k as int + 1)[k2] == books0.take(k as int)[k2]);
                                }
                            }
                        }
                    }
                    k = k + 1;
                },
            }
        }
        proof {
            assert(books0.take(k as int) =~= books0);
        }
        None
    }

    /// The resting order with `id`, from the first book that holds it.
    pub fn get_order(&self, id: OrderId) -> (r: Option<Order>)
        ensures
            r.is_none() <==> nowhere(self.books@, id),
            r.is_some() ==> r.unwrap().id == id && exists|k: int, side: OrderSide, i: int, j: int|
                0 <= k < self.books@.len() && #[trigger] first_at(self.books@[k].side_view(side), id, i, j)
                    && r.unwrap() == self.books@[k].side_view(side)[i].orders[j],
    {
        let mut k: usize = 0;
        while k < self.books.len()
            invariant
                0 <= k <= self.books@.len(),
                nowhere(self.books@.take(k as int), id),
            decreases self.books.len() - k,
        {
            match self.books[k].get_order(id) {
                Some(o) => {
                    proof {
                        let (side, i, j) = choose|side: OrderSide, i: int, j: int|
                            {
                                &&& #[trigger] first_at(self.books@[k as int].side_view(side), id, i, j)
                                &&& o == self.books@[k as int].side_view(side)[i].orders[j]
                            };
                        assert(has_order(self.books@[k as int].side_view(side), id));
                        assert(first_at(self.books@[k as int].side_view(side), id, i, j));
                    }
                    return Some(o);
                },
                None => {
                    proof {
                        assert forall|k2: int| 0 <= k2 < k + 1 implies !has_order((#[trigger] self.books@.take(k as int + 1)[k2]).bids_view(), id) && !has_order(self.books@.take(k as int + 1)[k2].asks_view(), id) by {
                            if k2 < k {
                                assert(self.books@.take(k as int + 1)[k2] == self.books@.take(k as int)[k2]);
                            }
                        }
                    }
                    k = k + 1;
                },
            }
        }
        proof {
            assert(self.books@.take(k as int) =~= self.books@);
        }
        None
    }

    /// Price and total quantity of the first `n` levels of each side of the book for
    /// `symbol`; both empty when there is no such book.
    pub fn get_depth(&self, symbol: &String, n: usize) -> (r: (Vec<(u64, u128)>, Vec<(u64, u128)>))
        ensures
            book_index(self.books@, symbol@) < 0 ==> r.0@.len() == 0 && r.1@.len() == 0,
            book_index(self.books@, symbol@) >= 0 ==> {
                let b = self.books@[book_index(self.books@, symbol@)];
                &&& r.0@.len() == min_int(n as int, b.bids_view().len() as int)
                &&& r.1@.len() == min_int(n as int, b.asks_view().len() as int)
                &&& forall|k: int| 0 <= k < r.0@.len() ==> #[trigger] r.0@[k] == (b.bids@[k].price, b.bids@[k].total_quantity)
                &&& forall|k: int| 0 <= k < r.1@.len() ==> #[trigger] r.1@[k] == (b.asks@[k].price, b.asks@[k].total_quantity)
            },
    {
        match self.find_book(symbol) {
            Some(i) => self.books[i].get_depth(n),
            None => (Vec::new(), Vec::new()),
        }
    }
}


/// Sum of the last quantities of the reports about order `id`.
pub open spec fn sum_last_for(rs: Seq<ReportModel>, id: OrderId) -> int
    decreases rs.len(),
{
    if rs.len() == 0 {
        0
    } else {
        (if rs[0].order_id == id { rs[0].last_quantity } else { 0 }) + sum_last_for(rs.drop_first(), id)
    }
}

pub proof fn lemma_sum_last_concat(a: Seq<ReportModel>, b: Seq<ReportModel>, id: OrderId)
    ensures
        sum_last_for(a + b, id) == sum_last_for(a, id) + sum_last_for(b, id),
    decreases a.len(),
{
    if a.len() > 0 {
        assert((a + b).drop_first() =~= a.drop_first() + b);
        lemma_sum_last_concat(a.drop_first(), b, id);
    } else {
        assert(a + b =~= b);
    }
}

pub proof fn lemma_trade_reports(t: Order, f: Seq<FillModel>)
    requires
        forall|k: int| 0 <= k < f.len() ==> (#[trigger] f[k]).maker.id != t.id,
    ensures
        sum_last_for(trade_reports(t, f), t.id) == sum_fills(f),
        trade_reports(t, f).len() == 2 * f.len(),
        forall|k: int|
            0 <= k < f.len() ==> trade_reports(t, f)[2 * k + 1] == state_report(
                (#[trigger] f[k]).maker,
                fill_type(f[k].maker),
                Some(f[k].price as u64),
                f[k].quantity,
            ),
    decreases f.len(),
{
    if f.len() > 0 {
        let t2 = t.filled_by(f[0].quantity);
        let rest = f.drop_first();
        assert forall|k: int| 0 <= k < rest.len() implies (#[trigger] rest[k]).maker.id != t2.id by {
            assert(rest[k] == f[k + 1]);
        }
        lemma_trade_reports(t2, rest);
        let head = seq![
            state_report(t2, fill_type(t2), Some(f[0].price as u64), f[0].quantity),
            state_report(f[0].maker, fill_type(f[0].maker), Some(f[0].price as u64), f[0].quantity),
        ];
        lemma_sum_last_concat(head, trade_reports(t2, rest), t.id);
        assert(f[0].maker.id != t.id);
        assert(head.drop_first().drop_first() =~= Seq::<ReportModel>::empty());
        assert(sum_last_for(Seq::<ReportModel>::empty(), t.id) == 0);
        assert(head.drop_first()[0] == head[1]);
        assert(sum_last_for(head.drop_first(), t.id) == 0);
        assert(head[0].order_id == t.id);
        assert(sum_last_for(head, t.id) == f[0].quantity);
        let all = trade_reports(t, f);
        assert forall|k: int| 0 <= k < f.len() implies all[2 * k + 1] == state_report(
            (#[trigger] f[k]).maker,
            fill_type(f[k].maker),
            Some(f[k].price as u64),
            f[k].quantity,
        ) by {
            if k > 0 {
                assert(all[2 * k + 1] == trade_reports(t2, rest)[2 * (k - 1) + 1]);
                assert(rest[k - 1] == f[k]);
            }
        }
    }
}

/// Conservation of quantity over one submission: the last quantities of the new
/// order's reports add up to what it filled; and each maker's report carries the
/// quantity it traded and its cumulative quantity grown by exactly that.
pub proof fn law_conservation(levels: Seq<LevelModel>, o: Order, side: OrderSide, floor: u64)
    requires
        side_wf(levels, side),
        valid_new_order(o),
        ids_below(levels, floor),
        o.id.0 >= floor,
    ensures
        ({
            let walk = match_walk(levels, o);
            let rs = submit_reports(o, walk);
            &&& sum_last_for(rs, o.id) == walk.taker.filled_quantity
            &&& forall|k: int|
                0 <= k < walk.fills.len() ==> {
                    &&& (#[trigger] rs[2 * k + 1]).order_id == walk.fills[k].maker.id
                    &&& rs[2 * k + 1].last_quantity == walk.fills[k].quantity
                    &&& rs[2 * k + 1].cumulative == flatten(levels)[k].filled_by(walk.fills[k].quantity).filled_quantity
                }
        }),
{
    lemma_walk(levels, o, side);
    lemma_walk_ids(levels, o, side, floor);
    let walk = match_walk(levels, o);
    assert forall|k: int| 0 <= k < walk.fills.len() implies (#[trigger] walk.fills[k]).maker.id != o.id by {
        assert(walk.fills[k].maker.id.0 < floor);
    }
    lemma_trade_reports(o, walk.fills);
    let tr = trade_reports(o, walk.fills);
    let cl = closing_reports(walk);
    lemma_sum_last_concat(tr, cl, o.id);
    assert(sum_last_for(cl, o.id) == 0) by {
        assert(sum_last_for(Seq::<ReportModel>::empty(), o.id) == 0);
        if cl.len() > 0 {
            assert(cl.drop_first() =~= Seq::<ReportModel>::empty());
            assert(cl[0].last_quantity == 0);
        }
    }
    let rs = submit_reports(o, walk);
    assert forall|k: int| 0 <= k < walk.fills.len() implies {
        &&& (#[trigger] rs[2 * k + 1]).order_id == walk.fills[k].maker.id
        &&& rs[2 * k + 1].last_quantity == walk.fills[k].quantity
        &&& rs[2 * k + 1].cumulative == flatten(levels)[k].filled_by(walk.fills[k].quantity).filled_quantity
    } by {
        assert(rs[2 * k + 1] == tr[2 * k + 1]);
        assert(walk.fills[k].maker == flatten(levels)[k].filled_by(walk.fills[k].quantity));
    }
}

/// A market order into an empty opposite side gets one report, `Rejected` with nothing
/// traded and all of it left, and both sides stay as they were.
pub proof fn law_market_into_empty(o: Order, own: Seq<LevelModel>)
    requires
        valid_new_order(o),
        o.order_type == OrderType::Market,
    ensures
        submit_reports(o, match_walk(Seq::empty(), o)) == seq![
            ReportModel {
                order_id: o.id,
                execution_type: ExecutionType::Rejected,
                status: OrderStatus::Rejected,
                last_price: None,
                last_quantity: 0,
                cumulative: 0,
                leaves: o.quantity as int,
            },
        ],
        match_walk(Seq::empty(), o).levels == Seq::<LevelModel>::empty(),
        own_side_after(own, o.side, match_walk(Seq::empty(), o).taker) == own,
{
    let walk = match_walk(Seq::empty(), o);
    assert(trade_reports(o, walk.fills) == Seq::<ReportModel>::empty());
    assert(submit_reports(o, walk) =~= closing_reports(walk));
}

/// The sides of `b1`, as `add_order` leaves them after `o` came into `b0`.
pub open spec fn sides_after_submit(b0: OrderBook, b1: OrderBook, o: Order) -> bool {
    let walk = match_walk(b0.side_view(o.side.opposite_spec()), o);
    &&& b1.side_view(o.side.opposite_spec()) == walk.levels
    &&& b1.side_view(o.side) == own_side_after(b0.side_view(o.side), o.side, walk.taker)
}

proof fn lemma_sides_unique_after_submit(b0: OrderBook, b1: OrderBook, o: Order, floor: u64)
    requires
        b0.wf(),
        ids_unique(b0),
        valid_new_order(o),
        ids_below(b0.bids_view(), floor),
        ids_below(b0.asks_view(), floor),
        o.id.0 >= floor,
        sides_after_submit(b0, b1, o),
    ensures
        ids_unique(b1),
        match_walk(b0.side_view(o.side.opposite_spec()), o).taker.remaining_spec() == 0 ==> !has_order(b1.bids_view(), o.id)
            && !has_order(b1.asks_view(), o.id),
        forall|k: int|
            0 <= k < match_walk(b0.side_view(o.side.opposite_spec()), o).fills.len() && (
            #[trigger] match_walk(b0.side_view(o.side.opposite_spec()), o).fills[k]).maker.remaining_spec() == 0 ==> {
                let id = match_walk(b0.side_view(o.side.opposite_spec()), o).fills[k].maker.id;
                !has_order(b1.bids_view(), id) && !has_order(b1.asks_view(), id)
            },
{
    let side = o.side;
    let opp_side = side.opposite_spec();
    let opp = b0.side_view(opp_side);
    let own = b0.side_view(side);
    lemma_walk(opp, o, opp_side);
    lemma_walk_ids(opp, o, opp_side, floor);
    lemma_walk_distinct(opp, o, opp_side);
    let walk = match_walk(opp, o);
    lemma_below_not_has(own, floor, o.id);
    lemma_below_not_has(opp, floor, o.id);
    let rests = walk.taker.order_type == OrderType::Limit && walk.taker.remaining_spec() > 0;
    if rests {
        lemma_rest_distinct(own, side, walk.taker);
    }
    let own1 = b1.side_view(side);
    let opp1 = b1.side_view(opp_side);
    assert(ids_distinct(own1));
    assert(ids_distinct(opp1));
    // an id on both new sides was on both old sides
    assert forall|x: OrderId| has_order(own1, x) && has_order(opp1, x) implies false by {
        assert(has_order(opp, x));
        if x == o.id {
        } else {
            assert(has_order(own, x));
            if side == OrderSide::Buy {
                assert(has_order(b0.bids_view(), x));
            } else {
                assert(has_order(b0.bids_view(), x));
            }
        }
    }
    assert forall|x: OrderId| #[trigger] has_order(b1.bids_view(), x) implies !has_order(b1.asks_view(), x) by {
        if side == OrderSide::Buy {
            if has_order(b1.asks_view(), x) {
                assert(has_order(own1, x) && has_order(opp1, x));
            }
        } else {
            if has_order(b1.asks_view(), x) {
                assert(has_order(own1, x) && has_order(opp1, x));
            }
        }
    }
    if walk.taker.remaining_spec() == 0 {
        assert(own1 == own);
        assert(!has_order(opp1, o.id));
    }
    assert forall|k: int| 0 <= k < walk.fills.len() && (#[trigger] walk.fills[k]).maker.remaining_spec() == 0 implies {
        &&& !has_order(b1.bids_view(), walk.fills[k].maker.id)
        &&& !has_order(b1.asks_view(), walk.fills[k].maker.id)
    } by {
        let mid = walk.fills[k].maker.id;
        assert(!has_order(opp1, mid));
        assert(mid.0 < floor);
        // the maker rested on the opposite side, so not on the taker's
        assert(walk.fills[k].maker.id == flatten(opp)[k].id);
        lemma_flatten_has(opp, k);
        if has_order(own1, mid) {
            if rests {
                assert(has_order(own, mid) || mid == o.id);
            }
            assert(has_order(own, mid));
            if side == OrderSide::Buy {
                assert(has_order(b0.bids_view(), mid));
            } else {
                assert(has_order(b0.bids_view(), mid));
            }
        }
    }
}

/// An order listed by `flatten` rests on the side.
pub proof fn lemma_flatten_has(levels: Seq<LevelModel>, k: int)
    requires
        0 <= k < flatten(levels).len(),
    ensures
        has_order(levels, flatten(levels)[k].id),
    decreases levels.len(),
{
    if levels.len() > 0 {
        let n = levels[0].orders.len() as int;
        if k < n {
            assert(flatten(levels)[k] == levels[0].orders[k]);
        } else {
            lemma_flatten_has(levels.drop_first(), k - n);
            let id = flatten(levels)[k].id;
            assert(flatten(levels)[k] == flatten(levels.drop_first())[k - n]);
            let (i, j) = choose|i: int, j: int|
                0 <= i < levels.drop_first().len() && 0 <= j < levels.drop_first()[i].orders.len()
                    && #[trigger] levels.drop_first()[i].orders[j].id == id;
            assert(levels[i + 1].orders[j].id == id);
        }
    }
}

proof fn lemma_unique_after_cancel(b0: OrderBook, b1: OrderBook, side: OrderSide, i: int, j: int)
    requires
        ids_unique(b0),
        0 <= i < b0.side_view(side).len(),
        0 <= j < b0.side_view(side)[i].orders.len(),
        b1.side_view(side) == remove_at(b0.side_view(side), i, j),
        b1.side_view(side.opposite_spec()) == b0.side_view(side.opposite_spec()),
    ensures
        ids_unique(b1),
{
    lemma_remove_distinct(b0.side_view(side), i, j);
    assert forall|x: OrderId| #[trigger] has_order(b1.bids_view(), x) implies !has_order(b1.asks_view(), x) by {
        if side == OrderSide::Buy {
            assert(has_order(b0.bids_view(), x));
        } else {
            if has_order(b1.asks_view(), x) {
                assert(has_order(b0.asks_view(), x));
            }
        }
    }
}

/// A fully filled order rests nowhere after the submission that filled it (the new
/// order, or any maker it took in full), so cancelling it finds nothing.
pub proof fn law_filled_orders_gone(b0: OrderBook, b1: OrderBook, o: Order, floor: u64)
    requires
        b0.wf(),
        ids_unique(b0),
        valid_new_order(o),
        ids_below(b0.bids_view(), floor),
        ids_below(b0.asks_view(), floor),
        o.id.0 >= floor,
        sides_after_submit(b0, b1, o),
    ensures
        match_walk(b0.side_view(o.side.opposite_spec()), o).taker.remaining_spec() == 0 ==> !has_order(b1.bids_view(), o.id)
            && !has_order(b1.asks_view(), o.id),
        forall|k: int|
            0 <= k < match_walk(b0.side_view(o.side.opposite_spec()), o).fills.len() && (
            #[trigger] match_walk(b0.side_view(o.side.opposite_spec()), o).fills[k]).maker.remaining_spec() == 0 ==> {
                let id = match_walk(b0.side_view(o.side.opposite_spec()), o).fills[k].maker.id;
                !has_order(b1.bids_view(), id) && !has_order(b1.asks_view(), id)
            },
{
    lemma_sides_unique_after_submit(b0, b1, o, floor);
}

} // verus!
