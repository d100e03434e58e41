use vstd::prelude::*;
use crate::ohlc::{ohlc_fold, OhlcTracker};
use crate::side_book::{after_fill, best_price, depth_spec, fill_front, is_best, lemma_best_exists, rest_spec, SideBook};
use crate::types::{opposite, Order, Side, Trade};

verus! {

/// An incoming order of side `incoming` at limit `limit` trades against a
/// resting level at `best`.
pub open spec fn crosses(incoming: Side, best: u64, limit: u64) -> bool {
    match incoming {
        Side::Sell => best >= limit,
        Side::Buy => best <= limit,
    }
}

/// Matching `incoming` against the resting side `book`, one trade at a
/// time, always against the front order of the best level: the side left
/// afterwards, what is left of the incoming order, and the trades in order.
pub open spec fn match_result(book: Map<u64, Seq<Order>>, incoming: Order) -> (Map<u64, Seq<Order>>, Order, Seq<Trade>)
    decreases incoming.qty,
{
    if incoming.qty == 0 || book.dom() == Set::<u64>::empty() {
        (book, incoming, Seq::<Trade>::empty())
    } else {
        let p = best_price(book, opposite(incoming.side));
        let front = book[p][0];
        let t: u32 = if incoming.qty < front.qty { incoming.qty } else { front.qty };
        if !crosses(incoming.side, p, incoming.price) || t == 0 {
            (book, incoming, Seq::<Trade>::empty())
        } else {
            let r = match_result(
                after_fill(book, p, t),
                Order { qty: (incoming.qty - t) as u32, ..incoming },
            );
            (r.0, r.1, seq![Trade { price: p, qty: t, aggressor: incoming.id }] + r.2)
        }
    }
}

/// The prices of `trades`, in order.
pub open spec fn trade_prices(trades: Seq<Trade>) -> Seq<u64> {
    trades.map_values(|t: Trade| t.price)
}

/// A side has one most aggressive price.
pub proof fn lemma_best_unique(m: Map<u64, Seq<Order>>, side: Side, p: u64)
    requires
        is_best(m, side, p),
    ensures
        best_price(m, side) == p,
{
    let q = best_price(m, side);
    assert(is_best(m, side, q));
    assert(m.contains_key(q) && m.contains_key(p));
}

/// Every trade of a match is at a price that had a level and that the
/// incoming order accepts; what is left of the side has no new price.
pub proof fn lemma_trades_from_book(book: Map<u64, Seq<Order>>, incoming: Order)
    requires
        book.dom().finite(),
    ensures
        ({
            let r = match_result(book, incoming);
            &&& r.0.dom().subset_of(book.dom())
            &&& r.1.side == incoming.side
            &&& r.1.price == incoming.price
            &&& forall|i: int| 0 <= i < r.2.len() ==> book.contains_key(#[trigger] r.2[i].price)
                && crosses(incoming.side, r.2[i].price, incoming.price)
        }),
    decreases incoming.qty,
{
    if incoming.qty == 0 || book.dom() == Set::<u64>::empty() {
    } else {
        let side = opposite(incoming.side);
        let p = best_price(book, side);
        lemma_best_exists(book, side);
        let front = book[p][0];
        let t: u32 = if incoming.qty < front.qty { incoming.qty } else { front.qty };
        if crosses(incoming.side, p, incoming.price) && t > 0 {
            let b2 = after_fill(book, p, t);
            let i2 = Order { qty: (incoming.qty - t) as u32, ..incoming };
            assert(b2.dom().subset_of(book.dom()));
            vstd::set_lib::lemma_len_subset(b2.dom(), book.dom());
            assert(b2.dom().finite());
            lemma_trades_from_book(b2, i2);
            let r2 = match_result(b2, i2);
            let r = match_result(book, incoming);
            assert forall|i: int| 0 <= i < r.2.len() implies book.contains_key(#[trigger] r.2[i].price)
                && crosses(incoming.side, r.2[i].price, incoming.price) by {
                if i > 0 {
                    assert(r.2[i] == r2.2[i - 1]);
                    assert(b2.contains_key(r2.2[i - 1].price));
                }
            }
        }
    }
}

/// Price priority: the trades of one incoming order run from the most to
/// the least aggressive resting price (ascending for a buy, descending for
/// a sell), each at a price the order accepts, so no better price is ever
/// passed over.
pub proof fn lemma_price_priority(b: OrderBook, incoming: Order)
    requires
        b.wf(),
    ensures
        ({
            let trades = match_result(b.book(opposite(incoming.side)), incoming).2;
            &&& forall|i: int| 0 <= i < trades.len()
                ==> crosses(incoming.side, #[trigger] trades[i].price, incoming.price)
            &&& forall|i: int, j: int| #![trigger trades[i], trades[j]] 0 <= i < j < trades.len() ==> match incoming.side {
                Side::Buy => trades[i].price <= trades[j].price,
                Side::Sell => trades[i].price >= trades[j].price,
            }
        }),
{
    b.buy.lemma_finite();
    b.sell.lemma_finite();
    lemma_priority_of(b.book(opposite(incoming.side)), incoming);
}

/// Price priority over any finite resting side.
proof fn lemma_priority_of(book: Map<u64, Seq<Order>>, incoming: Order)
    requires
        book.dom().finite(),
    ensures
        ({
            let trades = match_result(book, incoming).2;
            &&& forall|i: int| 0 <= i < trades.len()
                ==> crosses(incoming.side, #[trigger] trades[i].price, incoming.price)
            &&& forall|i: int, j: int| #![trigger trades[i], trades[j]] 0 <= i < j < trades.len() ==> match incoming.side {
                Side::Buy => trades[i].price <= trades[j].price,
                Side::Sell => trades[i].price >= trades[j].price,
            }
        }),
    decreases incoming.qty,
{
    lemma_trades_from_book(book, incoming);
    if incoming.qty == 0 || book.dom() == Set::<u64>::empty() {
    } else {
        let side = opposite(incoming.side);
        let p = best_price(book, side);
        lemma_best_exists(book, side);
        let front = book[p][0];
        let t: u32 = if incoming.qty < front.qty { incoming.qty } else { front.qty };
        if crosses(incoming.side, p, incoming.price) && t > 0 {
            let b2 = after_fill(book, p, t);
            let i2 = Order { qty: (incoming.qty - t) as u32, ..incoming };
            assert(b2.dom().subset_of(book.dom()));
            vstd::set_lib::lemma_len_subset(b2.dom(), book.dom());
            lemma_trades_from_book(b2, i2);
            lemma_priority_of(b2, i2);
            let r2 = match_result(b2, i2);
            let trades = match_result(book, incoming).2;
            assert forall|i: int, j: int| #![trigger trades[i], trades[j]] 0 <= i < j < trades.len() implies match incoming.side {
                Side::Buy => trades[i].price <= trades[j].price,
                Side::Sell => trades[i].price >= trades[j].price,
            } by {
                assert(trades[j] == r2.2[j - 1]);
                assert(b2.contains_key(r2.2[j - 1].price));
                assert(book.contains_key(r2.2[j - 1].price));
                if i > 0 {
                    assert(trades[i] == r2.2[i - 1]);
                }
            }
        }
    }
}

/// The two views of a side agree: a price is in the price index exactly
/// once if and only if a non-empty level rests at it. Every book that
/// `OrderBook::new` and `OrderBook::process_order` leave behind is well
/// formed, so this holds after any sequence of orders.
pub proof fn lemma_sides_in_sync(b: OrderBook, s: Side)
    requires
        b.wf(),
    ensures
        b.price_index(s).no_duplicates(),
        forall|p: u64| b.book(s).contains_key(p) <==> b.price_index(s).contains(p),
        forall|p: u64| #[trigger] b.book(s).contains_key(p) ==> b.book(s)[p].len() > 0,
{
    let ps = b.price_index(s);
    assert forall|i: int, j: int| 0 <= i < ps.len() && 0 <= j < ps.len() && i != j implies ps[i] != ps[j] by {
        if i < j {
            assert(ps[i] < ps[j]);
        } else {
            assert(ps[j] < ps[i]);
        }
    }
}

/// An incoming order that no resting price crosses trades nothing and
/// leaves the opposite side as it was; all its quantity is left to rest.
pub proof fn lemma_no_cross_rests(b: OrderBook, incoming: Order)
    requires
        b.wf(),
        forall|p: u64| #[trigger] b.book(opposite(incoming.side)).contains_key(p)
            ==> !crosses(incoming.side, p, incoming.price),
    ensures
        match_result(b.book(opposite(incoming.side)), incoming)
            == (b.book(opposite(incoming.side)), incoming, Seq::<Trade>::empty()),
{
    b.buy.lemma_finite();
    b.sell.lemma_finite();
    let book = b.book(opposite(incoming.side));
    if incoming.qty > 0 && book.dom() != Set::<u64>::empty() {
        lemma_best_exists(book, opposite(incoming.side));
    }
}

/// An incoming order whose quantity equals that of the single order at the
/// best crossing level trades once, fully, and that level is gone.
pub proof fn lemma_exact_match_clears(b: OrderBook, incoming: Order, p: u64)
    requires
        b.wf(),
        incoming.qty > 0,
        is_best(b.book(opposite(incoming.side)), opposite(incoming.side), p),
        crosses(incoming.side, p, incoming.price),
        b.book(opposite(incoming.side))[p].len() == 1,
        b.book(opposite(incoming.side))[p][0].qty == incoming.qty,
    ensures
        match_result(b.book(opposite(incoming.side)), incoming) == (
            b.book(opposite(incoming.side)).remove(p),
            Order { qty: 0, ..incoming },
            seq![Trade { price: p, qty: incoming.qty, aggressor: incoming.id }],
        ),
{
    let book = b.book(opposite(incoming.side));
    lemma_best_unique(book, opposite(incoming.side), p);
    assert(book.dom().contains(p));
    let rest = Order { qty: 0, ..incoming };
    assert(fill_front(book[p], incoming.qty).len() == 0);
    let tr = Trade { price: p, qty: incoming.qty, aggressor: incoming.id };
    assert(match_result(book.remove(p), rest).2 == Seq::<Trade>::empty());
    assert(seq![tr] + Seq::<Trade>::empty() =~= seq![tr]);
}

/// An incoming order smaller than the front order of the best crossing
/// level trades once; that order keeps its place at the front with the
/// rest of its quantity.
pub proof fn lemma_partial_fill_keeps_front(b: OrderBook, incoming: Order, p: u64)
    requires
        b.wf(),
        incoming.qty > 0,
        is_best(b.book(opposite(incoming.side)), opposite(incoming.side), p),
        crosses(incoming.side, p, incoming.price),
        incoming.qty < b.book(opposite(incoming.side))[p][0].qty,
    ensures
        ({
            let book = b.book(opposite(incoming.side));
            let front = book[p][0];
            match_result(book, incoming) == (
                book.insert(p, book[p].update(0, Order { qty: (front.qty - incoming.qty) as u32, ..front })),
                Order { qty: 0, ..incoming },
                seq![Trade { price: p, qty: incoming.qty, aggressor: incoming.id }],
            )
        }),
{
    let book = b.book(opposite(incoming.side));
    lemma_best_unique(book, opposite(incoming.side), p);
    let front = book[p][0];
    let left = book[p].update(0, Order { qty: (front.qty - incoming.qty) as u32, ..front });
    assert(fill_front(book[p], incoming.qty) == left);
    assert(left.len() > 0);
    let rest = Order { qty: 0, ..incoming };
    let tr = Trade { price: p, qty: incoming.qty, aggressor: incoming.id };
    assert(match_result(book.insert(p, left), rest).2 == Seq::<Trade>::empty());
    assert(seq![tr] + Seq::<Trade>::empty() =~= seq![tr]);
}

/// Matches `incoming` against the resting side `opp` under price/time
/// priority, folding each trade into `ohlc`; returns what is left of the
/// order and the trades.
fn match_order(opp: &mut SideBook, incoming: Order, ohlc: &mut OhlcTracker) -> (r: (Order, Vec<Trade>))
    requires
        old(opp).wf(),
        old(opp).side() == opposite(incoming.side),
    ensures
        final(opp).wf(),
        final(opp).side() == old(opp).side(),
        match_result(old(opp)@, incoming) == (final(opp)@, r.0, r.1@),
        r.0.side == incoming.side,
        final(ohlc)@ == ohlc_fold(old(ohlc)@, trade_prices(r.1@), incoming.timestamp),
{
    let mut rem = incoming;
    let mut trades: Vec<Trade> = Vec::new();
    assert(trade_prices(trades@) =~= Seq::<u64>::empty());
    assert(trades@ + match_result(opp@, rem).2 =~= match_result(opp@, rem).2);
    loop
        invariant_except_break
            ({
                let r = match_result(opp@, rem);
                (r.0, r.1, trades@ + r.2) == match_result(old(opp)@, incoming)
            }),
            ohlc@ == ohlc_fold(old(ohlc)@, trade_prices(trades@), incoming.timestamp),
        invariant
            opp.wf(),
            opp.side() == opposite(incoming.side),
            rem.id == incoming.id,
            rem.side == incoming.side,
            rem.price == incoming.price,
            rem.timestamp == incoming.timestamp,
        ensures
            match_result(old(opp)@, incoming) == (opp@, rem, trades@),
            ohlc@ == ohlc_fold(old(ohlc)@, trade_prices(trades@), incoming.timestamp),
        decreases rem.qty,
    {
        if rem.qty == 0 {
            assert(trades@ + Seq::<Trade>::empty() =~= trades@);
            break;
        }
        let best = opp.best();
        let p = match best {
            None => {
                assert(trades@ + Seq::<Trade>::empty() =~= trades@);
                break;
            },
            Some(p) => p,
        };
        proof {
            lemma_best_unique(opp@, opp.side(), p);
        }
        let ok = match rem.side {
            Side::Sell => p >= rem.price,
            Side::Buy => p <= rem.price,
        };
        if !ok {
            assert(trades@ + Seq::<Trade>::empty() =~= trades@);
            break;
        }
        let ghost m = opp@;
        let ghost before = rem;
        let t = opp.fill_best(p, rem.qty);
        ohlc.update(p, rem.timestamp);
        let trade = Trade { price: p, qty: t, aggressor: rem.id };
        let ghost done = trades@;
        trades.push(trade);
        rem = Order { id: rem.id, side: rem.side, price: rem.price, qty: rem.qty - t, timestamp: rem.timestamp };
        proof {
            assert(rem == Order { qty: (before.qty - t) as u32, ..before });
            let r = match_result(opp@, rem);
            assert(match_result(m, before) == (r.0, r.1, seq![trade] + r.2));
            assert(trades@ + r.2 =~= done + (seq![trade] + r.2));
            assert(trade_prices(trades@).drop_last() =~= trade_prices(done));
        }
    }
    (rem, trades)
}

/// The matching engine: a buy side and a sell side.
pub struct OrderBook {
    buy: SideBook,
    sell: SideBook,
}

impl OrderBook {
    /// The resting orders of side `s`, by price.
    pub closed spec fn book(&self, s: Side) -> Map<u64, Seq<Order>> {
        match s {
            Side::Buy => self.buy@,
            Side::Sell => self.sell@,
        }
    }

    /// The price index of side `s`: the prices with liquidity, ascending.
    pub closed spec fn price_index(&self, s: Side) -> Seq<u64> {
        match s {
            Side::Buy => self.buy.price_index(),
            Side::Sell => self.sell.price_index(),
        }
    }

    /// Both sides are well formed: each price with liquidity is listed once
    /// in that side's price index, and each listed price has a non-empty
    /// level of live orders of that side at that price.
    pub closed spec fn wf(&self) -> bool {
        &&& self.buy.wf()
        &&& self.buy.side() == Side::Buy
        &&& self.sell.wf()
        &&& self.sell.side() == Side::Sell
    }

    /// An empty book.
    pub fn new() -> (r: Self)
        ensures
            r.wf(),
            r.book(Side::Buy).dom() == Set::<u64>::empty(),
            r.book(Side::Sell).dom() == Set::<u64>::empty(),
    {
        OrderBook { buy: SideBook::new(Side::Buy), sell: SideBook::new(Side::Sell) }
    }

    /// Matches `order` against the opposite side, folds every trade into
    /// `ohlc`, rests what is left on the order's own side, and returns the
    /// trades in the order they happened.
    pub fn process_order(&mut self, order: Order, ohlc: &mut OhlcTracker) -> (trades: Vec<Trade>)
        requires
            old(self).wf(),
        ensures
            final(self).wf(),
            ({
                let r = match_result(old(self).book(opposite(order.side)), order);
                &&& final(self).book(opposite(order.side)) == r.0
                &&& final(self).book(order.side) == (if r.1.qty > 0 {
                    rest_spec(old(self).book(order.side), r.1)
                } else {
                    old(self).book(order.side)
                })
                &&& trades@ == r.2
                &&& final(ohlc)@ == ohlc_fold(old(ohlc)@, trade_prices(r.2), order.timestamp)
            }),
    {
        match order.side {
            Side::Buy => {
                let (rem, trades) = match_order(&mut self.sell, order, ohlc);
                if rem.qty > 0 {
                    self.buy.rest(rem);
                }
                trades
            },
            Side::Sell => {
                let (rem, trades) = match_order(&mut self.buy, order, ohlc);
                if rem.qty > 0 {
                    self.sell.rest(rem);
                }
                trades
            },
        }
    }

    /// The most aggressive price resting on side `s`, or `None` when that
    /// side is empty.
    pub fn best_price(&self, s: Side) -> (r: Option<u64>)
        requires
            self.wf(),
        ensures
            r is None <==> self.book(s).dom() == Set::<u64>::empty(),
            r matches Some(p) ==> is_best(self.book(s), s, p),
    {
        match s {
            Side::Buy => self.buy.best(),
            Side::Sell => self.sell.best(),
        }
    }

    /// Every level of side `s` from the most to the least aggressive price,
    /// each with its orders in time priority.
    pub fn depth(&self, s: Side) -> (r: Vec<(u64, Vec<Order>)>)
        requires
            self.wf(),
        ensures
            depth_spec(self.book(s), s, r@.map_values(|e: (u64, Vec<Order>)| (e.0, e.1@))),
    {
        match s {
            Side::Buy => self.buy.depth(),
            Side::Sell => self.sell.depth(),
        }
    }
}

} // verus!
