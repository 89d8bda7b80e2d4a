//! The matching engine: one order book per trading pair, orders processed
//! one at a time in a deterministic loop.
use vstd::prelude::*;
use crate::decimal::{Dec, dec_le, dec_is_nonpositive, dec_to_string, decimal_text, lemma_value_bounds};
use crate::types::{
    Order, OrderId, OrderStatus, Side, TradingPair, MatchResult, OrderBookSnapshot, status_active,
};
use crate::errors::EngineError;
use crate::settlement::{system_now, system_ns_since_epoch};
use crate::orderbook::{
    OrderBook, BookView, LevelView, book_after_add, book_after_remove, lemma_remove_wf,
    snapshot_of, orders_wf,
};
use crate::matching::{
    match_bid, match_ask, match_result, fill_matches, taker_ok, lemma_add_wf, can_match,
    fills_exact, fills_total,
};

verus! {

broadcast use vstd::std_specs::hash::group_hash_axioms;

/// What `str::to_uppercase` returns for a string.
pub uninterp spec fn uppercase_text(s: Seq<char>) -> Seq<char>;

/// `str::to_uppercase`.
#[verifier::external_body]
fn to_uppercase(s: &str) -> (r: String)
    ensures
        r@ == uppercase_text(s@),
{
    s.to_uppercase()
}

/// The current time as nanoseconds since the Unix epoch, truncated to 64
/// bits; 0 when the clock reads before 1970.
fn now_ns() -> u64 {
    match system_ns_since_epoch(&system_now()) {
        Some(n) => n as u64,
        None => 0,
    }
}

/// The key under which a pair's book is kept: `BASE/QUOTE` in upper case.
pub open spec fn pair_key_text(pair: TradingPair) -> Seq<char> {
    uppercase_text(pair.base@) + "/"@ + uppercase_text(pair.quote@)
}

/// The key under which a pair's book is kept.
pub fn pair_key(pair: &TradingPair) -> (r: String)
    ensures
        r@ == pair_key_text(*pair),
{
    let mut key = to_uppercase(pair.base.as_str());
    key.append("/");
    let quote = to_uppercase(pair.quote.as_str());
    key.append(quote.as_str());
    key
}

/// The message of the error for an unknown pair.
pub open spec fn unknown_pair_text(pair: TradingPair) -> Seq<char> {
    "unknown pair: "@ + pair.base@ + "/"@ + pair.quote@
}

fn unknown_pair(pair: &TradingPair) -> (r: EngineError)
    ensures
        r matches EngineError::InvalidOrder(s) && s@ == unknown_pair_text(*pair),
{
    let mut msg = String::from_str("unknown pair: ");
    let p = pair.to_string();
    msg.append(p.as_str());
    EngineError::InvalidOrder(msg)
}

/// An order the engine accepts: a positive quantity and a positive limit
/// price.
pub open spec fn order_valid(o: Order) -> bool {
    &&& o.quantity.value() > 0
    &&& o.price matches Some(p) && p.value() > 0
}

/// The error that validation reports for an order it refuses.
pub open spec fn validation_error(e: EngineError, o: Order) -> bool {
    if o.quantity.value() <= 0 {
        e matches EngineError::InvalidQuantity(s) && s@ == decimal_text(o.quantity)
    } else {
        match o.price {
            None => e is MissingPrice,
            Some(p) => e matches EngineError::InvalidPrice(s) && s@ == decimal_text(p),
        }
    }
}

/// The index of the book kept under `key`, if there is one.
pub open spec fn book_index(v: Seq<(Seq<char>, BookView)>, key: Seq<char>) -> Option<int> {
    if exists|i: int| 0 <= i < v.len() && v[i].0 == key {
        Some(choose|i: int| 0 <= i < v.len() && v[i].0 == key)
    } else {
        None
    }
}

/// Each book is well-formed, and no key is used twice.
pub open spec fn engine_wf(v: Seq<(Seq<char>, BookView)>) -> bool {
    &&& forall|i: int| 0 <= i < v.len() ==> (#[trigger] v[i]).1.wf()
    &&& forall|i: int, j: int| 0 <= i < j < v.len() ==> (#[trigger] v[i]).0 != (#[trigger] v[j]).0
}

/// The id is not live in the book that `key` names.
pub open spec fn id_free(v: Seq<(Seq<char>, BookView)>, key: Seq<char>, id: OrderId) -> bool {
    match book_index(v, key) {
        Some(i) => !v[i].1.orders.contains_key(id.0),
        None => true,
    }
}

/// The message of the error for an order whose id is already live.
pub open spec fn live_id_text() -> Seq<char> {
    "order id already live"@
}

/// The order is matched: it is valid, its pair is known, its remaining
/// quantity is not negative and its id is not live in its pair's book.
pub open spec fn admitted(v: Seq<(Seq<char>, BookView)>, order: Order) -> bool {
    &&& order_valid(order)
    &&& book_index(v, pair_key_text(order.pair)) is Some
    &&& order.quantity_remaining.value() >= 0
    &&& id_free(v, pair_key_text(order.pair), order.id)
}

/// The book after an incoming order is processed: the book after matching,
/// with the order resting in it if it is still live.
pub open spec fn book_after_submit(b: BookView, order: Order) -> BookView {
    let (b2, t, _) = match_result(b, order);
    if status_active(t.status) {
        book_after_add(b2, t)
    } else {
        b2
    }
}

/// The matching engine: one book per trading pair.
pub struct MatchingEngine {
    /// One book per trading pair, under the pair's key.
    books: Vec<(String, OrderBook)>,
}

impl View for MatchingEngine {
    type V = Seq<(Seq<char>, BookView)>;

    closed spec fn view(&self) -> Seq<(Seq<char>, BookView)> {
        Seq::new(self.books@.len(), |i: int| (self.books@[i].0@, self.books@[i].1@))
    }
}

impl MatchingEngine {
    pub open spec fn wf(&self) -> bool {
        engine_wf(self@)
    }

    pub fn new() -> (r: MatchingEngine)
        ensures
            r@ == Seq::<(Seq<char>, BookView)>::empty(),
            r.wf(),
    {
        let r = MatchingEngine { books: Vec::new() };
        assert(r@ =~= Seq::<(Seq<char>, BookView)>::empty());
        r
    }

    /// The index of the book kept under `key`.
    fn find_book(&self, key: &String) -> (r: Option<usize>)
        requires
            self.wf(),
        ensures
            r matches Some(i) ==> book_index(self@, key@) == Some(i as int) && i < self@.len(),
            r is None ==> book_index(self@, key@) is None,
    {
        let n = self.books.len();
        let mut i: usize = 0;
        while i < n
            invariant
                self.wf(),
                n == self.books@.len(),
                i <= n,
                forall|j: int| 0 <= j < i ==> (#[trigger] self@[j]).0 != key@,
            decreases n - i,
        {
            assert(self@[i as int].0 == self.books@[i as int].0@);
            if self.books[i].0 == *key {
                proof {
                    let k = choose|k: int| 0 <= k < self@.len() && self@[k].0 == key@;
                    if k != i {
                        if k < i {
                            assert(self@[k].0 != self@[i as int].0);
                        } else {
                            assert(self@[i as int].0 != self@[k].0);
                        }
                    }
                }
                return Some(i);
            }
            i = i + 1;
        }
        None
    }

    /// Register a new trading pair. Must be called before submitting orders.
    /// A pair that is already registered keeps its book.
    pub fn add_pair(&mut self, pair: &TradingPair)
        requires
            old(self).wf(),
        ensures
            final(self).wf(),
            book_index(old(self)@, pair_key_text(*pair)) is Some ==> final(self)@ == old(self)@,
            book_index(old(self)@, pair_key_text(*pair)) is None ==> final(self)@ == old(self)@.push(
                (
                    pair_key_text(*pair),
                    BookView {
                        bid: Seq::<LevelView>::empty(),
                        ask: Seq::<LevelView>::empty(),
                        orders: Map::<u128, Order>::empty(),
                    },
                ),
            ),
    {
        let key = pair_key(pair);
        match self.find_book(&key) {
            Some(_) => {},
            None => {
                let ghost v = self@;
                self.books.push((key, OrderBook::new()));
                assert(self@ =~= v.push(
                    (
                        pair_key_text(*pair),
                        BookView {
                            bid: Seq::<LevelView>::empty(),
                            ask: Seq::<LevelView>::empty(),
                            orders: Map::<u128, Order>::empty(),
                        },
                    ),
                ));
                assert forall|i: int, j: int| 0 <= i < j < self@.len() implies (#[trigger] self@[i]).0
                    != (#[trigger] self@[j]).0 by {
                    if j == v.len() {
                        assert(self@[i] == v[i]);
                    } else {
                        assert(self@[i] == v[i]);
                        assert(self@[j] == v[j]);
                    }
                }
                assert forall|i: int| 0 <= i < self@.len() implies (#[trigger] self@[i]).1.wf() by {
                    if i < v.len() {
                        assert(self@[i] == v[i]);
                    }
                }
            },
        }
    }

    /// Checks an order: quantity and price must be positive, and a limit
    /// order must have a price.
    fn validate(&self, order: &Order) -> (r: Result<(), EngineError>)
        requires
            order.decimals_wf(),
        ensures
            r is Ok <==> order_valid(*order),
            r matches Err(e) ==> validation_error(e, *order),
    {
        if dec_is_nonpositive(order.quantity) {
            return Err(EngineError::InvalidQuantity(dec_to_string(order.quantity)));
        }
        match order.price {
            Some(price) => {
                if dec_is_nonpositive(price) {
                    return Err(EngineError::InvalidPrice(dec_to_string(price)));
                }
            },
            None => {
                // Market orders must eventually be supported; for now a price is required.
                return Err(EngineError::MissingPrice);
            },
        }
        Ok(())
    }

    /// Submit an order to the engine. It is validated, matched against the
    /// opposite side of its pair's book at price-time priority, and what
    /// remains of it rests in the book. The fills are stamped with the
    /// current time.
    pub fn submit(&mut self, order: Order) -> (r: Result<MatchResult, EngineError>)
        requires
            old(self).wf(),
            order.decimals_wf(),
        ensures
            final(self).wf(),
            !order_valid(order) ==> (r matches Err(e) && validation_error(e, order)),
            !order_valid(order) ==> final(self)@ == old(self)@,
            (order_valid(order) && book_index(old(self)@, pair_key_text(order.pair)) is None) ==> (r matches Err(
                e,
            ) && e matches EngineError::InvalidOrder(s) && s@ == unknown_pair_text(order.pair)),
            (order_valid(order) && book_index(old(self)@, pair_key_text(order.pair)) is None) ==> final(self)@
                == old(self)@,
            (order_valid(order) && book_index(old(self)@, pair_key_text(order.pair)) is Some
                && order.quantity_remaining.value() < 0) ==> (r matches Err(
                EngineError::InvalidQuantity(s),
            ) && s@ == decimal_text(order.quantity_remaining)),
            (order_valid(order) && book_index(old(self)@, pair_key_text(order.pair)) is Some
                && order.quantity_remaining.value() >= 0 && !id_free(
                old(self)@,
                pair_key_text(order.pair),
                order.id,
            )) ==> (r matches Err(EngineError::InvalidOrder(s)) && s@ == live_id_text()),
            !admitted(old(self)@, order) ==> final(self)@ == old(self)@,
            admitted(old(self)@, order) ==> ({
                let i = book_index(old(self)@, pair_key_text(order.pair)).unwrap();
                let b = old(self)@[i].1;
                let (_, t, recs) = match_result(b, order);
                &&& r is Ok
                &&& r.unwrap().order_id == order.id
                &&& r.unwrap().status == t.status
                &&& r.unwrap().fills@.len() == recs.len()
                &&& fills_exact(order.quantity_remaining, recs) ==> order.quantity_remaining.value()
                    - t.quantity_remaining.value() == fills_total(recs)
                &&& forall|j: int| 0 <= j < recs.len() ==> b.orders.contains_key(
                    (#[trigger] recs[j]).maker.0,
                )
                &&& forall|j: int| 0 <= j < recs.len() ==> fill_matches(
                    #[trigger] r.unwrap().fills@[j],
                    recs[j],
                    order,
                    r.unwrap().fills@[0].timestamp_ns,
                )
                &&& final(self)@ == old(self)@.update(i, (old(self)@[i].0, book_after_submit(b, order)))
            }),
    {
        let now = now_ns();
        let ghost o0 = order;
        let ghost v = old(self)@;
        let r = self.submit_at(order, now);
        proof {
            if admitted(v, o0) {
                let i = book_index(v, pair_key_text(o0.pair)).unwrap();
                let recs = match_result(v[i].1, o0).2;
                assert(forall|j: int| 0 <= j < recs.len() ==> fill_matches(
                    #[trigger] r.unwrap().fills@[j],
                    recs[j],
                    o0,
                    now,
                ));
            }
        }
        r
    }

    /// `submit`, with the fills stamped with the given time.
    pub fn submit_at(&mut self, order: Order, now_ns: u64) -> (r: Result<MatchResult, EngineError>)
        requires
            old(self).wf(),
            order.decimals_wf(),
        ensures
            final(self).wf(),
            !order_valid(order) ==> (r matches Err(e) && validation_error(e, order)),
            !order_valid(order) ==> final(self)@ == old(self)@,
            (order_valid(order) && book_index(old(self)@, pair_key_text(order.pair)) is None) ==> (r matches Err(
                e,
            ) && e matches EngineError::InvalidOrder(s) && s@ == unknown_pair_text(order.pair)),
            (order_valid(order) && book_index(old(self)@, pair_key_text(order.pair)) is None) ==> final(self)@
                == old(self)@,
            (order_valid(order) && book_index(old(self)@, pair_key_text(order.pair)) is Some
                && order.quantity_remaining.value() < 0) ==> (r matches Err(
                EngineError::InvalidQuantity(s),
            ) && s@ == decimal_text(order.quantity_remaining)),
            (order_valid(order) && book_index(old(self)@, pair_key_text(order.pair)) is Some
                && order.quantity_remaining.value() >= 0 && !id_free(
                old(self)@,
                pair_key_text(order.pair),
                order.id,
            )) ==> (r matches Err(EngineError::InvalidOrder(s)) && s@ == live_id_text()),
            !admitted(old(self)@, order) ==> final(self)@ == old(self)@,
            admitted(old(self)@, order) ==> ({
                let i = book_index(old(self)@, pair_key_text(order.pair)).unwrap();
                let b = old(self)@[i].1;
                let (_, t, recs) = match_result(b, order);
                &&& r is Ok
                &&& r.unwrap().order_id == order.id
                &&& r.unwrap().status == t.status
                &&& r.unwrap().fills@.len() == recs.len()
                &&& fills_exact(order.quantity_remaining, recs) ==> order.quantity_remaining.value()
                    - t.quantity_remaining.value() == fills_total(recs)
                &&& forall|j: int| 0 <= j < recs.len() ==> b.orders.contains_key(
                    (#[trigger] recs[j]).maker.0,
                )
                &&& forall|j: int|
                    0 <= j < recs.len() ==> fill_matches(
                        #[trigger] r.unwrap().fills@[j],
                        recs[j],
                        order,
                        now_ns,
                    )
                &&& final(self)@ == old(self)@.update(i, (old(self)@[i].0, book_after_submit(b, order)))
            }),
    {
        match self.validate(&order) {
            Ok(()) => {},
            Err(e) => {
                return Err(e);
            },
        }
        let key = pair_key(&order.pair);
        let idx = match self.find_book(&key) {
            Some(i) => i,
            None => {
                return Err(unknown_pair(&order.pair));
            },
        };
        if !dec_le(Dec::zero(), order.quantity_remaining) {
            return Err(EngineError::InvalidQuantity(dec_to_string(order.quantity_remaining)));
        }
        assert(self.books@[idx as int].1@ == self@[idx as int].1);
        if self.books[idx].1.contains_order(order.id) {
            return Err(EngineError::InvalidOrder(String::from_str("order id already live")));
        }
        let ghost v = self@;
        let ghost b = v[idx as int].1;
        let ghost o0 = order;
        let (k, mut book) = self.books.remove(idx);
        assert(book@ == b);
        let mut order = order;
        let mut fills: Vec<crate::types::Fill> = Vec::new();
        let ghost f0 = fills@;
        match order.side {
            Side::Bid => match_bid(&mut order, &mut book, &mut fills, now_ns),
            Side::Ask => match_ask(&mut order, &mut book, &mut fills, now_ns),
        }
        let status = order.status;
        let id = order.id;
        let ghost bm = book@;
        let ghost tm = order;
        if order.is_active() {
            let limit = order.price.unwrap();
            book.add_order(order);
            proof {
                lemma_add_wf(bm, tm, limit);
            }
        }
        assert(book@ == book_after_submit(b, o0));
        self.books.insert(idx, (k, book));
        proof {
            assert(self@ =~= v.update(idx as int, (v[idx as int].0, book_after_submit(b, o0))));
            assert forall|i: int| 0 <= i < self@.len() implies (#[trigger] self@[i]).1.wf() by {
                if i != idx {
                    assert(self@[i] == v[i]);
                }
            }
            assert forall|i: int, j: int| 0 <= i < j < self@.len() implies (#[trigger] self@[i]).0
                != (#[trigger] self@[j]).0 by {
                assert(self@[i].0 == v[i].0);
                assert(self@[j].0 == v[j].0);
            }
            let recs = match_result(b, o0).2;
            assert forall|j: int| 0 <= j < recs.len() implies fill_matches(
                #[trigger] fills@[j],
                recs[j],
                o0,
                now_ns,
            ) by {
                assert(fill_matches(fills@[f0.len() + j], recs[j], o0, now_ns));
            }
        }
        Ok(MatchResult { order_id: id, fills, status })
    }

    /// Cancel a resting order by id. The order is returned, marked cancelled.
    pub fn cancel(&mut self, pair: &TradingPair, order_id: OrderId) -> (r: Result<Order, EngineError>)
        requires
            old(self).wf(),
        ensures
            final(self).wf(),
            book_index(old(self)@, pair_key_text(*pair)) is None ==> (r matches Err(e)
                && e matches EngineError::InvalidOrder(s) && s@ == unknown_pair_text(*pair)),
            book_index(old(self)@, pair_key_text(*pair)) is None ==> final(self)@ == old(self)@,
            book_index(old(self)@, pair_key_text(*pair)) is Some ==> ({
                let i = book_index(old(self)@, pair_key_text(*pair)).unwrap();
                let b = old(self)@[i].1;
                &&& final(self)@ == old(self)@.update(i, (old(self)@[i].0, book_after_remove(b, order_id)))
                &&& b.orders.contains_key(order_id.0) ==> r == Ok::<Order, EngineError>(
                    Order { status: OrderStatus::Cancelled, ..b.orders[order_id.0] },
                )
                &&& !b.orders.contains_key(order_id.0) ==> r == Err::<Order, EngineError>(
                    EngineError::OrderNotFound(order_id),
                )
            }),
    {
        let key = pair_key(pair);
        let idx = match self.find_book(&key) {
            Some(i) => i,
            None => {
                return Err(unknown_pair(pair));
            },
        };
        let ghost v = self@;
        let ghost b = v[idx as int].1;
        let (k, mut book) = self.books.remove(idx);
        assert(book@ == b);
        let removed = book.remove_order(order_id);
        proof {
            lemma_remove_wf(b, order_id);
        }
        self.books.insert(idx, (k, book));
        proof {
            assert(self@ =~= v.update(idx as int, (v[idx as int].0, book_after_remove(b, order_id))));
            assert forall|i: int| 0 <= i < self@.len() implies (#[trigger] self@[i]).1.wf() by {
                if i != idx {
                    assert(self@[i] == v[i]);
                }
            }
            assert forall|i: int, j: int| 0 <= i < j < self@.len() implies (#[trigger] self@[i]).0
                != (#[trigger] self@[j]).0 by {
                assert(self@[i].0 == v[i].0);
                assert(self@[j].0 == v[j].0);
            }
        }
        match removed {
            Some(o) => {
                let mut o = o;
                o.status = OrderStatus::Cancelled;
                Ok(o)
            },
            None => Err(EngineError::OrderNotFound(order_id)),
        }
    }

    /// A depth snapshot of a pair's book: the `level` best levels of each
    /// side, stamped with the current time.
    pub fn depth(&self, pair: &TradingPair, level: usize) -> (r: Option<OrderBookSnapshot>)
        requires
            self.wf(),
        ensures
            r is Some <==> book_index(self@, pair_key_text(*pair)) is Some,
            r matches Some(s) ==> snapshot_of(
                s,
                self@[book_index(self@, pair_key_text(*pair)).unwrap()].1,
                level as int,
            ),
    {
        let key = pair_key(pair);
        match self.find_book(&key) {
            Some(i) => {
                let now = now_ns();
                assert(self.books@[i as int].1@ == self@[i as int].1);
                Some(self.books[i].1.depth_snapshot(level, now))
            },
            None => None,
        }
    }

    /// Best bid and best ask of a pair.
    pub fn best_prices(&self, pair: &TradingPair) -> (r: Option<(Option<Dec>, Option<Dec>)>)
        requires
            self.wf(),
        ensures
            r is Some <==> book_index(self@, pair_key_text(*pair)) is Some,
            r matches Some(p) ==> {
                let b = self@[book_index(self@, pair_key_text(*pair)).unwrap()].1;
                &&& p.0 == if b.bid.len() > 0 {
                    Some(b.bid[b.bid.len() - 1].price)
                } else {
                    None::<Dec>
                }
                &&& p.1 == if b.ask.len() > 0 {
                    Some(b.ask[0].price)
                } else {
                    None::<Dec>
                }
            },
    {
        let key = pair_key(pair);
        match self.find_book(&key) {
            Some(i) => {
                let book = &self.books[i].1;
                assert(book@ == self@[i as int].1);
                Some((book.best_bid(), book.best_ask()))
            },
            None => None,
        }
    }

    /// Whether an order with this id rests in the book of a pair.
    pub fn contains_order(&self, pair: &TradingPair, id: OrderId) -> (r: bool)
        requires
            self.wf(),
        ensures
            r == !id_free(self@, pair_key_text(*pair), id),
    {
        let key = pair_key(pair);
        match self.find_book(&key) {
            Some(i) => {
                assert(self.books@[i as int].1@ == self@[i as int].1);
                self.books[i].1.contains_order(id)
            },
            None => false,
        }
    }
}

impl Default for MatchingEngine {
    fn default() -> (r: MatchingEngine)
        ensures
            r@ == Seq::<(Seq<char>, BookView)>::empty(),
            r.wf(),
    {
        MatchingEngine::new()
    }
}

} // verus!
