//! The order book of one trading pair: two sides of price levels, each a
//! FIFO queue of order ids, and the live orders by id.
use vstd::prelude::*;
use std::collections::{HashMap, VecDeque};
use crate::decimal::{
    Dec, decimal_add, decimal_saturating_add, dec_add, dec_saturating_add, dec_le, max_value,
    lemma_value_bounds,
};
use crate::types::{
    Order, OrderId, Side, LevelSnapshot, OrderBookSnapshot, dec_zero, status_active,
};

verus! {

broadcast use vstd::std_specs::hash::group_hash_axioms;

/// A price level in the book: all orders at a given price in FIFO (time
/// priority) order.
pub struct PriceLevel {
    pub orders: VecDeque<OrderId>,
    pub total_quantity: Dec,
}

impl PriceLevel {
    /// An empty level.
    pub fn new() -> (r: PriceLevel)
        ensures
            r.orders@ == Seq::<OrderId>::empty(),
            r.total_quantity == dec_zero(),
    {
        PriceLevel { orders: VecDeque::new(), total_quantity: Dec::zero() }
    }

    /// Queues an order at the back and adds its quantity to the total.
    pub fn add(&mut self, order_id: OrderId, quantity: Dec)
        requires
            old(self).total_quantity.wf(),
            quantity.wf(),
            -max_value() <= old(self).total_quantity.value() + quantity.value() <= max_value(),
        ensures
            final(self).orders@ == old(self).orders@.push(order_id),
            final(self).total_quantity == decimal_add(old(self).total_quantity, quantity),
            final(self).total_quantity.wf(),
    {
        self.orders.push_back(order_id);
        self.total_quantity = dec_add(self.total_quantity, quantity);
    }

    /// Takes the order at the front of the queue.
    pub fn remove_front(&mut self) -> (r: Option<OrderId>)
        ensures
            old(self).orders@.len() == 0 ==> r is None && final(self).orders@ == old(self).orders@,
            old(self).orders@.len() > 0 ==> r == Some(old(self).orders@[0])
                && final(self).orders@ == old(self).orders@.drop_first(),
            final(self).total_quantity == old(self).total_quantity,
    {
        let r = self.orders.pop_front();
        proof {
            if old(self).orders@.len() > 0 {
                assert(self.orders@ =~= old(self).orders@.drop_first());
            }
        }
        r
    }

    pub fn is_empty(&self) -> (r: bool)
        ensures
            r == (self.orders@.len() == 0),
    {
        self.orders.len() == 0
    }
}

impl Default for PriceLevel {
    fn default() -> (r: PriceLevel)
        ensures
            r.orders@ == Seq::<OrderId>::empty(),
            r.total_quantity == dec_zero(),
    {
        PriceLevel::new()
    }
}

/// What a price level holds: its price, its queue and its total.
pub struct LevelView {
    pub price: Dec,
    pub ids: Seq<OrderId>,
    pub total: Dec,
}

/// The queue without the given id.
pub open spec fn without(ids: Seq<OrderId>, id: OrderId) -> Seq<OrderId> {
    ids.filter(|x: OrderId| x != id)
}

/// The index of the first level whose price is at least `v`.
pub open spec fn is_lower_bound(lv: Seq<LevelView>, v: int, i: int) -> bool {
    &&& 0 <= i <= lv.len()
    &&& forall|j: int| 0 <= j < i ==> #[trigger] lv[j].price.value() < v
    &&& i < lv.len() ==> lv[i].price.value() >= v
}

pub open spec fn lower_bound(lv: Seq<LevelView>, v: int) -> int {
    choose|i: int| is_lower_bound(lv, v, i)
}

pub proof fn lemma_lower_bound(lv: Seq<LevelView>, v: int, i: int)
    requires
        is_lower_bound(lv, v, i),
    ensures
        lower_bound(lv, v) == i,
{
    let k = lower_bound(lv, v);
    assert(is_lower_bound(lv, v, k));
    if k < i {
        assert(lv[k].price.value() < v);
    } else if i < k {
        assert(lv[i].price.value() < v);
    }
}

/// The index of the level priced at `v`, if there is one.
pub open spec fn level_index(lv: Seq<LevelView>, v: int) -> Option<int> {
    let i = lower_bound(lv, v);
    if 0 <= i < lv.len() && lv[i].price.value() == v {
        Some(i)
    } else {
        None
    }
}

/// The new total of a level after `qty` is added to it.
pub open spec fn add_total(total: Dec, qty: Dec, saturate: bool) -> Dec {
    if saturate {
        decimal_saturating_add(total, qty)
    } else {
        decimal_add(total, qty)
    }
}

/// The levels after an order is queued at `price`: at the back of the level
/// of that price, or in a new level where the price keeps the levels in
/// ascending order.
pub open spec fn levels_after_insert(
    lv: Seq<LevelView>,
    price: Dec,
    id: OrderId,
    qty: Dec,
    saturate: bool,
) -> Seq<LevelView> {
    let i = lower_bound(lv, price.value());
    match level_index(lv, price.value()) {
        Some(k) => lv.update(
            k,
            LevelView {
                price: lv[k].price,
                ids: lv[k].ids.push(id),
                total: add_total(lv[k].total, qty, saturate),
            },
        ),
        None => lv.insert(
            i,
            LevelView { price, ids: seq![id], total: add_total(dec_zero(), qty, saturate) },
        ),
    }
}

/// Adding `qty` to the total of the level priced at `price`, if there is one,
/// stays in the decimal range (where `+=` on a decimal does not panic).
pub open spec fn level_total_in_range(lv: Seq<LevelView>, price: Dec, qty: Dec) -> bool {
    match level_index(lv, price.value()) {
        Some(k) => -max_value() <= lv[k].total.value() + qty.value() <= max_value(),
        None => true,
    }
}

/// The levels after an id is taken out of the level at `price`; a level
/// left empty is dropped.
pub open spec fn levels_after_remove(lv: Seq<LevelView>, price: Dec, id: OrderId) -> Seq<
    LevelView,
> {
    match level_index(lv, price.value()) {
        Some(k) => {
            let ids = without(lv[k].ids, id);
            if ids.len() == 0 {
                lv.remove(k)
            } else {
                lv.update(k, LevelView { price: lv[k].price, ids, total: lv[k].total })
            }
        },
        None => lv,
    }
}

/// The levels after the front order of level `i` is taken; a level left
/// empty is dropped.
pub open spec fn levels_after_pop(lv: Seq<LevelView>, i: int) -> Seq<LevelView> {
    if lv[i].ids.len() <= 1 {
        lv.remove(i)
    } else {
        lv.update(i, LevelView { price: lv[i].price, ids: lv[i].ids.drop_first(), total: lv[i].total })
    }
}

/// Levels in strictly ascending price order.
pub open spec fn levels_sorted(lv: Seq<LevelView>) -> bool {
    forall|i: int, j: int| 0 <= i < j < lv.len() ==> (#[trigger] lv[i]).price.value() < (#[trigger] lv[j]).price.value()
}

/// The decimals of every level are in range.
pub open spec fn levels_decimals_wf(lv: Seq<LevelView>) -> bool {
    forall|i: int| 0 <= i < lv.len() ==> (#[trigger] lv[i]).price.wf() && lv[i].total.wf()
}

/// One side of the order book. Levels are kept in ascending price order:
/// the best bid is the last level, the best ask the first.
pub struct HalfBook {
    /// price -> price level (FIFO queue of order ids)
    pub levels: Vec<(Dec, PriceLevel)>,
}

impl View for HalfBook {
    type V = Seq<LevelView>;

    open spec fn view(&self) -> Seq<LevelView> {
        Seq::new(
            self.levels@.len(),
            |i: int|
                LevelView {
                    price: self.levels@[i].0,
                    ids: self.levels@[i].1.orders@,
                    total: self.levels@[i].1.total_quantity,
                },
        )
    }
}

impl HalfBook {
    pub fn new() -> (r: HalfBook)
        ensures
            r@ == Seq::<LevelView>::empty(),
    {
        let r = HalfBook { levels: Vec::new() };
        assert(r@ =~= Seq::<LevelView>::empty());
        r
    }

    /// The index of the first level whose price is at least `price`.
    fn lower_bound_index(&self, price: Dec) -> (i: usize)
        requires
            levels_decimals_wf(self@),
            price.wf(),
        ensures
            is_lower_bound(self@, price.value(), i as int),
            i as int == lower_bound(self@, price.value()),
    {
        let mut i: usize = 0;
        let mut done = false;
        while !done && i < self.levels.len()
            invariant
                0 <= i <= self.levels@.len(),
                levels_decimals_wf(self@),
                price.wf(),
                forall|j: int| 0 <= j < i ==> #[trigger] self@[j].price.value() < price.value(),
                done ==> i < self.levels@.len() && self@[i as int].price.value() >= price.value(),
            decreases self.levels@.len() - i + (if done { 0int } else { 1int }),
        {
            assert(self@[i as int].price == self.levels@[i as int].0);
            if dec_le(price, self.levels[i].0) {
                done = true;
            } else {
                i = i + 1;
            }
        }
        proof {
            lemma_lower_bound(self@, price.value(), i as int);
        }
        i
    }

    /// The index of the level priced at `price`, if there is one.
    fn find_level(&self, price: Dec) -> (r: Option<usize>)
        requires
            levels_decimals_wf(self@),
            price.wf(),
        ensures
            r matches Some(k) ==> level_index(self@, price.value()) == Some(k as int),
            r is None ==> level_index(self@, price.value()) is None,
            r is None ==> is_lower_bound(self@, price.value(), lower_bound(self@, price.value())),
    {
        let i = self.lower_bound_index(price);
        if i < self.levels.len() && dec_le(self.levels[i].0, price) {
            Some(i)
        } else {
            None
        }
    }

    /// Queues an order at a price; the level total grows by `qty`,
    /// saturating at the range of a decimal when `saturate` holds.
    fn insert_at(&mut self, price: Dec, id: OrderId, qty: Dec, saturate: bool)
        requires
            levels_decimals_wf(old(self)@),
            price.wf(),
            qty.wf(),
            !saturate ==> level_total_in_range(old(self)@, price, qty),
        ensures
            final(self)@ == levels_after_insert(old(self)@, price, id, qty, saturate),
            levels_decimals_wf(final(self)@),
            level_total_in_range(old(self)@, price, qty) ==> final(self)@ == levels_after_insert(
                old(self)@,
                price,
                id,
                qty,
                false,
            ),
    {
        let ghost lv = old(self)@;
        match self.find_level(price) {
            Some(k) => {
                let (p, mut level) = self.levels.remove(k);
                if saturate {
                    level.orders.push_back(id);
                    level.total_quantity = dec_saturating_add(level.total_quantity, qty);
                } else {
                    level.add(id, qty);
                }
                self.levels.insert(k, (p, level));
                assert(self@ =~= levels_after_insert(lv, price, id, qty, saturate));
            },
            None => {
                let i = self.lower_bound_index(price);
                let mut level = PriceLevel::new();
                proof {
                    lemma_value_bounds(qty);
                }
                if saturate {
                    level.orders.push_back(id);
                    level.total_quantity = dec_saturating_add(level.total_quantity, qty);
                } else {
                    level.add(id, qty);
                }
                self.levels.insert(i, (price, level));
                assert(self@ =~= levels_after_insert(lv, price, id, qty, saturate));
            },
        }
    }

    /// Insert an order into this half-book, at its limit price.
    pub fn insert(&mut self, order: &Order)
        requires
            levels_decimals_wf(old(self)@),
            order.price is Some,
            order.price.unwrap().wf(),
            order.quantity_remaining.wf(),
            match level_index(old(self)@, order.price.unwrap().value()) {
                Some(k) => -max_value() <= old(self)@[k].total.value()
                    + order.quantity_remaining.value() <= max_value(),
                None => true,
            },
        ensures
            final(self)@ == levels_after_insert(
                old(self)@,
                order.price.unwrap(),
                order.id,
                order.quantity_remaining,
                false,
            ),
            levels_decimals_wf(final(self)@),
            levels_sorted(old(self)@) ==> levels_sorted(final(self)@),
    {
        let price = match order.price {
            Some(p) => p,
            None => { return ; },
        };
        self.insert_at(price, order.id, order.quantity_remaining, false);
        proof {
            if levels_sorted(old(self)@) {
                lemma_insert_keeps_sorted(old(self)@, price, order.id, order.quantity_remaining, false);
            }
        }
    }

    /// Remove an order from a price level. Cleans up empty levels.
    pub fn remove(&mut self, price: Dec, order_id: OrderId)
        requires
            levels_decimals_wf(old(self)@),
            price.wf(),
        ensures
            final(self)@ == levels_after_remove(old(self)@, price, order_id),
            levels_decimals_wf(final(self)@),
            levels_sorted(old(self)@) ==> levels_sorted(final(self)@),
    {
        let ghost lv = old(self)@;
        match self.find_level(price) {
            Some(k) => {
                let (p, level) = self.levels.remove(k);
                let ids = queue_without(&level.orders, order_id);
                if ids.len() == 0 {
                    assert(self@ =~= levels_after_remove(lv, price, order_id));
                } else {
                    let total = level.total_quantity;
                    self.levels.insert(k, (p, PriceLevel { orders: ids, total_quantity: total }));
                    assert(self@ =~= levels_after_remove(lv, price, order_id));
                }
            },
            None => {},
        }
        proof {
            if levels_sorted(lv) {
                lemma_remove_keeps_sorted(lv, price, order_id);
            }
        }
    }

    /// Takes the front order of level `i`; drops the level if it empties.
    pub(crate) fn pop_front_at(&mut self, i: usize)
        requires
            i < old(self)@.len(),
            levels_decimals_wf(old(self)@),
        ensures
            final(self)@ == levels_after_pop(old(self)@, i as int),
            levels_decimals_wf(final(self)@),
    {
        let ghost lv = old(self)@;
        let (p, mut level) = self.levels.remove(i);
        assert(level.orders@ == lv[i as int].ids);
        if level.orders.len() <= 1 {
            assert(self@ =~= levels_after_pop(lv, i as int));
        } else {
            let _ = level.remove_front();
            self.levels.insert(i, (p, level));
            assert(self@ =~= levels_after_pop(lv, i as int));
        }
    }

    /// Best bid = highest price in the book.
    pub fn best_bid_price(&self) -> (r: Option<Dec>)
        requires
            levels_sorted(self@),
        ensures
            self@.len() == 0 ==> r is None,
            self@.len() > 0 ==> r == Some(self@[self@.len() - 1].price),
            forall|i: int|
                0 <= i < self@.len() ==> (#[trigger] self@[i]).price.value() <= r.unwrap().value(),
    {
        let n = self.levels.len();
        if n == 0 {
            None
        } else {
            Some(self.levels[n - 1].0)
        }
    }

    /// Best ask = lowest price in the book.
    pub fn best_ask_price(&self) -> (r: Option<Dec>)
        requires
            levels_sorted(self@),
        ensures
            self@.len() == 0 ==> r is None,
            self@.len() > 0 ==> r == Some(self@[0].price),
            forall|i: int|
                0 <= i < self@.len() ==> r.unwrap().value() <= (#[trigger] self@[i]).price.value(),
    {
        if self.levels.len() == 0 {
            None
        } else {
            Some(self.levels[0].0)
        }
    }

    /// Peek at the front order id at a given price level.
    pub fn front_order_at(&self, price: &Dec) -> (r: Option<OrderId>)
        requires
            levels_decimals_wf(self@),
            price.wf(),
        ensures
            r == match level_index(self@, price.value()) {
                Some(k) => if self@[k].ids.len() > 0 {
                    Some(self@[k].ids[0])
                } else {
                    None
                },
                None => None,
            },
    {
        match self.find_level(*price) {
            Some(k) => {
                let q = &self.levels[k].1.orders;
                if q.len() > 0 {
                    Some(q[0])
                } else {
                    None
                }
            },
            None => None,
        }
    }
}

/// The queue without the given id, in the same order.
fn queue_without(q: &VecDeque<OrderId>, id: OrderId) -> (r: VecDeque<OrderId>)
    ensures
        r@ == without(q@, id),
{
    let mut r: VecDeque<OrderId> = VecDeque::new();
    let n = q.len();
    for i in 0..n
        invariant
            n == q@.len(),
            r@ == without(q@.take(i as int), id),
    {
        let x = q[i];
        proof {
            reveal_with_fuel(Seq::filter, 1);
            assert(q@.take(i + 1).drop_last() =~= q@.take(i as int));
            assert(q@.take(i + 1).last() == x);
        }
        if x != id {
            r.push_back(x);
        }
    }
    assert(q@.take(n as int) =~= q@);
    r
}

/// What an order book holds.
pub struct BookView {
    pub bid: Seq<LevelView>,
    pub ask: Seq<LevelView>,
    pub orders: Map<u128, Order>,
}

/// The levels of one side of a book view.
pub open spec fn side_levels(b: BookView, side: Side) -> Seq<LevelView> {
    match side {
        Side::Bid => b.bid,
        Side::Ask => b.ask,
    }
}

/// A book view with the levels of one side replaced.
pub open spec fn with_side_levels(b: BookView, side: Side, lv: Seq<LevelView>) -> BookView {
    match side {
        Side::Bid => BookView { bid: lv, ..b },
        Side::Ask => BookView { ask: lv, ..b },
    }
}

/// The order `id` is live in `orders`, on `side`, at a limit equal to `price`.
pub open spec fn rests_at(orders: Map<u128, Order>, id: OrderId, side: Side, price: Dec) -> bool {
    &&& orders.contains_key(id.0)
    &&& orders[id.0].side == side
    &&& orders[id.0].price matches Some(p) && p.value() == price.value()
}

/// One side of a well-formed book: levels in strictly ascending price order,
/// none empty, each a queue of distinct ids of live orders of that side at
/// that price.
pub open spec fn side_wf(lv: Seq<LevelView>, orders: Map<u128, Order>, side: Side) -> bool {
    &&& levels_decimals_wf(lv)
    &&& forall|i: int| 0 <= i < lv.len() ==> (#[trigger] lv[i]).ids.len() > 0 && lv[i].ids.no_duplicates()
    &&& forall|i: int, j: int|
        0 <= i < j < lv.len() ==> (#[trigger] lv[i]).price.value() < (#[trigger] lv[j]).price.value()
    &&& forall|i: int, k: int|
        0 <= i < lv.len() && 0 <= k < lv[i].ids.len() ==> rests_at(orders, #[trigger] lv[i].ids[k], side, lv[i].price)
}

/// Every order kept by id is live, filed under its own id, with a limit
/// price and a remaining quantity that is not negative.
pub open spec fn orders_wf(orders: Map<u128, Order>) -> bool {
    forall|k: u128| #[trigger] orders.contains_key(k) ==> {
        let o = orders[k];
        &&& o.id.0 == k
        &&& o.decimals_wf()
        &&& o.price is Some
        &&& o.quantity_remaining.value() >= 0
        &&& status_active(o.status)
    }
}

/// The book is not crossed: the best bid is below the best ask.
pub open spec fn uncrossed(b: BookView) -> bool {
    b.bid.len() > 0 && b.ask.len() > 0 ==> b.bid[b.bid.len() - 1].price.value() < b.ask[0].price.value()
}

impl BookView {
    pub open spec fn wf(self) -> bool {
        &&& side_wf(self.bid, self.orders, Side::Bid)
        &&& side_wf(self.ask, self.orders, Side::Ask)
        &&& orders_wf(self.orders)
        &&& uncrossed(self)
    }
}

/// The book after an order rests in it: kept by id and queued at its
/// limit price on its side, the level total growing by its remaining quantity.
pub open spec fn book_after_add(b: BookView, order: Order) -> BookView {
    let lv = side_levels(b, order.side);
    let b2 = BookView { orders: b.orders.insert(order.id.0, order), ..b };
    with_side_levels(
        b2,
        order.side,
        levels_after_insert(lv, order.price.unwrap(), order.id, order.quantity_remaining, true),
    )
}

/// The book after an order rests in it, the level total growing by the plain
/// sum (what `+=` on a decimal gives where it does not panic).
pub open spec fn book_after_add_unsaturated(b: BookView, order: Order) -> BookView {
    let lv = side_levels(b, order.side);
    let b2 = BookView { orders: b.orders.insert(order.id.0, order), ..b };
    with_side_levels(
        b2,
        order.side,
        levels_after_insert(lv, order.price.unwrap(), order.id, order.quantity_remaining, false),
    )
}

/// The book after the order `id` is taken out of it (unchanged if absent).
pub open spec fn book_after_remove(b: BookView, id: OrderId) -> BookView {
    if b.orders.contains_key(id.0) {
        let o = b.orders[id.0];
        let b2 = BookView { orders: b.orders.remove(id.0), ..b };
        match o.price {
            Some(p) => with_side_levels(
                b2,
                o.side,
                levels_after_remove(side_levels(b, o.side), p, id),
            ),
            None => b2,
        }
    } else {
        b
    }
}

/// A snapshot holds the `depth` best levels of each side of a book, best
/// first, each with its price and total quantity.
pub open spec fn snapshot_of(r: OrderBookSnapshot, b: BookView, depth: int) -> bool {
    &&& r.asks@.len() == if depth < b.ask.len() { depth } else { b.ask.len() as int }
    &&& r.bids@.len() == if depth < b.bid.len() { depth } else { b.bid.len() as int }
    &&& forall|j: int| 0 <= j < r.asks@.len() ==> (#[trigger] r.asks@[j]).price == b.ask[j].price
        && r.asks@[j].quantity == b.ask[j].total
    &&& forall|j: int| 0 <= j < r.bids@.len() ==> (#[trigger] r.bids@[j]).price == b.bid[b.bid.len() - 1
        - j].price && r.bids@[j].quantity == b.bid[b.bid.len() - 1 - j].total
}

/// The book of one trading pair.
pub struct OrderBook {
    pub bid: HalfBook,
    pub ask: HalfBook,
    /// All live orders by id, for fast lookup during matching.
    pub orders: HashMap<u128, Order>,
}

impl View for OrderBook {
    type V = BookView;

    open spec fn view(&self) -> BookView {
        BookView { bid: self.bid@, ask: self.ask@, orders: self.orders@ }
    }
}

impl OrderBook {
    pub fn new() -> (r: OrderBook)
        ensures
            r@.bid == Seq::<LevelView>::empty(),
            r@.ask == Seq::<LevelView>::empty(),
            r@.orders == Map::<u128, Order>::empty(),
            r@.wf(),
    {
        OrderBook { bid: HalfBook::new(), ask: HalfBook::new(), orders: HashMap::new() }
    }

    /// Best bid: highest bid price.
    pub fn best_bid(&self) -> (r: Option<Dec>)
        requires
            levels_sorted(self@.bid),
        ensures
            self@.bid.len() == 0 ==> r is None,
            self@.bid.len() > 0 ==> r == Some(self@.bid[self@.bid.len() - 1].price),
            forall|i: int|
                0 <= i < self@.bid.len() ==> (#[trigger] self@.bid[i]).price.value() <= r.unwrap().value(),
    {
        self.bid.best_bid_price()
    }

    /// Best ask: lowest ask price.
    pub fn best_ask(&self) -> (r: Option<Dec>)
        requires
            levels_sorted(self@.ask),
        ensures
            self@.ask.len() == 0 ==> r is None,
            self@.ask.len() > 0 ==> r == Some(self@.ask[0].price),
            forall|i: int|
                0 <= i < self@.ask.len() ==> r.unwrap().value() <= (#[trigger] self@.ask[i]).price.value(),
    {
        self.ask.best_ask_price()
    }

    /// Whether an order with this id is live in the book.
    pub fn contains_order(&self, id: OrderId) -> (r: bool)
        ensures
            r == self@.orders.contains_key(id.0),
    {
        self.orders.contains_key(&id.0)
    }

    /// Rests an order in the book: keeps it by id and queues it at its limit
    /// price. The level's total quantity grows by the order's remaining
    /// quantity; out of the decimal range, where `+=` would panic, it
    /// saturates instead.
    pub fn add_order(&mut self, order: Order)
        requires
            levels_decimals_wf(old(self)@.bid),
            levels_decimals_wf(old(self)@.ask),
            order.price is Some,
            order.decimals_wf(),
        ensures
            final(self)@ == book_after_add(old(self)@, order),
            levels_decimals_wf(final(self)@.bid),
            levels_decimals_wf(final(self)@.ask),
            level_total_in_range(
                side_levels(old(self)@, order.side),
                order.price.unwrap(),
                order.quantity_remaining,
            ) ==> final(self)@ == book_after_add_unsaturated(old(self)@, order),
    {
        let price = order.price.unwrap();
        let id = order.id;
        let qty = order.quantity_remaining;
        let side = order.side;
        self.orders.insert(id.0, order);
        match side {
            Side::Bid => self.bid.insert_at(price, id, qty, true),
            Side::Ask => self.ask.insert_at(price, id, qty, true),
        }
    }

    /// Takes an order out of the book: out of the id map and out of its
    /// price level.
    pub fn remove_order(&mut self, id: OrderId) -> (r: Option<Order>)
        requires
            levels_decimals_wf(old(self)@.bid),
            levels_decimals_wf(old(self)@.ask),
            orders_wf(old(self)@.orders),
        ensures
            final(self)@ == book_after_remove(old(self)@, id),
            r == if old(self)@.orders.contains_key(id.0) {
                Some(old(self)@.orders[id.0])
            } else {
                None::<Order>
            },
            levels_decimals_wf(final(self)@.bid),
            levels_decimals_wf(final(self)@.ask),
    {
        let ghost b = old(self)@;
        let r = self.orders.remove(&id.0);
        match r {
            Some(o) => {
                assert(b.orders.contains_key(id.0));
                assert(o == b.orders[id.0]);
                assert(self.orders@ =~= b.orders.remove(id.0));
                match o.price {
                    Some(p) => {
                        match o.side {
                            Side::Bid => {
                                self.bid.remove(p, id);
                            },
                            Side::Ask => {
                                self.ask.remove(p, id);
                            },
                        }
                        assert(self@ == book_after_remove(b, id));
                    },
                    None => {
                        assert(self@ == book_after_remove(b, id));
                    },
                }
                Some(o)
            },
            None => {
                assert(self.orders@ =~= b.orders);
                assert(self@ == book_after_remove(b, id));
                None
            },
        }
    }

    /// A depth snapshot: the `depth` best levels of each side, best first,
    /// with their total quantities.
    pub fn depth_snapshot(&self, depth: usize, timestamp_ns: u64) -> (r: OrderBookSnapshot)
        ensures
            r.timestamp_ns == timestamp_ns,
            snapshot_of(r, self@, depth as int),
    {
        let mut asks: Vec<LevelSnapshot> = Vec::new();
        let na = self.ask.levels.len();
        let mut i: usize = 0;
        while i < na && i < depth
            invariant
                na == self@.ask.len(),
                i <= na,
                i <= depth,
                asks@.len() == i,
                forall|j: int| 0 <= j < i ==> (#[trigger] asks@[j]).price == self@.ask[j].price
                    && asks@[j].quantity == self@.ask[j].total,
            decreases na - i,
        {
            let lvl = &self.ask.levels[i];
            asks.push(LevelSnapshot { price: lvl.0, quantity: lvl.1.total_quantity });
            i = i + 1;
        }
        let mut bids: Vec<LevelSnapshot> = Vec::new();
        let nb = self.bid.levels.len();
        let mut j: usize = 0;
        while j < nb && j < depth
            invariant
                nb == self@.bid.len(),
                j <= nb,
                j <= depth,
                bids@.len() == j,
                forall|k: int| 0 <= k < j ==> (#[trigger] bids@[k]).price == self@.bid[nb - 1 - k].price
                    && bids@[k].quantity == self@.bid[nb - 1 - k].total,
            decreases nb - j,
        {
            let lvl = &self.bid.levels[nb - 1 - j];
            bids.push(LevelSnapshot { price: lvl.0, quantity: lvl.1.total_quantity });
            j = j + 1;
        }
        OrderBookSnapshot { bids, asks, timestamp_ns }
    }
}


/// Every id left by `without` was in the queue and differs from the
/// removed one; a queue without duplicates stays so.
pub proof fn lemma_without(s: Seq<OrderId>, id: OrderId)
    ensures
        forall|k: int| 0 <= k < without(s, id).len() ==> s.contains(#[trigger] without(s, id)[k])
            && without(s, id)[k] != id,
        s.no_duplicates() ==> without(s, id).no_duplicates(),
    decreases s.len(),
{
    reveal_with_fuel(Seq::filter, 1);
    if s.len() > 0 {
        let r = s.drop_last();
        lemma_without(r, id);
        let w = without(s, id);
        let wr = without(r, id);
        assert forall|k: int| 0 <= k < w.len() implies s.contains(#[trigger] w[k]) && w[k] != id by {
            if k < wr.len() {
                assert(w[k] == wr[k]);
                let j = choose|j: int| 0 <= j < r.len() && r[j] == wr[k];
                assert(s[j] == w[k]);
            } else {
                assert(w[k] == s.last());
                assert(s[s.len() - 1] == w[k]);
            }
        }
        if s.no_duplicates() {
            assert(r.no_duplicates());
            if s.last() != id {
                assert(w == wr.push(s.last()));
                assert forall|a: int, c: int| 0 <= a < w.len() && 0 <= c < w.len() && a != c implies w[a] != w[c] by {
                    if a < wr.len() && c < wr.len() {
                    } else if a < wr.len() {
                        let j = choose|j: int| 0 <= j < r.len() && r[j] == wr[a];
                        assert(s[j] == wr[a]);
                        assert(s[s.len() - 1] == w[c]);
                    } else {
                        let j = choose|j: int| 0 <= j < r.len() && r[j] == wr[c];
                        assert(s[j] == wr[c]);
                        assert(s[s.len() - 1] == w[a]);
                    }
                }
            }
        }
    }
}

/// There is always a first level whose price is at least `v`.
pub proof fn lemma_lower_bound_exists(lv: Seq<LevelView>, v: int)
    ensures
        is_lower_bound(lv, v, lower_bound(lv, v)),
    decreases lv.len(),
{
    if lv.len() == 0 {
        assert(is_lower_bound(lv, v, 0));
    } else {
        let r = lv.drop_last();
        lemma_lower_bound_exists(r, v);
        let i = lower_bound(r, v);
        let n = lv.len() - 1;
        if i < n {
            assert forall|j: int| 0 <= j < i implies #[trigger] lv[j].price.value() < v by {
                assert(lv[j] == r[j]);
            }
            assert(lv[i] == r[i]);
            assert(is_lower_bound(lv, v, i));
        } else if lv[n].price.value() < v {
            assert forall|j: int| 0 <= j < n + 1 implies #[trigger] lv[j].price.value() < v by {
                if j < n {
                    assert(lv[j] == r[j]);
                }
            }
            assert(is_lower_bound(lv, v, n + 1));
        } else {
            assert forall|j: int| 0 <= j < n implies #[trigger] lv[j].price.value() < v by {
                assert(lv[j] == r[j]);
            }
            assert(is_lower_bound(lv, v, n));
        }
    }
}

/// In ascending levels, the level priced at `v` is the one `level_index` finds.
pub proof fn lemma_level_index_sorted(lv: Seq<LevelView>, v: int, j: int)
    requires
        forall|a: int, c: int|
            0 <= a < c < lv.len() ==> (#[trigger] lv[a]).price.value() < (#[trigger] lv[c]).price.value(),
        0 <= j < lv.len(),
        lv[j].price.value() == v,
    ensures
        level_index(lv, v) == Some(j),
{
    lemma_lower_bound_exists(lv, v);
    let i = lower_bound(lv, v);
    if i < j {
        assert(lv[i].price.value() < lv[j].price.value());
    } else if j < i {
        assert(lv[j].price.value() < v);
    }
}

/// Taking an order out of a well-formed book leaves it well-formed.
#[verifier::spinoff_prover]
#[verifier::rlimit(30)]
pub proof fn lemma_remove_wf(b: BookView, id: OrderId)
    requires
        b.wf(),
    ensures
        book_after_remove(b, id).wf(),
{
    if b.orders.contains_key(id.0) {
        let o = b.orders[id.0];
        let os = o.side;
        let p = o.price.unwrap();
        let lv = side_levels(b, os);
        let ords = b.orders.remove(id.0);
        let lv2 = levels_after_remove(lv, p, id);
        let b2 = book_after_remove(b, id);
        assert(orders_wf(b.orders));
        assert(b.orders.contains_key(id.0));
        assert(side_wf(lv, b.orders, os));
        assert(b2.orders == ords);
        assert(side_levels(b2, os) == lv2);
        assert forall|k: u128| #[trigger] ords.contains_key(k) implies {
            let o2 = ords[k];
            &&& o2.id.0 == k
            &&& o2.decimals_wf()
            &&& o2.price is Some
            &&& o2.quantity_remaining.value() >= 0
            &&& status_active(o2.status)
        } by {
            assert(b.orders.contains_key(k));
        }
        // Where in the old levels an entry of the new ones sat.
        assert(side_wf(lv2, ords, os)) by {
            match level_index(lv, p.value()) {
                Some(k) => {
                    lemma_lower_bound_exists(lv, p.value());
                    let ids = without(lv[k].ids, id);
                    lemma_without(lv[k].ids, id);
                    assert forall|i2: int| 0 <= i2 < lv2.len() implies (#[trigger] lv2[i2]).ids.len() > 0
                        && lv2[i2].ids.no_duplicates() && lv2[i2].price.wf() && lv2[i2].total.wf() by {
                        if ids.len() == 0 {
                            if i2 < k {
                                assert(lv2[i2] == lv[i2]);
                            } else {
                                assert(lv2[i2] == lv[i2 + 1]);
                            }
                        } else if i2 != k {
                            assert(lv2[i2] == lv[i2]);
                        }
                    }
                    assert forall|i2: int, j2: int| 0 <= i2 < j2 < lv2.len() implies (#[trigger] lv2[i2]).price.value()
                        < (#[trigger] lv2[j2]).price.value() by {
                        if ids.len() == 0 {
                            let a = if i2 < k { i2 } else { i2 + 1 };
                            let c = if j2 < k { j2 } else { j2 + 1 };
                            assert(lv2[i2] == lv[a]);
                            assert(lv2[j2] == lv[c]);
                            assert(lv[a].price.value() < lv[c].price.value());
                        } else {
                            assert(lv2[i2].price == lv[i2].price);
                            assert(lv2[j2].price == lv[j2].price);
                            assert(lv[i2].price.value() < lv[j2].price.value());
                        }
                    }
                    assert forall|i2: int, k2: int| 0 <= i2 < lv2.len() && 0 <= k2 < lv2[i2].ids.len() implies rests_at(
                        ords,
                        #[trigger] lv2[i2].ids[k2],
                        os,
                        lv2[i2].price,
                    ) by {
                        let x = lv2[i2].ids[k2];
                        if ids.len() == 0 {
                            let a = if i2 < k { i2 } else { i2 + 1 };
                            assert(lv2[i2] == lv[a]);
                            assert(rests_at(b.orders, lv[a].ids[k2], os, lv[a].price));
                            if x == id {
                                assert(lv[a].price.value() == lv[k].price.value());
                                if a < k {
                                    assert(lv[a].price.value() < lv[k].price.value());
                                } else {
                                    assert(lv[k].price.value() < lv[a].price.value());
                                }
                            }
                        } else if i2 != k {
                            assert(lv2[i2] == lv[i2]);
                            assert(rests_at(b.orders, lv[i2].ids[k2], os, lv[i2].price));
                            if x == id {
                                assert(lv[i2].price.value() == lv[k].price.value());
                                if i2 < k {
                                    assert(lv[i2].price.value() < lv[k].price.value());
                                } else {
                                    assert(lv[k].price.value() < lv[i2].price.value());
                                }
                            }
                        } else {
                            assert(lv2[i2].ids == ids);
                            assert(lv[k].ids.contains(x));
                            let c = choose|c: int| 0 <= c < lv[k].ids.len() && lv[k].ids[c] == x;
                            assert(rests_at(b.orders, lv[k].ids[c], os, lv[k].price));
                        }
                    }
                },
                None => {
                    assert(lv2 == lv);
                    assert forall|i2: int, k2: int| 0 <= i2 < lv.len() && 0 <= k2 < lv[i2].ids.len() implies rests_at(
                        ords,
                        #[trigger] lv[i2].ids[k2],
                        os,
                        lv[i2].price,
                    ) by {
                        assert(rests_at(b.orders, lv[i2].ids[k2], os, lv[i2].price));
                        if lv[i2].ids[k2] == id {
                            lemma_level_index_sorted(lv, p.value(), i2);
                        }
                    }
                },
            }
        }
        let ts = os.opposite();
        let tl = side_levels(b, ts);
        assert(side_levels(b2, ts) == tl);
        assert(side_wf(tl, ords, ts)) by {
            assert forall|i2: int, k2: int| 0 <= i2 < tl.len() && 0 <= k2 < tl[i2].ids.len() implies rests_at(
                ords,
                #[trigger] tl[i2].ids[k2],
                ts,
                tl[i2].price,
            ) by {
                assert(rests_at(b.orders, tl[i2].ids[k2], ts, tl[i2].price));
            }
        }
        assert(uncrossed(b2)) by {
            if b2.bid.len() > 0 && b2.ask.len() > 0 {
                match level_index(lv, p.value()) {
                    Some(k) => {
                        let ids = without(lv[k].ids, id);
                        let n = lv.len();
                        if os == Side::Bid {
                            if ids.len() == 0 {
                                if k == n - 1 {
                                    assert(lv2[lv2.len() - 1] == lv[n - 2]);
                                    assert(lv[n - 2].price.value() < lv[n - 1].price.value());
                                } else {
                                    assert(lv2[lv2.len() - 1] == lv[n - 1]);
                                }
                            } else {
                                assert(lv2[lv2.len() - 1].price == lv[n - 1].price);
                            }
                        } else {
                            if ids.len() == 0 {
                                if k == 0 {
                                    assert(lv2[0] == lv[1]);
                                    assert(lv[0].price.value() < lv[1].price.value());
                                } else {
                                    assert(lv2[0] == lv[0]);
                                }
                            } else {
                                assert(lv2[0].price == lv[0].price);
                            }
                        }
                    },
                    None => {},
                }
            }
        }
        if os == Side::Bid {
            assert(b2.bid == lv2 && b2.ask == b.ask);
        } else {
            assert(b2.ask == lv2 && b2.bid == b.bid);
        }
    }
}


/// Removing an id a queue does not hold leaves it as it is.
pub proof fn lemma_without_absent(s: Seq<OrderId>, id: OrderId)
    requires
        !s.contains(id),
    ensures
        without(s, id) == s,
    decreases s.len(),
{
    reveal_with_fuel(Seq::filter, 1);
    if s.len() > 0 {
        let r = s.drop_last();
        assert(!r.contains(id)) by {
            if r.contains(id) {
                let j = choose|j: int| 0 <= j < r.len() && r[j] == id;
                assert(s[j] == id);
            }
        }
        lemma_without_absent(r, id);
        assert(s.last() != id) by {
            assert(s[s.len() - 1] == s.last());
        }
        assert(r.push(s.last()) =~= s);
    }
}

/// Two sides hold the same queues at the same prices (their totals may differ).
pub open spec fn same_queues(a: Seq<LevelView>, c: Seq<LevelView>) -> bool {
    &&& a.len() == c.len()
    &&& forall|i: int| 0 <= i < a.len() ==> (#[trigger] a[i]).price == c[i].price && a[i].ids == c[i].ids
}

/// Queueing an order keeps the levels in strictly ascending price order.
pub proof fn lemma_insert_keeps_sorted(
    lv: Seq<LevelView>,
    price: Dec,
    id: OrderId,
    qty: Dec,
    saturate: bool,
)
    requires
        levels_sorted(lv),
    ensures
        levels_sorted(levels_after_insert(lv, price, id, qty, saturate)),
{
    let v = price.value();
    let lv2 = levels_after_insert(lv, price, id, qty, saturate);
    lemma_lower_bound_exists(lv, v);
    let i = lower_bound(lv, v);
    match level_index(lv, v) {
        Some(k) => {
            assert forall|a: int, c: int| 0 <= a < c < lv2.len() implies (#[trigger] lv2[a]).price.value()
                < (#[trigger] lv2[c]).price.value() by {
                assert(lv2[a].price == lv[a].price);
                assert(lv2[c].price == lv[c].price);
                assert(lv[a].price.value() < lv[c].price.value());
            }
        },
        None => {
            assert(i < lv.len() ==> lv[i].price.value() > v);
            assert forall|a: int, c: int| 0 <= a < c < lv2.len() implies (#[trigger] lv2[a]).price.value()
                < (#[trigger] lv2[c]).price.value() by {
                let a0 = if a < i { a } else { a - 1 };
                let c0 = if c < i { c } else { c - 1 };
                if a < i && c < i {
                    assert(lv[a0].price.value() < lv[c0].price.value());
                } else if a < i && c == i {
                    assert(lv[a].price.value() < v);
                } else if a < i {
                    assert(lv[a].price.value() < v);
                    assert(lv2[c] == lv[c0]);
                    assert(i <= c0);
                    if i < c0 {
                        assert(lv[i].price.value() < lv[c0].price.value());
                    }
                } else if a == i {
                    assert(lv2[c] == lv[c0]);
                    if i < c0 {
                        assert(lv[i].price.value() < lv[c0].price.value());
                    }
                } else {
                    assert(lv2[a] == lv[a0]);
                    assert(lv2[c] == lv[c0]);
                    assert(lv[a0].price.value() < lv[c0].price.value());
                }
            }
        },
    }
}

/// Taking an order out keeps the levels in strictly ascending price order.
pub proof fn lemma_remove_keeps_sorted(lv: Seq<LevelView>, price: Dec, id: OrderId)
    requires
        levels_sorted(lv),
    ensures
        levels_sorted(levels_after_remove(lv, price, id)),
{
    let lv2 = levels_after_remove(lv, price, id);
    match level_index(lv, price.value()) {
        Some(k) => {
            if without(lv[k].ids, id).len() == 0 {
                assert forall|a: int, c: int| 0 <= a < c < lv2.len() implies (#[trigger] lv2[a]).price.value()
                    < (#[trigger] lv2[c]).price.value() by {
                    let a0 = if a < k { a } else { a + 1 };
                    let c0 = if c < k { c } else { c + 1 };
                    assert(lv2[a] == lv[a0]);
                    assert(lv2[c] == lv[c0]);
                    assert(lv[a0].price.value() < lv[c0].price.value());
                }
            } else {
                assert forall|a: int, c: int| 0 <= a < c < lv2.len() implies (#[trigger] lv2[a]).price.value()
                    < (#[trigger] lv2[c]).price.value() by {
                    assert(lv2[a].price == lv[a].price);
                    assert(lv2[c].price == lv[c].price);
                    assert(lv[a].price.value() < lv[c].price.value());
                }
            }
        },
        None => {},
    }
}

/// An order taken out of a book is no longer among its live orders; as every
/// queued id of a well-formed book is a live order (`side_wf`), and matching
/// fills only live orders (`MatchingEngine::submit`), no later match fills
/// against it.
pub proof fn lemma_removed_order_gone(b: BookView, id: OrderId)
    ensures
        !book_after_remove(b, id).orders.contains_key(id.0),
{
    if b.orders.contains_key(id.0) {
        assert(book_after_remove(b, id).orders == b.orders.remove(id.0));
    }
}

/// On one side of a book: queueing an id at a price and then taking it out
/// at that price gives back the same prices and queues, when the level at
/// that price, if there is one, is not empty and does not hold the id. A
/// level that the insert created is removed again.
pub proof fn lemma_levels_insert_then_remove(
    lv: Seq<LevelView>,
    price: Dec,
    id: OrderId,
    qty: Dec,
    saturate: bool,
)
    requires
        match level_index(lv, price.value()) {
            Some(k) => lv[k].ids.len() > 0 && !lv[k].ids.contains(id),
            None => true,
        },
    ensures
        same_queues(
            levels_after_remove(levels_after_insert(lv, price, id, qty, saturate), price, id),
            lv,
        ),
{
    let v = price.value();
    let lv2 = levels_after_insert(lv, price, id, qty, saturate);
    let lv3 = levels_after_remove(lv2, price, id);
    lemma_lower_bound_exists(lv, v);
    let i = lower_bound(lv, v);
    match level_index(lv, v) {
        Some(k) => {
            assert(k == i);
            let ids = lv[k].ids;
            assert(!ids.contains(id));
            assert(lv2 == lv.update(
                k,
                LevelView { price: lv[k].price, ids: ids.push(id), total: add_total(lv[k].total, qty, saturate) },
            ));
            assert(is_lower_bound(lv2, v, k)) by {
                assert forall|j: int| 0 <= j < k implies #[trigger] lv2[j].price.value() < v by {
                    assert(lv2[j] == lv[j]);
                }
            }
            lemma_lower_bound(lv2, v, k);
            reveal_with_fuel(Seq::filter, 1);
            assert(ids.push(id).drop_last() =~= ids);
            lemma_without_absent(ids, id);
            assert(without(ids.push(id), id) == ids);
            assert(lv3 == lv2.update(k, LevelView { price: lv2[k].price, ids, total: lv2[k].total }));
            assert forall|j: int| 0 <= j < lv3.len() implies (#[trigger] lv3[j]).price == lv[j].price && lv3[j].ids == lv[j].ids by {
                if j != k {
                    assert(lv3[j] == lv[j]);
                }
            }
        },
        None => {
            let nl = LevelView { price, ids: seq![id], total: add_total(dec_zero(), qty, saturate) };
            assert(lv2 == lv.insert(i, nl));
            assert(is_lower_bound(lv2, v, i)) by {
                assert forall|j: int| 0 <= j < i implies #[trigger] lv2[j].price.value() < v by {
                    assert(lv2[j] == lv[j]);
                }
            }
            lemma_lower_bound(lv2, v, i);
            reveal_with_fuel(Seq::filter, 2);
            assert(seq![id].drop_last() =~= Seq::<OrderId>::empty());
            assert(without(seq![id], id) =~= Seq::<OrderId>::empty());
            assert(lv3 == lv2.remove(i));
            assert(lv3 =~= lv);
        },
    }
}

/// Resting an order and then taking it out gives back the book: the same
/// live orders and the same queues at the same prices. (A level the order
/// joined keeps the quantity it added to its total, as levels never
/// subtract from their totals.)
pub proof fn lemma_add_then_remove(b: BookView, t: Order)
    requires
        b.wf(),
        t.price matches Some(p) && p.wf(),
        !b.orders.contains_key(t.id.0),
    ensures
        ({
            let b3 = book_after_remove(book_after_add(b, t), t.id);
            &&& b3.orders == b.orders
            &&& side_levels(b3, t.side.opposite()) == side_levels(b, t.side.opposite())
            &&& same_queues(side_levels(b3, t.side), side_levels(b, t.side))
        }),
{
    let p = t.price.unwrap();
    let ts = t.side;
    let lv = side_levels(b, ts);
    let b2 = book_after_add(b, t);
    let b3 = book_after_remove(b2, t.id);
    assert(b2.orders == b.orders.insert(t.id.0, t));
    assert(b2.orders.contains_key(t.id.0));
    assert(b2.orders[t.id.0] == t);
    assert(b3.orders =~= b.orders);
    assert(side_levels(b2, ts.opposite()) == side_levels(b, ts.opposite()));
    assert(side_wf(lv, b.orders, ts));
    assert forall|i: int| 0 <= i < lv.len() implies !(#[trigger] lv[i]).ids.contains(t.id) by {
        if lv[i].ids.contains(t.id) {
            let c = choose|c: int| 0 <= c < lv[i].ids.len() && lv[i].ids[c] == t.id;
            assert(rests_at(b.orders, lv[i].ids[c], ts, lv[i].price));
        }
    }
    lemma_levels_insert_then_remove(lv, p, t.id, t.quantity_remaining, true);
}

} // verus!
