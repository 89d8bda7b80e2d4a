//! Price-time priority matching of an incoming order against the opposite
//! side of a book.
use vstd::prelude::*;
use crate::decimal::{
    Dec, spec_min, dec_min, dec_le, decimal_sub, aligned_difference, lemma_value_bounds,
    lemma_sub_self_exact, MAX_MANTISSA,
};
use crate::types::{
    Order, OrderId, OrderStatus, Side, Fill, order_after_fill, status_active, dec_zero,
    lemma_fill_status,
};
use crate::orderbook::{
    OrderBook, BookView, LevelView, side_levels, with_side_levels, levels_after_pop, side_wf,
    orders_wf, uncrossed, rests_at, levels_decimals_wf, level_index, lemma_lower_bound,
    book_after_add, levels_after_insert, lower_bound, lemma_lower_bound_exists, add_total,
    levels_sorted,
};

verus! {

broadcast use vstd::std_specs::hash::group_hash_axioms;

/// One fill as matching decides it: the maker, the price, the quantity.
pub struct FillRec {
    pub maker: OrderId,
    pub price: Dec,
    pub qty: Dec,
}

/// The index of the best level of the side an order of `taker_side` trades
/// against: the lowest ask for a bid, the highest bid for an ask.
pub open spec fn best_index(lv: Seq<LevelView>, taker_side: Side) -> int {
    match taker_side {
        Side::Bid => 0,
        Side::Ask => lv.len() - 1,
    }
}

/// A level price crosses a limit: at or below it for a bid, at or above it
/// for an ask.
pub open spec fn crosses(taker_side: Side, level_price: Dec, limit: Dec) -> bool {
    match taker_side {
        Side::Bid => level_price.value() <= limit.value(),
        Side::Ask => level_price.value() >= limit.value(),
    }
}

/// The best opposite level exists and crosses the taker's limit.
pub open spec fn can_match(b: BookView, taker: Order, limit: Dec) -> bool {
    let lv = side_levels(b, taker.side.opposite());
    lv.len() > 0 && crosses(taker.side, lv[best_index(lv, taker.side)].price, limit)
}

/// One match: the taker trades with the order at the front of the best
/// opposite level, at that level's price, for the smaller of the two
/// remaining quantities. A maker that is filled leaves the book.
pub open spec fn match_step(b: BookView, taker: Order) -> (BookView, Order, FillRec) {
    let os = taker.side.opposite();
    let lv = side_levels(b, os);
    let i = best_index(lv, taker.side);
    let price = lv[i].price;
    let id = lv[i].ids[0];
    let maker = b.orders[id.0];
    let qty = spec_min(taker.quantity_remaining, maker.quantity_remaining);
    let maker2 = order_after_fill(maker, qty);
    let taker2 = order_after_fill(taker, qty);
    let b2 = if status_active(maker2.status) {
        BookView { orders: b.orders.insert(id.0, maker2), ..b }
    } else {
        with_side_levels(BookView { orders: b.orders.remove(id.0), ..b }, os, levels_after_pop(lv, i))
    };
    (b2, taker2, FillRec { maker: id, price, qty })
}

/// Matches repeatedly while the taker is live and the best opposite level
/// crosses its limit (at most `fuel` times).
pub open spec fn match_run(b: BookView, taker: Order, limit: Dec, fuel: nat) -> (
    BookView,
    Order,
    Seq<FillRec>,
)
    decreases fuel,
{
    if fuel == 0 || !can_match(b, taker, limit) {
        (b, taker, seq![])
    } else {
        let (b2, t2, f) = match_step(b, taker);
        if status_active(t2.status) {
            let (b3, t3, fs) = match_run(b2, t2, limit, (fuel - 1) as nat);
            (b3, t3, seq![f] + fs)
        } else {
            (b2, t2, seq![f])
        }
    }
}

/// Enough steps for matching to run to its end: each step but the last
/// takes a maker out of the book.
pub open spec fn match_fuel(b: BookView) -> nat {
    b.orders.dom().len() + 1
}

/// The outcome of matching an incoming order against a book: the book, the
/// order and the fills. An order without a limit price does not match.
pub open spec fn match_result(b: BookView, taker: Order) -> (BookView, Order, Seq<FillRec>) {
    match taker.price {
        Some(limit) => match_run(b, taker, limit, match_fuel(b)),
        None => (b, taker, seq![]),
    }
}

/// The remaining quantity of an order after `q` of `r` is filled, as
/// `Order::fill` sets it.
pub open spec fn remaining_after(r: Dec, q: Dec) -> Dec {
    let d = decimal_sub(r, q);
    if d.value() <= 0 {
        dec_zero()
    } else {
        d
    }
}

/// The taker's remaining quantity after the fills `recs`, from `start`.
pub open spec fn remaining_after_fills(start: Dec, recs: Seq<FillRec>) -> Dec
    decreases recs.len(),
{
    if recs.len() == 0 {
        start
    } else {
        remaining_after(remaining_after_fills(start, recs.drop_last()), recs.last().qty)
    }
}

/// Each fill, taken in turn from the taker's remaining quantity, is a
/// subtraction whose difference, written at the larger of the two scales,
/// has a mantissa of at most 96 bits: one that `rust_decimal` does exactly.
pub open spec fn fills_exact(start: Dec, recs: Seq<FillRec>) -> bool
    decreases recs.len(),
{
    if recs.len() == 0 {
        true
    } else {
        &&& fills_exact(start, recs.drop_last())
        &&& -MAX_MANTISSA <= aligned_difference(
            remaining_after_fills(start, recs.drop_last()),
            recs.last().qty,
        ) <= MAX_MANTISSA
    }
}

/// The sum of the quantities of the fills.
pub open spec fn fills_total(recs: Seq<FillRec>) -> int
    decreases recs.len(),
{
    if recs.len() == 0 {
        0
    } else {
        fills_total(recs.drop_last()) + recs.last().qty.value()
    }
}

/// `fill` is the record `r` of a match of `taker` at time `now`.
pub open spec fn fill_matches(fill: Fill, r: FillRec, taker: Order, now_ns: u64) -> bool {
    &&& fill.maker_order_id == r.maker
    &&& fill.taker_order_id == taker.id
    &&& fill.pair == taker.pair
    &&& fill.price == r.price
    &&& fill.quantity == r.qty
    &&& fill.taker_side == taker.side
    &&& fill.timestamp_ns == now_ns
}

/// What an incoming order must satisfy to be matched: decimals in range and
/// a remaining quantity that is not negative.
pub open spec fn taker_ok(t: Order) -> bool {
    &&& t.decimals_wf()
    &&& t.quantity_remaining.value() >= 0
}

/// The same order, but for its remaining quantity and status.
pub open spec fn same_order_but_fill(a: Order, b: Order) -> bool {
    &&& a.id == b.id
    &&& a.pair == b.pair
    &&& a.side == b.side
    &&& a.order_type == b.order_type
    &&& a.price == b.price
    &&& a.quantity == b.quantity
    &&& a.timestamp_ns == b.timestamp_ns
    &&& a.trader == b.trader
}

/// A step keeps the book well-formed, keeps the taker an order of its own,
/// and takes a maker out unless it leaves the taker filled.
proof fn lemma_step(b: BookView, taker: Order, limit: Dec)
    requires
        b.wf(),
        b.orders.dom().finite(),
        taker_ok(taker),
        can_match(b, taker, limit),
        ({
            let lv = side_levels(b, taker.side.opposite());
            let id = lv[best_index(lv, taker.side)].ids[0];
            let m = b.orders[id.0];
            let q = spec_min(taker.quantity_remaining, m.quantity_remaining);
            &&& decimal_sub(m.quantity_remaining, q).wf()
            &&& decimal_sub(taker.quantity_remaining, q).wf()
            &&& q == taker.quantity_remaining ==> decimal_sub(taker.quantity_remaining, q).value() == 0
            &&& q == m.quantity_remaining ==> decimal_sub(m.quantity_remaining, q).value() == 0
        }),
    ensures
        ({
            let (b2, t2, f) = match_step(b, taker);
            &&& b2.wf()
            &&& taker_ok(t2)
            &&& same_order_but_fill(t2, taker)
            &&& status_active(t2.status) ==> b2.orders.dom().len() + 1 == b.orders.dom().len()
            &&& side_levels(b2, taker.side) == side_levels(b, taker.side)
            &&& crosses(taker.side, f.price, limit)
        }),
{
    let os = taker.side.opposite();
    let lv = side_levels(b, os);
    let i = best_index(lv, taker.side);
    let id = lv[i].ids[0];
    assert(rests_at(b.orders, lv[i].ids[0], os, lv[i].price));
    let maker = b.orders[id.0];
    let qty = spec_min(taker.quantity_remaining, maker.quantity_remaining);
    let maker2 = order_after_fill(maker, qty);
    let taker2 = order_after_fill(taker, qty);
    let (b2, t2, f) = match_step(b, taker);
    assert(orders_wf(b.orders));
    assert(b.orders.contains_key(id.0));
    if status_active(maker2.status) {
        // The maker stays, with less remaining.
        assert(b2.orders == b.orders.insert(id.0, maker2));
        assert forall|k: u128| #[trigger] b2.orders.contains_key(k) implies {
            let o = b2.orders[k];
            &&& o.id.0 == k
            &&& o.decimals_wf()
            &&& o.price is Some
            &&& o.quantity_remaining.value() >= 0
            &&& status_active(o.status)
        } by {
            if k != id.0 {
                assert(b.orders.contains_key(k));
            }
        }
        assert(side_wf(b2.bid, b2.orders, Side::Bid)) by {
            assert forall|i2: int, k2: int|
                0 <= i2 < b2.bid.len() && 0 <= k2 < b2.bid[i2].ids.len() implies rests_at(
                b2.orders,
                #[trigger] b2.bid[i2].ids[k2],
                Side::Bid,
                b2.bid[i2].price,
            ) by {
                assert(rests_at(b.orders, b.bid[i2].ids[k2], Side::Bid, b.bid[i2].price));
            }
        }
        assert(side_wf(b2.ask, b2.orders, Side::Ask)) by {
            assert forall|i2: int, k2: int|
                0 <= i2 < b2.ask.len() && 0 <= k2 < b2.ask[i2].ids.len() implies rests_at(
                b2.orders,
                #[trigger] b2.ask[i2].ids[k2],
                Side::Ask,
                b2.ask[i2].price,
            ) by {
                assert(rests_at(b.orders, b.ask[i2].ids[k2], Side::Ask, b.ask[i2].price));
            }
        }
        // Since the maker stays, the taker was filled.
        assert(!status_active(t2.status));
    } else {
        // The maker leaves the book.
        let lv2 = levels_after_pop(lv, i);
        let ords = b.orders.remove(id.0);
        assert(b2.orders == ords);
        assert(side_levels(b2, os) == lv2);
        assert forall|k: u128| #[trigger] ords.contains_key(k) implies {
            let o = ords[k];
            &&& o.id.0 == k
            &&& o.decimals_wf()
            &&& o.price is Some
            &&& o.quantity_remaining.value() >= 0
            &&& status_active(o.status)
        } by {
            assert(b.orders.contains_key(k));
        }
        // The opposite side keeps its shape.
        assert(side_wf(lv2, ords, os)) by {
            assert forall|i2: int| 0 <= i2 < lv2.len() implies (#[trigger] lv2[i2]).ids.len() > 0
                && lv2[i2].ids.no_duplicates() && lv2[i2].price.wf() && lv2[i2].total.wf() by {
                if lv[i].ids.len() <= 1 {
                    if i2 < i {
                        assert(lv2[i2] == lv[i2]);
                    } else {
                        assert(lv2[i2] == lv[i2 + 1]);
                    }
                } else if i2 != i {
                    assert(lv2[i2] == lv[i2]);
                } else {
                    assert(lv2[i2].ids =~= lv[i].ids.drop_first());
                }
            }
            assert forall|i2: int, j2: int| 0 <= i2 < j2 < lv2.len() implies (#[trigger] lv2[i2]).price.value()
                < (#[trigger] lv2[j2]).price.value() by {
                if lv[i].ids.len() <= 1 {
                    let a = if i2 < i { i2 } else { i2 + 1 };
                    let c = if j2 < i { j2 } else { j2 + 1 };
                    assert(lv2[i2] == lv[a]);
                    assert(lv2[j2] == lv[c]);
                    assert(lv[a].price.value() < lv[c].price.value());
                } else {
                    assert(lv2[i2].price == lv[i2].price);
                    assert(lv2[j2].price == lv[j2].price);
                    assert(lv[i2].price.value() < lv[j2].price.value());
                }
            }
            assert forall|i2: int, k2: int| 0 <= i2 < lv2.len() && 0 <= k2 < lv2[i2].ids.len() implies rests_at(
                ords,
                #[trigger] lv2[i2].ids[k2],
                os,
                lv2[i2].price,
            ) by {
                let x = lv2[i2].ids[k2];
                // Where x sat before the pop.
                let (a, c) = if lv[i].ids.len() <= 1 {
                    if i2 < i {
                        (i2, k2)
                    } else {
                        (i2 + 1, k2)
                    }
                } else if i2 != i {
                    (i2, k2)
                } else {
                    (i2, k2 + 1)
                };
                if lv[i].ids.len() <= 1 {
                    if i2 < i {
                        assert(lv2[i2] == lv[i2]);
                    } else {
                        assert(lv2[i2] == lv[i2 + 1]);
                    }
                } else if i2 != i {
                    assert(lv2[i2] == lv[i2]);
                } else {
                    assert(lv2[i2].ids == lv[i].ids.drop_first());
                }
                assert(x == lv[a].ids[c]);
                assert(lv2[i2].price == lv[a].price);
                assert(rests_at(b.orders, lv[a].ids[c], os, lv[a].price));
                if x == id {
                    assert(rests_at(b.orders, lv[i].ids[0], os, lv[i].price));
                    assert(lv[a].price.value() == lv[i].price.value());
                    if a < i {
                        assert(lv[a].price.value() < lv[i].price.value());
                    } else if i < a {
                        assert(lv[i].price.value() < lv[a].price.value());
                    }
                    assert(a == i);
                    assert(c != 0);
                    assert(lv[i].ids.no_duplicates());
                    assert(false);
                }
            }
        }
        // The taker's side does not hold the maker.
        let ts = taker.side;
        let tl = side_levels(b, ts);
        assert(side_levels(b2, ts) == tl);
        assert(side_wf(tl, ords, ts)) by {
            assert forall|i2: int, k2: int| 0 <= i2 < tl.len() && 0 <= k2 < tl[i2].ids.len() implies rests_at(
                ords,
                #[trigger] tl[i2].ids[k2],
                ts,
                tl[i2].price,
            ) by {
                assert(rests_at(b.orders, tl[i2].ids[k2], ts, tl[i2].price));
                assert(rests_at(b.orders, lv[i].ids[0], os, lv[i].price));
            }
        }
        // Dropping a best level cannot cross the book.
        assert(uncrossed(b2)) by {
            if b2.bid.len() > 0 && b2.ask.len() > 0 {
                if ts == Side::Bid {
                    // Asks lost their front.
                    assert(b2.ask == lv2);
                    assert(b.ask.len() > 0);
                    if lv[i].ids.len() <= 1 {
                        assert(lv2[0] == lv[1]);
                        assert(lv[0].price.value() < lv[1].price.value());
                    } else {
                        assert(lv2[0].price == lv[0].price);
                    }
                } else {
                    assert(b2.bid == lv2);
                    let n = lv.len();
                    if lv[i].ids.len() <= 1 {
                        assert(lv2[lv2.len() - 1] == lv[n - 2]);
                        assert(lv[n - 2].price.value() < lv[n - 1].price.value());
                    } else {
                        assert(lv2[lv2.len() - 1].price == lv[n - 1].price);
                    }
                }
            }
        }
        assert(b.orders.dom().contains(id.0));
        assert(ords.dom() =~= b.orders.dom().remove(id.0));
        assert(b.orders.dom().finite());
        if ts == Side::Bid {
            assert(b2.ask == lv2 && b2.bid == b.bid);
        } else {
            assert(b2.bid == lv2 && b2.ask == b.ask);
        }
    }
    lemma_value_bounds(taker.quantity_remaining);
}

/// Match an incoming bid (buy) against resting asks: walk the asks from the
/// lowest price upward, filling while the ask price is at or below the bid
/// price and quantity remains.
pub(crate) fn match_bid(taker: &mut Order, book: &mut OrderBook, fills: &mut Vec<Fill>, now_ns: u64)
    requires
        old(book)@.wf(),
        taker_ok(*old(taker)),
        old(taker).side == Side::Bid,
    ensures
        ({
            let (b, t, recs) = match_result(old(book)@, *old(taker));
            &&& final(book)@ == b
            &&& *final(taker) == t
            &&& final(fills)@.len() == old(fills)@.len() + recs.len()
            &&& final(fills)@.take(old(fills)@.len() as int) == old(fills)@
            &&& forall|j: int| 0 <= j < recs.len() ==> fill_matches(
                #[trigger] final(fills)@[old(fills)@.len() + j],
                recs[j],
                *old(taker),
                now_ns,
            )
        }),
        final(book)@.wf(),
        taker_ok(*final(taker)),
        same_order_but_fill(*final(taker), *old(taker)),
        final(book)@.bid == old(book)@.bid,
        final(taker).price matches Some(limit) ==> !can_match(final(book)@, *final(taker), limit)
            || !status_active(final(taker).status),
        !old(book)@.orders.contains_key(old(taker).id.0) ==> !final(book)@.orders.contains_key(
            old(taker).id.0,
        ),
        final(taker).price matches Some(limit) ==> forall|j: int|
            0 <= j < match_result(old(book)@, *old(taker)).2.len() ==> crosses(
                old(taker).side,
                (#[trigger] match_result(old(book)@, *old(taker)).2[j]).price,
                limit,
            ),
        fills_exact(old(taker).quantity_remaining, match_result(old(book)@, *old(taker)).2)
            ==> old(taker).quantity_remaining.value() - final(taker).quantity_remaining.value()
            == fills_total(match_result(old(book)@, *old(taker)).2),
        forall|j: int|
            0 <= j < match_result(old(book)@, *old(taker)).2.len() ==> old(book)@.orders.contains_key(
                (#[trigger] match_result(old(book)@, *old(taker)).2[j]).maker.0,
            ),
{
    run_match(taker, book, fills, now_ns)
}

/// Match an incoming ask (sell) against resting bids: walk the bids from the
/// highest price downward, filling while the bid price is at or above the
/// ask price and quantity remains.
pub(crate) fn match_ask(taker: &mut Order, book: &mut OrderBook, fills: &mut Vec<Fill>, now_ns: u64)
    requires
        old(book)@.wf(),
        taker_ok(*old(taker)),
        old(taker).side == Side::Ask,
    ensures
        ({
            let (b, t, recs) = match_result(old(book)@, *old(taker));
            &&& final(book)@ == b
            &&& *final(taker) == t
            &&& final(fills)@.len() == old(fills)@.len() + recs.len()
            &&& final(fills)@.take(old(fills)@.len() as int) == old(fills)@
            &&& forall|j: int| 0 <= j < recs.len() ==> fill_matches(
                #[trigger] final(fills)@[old(fills)@.len() + j],
                recs[j],
                *old(taker),
                now_ns,
            )
        }),
        final(book)@.wf(),
        taker_ok(*final(taker)),
        same_order_but_fill(*final(taker), *old(taker)),
        final(book)@.ask == old(book)@.ask,
        final(taker).price matches Some(limit) ==> !can_match(final(book)@, *final(taker), limit)
            || !status_active(final(taker).status),
        !old(book)@.orders.contains_key(old(taker).id.0) ==> !final(book)@.orders.contains_key(
            old(taker).id.0,
        ),
        final(taker).price matches Some(limit) ==> forall|j: int|
            0 <= j < match_result(old(book)@, *old(taker)).2.len() ==> crosses(
                old(taker).side,
                (#[trigger] match_result(old(book)@, *old(taker)).2[j]).price,
                limit,
            ),
        fills_exact(old(taker).quantity_remaining, match_result(old(book)@, *old(taker)).2)
            ==> old(taker).quantity_remaining.value() - final(taker).quantity_remaining.value()
            == fills_total(match_result(old(book)@, *old(taker)).2),
        forall|j: int|
            0 <= j < match_result(old(book)@, *old(taker)).2.len() ==> old(book)@.orders.contains_key(
                (#[trigger] match_result(old(book)@, *old(taker)).2[j]).maker.0,
            ),
{
    run_match(taker, book, fills, now_ns)
}

/// The matching loop shared by both sides.
fn run_match(taker: &mut Order, book: &mut OrderBook, fills: &mut Vec<Fill>, now_ns: u64)
    requires
        old(book)@.wf(),
        taker_ok(*old(taker)),
    ensures
        ({
            let (b, t, recs) = match_result(old(book)@, *old(taker));
            &&& final(book)@ == b
            &&& *final(taker) == t
            &&& final(fills)@.len() == old(fills)@.len() + recs.len()
            &&& final(fills)@.take(old(fills)@.len() as int) == old(fills)@
            &&& forall|j: int| 0 <= j < recs.len() ==> fill_matches(
                #[trigger] final(fills)@[old(fills)@.len() + j],
                recs[j],
                *old(taker),
                now_ns,
            )
        }),
        final(book)@.wf(),
        taker_ok(*final(taker)),
        same_order_but_fill(*final(taker), *old(taker)),
        side_levels(final(book)@, old(taker).side) == side_levels(old(book)@, old(taker).side),
        final(taker).price matches Some(limit) ==> !can_match(final(book)@, *final(taker), limit)
            || !status_active(final(taker).status),
        !old(book)@.orders.contains_key(old(taker).id.0) ==> !final(book)@.orders.contains_key(
            old(taker).id.0,
        ),
        final(taker).price matches Some(limit) ==> forall|j: int|
            0 <= j < match_result(old(book)@, *old(taker)).2.len() ==> crosses(
                old(taker).side,
                (#[trigger] match_result(old(book)@, *old(taker)).2[j]).price,
                limit,
            ),
        fills_exact(old(taker).quantity_remaining, match_result(old(book)@, *old(taker)).2)
            ==> old(taker).quantity_remaining.value() - final(taker).quantity_remaining.value()
            == fills_total(match_result(old(book)@, *old(taker)).2),
        forall|j: int|
            0 <= j < match_result(old(book)@, *old(taker)).2.len() ==> old(book)@.orders.contains_key(
                (#[trigger] match_result(old(book)@, *old(taker)).2[j]).maker.0,
            ),
{
    let ghost b0 = book@;
    let ghost t0 = *taker;
    let ghost fills0 = fills@;
    let limit = match taker.price {
        Some(p) => p,
        None => {
            assert(fills@.take(fills0.len() as int) =~= fills0);
            return ;
        },
    };
    let ghost f0 = match_fuel(b0);
    let ghost mut fuel: nat = f0;
    let ghost mut recs: Seq<FillRec> = seq![];
    let side = taker.side;
    proof {
        assert(b0.orders.dom().finite());
        assert(fills@.take(fills0.len() as int) =~= fills0);
    }
    loop
        invariant_except_break
            fuel >= book@.orders.dom().len() + 1,
            book@.orders.dom().finite(),
            ({
                let r = match_run(book@, *taker, limit, fuel);
                match_run(b0, t0, limit, f0) == (r.0, r.1, recs + r.2)
            }),
        invariant
            book@.wf(),
            taker_ok(*taker),
            same_order_but_fill(*taker, t0),
            side == t0.side,
            t0.price == Some(limit),
            side_levels(book@, t0.side) == side_levels(b0, t0.side),
            !b0.orders.contains_key(t0.id.0) ==> !book@.orders.contains_key(t0.id.0),
            forall|j: int| 0 <= j < recs.len() ==> crosses(t0.side, (#[trigger] recs[j]).price, limit),
            fills@.len() == fills0.len() + recs.len(),
            fills@.take(fills0.len() as int) == fills0,
            taker.quantity_remaining == remaining_after_fills(t0.quantity_remaining, recs),
            forall|j: int| 0 <= j < recs.len() ==> b0.orders.contains_key((#[trigger] recs[j]).maker.0),
            forall|k: u128| #[trigger] book@.orders.contains_key(k) ==> b0.orders.contains_key(k),
            fills_exact(t0.quantity_remaining, recs) ==> t0.quantity_remaining.value()
                - taker.quantity_remaining.value() == fills_total(recs),
            forall|j: int| 0 <= j < recs.len() ==> fill_matches(
                #[trigger] fills@[fills0.len() + j],
                recs[j],
                t0,
                now_ns,
            ),
        ensures
            match_run(b0, t0, limit, f0) == (book@, *taker, recs),
            !can_match(book@, *taker, limit) || !status_active(taker.status),
        decreases fuel,
    {
        let ghost bk = book@;
        let ghost tk = *taker;
        // The best opposite level.
        let best = match side {
            Side::Bid => book.best_ask(),
            Side::Ask => book.best_bid(),
        };
        let best = match best {
            Some(p) => p,
            None => {
                assert(!can_match(bk, tk, limit));
                assert(match_run(bk, tk, limit, fuel) == (bk, tk, Seq::<FillRec>::empty()));
                assert(recs + Seq::<FillRec>::empty() =~= recs);
                break;
            },
        };
        let ghost os = side.opposite();
        let ghost lv = side_levels(bk, os);
        let ghost bi = best_index(lv, side);
        proof {
            assert(best == lv[bi].price);
            assert(side_wf(lv, bk.orders, os));
        }
        // No more crosses.
        let crossing = match side {
            Side::Bid => dec_le(best, limit),
            Side::Ask => dec_le(limit, best),
        };
        if !crossing {
            assert(!can_match(bk, tk, limit));
            assert(match_run(bk, tk, limit, fuel) == (bk, tk, Seq::<FillRec>::empty()));
            assert(recs + Seq::<FillRec>::empty() =~= recs);
            break;
        }
        // The front order at this price level.
        proof {
            lemma_lower_bound(lv, best.value(), bi);
            assert(level_index(lv, best.value()) == Some(bi));
            assert(lv[bi].ids.len() > 0);
        }
        let front = match side {
            Side::Bid => book.ask.front_order_at(&best),
            Side::Ask => book.bid.front_order_at(&best),
        };
        let maker_id = match front {
            Some(id) => id,
            None => {
                assert(false);
                break;
            },
        };
        proof {
            assert(maker_id == lv[bi].ids[0]);
            assert(rests_at(bk.orders, lv[bi].ids[0], os, lv[bi].price));
        }
        let mut maker = match book.orders.remove(&maker_id.0) {
            Some(o) => o,
            None => {
                assert(false);
                break;
            },
        };
        proof {
            assert(bk.orders.contains_key(maker_id.0));
            assert(orders_wf(bk.orders));
            lemma_value_bounds(maker.quantity_remaining);
            lemma_value_bounds(taker.quantity_remaining);
        }
        let ghost mk = maker;
        let qty = dec_min(taker.quantity_remaining, maker.quantity_remaining);
        proof {
            lemma_sub_self_exact(tk.quantity_remaining);
            lemma_sub_self_exact(mk.quantity_remaining);
        }
        maker.fill(qty);
        let maker_active = maker.is_active();
        if maker_active {
            book.orders.insert(maker_id.0, maker);
        }
        taker.fill(qty);
        let fill = Fill::new(maker_id, taker.id, taker.pair.duplicate(), best, qty, side, now_ns);
        let ghost prev_fills = fills@;
        fills.push(fill);
        // If the maker is fully filled, it leaves the book.
        if !maker_active {
            match side {
                Side::Bid => book.ask.pop_front_at(0),
                Side::Ask => {
                    let n = book.bid.levels.len();
                    book.bid.pop_front_at(n - 1);
                },
            }
        }
        proof {
            let (b2, t2, f) = match_step(bk, tk);
            assert(book@.orders =~= b2.orders);
            assert(book@ == b2);
            assert(*taker == t2);
            assert(f == FillRec { maker: maker_id, price: best, qty });
            lemma_step(bk, tk, limit);
            let ghost old_recs = recs;
            recs = recs.push(f);
            assert(recs.drop_last() =~= old_recs);
            assert(recs.last() == f);
            assert forall|j: int| 0 <= j < recs.len() implies b0.orders.contains_key(
                (#[trigger] recs[j]).maker.0,
            ) by {
                if j < old_recs.len() {
                    assert(recs[j] == old_recs[j]);
                }
            }
            assert forall|k: u128| #[trigger] book@.orders.contains_key(k) implies b0.orders.contains_key(
                k,
            ) by {
                assert(bk.orders.contains_key(k));
            }
            assert(taker.quantity_remaining == remaining_after(tk.quantity_remaining, qty));
            if fills_exact(t0.quantity_remaining, recs) {
                assert(-MAX_MANTISSA <= aligned_difference(tk.quantity_remaining, qty) <= MAX_MANTISSA);
                assert(qty.value() <= tk.quantity_remaining.value());
                assert(decimal_sub(tk.quantity_remaining, qty).value() == tk.quantity_remaining.value()
                    - qty.value());
                crate::decimal::lemma_value_sign(dec_zero());
                assert(taker.quantity_remaining.value() == tk.quantity_remaining.value() - qty.value());
            }
            assert forall|j: int| 0 <= j < recs.len() implies fill_matches(
                #[trigger] fills@[fills0.len() + j],
                recs[j],
                t0,
                now_ns,
            ) by {
                if j < old_recs.len() {
                    assert(fills@[fills0.len() + j] == prev_fills[fills0.len() + j]);
                }
            }
            assert(fills@.take(fills0.len() as int) =~= fills0);
            assert forall|j: int| 0 <= j < recs.len() implies crosses(t0.side, (#[trigger] recs[j]).price, limit) by {
                if j < old_recs.len() {
                    assert(recs[j] == old_recs[j]);
                }
            }
            if !b0.orders.contains_key(t0.id.0) {
                assert(maker_id.0 != t0.id.0);
            }
            if status_active(t2.status) {
                let r = match_run(b2, t2, limit, (fuel - 1) as nat);
                assert(match_run(bk, tk, limit, fuel) == (r.0, r.1, seq![f] + r.2));
                assert(old_recs + (seq![f] + r.2) =~= recs + r.2);
                fuel = (fuel - 1) as nat;
            } else {
                assert(match_run(bk, tk, limit, fuel) == (b2, t2, seq![f]));
                assert(old_recs + seq![f] =~= recs);
            }
        }
        if !taker.is_active() {
            break;
        }
    }
}


/// An order that no longer crosses the book rests in it without crossing it,
/// and the book stays well-formed.
pub proof fn lemma_add_wf(b: BookView, t: Order, limit: Dec)
    requires
        b.wf(),
        taker_ok(t),
        t.price == Some(limit),
        status_active(t.status),
        !b.orders.contains_key(t.id.0),
        !can_match(b, t, limit),
        levels_decimals_wf(side_levels(book_after_add(b, t), t.side)),
    ensures
        book_after_add(b, t).wf(),
{
    let ts = t.side;
    let os = ts.opposite();
    let lv = side_levels(b, ts);
    let v = limit.value();
    let lv2 = levels_after_insert(lv, limit, t.id, t.quantity_remaining, true);
    let ords = b.orders.insert(t.id.0, t);
    let b2 = book_after_add(b, t);
    assert(b2.orders == ords);
    assert(side_levels(b2, ts) == lv2);
    assert(side_levels(b2, os) == side_levels(b, os));
    assert(side_wf(lv, b.orders, ts));
    lemma_lower_bound_exists(lv, v);
    let i = lower_bound(lv, v);
    assert forall|k: u128| #[trigger] ords.contains_key(k) implies {
        let o = ords[k];
        &&& o.id.0 == k
        &&& o.decimals_wf()
        &&& o.price is Some
        &&& o.quantity_remaining.value() >= 0
        &&& status_active(o.status)
    } by {
        if k != t.id.0 {
            assert(b.orders.contains_key(k));
        }
    }
    assert(side_wf(lv2, ords, ts)) by {
        match level_index(lv, v) {
            Some(k) => {
                assert forall|i2: int| 0 <= i2 < lv2.len() implies (#[trigger] lv2[i2]).ids.len() > 0
                    && lv2[i2].ids.no_duplicates() by {
                    if i2 == k {
                        assert(lv2[k].ids == lv[k].ids.push(t.id));
                        assert forall|c: int| 0 <= c < lv[k].ids.len() implies lv[k].ids[c] != t.id by {
                            assert(rests_at(b.orders, lv[k].ids[c], ts, lv[k].price));
                        }
                    } else {
                        assert(lv2[i2] == lv[i2]);
                    }
                }
                assert forall|i2: int, j2: int| 0 <= i2 < j2 < lv2.len() implies (#[trigger] lv2[i2]).price.value()
                    < (#[trigger] lv2[j2]).price.value() by {
                    assert(lv2[i2].price == lv[i2].price);
                    assert(lv2[j2].price == lv[j2].price);
                    assert(lv[i2].price.value() < lv[j2].price.value());
                }
                assert forall|i2: int, k2: int| 0 <= i2 < lv2.len() && 0 <= k2 < lv2[i2].ids.len() implies rests_at(
                    ords,
                    #[trigger] lv2[i2].ids[k2],
                    ts,
                    lv2[i2].price,
                ) by {
                    if i2 == k && k2 == lv[k].ids.len() {
                        assert(lv2[i2].ids[k2] == t.id);
                    } else {
                        assert(lv2[i2].ids[k2] == lv[i2].ids[k2]);
                        assert(rests_at(b.orders, lv[i2].ids[k2], ts, lv[i2].price));
                    }
                }
            },
            None => {
                let nl = LevelView {
                    price: limit,
                    ids: seq![t.id],
                    total: add_total(dec_zero(), t.quantity_remaining, true),
                };
                assert(lv2 == lv.insert(i, nl));
                if i < lv.len() {
                    assert(lv[i].price.value() > v);
                }
                assert forall|i2: int| 0 <= i2 < lv2.len() implies (#[trigger] lv2[i2]).ids.len() > 0
                    && lv2[i2].ids.no_duplicates() by {
                    if i2 < i {
                        assert(lv2[i2] == lv[i2]);
                    } else if i2 > i {
                        assert(lv2[i2] == lv[i2 - 1]);
                    }
                }
                assert forall|i2: int, j2: int| 0 <= i2 < j2 < lv2.len() implies (#[trigger] lv2[i2]).price.value()
                    < (#[trigger] lv2[j2]).price.value() by {
                    if j2 < i {
                        assert(lv[i2].price.value() < lv[j2].price.value());
                    } else if j2 == i {
                        assert(lv2[i2] == lv[i2]);
                        assert(lv[i2].price.value() < v);
                    } else if i2 < i {
                        assert(lv2[j2] == lv[j2 - 1]);
                        assert(lv[i2].price.value() < v);
                        if j2 - 1 > i {
                            assert(lv[i].price.value() < lv[j2 - 1].price.value());
                        }
                    } else if i2 == i {
                        assert(lv2[j2] == lv[j2 - 1]);
                        if j2 - 1 > i {
                            assert(lv[i].price.value() < lv[j2 - 1].price.value());
                        }
                    } else {
                        assert(lv2[i2] == lv[i2 - 1]);
                        assert(lv2[j2] == lv[j2 - 1]);
                        assert(lv[i2 - 1].price.value() < lv[j2 - 1].price.value());
                    }
                }
                assert forall|i2: int, k2: int| 0 <= i2 < lv2.len() && 0 <= k2 < lv2[i2].ids.len() implies rests_at(
                    ords,
                    #[trigger] lv2[i2].ids[k2],
                    ts,
                    lv2[i2].price,
                ) by {
                    if i2 < i {
                        assert(lv2[i2] == lv[i2]);
                        assert(rests_at(b.orders, lv[i2].ids[k2], ts, lv[i2].price));
                    } else if i2 > i {
                        assert(lv2[i2] == lv[i2 - 1]);
                        assert(rests_at(b.orders, lv[i2 - 1].ids[k2], ts, lv[i2 - 1].price));
                    } else {
                        assert(lv2[i2].ids[k2] == t.id);
                    }
                }
            },
        }
    }
    let ol = side_levels(b, os);
    assert(side_wf(ol, ords, os)) by {
        assert forall|i2: int, k2: int| 0 <= i2 < ol.len() && 0 <= k2 < ol[i2].ids.len() implies rests_at(
            ords,
            #[trigger] ol[i2].ids[k2],
            os,
            ol[i2].price,
        ) by {
            assert(rests_at(b.orders, ol[i2].ids[k2], os, ol[i2].price));
        }
    }
    assert(uncrossed(b2)) by {
        if b2.bid.len() > 0 && b2.ask.len() > 0 {
            let n = lv.len();
            match level_index(lv, v) {
                Some(k) => {
                    if ts == Side::Bid {
                        assert(lv2[lv2.len() - 1].price == lv[n - 1].price);
                    } else {
                        assert(lv2[0].price == lv[0].price);
                    }
                },
                None => {
                    if ts == Side::Bid {
                        if i == n {
                            assert(lv2[lv2.len() - 1].price == limit);
                        } else {
                            assert(lv2[lv2.len() - 1] == lv[n - 1]);
                        }
                    } else {
                        if i == 0 {
                            assert(lv2[0].price == limit);
                        } else {
                            assert(lv2[0] == lv[0]);
                        }
                    }
                },
            }
        }
    }
    if ts == Side::Bid {
        assert(b2.bid == lv2 && b2.ask == b.ask);
    } else {
        assert(b2.ask == lv2 && b2.bid == b.bid);
    }
}



/// Price `p` is at least as good for the maker side as `q` from the point
/// of view of a taker of `taker_side`: asks are taken from the lowest up,
/// bids from the highest down.
pub open spec fn no_better(taker_side: Side, p: Dec, q: Dec) -> bool {
    match taker_side {
        Side::Bid => p.value() <= q.value(),
        Side::Ask => p.value() >= q.value(),
    }
}

/// A match leaves the opposite side in order, and its best level is no
/// better than before.
proof fn lemma_step_keeps_order(b: BookView, t: Order)
    requires
        can_match(b, t, t.price.unwrap()),
        levels_sorted(side_levels(b, t.side.opposite())),
    ensures
        ({
            let (b2, t2, f) = match_step(b, t);
            let lv2 = side_levels(b2, t.side.opposite());
            &&& levels_sorted(lv2)
            &&& t2.side == t.side
            &&& t2.price == t.price
            &&& lv2.len() > 0 ==> no_better(t.side, f.price, lv2[best_index(lv2, t.side)].price)
        }),
{
    let os = t.side.opposite();
    let lv = side_levels(b, os);
    let i = best_index(lv, t.side);
    let (b2, t2, f) = match_step(b, t);
    let lv2 = side_levels(b2, os);
    let n = lv.len();
    if lv2 != lv {
        let p = levels_after_pop(lv, i);
        assert(lv2 == p);
        if lv[i].ids.len() <= 1 {
            assert forall|a: int, c: int| 0 <= a < c < p.len() implies (#[trigger] p[a]).price.value()
                < (#[trigger] p[c]).price.value() by {
                let a2 = if a < i { a } else { a + 1 };
                let c2 = if c < i { c } else { c + 1 };
                assert(p[a] == lv[a2]);
                assert(p[c] == lv[c2]);
                assert(lv[a2].price.value() < lv[c2].price.value());
            }
            if p.len() > 0 {
                if t.side == Side::Bid {
                    assert(p[0] == lv[1]);
                    assert(lv[0].price.value() < lv[1].price.value());
                } else {
                    assert(p[p.len() - 1] == lv[n - 2]);
                    assert(lv[n - 2].price.value() < lv[n - 1].price.value());
                }
            }
        } else {
            assert forall|a: int, c: int| 0 <= a < c < p.len() implies (#[trigger] p[a]).price.value()
                < (#[trigger] p[c]).price.value() by {
                assert(p[a].price == lv[a].price);
                assert(p[c].price == lv[c].price);
            }
            assert(p[best_index(p, t.side)].price == lv[i].price);
        }
    }
}

/// The status an incoming order ends matching with: unchanged when nothing
/// filled; otherwise filled, with nothing remaining, or partially filled,
/// with a positive remainder.
pub open spec fn status_after_match(before: Order, after: Order, recs: Seq<FillRec>) -> bool {
    &&& recs.len() == 0 ==> after == before
    &&& recs.len() > 0 ==> (after.status == OrderStatus::Filled || after.status
        == OrderStatus::PartiallyFilled)
    &&& recs.len() > 0 ==> ((after.status == OrderStatus::Filled) == (
    after.quantity_remaining.value() == 0))
    &&& recs.len() > 0 ==> after.quantity_remaining.value() >= 0
}

proof fn lemma_run_status(b: BookView, t: Order, limit: Dec, fuel: nat)
    ensures
        status_after_match(t, match_run(b, t, limit, fuel).1, match_run(b, t, limit, fuel).2),
    decreases fuel,
{
    if fuel > 0 && can_match(b, t, limit) {
        let (b2, t2, f) = match_step(b, t);
        let lv = side_levels(b, t.side.opposite());
        let id = lv[best_index(lv, t.side)].ids[0];
        let qty = spec_min(t.quantity_remaining, b.orders[id.0].quantity_remaining);
        lemma_fill_status(t, qty);
        if status_active(t2.status) {
            lemma_run_status(b2, t2, limit, (fuel - 1) as nat);
        }
    }
}

/// An incoming order ends matching unchanged when nothing filled, and
/// otherwise either filled with nothing remaining or partially filled with
/// a positive remainder.
pub proof fn lemma_match_status(b: BookView, t: Order)
    ensures
        status_after_match(t, match_result(b, t).1, match_result(b, t).2),
{
    match t.price {
        Some(limit) => lemma_run_status(b, t, limit, match_fuel(b)),
        None => {},
    }
}

/// Every fill of a matching run is at a price that crosses the taker's
/// limit: a bid never pays more than its limit, an ask never receives less.
pub proof fn lemma_fills_within_limit(b: BookView, t: Order, limit: Dec, fuel: nat)
    ensures
        forall|j: int| 0 <= j < match_run(b, t, limit, fuel).2.len() ==> crosses(
            t.side,
            (#[trigger] match_run(b, t, limit, fuel).2[j]).price,
            limit,
        ),
    decreases fuel,
{
    if fuel > 0 && can_match(b, t, limit) {
        let (b2, t2, f) = match_step(b, t);
        if status_active(t2.status) {
            lemma_fills_within_limit(b2, t2, limit, (fuel - 1) as nat);
            let r = match_run(b2, t2, limit, (fuel - 1) as nat);
            assert(match_run(b, t, limit, fuel).2 == seq![f] + r.2);
            assert forall|j: int| 0 <= j < match_run(b, t, limit, fuel).2.len() implies crosses(
                t.side,
                (#[trigger] match_run(b, t, limit, fuel).2[j]).price,
                limit,
            ) by {
                if j > 0 {
                    assert(match_run(b, t, limit, fuel).2[j] == r.2[j - 1]);
                }
            }
        }
    }
}

/// Price priority: the fills of a matching run come at prices that never get
/// better for the taker, and none is better than the best opposite level at
/// the start.
pub proof fn lemma_fills_price_priority(b: BookView, t: Order, fuel: nat)
    requires
        t.price is Some,
        levels_sorted(side_levels(b, t.side.opposite())),
    ensures
        ({
            let recs = match_run(b, t, t.price.unwrap(), fuel).2;
            let lv = side_levels(b, t.side.opposite());
            &&& forall|j: int, k: int| 0 <= j < k < recs.len() ==> no_better(
                t.side,
                (#[trigger] recs[j]).price,
                (#[trigger] recs[k]).price,
            )
            &&& recs.len() > 0 ==> recs[0].price == lv[best_index(lv, t.side)].price
        }),
    decreases fuel,
{
    let limit = t.price.unwrap();
    if fuel > 0 && can_match(b, t, limit) {
        let (b2, t2, f) = match_step(b, t);
        lemma_step_keeps_order(b, t);
        if status_active(t2.status) {
            lemma_fills_price_priority(b2, t2, (fuel - 1) as nat);
            let r = match_run(b2, t2, limit, (fuel - 1) as nat);
            let recs = match_run(b, t, limit, fuel).2;
            assert(recs == seq![f] + r.2);
            let lv2 = side_levels(b2, t.side.opposite());
            if r.2.len() > 0 {
                assert(match_run(b2, t2, limit, (fuel - 1) as nat) == r);
                assert(can_match(b2, t2, limit));
                assert(lv2.len() > 0);
            }
            assert forall|j: int, k: int| 0 <= j < k < recs.len() implies no_better(
                t.side,
                (#[trigger] recs[j]).price,
                (#[trigger] recs[k]).price,
            ) by {
                assert(recs[k] == r.2[k - 1]);
                if j > 0 {
                    assert(recs[j] == r.2[j - 1]);
                } else {
                    assert(recs[j] == f);
                    if k - 1 > 0 {
                        assert(no_better(t.side, r.2[0].price, r.2[k - 1].price));
                    }
                }
            }
        }
    }
}

} // verus!
