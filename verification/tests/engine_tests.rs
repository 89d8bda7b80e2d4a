use meridian::decimal::Dec;
use meridian::engine::{pair_key, MatchingEngine};
use meridian::errors::EngineError;
use meridian::orderbook::{HalfBook, OrderBook, PriceLevel};
use meridian::settlement::PendingFill;
use meridian::types::{Fill, Order, OrderId, OrderStatus, OrderType, Side, TradingPair};

fn d(m: i128, s: u32) -> Dec {
    Dec::new(m, s).unwrap()
}

fn same(a: Dec, b: Dec) -> bool {
    a.mantissa == b.mantissa && a.scale == b.scale
}

fn order(id: u128, side: Side, price: Option<Dec>, qty: Dec) -> Order {
    Order {
        id: OrderId(id),
        pair: TradingPair::new("SOL", "USDT"),
        side,
        order_type: OrderType::Limit,
        price,
        quantity: qty,
        quantity_remaining: qty,
        status: OrderStatus::Open,
        timestamp_ns: 0,
        trader: String::from("0xabc"),
    }
}

fn engine() -> MatchingEngine {
    let mut e = MatchingEngine::new();
    e.add_pair(&TradingPair::new("SOL", "USDT"));
    e
}

fn sol() -> TradingPair {
    TradingPair::new("SOL", "USDT")
}

#[test]
fn add_pair_gives_an_empty_book() {
    let e = engine();
    let p = e.best_prices(&sol()).unwrap();
    assert!(p.0.is_none());
    assert!(p.1.is_none());
    assert!(e.best_prices(&TradingPair::new("ETH", "USDT")).is_none());
}

#[test]
fn add_pair_twice_keeps_the_book() {
    let mut e = engine();
    e.submit_at(order(1, Side::Bid, Some(d(100, 0)), d(1, 0)), 7).unwrap();
    e.add_pair(&sol());
    let p = e.best_prices(&sol()).unwrap();
    assert!(same(p.0.unwrap(), d(100, 0)));
}

#[test]
fn pair_key_is_upper_case() {
    assert_eq!(pair_key(&TradingPair::new("sol", "usdt")), "SOL/USDT");
    let mut e = MatchingEngine::new();
    e.add_pair(&TradingPair::new("sol", "usdt"));
    let r = e.submit_at(order(1, Side::Bid, Some(d(100, 0)), d(1, 0)), 7);
    assert!(r.is_ok());
}

#[test]
fn non_crossing_orders_rest() {
    let mut e = engine();
    let r1 = e.submit_at(order(1, Side::Bid, Some(d(100, 0)), d(1, 0)), 7).unwrap();
    let r2 = e.submit_at(order(2, Side::Ask, Some(d(101, 0)), d(1, 0)), 8).unwrap();
    assert!(r1.fills.is_empty());
    assert!(r2.fills.is_empty());
    assert_eq!(r1.status, OrderStatus::Open);
    assert_eq!(r2.order_id, OrderId(2));
    let (bid, ask) = e.best_prices(&sol()).unwrap();
    assert!(same(bid.unwrap(), d(100, 0)));
    assert!(same(ask.unwrap(), d(101, 0)));
}

#[test]
fn bid_fills_at_maker_price() {
    let mut e = engine();
    e.submit_at(order(1, Side::Ask, Some(d(100, 0)), d(2, 0)), 7).unwrap();
    let r = e.submit_at(order(2, Side::Bid, Some(d(105, 0)), d(1, 0)), 9).unwrap();
    assert_eq!(r.status, OrderStatus::Filled);
    assert_eq!(r.fills.len(), 1);
    let f = &r.fills[0];
    assert_eq!(f.maker_order_id, OrderId(1));
    assert_eq!(f.taker_order_id, OrderId(2));
    assert!(same(f.price, d(100, 0)));
    assert!(same(f.quantity, d(1, 0)));
    assert_eq!(f.taker_side, Side::Bid);
    assert_eq!(f.timestamp_ns, 9);
    assert_eq!(f.pair.base, "SOL");
    // The maker rests with what is left of it.
    let maker = e.cancel(&sol(), OrderId(1)).unwrap();
    assert_eq!(maker.status, OrderStatus::Cancelled);
    assert_eq!(maker.quantity_remaining.to_string(), "1");
    // The bid did not rest.
    let (bid, ask) = e.best_prices(&sol()).unwrap();
    assert!(bid.is_none());
    assert!(ask.is_none());
}

#[test]
fn price_priority_then_rest() {
    let mut e = engine();
    e.submit_at(order(1, Side::Ask, Some(d(101, 0)), d(1, 0)), 1).unwrap();
    e.submit_at(order(2, Side::Ask, Some(d(100, 0)), d(1, 0)), 2).unwrap();
    e.submit_at(order(3, Side::Ask, Some(d(102, 0)), d(1, 0)), 3).unwrap();
    let r = e.submit_at(order(4, Side::Bid, Some(d(1015, 1)), d(5, 0)), 4).unwrap();
    assert_eq!(r.fills.len(), 2);
    assert_eq!(r.fills[0].maker_order_id, OrderId(2));
    assert!(same(r.fills[0].price, d(100, 0)));
    assert_eq!(r.fills[1].maker_order_id, OrderId(1));
    assert!(same(r.fills[1].price, d(101, 0)));
    assert_eq!(r.status, OrderStatus::PartiallyFilled);
    let (bid, ask) = e.best_prices(&sol()).unwrap();
    assert!(same(bid.unwrap(), d(1015, 1)));
    assert!(same(ask.unwrap(), d(102, 0)));
    let rested = e.cancel(&sol(), OrderId(4)).unwrap();
    assert_eq!(rested.quantity_remaining.to_string(), "3");
}

#[test]
fn time_priority_within_a_level() {
    let mut e = engine();
    e.submit_at(order(1, Side::Ask, Some(d(100, 0)), d(1, 0)), 1).unwrap();
    e.submit_at(order(2, Side::Ask, Some(d(1000, 1)), d(1, 0)), 2).unwrap();
    let r = e.submit_at(order(3, Side::Bid, Some(d(100, 0)), d(1, 0)), 3).unwrap();
    assert_eq!(r.fills.len(), 1);
    assert_eq!(r.fills[0].maker_order_id, OrderId(1));
    let depth = e.depth(&sol(), 10).unwrap();
    assert_eq!(depth.asks.len(), 1);
    assert!(depth.timestamp_ns > 0);
}

#[test]
fn ask_walks_bids_downward() {
    let mut e = engine();
    e.submit_at(order(1, Side::Bid, Some(d(99, 0)), d(1, 0)), 1).unwrap();
    e.submit_at(order(2, Side::Bid, Some(d(100, 0)), d(1, 0)), 2).unwrap();
    let r = e.submit_at(order(3, Side::Ask, Some(d(99, 0)), d(2, 0)), 3).unwrap();
    assert_eq!(r.fills.len(), 2);
    assert!(same(r.fills[0].price, d(100, 0)));
    assert!(same(r.fills[1].price, d(99, 0)));
    assert_eq!(r.status, OrderStatus::Filled);
    assert!(e.best_prices(&sol()).unwrap().0.is_none());
}

#[test]
fn ask_above_bids_does_not_fill() {
    let mut e = engine();
    e.submit_at(order(1, Side::Bid, Some(d(99, 0)), d(1, 0)), 1).unwrap();
    let r = e.submit_at(order(2, Side::Ask, Some(d(995, 1)), d(1, 0)), 2).unwrap();
    assert!(r.fills.is_empty());
    let (bid, ask) = e.best_prices(&sol()).unwrap();
    assert!(same(bid.unwrap(), d(99, 0)));
    assert!(same(ask.unwrap(), d(995, 1)));
}

#[test]
fn submit_now_stamps_fills() {
    let mut e = engine();
    e.submit(order(1, Side::Ask, Some(d(100, 0)), d(1, 0))).unwrap();
    let r = e.submit(order(2, Side::Bid, Some(d(100, 0)), d(1, 0))).unwrap();
    assert!(r.fills[0].timestamp_ns > 0);
    assert!(r.fills[0].id != 0);
}

#[test]
fn invalid_quantity_is_refused() {
    let mut e = engine();
    match e.submit_at(order(1, Side::Bid, Some(d(100, 0)), d(0, 0)), 1) {
        Err(EngineError::InvalidQuantity(s)) => assert_eq!(s, "0"),
        _ => panic!("expected InvalidQuantity"),
    }
    match e.submit_at(order(2, Side::Bid, Some(d(100, 0)), d(-15, 1)), 1) {
        Err(EngineError::InvalidQuantity(s)) => assert_eq!(s, "-1.5"),
        _ => panic!("expected InvalidQuantity"),
    }
}

#[test]
fn missing_price_is_refused() {
    let mut e = engine();
    assert!(matches!(
        e.submit_at(order(1, Side::Bid, None, d(1, 0)), 1),
        Err(EngineError::MissingPrice)
    ));
}

#[test]
fn invalid_price_is_refused() {
    let mut e = engine();
    match e.submit_at(order(1, Side::Ask, Some(d(-1, 0)), d(1, 0)), 1) {
        Err(EngineError::InvalidPrice(s)) => assert_eq!(s, "-1"),
        _ => panic!("expected InvalidPrice"),
    }
    match e.submit_at(order(1, Side::Ask, Some(d(0, 2)), d(1, 0)), 1) {
        Err(EngineError::InvalidPrice(s)) => assert_eq!(s, "0.00"),
        _ => panic!("expected InvalidPrice"),
    }
}

#[test]
fn unknown_pair_is_refused() {
    let mut e = engine();
    let mut o = order(1, Side::Bid, Some(d(1, 0)), d(1, 0));
    o.pair = TradingPair::new("foo", "Bar");
    match e.submit_at(o, 1) {
        Err(EngineError::InvalidOrder(s)) => assert_eq!(s, "unknown pair: foo/Bar"),
        _ => panic!("expected InvalidOrder"),
    }
    match e.cancel(&TradingPair::new("X", "Y"), OrderId(1)) {
        Err(EngineError::InvalidOrder(s)) => assert_eq!(s, "unknown pair: X/Y"),
        _ => panic!("expected InvalidOrder"),
    }
    assert!(e.depth(&TradingPair::new("X", "Y"), 5).is_none());
}

#[test]
fn cancel_twice_is_not_found() {
    let mut e = engine();
    e.submit_at(order(7, Side::Bid, Some(d(10, 0)), d(3, 0)), 1).unwrap();
    assert!(e.contains_order(&sol(), OrderId(7)));
    let o = e.cancel(&sol(), OrderId(7)).unwrap();
    assert_eq!(o.id, OrderId(7));
    assert_eq!(o.status, OrderStatus::Cancelled);
    assert!(!e.contains_order(&sol(), OrderId(7)));
    assert!(matches!(e.cancel(&sol(), OrderId(7)), Err(EngineError::OrderNotFound(OrderId(7)))));
    assert!(e.best_prices(&sol()).unwrap().0.is_none());
}

#[test]
fn depth_lists_best_levels_first() {
    let mut e = engine();
    for (i, p) in [97i128, 99, 98].iter().enumerate() {
        e.submit_at(order(i as u128 + 1, Side::Bid, Some(d(*p, 0)), d(2, 0)), 1).unwrap();
    }
    for (i, p) in [103i128, 101, 102].iter().enumerate() {
        e.submit_at(order(i as u128 + 10, Side::Ask, Some(d(*p, 0)), d(1, 0)), 1).unwrap();
    }
    e.submit_at(order(20, Side::Ask, Some(d(101, 0)), d(4, 0)), 1).unwrap();
    let s = e.depth(&sol(), 2).unwrap();
    assert_eq!(s.bids.len(), 2);
    assert_eq!(s.asks.len(), 2);
    assert!(same(s.bids[0].price, d(99, 0)));
    assert!(same(s.bids[1].price, d(98, 0)));
    assert!(same(s.asks[0].price, d(101, 0)));
    assert_eq!(s.asks[0].quantity.to_string(), "5");
    assert!(same(s.asks[1].price, d(102, 0)));
    let all = e.depth(&sol(), 10).unwrap();
    assert_eq!(all.bids.len(), 3);
    assert_eq!(all.asks.len(), 3);
}

#[test]
fn order_fill_partial_and_full() {
    let mut o = order(1, Side::Bid, Some(d(1, 0)), d(15, 1));
    assert!(o.is_active());
    o.fill(d(5, 1));
    assert_eq!(o.status, OrderStatus::PartiallyFilled);
    assert_eq!(o.quantity_remaining.to_string(), "1.0");
    assert!(o.is_active());
    o.fill(d(1, 0));
    assert_eq!(o.status, OrderStatus::Filled);
    assert!(same(o.quantity_remaining, d(0, 0)));
    assert!(!o.is_active());
}

#[test]
fn order_overfill_clamps_to_zero() {
    let mut o = order(1, Side::Ask, Some(d(1, 0)), d(1, 0));
    o.fill(d(2, 0));
    assert_eq!(o.status, OrderStatus::Filled);
    assert!(same(o.quantity_remaining, d(0, 0)));
    o.status = OrderStatus::Cancelled;
    assert!(!o.is_active());
}

#[test]
fn fill_notional_is_price_times_quantity() {
    let f = Fill::new(OrderId(1), OrderId(2), sol(), d(15, 1), d(2, 0), Side::Bid, 3);
    let n = f.notional();
    assert_eq!(n.mantissa, 30);
    assert_eq!(n.scale, 1);
    let g = Fill::new(OrderId(1), OrderId(2), sol(), d(15, 1), d(2, 0), Side::Bid, 3);
    assert!(f.id != g.id);
}

#[test]
fn side_and_pair_text() {
    assert_eq!(Side::Bid.to_string(), "bid");
    assert_eq!(Side::Ask.to_string(), "ask");
    assert_eq!(TradingPair::new("SOL", "USDT").to_string(), "SOL/USDT");
    let p = sol().duplicate();
    assert_eq!(p.base, "SOL");
    assert_eq!(p.quote, "USDT");
}

#[test]
fn order_ids_are_fresh() {
    let a = OrderId::new();
    let b = OrderId::default();
    assert!(a != b);
}

#[test]
fn order_ids_are_version_4_uuids() {
    for _ in 0..8 {
        let id = OrderId::new().0;
        assert_eq!((id >> 76) & 0xf, 4);
        assert_eq!((id >> 62) & 0x3, 2);
    }
}

#[test]
fn pending_fill_from_fill_keeps_fields() {
    let f = Fill::new(OrderId(5), OrderId(6), sol(), d(2, 0), d(3, 0), Side::Ask, 11);
    let id = f.id;
    let p: PendingFill = f.into();
    assert_eq!(p.id, id);
    assert_eq!(p.maker_order_id, 5);
    assert_eq!(p.taker_order_id, 6);
    assert!(same(p.price, d(2, 0)));
    assert!(same(p.quantity, d(3, 0)));
    assert_eq!(p.taker_side, Side::Ask);
    assert_eq!(p.timestamp_ns, 11);
}

#[test]
fn price_level_queue() {
    let mut l = PriceLevel::new();
    assert!(l.is_empty());
    l.add(OrderId(1), d(1, 0));
    l.add(OrderId(2), d(25, 1));
    assert_eq!(l.total_quantity.to_string(), "3.5");
    assert_eq!(l.remove_front(), Some(OrderId(1)));
    assert_eq!(l.remove_front(), Some(OrderId(2)));
    assert_eq!(l.remove_front(), None);
    assert!(l.is_empty());
    let dl = PriceLevel::default();
    assert!(dl.is_empty());
}

#[test]
fn half_book_insert_and_remove() {
    let mut h = HalfBook::new();
    assert!(h.best_bid_price().is_none());
    h.insert(&order(1, Side::Bid, Some(d(10, 0)), d(1, 0)));
    h.insert(&order(2, Side::Bid, Some(d(12, 0)), d(1, 0)));
    h.insert(&order(3, Side::Bid, Some(d(100, 1)), d(1, 0)));
    assert_eq!(h.levels.len(), 2);
    assert!(same(h.best_bid_price().unwrap(), d(12, 0)));
    assert!(same(h.best_ask_price().unwrap(), d(10, 0)));
    assert_eq!(h.front_order_at(&d(10, 0)), Some(OrderId(1)));
    assert_eq!(h.front_order_at(&d(11, 0)), None);
    h.remove(d(10, 0), OrderId(1));
    assert_eq!(h.front_order_at(&d(10, 0)), Some(OrderId(3)));
    h.remove(d(1000, 2), OrderId(3));
    assert_eq!(h.levels.len(), 1);
    h.remove(d(12, 0), OrderId(9));
    assert_eq!(h.levels.len(), 1);
}

#[test]
fn book_add_then_remove_round_trip() {
    let mut b = OrderBook::new();
    b.add_order(order(1, Side::Ask, Some(d(5, 0)), d(1, 0)));
    b.add_order(order(2, Side::Ask, Some(d(6, 0)), d(1, 0)));
    assert!(same(b.best_ask().unwrap(), d(5, 0)));
    assert!(b.contains_order(OrderId(2)));
    let o = b.remove_order(OrderId(2)).unwrap();
    assert_eq!(o.id, OrderId(2));
    assert!(!b.contains_order(OrderId(2)));
    assert_eq!(b.ask.levels.len(), 1);
    assert!(b.remove_order(OrderId(2)).is_none());
    let s = b.depth_snapshot(5, 42);
    assert_eq!(s.timestamp_ns, 42);
    assert_eq!(s.asks.len(), 1);
    assert!(s.bids.is_empty());
}

#[test]
fn fills_account_for_the_taker_quantity() {
    let mut e = engine();
    e.submit_at(order(1, Side::Ask, Some(d(10, 0)), d(15, 1)), 1).unwrap();
    e.submit_at(order(2, Side::Ask, Some(d(11, 0)), d(225, 2)), 2).unwrap();
    let r = e.submit_at(order(3, Side::Bid, Some(d(12, 0)), d(5, 0)), 3).unwrap();
    assert_eq!(r.status, OrderStatus::PartiallyFilled);
    assert_eq!(r.fills.len(), 2);
    assert!(same(r.fills[0].quantity, d(15, 1)));
    assert!(same(r.fills[1].quantity, d(225, 2)));
    // 5 - 1.5 - 2.25 = 1.25 rests on the bid side.
    let snap = e.depth(&sol(), 5).unwrap();
    assert!(snap.asks.is_empty());
    assert_eq!(snap.bids.len(), 1);
    assert!(same(snap.bids[0].quantity, d(125, 2)));
}

#[test]
fn fill_ids_are_version_4_uuids() {
    let mut e = engine();
    e.submit_at(order(1, Side::Ask, Some(d(10, 0)), d(1, 0)), 1).unwrap();
    let r = e.submit_at(order(2, Side::Bid, Some(d(10, 0)), d(1, 0)), 2).unwrap();
    assert_eq!(r.fills.len(), 1);
    assert_eq!((r.fills[0].id >> 76) & 0xf, 4);
    assert_eq!((r.fills[0].id >> 62) & 0x3, 2);
}

#[test]
fn half_book_insert_then_remove_restores_queues() {
    let mut h = HalfBook::new();
    h.insert(&order(1, Side::Ask, Some(d(10, 0)), d(1, 0)));
    h.insert(&order(2, Side::Ask, Some(d(12, 0)), d(1, 0)));
    let before: Vec<(i128, Vec<OrderId>)> =
        h.levels.iter().map(|(p, l)| (p.mantissa, l.orders.iter().copied().collect())).collect();
    // Into a new level, then out: the level is dropped again.
    h.insert(&order(3, Side::Ask, Some(d(11, 0)), d(1, 0)));
    assert_eq!(h.levels.len(), 3);
    h.remove(d(11, 0), OrderId(3));
    // Into an existing level, then out.
    h.insert(&order(4, Side::Ask, Some(d(12, 0)), d(1, 0)));
    h.remove(d(12, 0), OrderId(4));
    let after: Vec<(i128, Vec<OrderId>)> =
        h.levels.iter().map(|(p, l)| (p.mantissa, l.orders.iter().copied().collect())).collect();
    assert_eq!(before, after);
    assert!(same(h.best_ask_price().unwrap(), d(10, 0)));
    assert!(same(h.best_bid_price().unwrap(), d(12, 0)));
}

#[test]
fn cancelled_order_never_fills() {
    let mut e = engine();
    e.submit_at(order(1, Side::Ask, Some(d(10, 0)), d(1, 0)), 1).unwrap();
    e.submit_at(order(2, Side::Ask, Some(d(11, 0)), d(1, 0)), 1).unwrap();
    let c = e.cancel(&sol(), OrderId(1)).unwrap();
    assert_eq!(c.status, OrderStatus::Cancelled);
    assert!(same(c.quantity_remaining, d(1, 0)));
    assert!(matches!(e.cancel(&sol(), OrderId(1)), Err(EngineError::OrderNotFound(OrderId(1)))));
    let r = e.submit_at(order(3, Side::Bid, Some(d(12, 0)), d(5, 0)), 2).unwrap();
    assert_eq!(r.fills.len(), 1);
    assert_eq!(r.fills[0].maker_order_id, OrderId(2));
}

#[test]
fn unknown_pair_accepts_any_remaining_quantity() {
    let mut e = engine();
    let mut o = order(1, Side::Bid, Some(d(10, 0)), d(1, 0));
    o.pair = TradingPair::new("ETH", "USDT");
    o.quantity_remaining = d(-1, 0);
    assert!(matches!(e.submit_at(o, 1), Err(EngineError::InvalidOrder(_))));
}

#[test]
fn live_id_is_refused() {
    let mut e = engine();
    e.submit_at(order(1, Side::Bid, Some(d(10, 0)), d(1, 0)), 1).unwrap();
    match e.submit_at(order(1, Side::Ask, Some(d(20, 0)), d(1, 0)), 2) {
        Err(EngineError::InvalidOrder(s)) => assert_eq!(s, "order id already live"),
        _ => panic!("expected InvalidOrder"),
    }
    // The book is unchanged: the bid still rests, no ask was added.
    let p = e.best_prices(&sol()).unwrap();
    assert!(same(p.0.unwrap(), d(10, 0)));
    assert!(p.1.is_none());
}

#[test]
fn negative_remaining_quantity_is_refused() {
    let mut e = engine();
    let mut o = order(1, Side::Bid, Some(d(10, 0)), d(1, 0));
    o.quantity_remaining = d(-15, 1);
    match e.submit_at(o, 1) {
        Err(EngineError::InvalidQuantity(s)) => assert_eq!(s, "-1.5"),
        _ => panic!("expected InvalidQuantity"),
    }
    assert!(e.best_prices(&sol()).unwrap().0.is_none());
}
