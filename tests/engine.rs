use matching_engine::engine::Engine;
use matching_engine::events::BookEvent;
use matching_engine::order_book::{le_bytes_of, OrderBook};
use matching_engine::orders::{
    IncomingCancelOrder, IncomingLimitOrder, IncomingMarketOrder, IncomingOrder, IncomingSide,
    RestingOrder,
};
use matching_engine::price_key::PriceKey;

fn lim(id: u64, side: IncomingSide, price: u64, qty: u32) -> IncomingOrder {
    IncomingOrder::InboundLimit(IncomingLimitOrder { order_id: id, price, qty, side })
}

fn mkt(id: u64, side: IncomingSide, qty: u32) -> IncomingOrder {
    IncomingOrder::InboundMarket(IncomingMarketOrder { order_id: id, qty, side })
}

fn cxl(id: u64) -> IncomingOrder {
    IncomingOrder::InboundCancel(IncomingCancelOrder { order_id: id })
}

fn fill(e: &BookEvent) -> (u64, u64, u64, u32) {
    match e {
        BookEvent::Match(m) => (m.maker, m.taker, m.price, m.qty),
        _ => panic!("expected a match event"),
    }
}

fn run(engine: &mut Engine, orders: &[IncomingOrder]) -> Vec<BookEvent> {
    let mut out = Vec::new();
    for o in orders {
        out.extend(engine.process(*o).expect("order refused"));
    }
    out
}

#[test]
fn engine_price_sorting() {
    let mut e = Engine::new(64);
    let events = run(
        &mut e,
        &[
            lim(1, IncomingSide::Buy, 100, 5),
            lim(2, IncomingSide::Buy, 105, 5),
            lim(3, IncomingSide::Buy, 102, 5),
            lim(4, IncomingSide::Sell, 110, 5),
            lim(5, IncomingSide::Sell, 108, 5),
            lim(6, IncomingSide::Sell, 115, 5),
        ],
    );
    assert_eq!(events.len(), 6);
    assert!(events.iter().all(|e| matches!(e, BookEvent::Insert(_))));
    let book = e.get_book();
    assert_eq!(book.best_bid(), Some(PriceKey(105)));
    assert_eq!(book.best_ask(), Some(PriceKey(108)));
    assert_eq!(book.bids().len() + book.asks().len(), 6);
}

#[test]
fn engine_fifo_same_price() {
    let mut e = Engine::new(64);
    run(
        &mut e,
        &[
            lim(1, IncomingSide::Sell, 100, 5),
            lim(2, IncomingSide::Sell, 100, 5),
            lim(3, IncomingSide::Sell, 100, 5),
        ],
    );
    let book = e.get_book();
    let level = book.asks().get(100).unwrap();
    assert_eq!(level.total_orders, 3);
    let mut ids = Vec::new();
    let mut cur = level.head;
    while let Some(i) = cur {
        let o = book.order_at(i).unwrap();
        ids.push(o.order_id);
        cur = o.next;
    }
    assert_eq!(ids, vec![1, 2, 3]);
    assert_eq!(book.order_at(level.tail.unwrap()).unwrap().order_id, 3);
}

#[test]
fn engine_cancel_drops_level() {
    let mut e = Engine::new(64);
    run(&mut e, &[lim(1, IncomingSide::Buy, 100, 10)]);
    let events = run(&mut e, &[cxl(1)]);
    assert_eq!(events.len(), 1);
    match &events[0] {
        BookEvent::Cancel(c) => {
            assert_eq!(c.order_id, 1);
            assert_eq!(c.qty, 10);
        },
        _ => panic!("expected a cancel event"),
    }
    assert!(e.get_book().bids().is_empty());
    assert_eq!(e.get_book().len(), 0);
}

#[test]
fn engine_price_time_priority() {
    let mut e = Engine::new(64);
    run(
        &mut e,
        &[
            lim(3, IncomingSide::Buy, 101, 5),
            lim(1, IncomingSide::Buy, 102, 5),
            lim(2, IncomingSide::Buy, 102, 5),
        ],
    );
    let events = run(&mut e, &[lim(4, IncomingSide::Sell, 101, 8)]);
    assert_eq!(events.len(), 2);
    assert_eq!(fill(&events[0]), (1, 4, 102, 5));
    assert_eq!(fill(&events[1]), (2, 4, 102, 3));
    let book = e.get_book();
    assert_eq!(book.get_order(2).unwrap().qty, 2);
    assert_eq!(book.get_order(3).unwrap().qty, 5);
    assert!(book.get_order(1).is_none());
    assert_eq!(book.len(), 2);
}

#[test]
fn engine_market_partial_across_levels() {
    let mut e = Engine::new(64);
    run(
        &mut e,
        &[
            lim(1, IncomingSide::Sell, 100, 5),
            lim(2, IncomingSide::Sell, 100, 5),
            lim(3, IncomingSide::Sell, 101, 10),
        ],
    );
    let events = run(&mut e, &[mkt(4, IncomingSide::Buy, 8)]);
    assert_eq!(events.len(), 2);
    assert_eq!(fill(&events[0]), (1, 4, 100, 5));
    assert_eq!(fill(&events[1]), (2, 4, 100, 3));
    let book = e.get_book();
    assert_eq!(book.get_order(2).unwrap().qty, 2);
    assert!(book.asks().get(100).is_some());
    assert_eq!(book.get_order(3).unwrap().qty, 10);
}

#[test]
fn engine_no_match_remainder_rests() {
    let mut e = Engine::new(64);
    run(&mut e, &[lim(1, IncomingSide::Sell, 105, 5)]);
    let events = run(&mut e, &[lim(999, IncomingSide::Buy, 100, 5)]);
    assert_eq!(events.len(), 1);
    match &events[0] {
        BookEvent::Insert(i) => {
            assert_eq!(i.order_id, 999);
            assert_eq!(i.price, 100);
            assert_eq!(i.qty, 5);
            assert_eq!(i.side, IncomingSide::Buy);
            assert!(i.ts >= 0);
        },
        _ => panic!("expected an insert event"),
    }
    assert_eq!(e.get_book().best_bid(), Some(PriceKey(100)));
}

#[test]
fn engine_limit_partial_fill_rests_remainder() {
    let mut e = Engine::new(64);
    run(&mut e, &[lim(1, IncomingSide::Sell, 100, 3)]);
    let events = run(&mut e, &[lim(2, IncomingSide::Buy, 101, 10)]);
    assert_eq!(events.len(), 2);
    assert_eq!(fill(&events[0]), (1, 2, 100, 3));
    match &events[1] {
        BookEvent::Insert(i) => {
            assert_eq!((i.order_id, i.price, i.qty), (2, 101, 7));
        },
        _ => panic!("expected an insert event"),
    }
    let book = e.get_book();
    assert!(book.asks().is_empty());
    assert_eq!(book.best_bid(), Some(PriceKey(101)));
}

#[test]
fn engine_market_on_empty_side_drops_quantity() {
    let mut e = Engine::new(64);
    run(&mut e, &[lim(1, IncomingSide::Buy, 100, 4)]);
    let events = run(&mut e, &[mkt(2, IncomingSide::Buy, 9)]);
    assert!(events.is_empty());
    assert!(e.get_book().asks().is_empty());
    assert!(e.get_book().get_order(2).is_none());
    let events = run(&mut e, &[mkt(3, IncomingSide::Sell, 9)]);
    assert_eq!(events.len(), 1);
    assert_eq!(fill(&events[0]), (1, 3, 100, 4));
    assert!(e.get_book().bids().is_empty());
}

#[test]
fn engine_never_crossed() {
    let mut e = Engine::new(64);
    let orders = [
        lim(1, IncomingSide::Buy, 100, 5),
        lim(2, IncomingSide::Sell, 103, 5),
        lim(3, IncomingSide::Buy, 104, 7),
        lim(4, IncomingSide::Sell, 99, 9),
        mkt(5, IncomingSide::Buy, 1),
        lim(6, IncomingSide::Sell, 101, 2),
        cxl(1),
        lim(7, IncomingSide::Buy, 101, 1),
    ];
    for o in orders {
        e.process(o).expect("order refused");
        let book = e.get_book();
        if let (Some(b), Some(a)) = (book.best_bid(), book.best_ask()) {
            assert!(b.0 < a.0);
        }
    }
}

#[test]
fn cancel_unknown_is_noop() {
    let mut e = Engine::new(64);
    run(&mut e, &[lim(1, IncomingSide::Buy, 100, 5), lim(2, IncomingSide::Sell, 110, 5)]);
    let before = e.checksum();
    let events = run(&mut e, &[cxl(42)]);
    assert!(events.is_empty());
    assert_eq!(e.checksum(), before);
    assert_eq!(e.get_book().len(), 2);
}

#[test]
fn duplicate_resting_id_is_refused() {
    let mut e = Engine::new(64);
    run(&mut e, &[lim(1, IncomingSide::Buy, 100, 5)]);
    let before = e.checksum();
    assert!(e.process(lim(1, IncomingSide::Buy, 99, 5)).is_none());
    assert_eq!(e.checksum(), before);
}

#[test]
fn checksum_is_stable_across_runs() {
    let orders = [
        lim(1, IncomingSide::Buy, 100, 5),
        lim(2, IncomingSide::Sell, 103, 5),
        lim(3, IncomingSide::Buy, 101, 7),
        mkt(4, IncomingSide::Sell, 6),
        lim(5, IncomingSide::Sell, 102, 2),
        cxl(2),
    ];
    let mut a = Engine::new(64);
    let mut b = Engine::new(8);
    run(&mut a, &orders);
    run(&mut b, &orders);
    assert_eq!(a.checksum(), b.checksum());
    let mut c = Engine::new(64);
    run(&mut c, &orders[..5]);
    assert_ne!(a.checksum(), c.checksum());
}

#[test]
fn checksum_of_empty_books_agree() {
    assert_eq!(OrderBook::default().checksum(), Engine::default().checksum());
}

#[test]
fn match_sequence_conserves_quantity() {
    let mut book = OrderBook::new(16);
    for (id, price, qty) in [(1u64, 100u64, 4u32), (2, 101, 6), (3, 103, 5)] {
        let o = RestingOrder {
            order_id: id,
            price,
            qty,
            side: IncomingSide::Sell,
            prev: None,
            next: None,
            ts: 0,
        };
        book.insert_asks(o, qty);
    }
    let order = IncomingLimitOrder { order_id: 9, price: 102, qty: 20, side: IncomingSide::Buy };
    let mut iter = book.match_limit_buy(&order);
    let fills = iter.collect_fills(&mut book);
    let traded: u32 = fills.iter().map(|e| fill(e).3).sum();
    assert_eq!(traded + iter.remaining(), 20);
    assert_eq!(traded, 10);
    assert_eq!(iter.remaining(), 10);
    assert!(iter.next(&mut book).is_none());
    assert_eq!(book.best_ask(), Some(PriceKey(103)));
}

#[test]
fn insert_sets_side_of_book() {
    let mut book = OrderBook::new(4);
    let o = RestingOrder {
        order_id: 5,
        price: 90,
        qty: 1,
        side: IncomingSide::Sell,
        prev: None,
        next: None,
        ts: 0,
    };
    let ev = book.insert_bids(o, 3);
    match ev {
        BookEvent::Insert(i) => {
            assert_eq!((i.order_id, i.price, i.qty, i.side), (5, 90, 3, IncomingSide::Buy))
        },
        _ => panic!("expected an insert event"),
    }
    let stored = book.get_order(5).unwrap();
    assert_eq!(stored.side, IncomingSide::Buy);
    assert_eq!(stored.qty, 3);
    assert!(stored.ts > 0);
    assert_eq!(book.get_index(5), Some(book.bids().get(90).unwrap().head.unwrap()));
    assert_eq!(book.get_index(6), None);
}

#[test]
fn snapshot_lists_levels_in_priority_order() {
    let mut e = Engine::new(16);
    run(
        &mut e,
        &[
            lim(1, IncomingSide::Buy, 100, 5),
            lim(2, IncomingSide::Buy, 102, 5),
            lim(3, IncomingSide::Buy, 102, 1),
            lim(4, IncomingSide::Sell, 110, 5),
            lim(5, IncomingSide::Sell, 108, 5),
        ],
    );
    assert_eq!(
        e.get_book().bids().print_levels(),
        "Price: PriceKey(102) | Orders: 2\nPrice: PriceKey(100) | Orders: 1\n"
    );
    match e.get_book().print_book() {
        BookEvent::BookSnapshot(t) => assert_eq!(
            t,
            "BIDS\nPrice: PriceKey(102) | Orders: 2\nPrice: PriceKey(100) | Orders: 1\nASKS\nPrice: PriceKey(108) | Orders: 1\nPrice: PriceKey(110) | Orders: 1\n"
        ),
        _ => panic!("expected a snapshot"),
    }
}

#[test]
fn little_endian_bytes() {
    assert_eq!(le_bytes_of(0x0102, 2), vec![2, 1]);
    assert_eq!(le_bytes_of(u64::MAX, 8), vec![255; 8]);
    assert_eq!(le_bytes_of(7, 0), Vec::<u8>::new());
}

#[test]
fn price_key_and_side_text() {
    assert_eq!(PriceKey(100).to_string(), "100");
    assert_eq!(PriceKey::from(7u64), PriceKey(7));
    assert_eq!(IncomingSide::Buy.to_string(), "BUY");
    assert_eq!(IncomingSide::Sell.to_string(), "SELL");
    let r = RestingOrder::from(IncomingLimitOrder {
        order_id: 3,
        price: 50,
        qty: 2,
        side: IncomingSide::Sell,
    });
    assert_eq!((r.order_id, r.price, r.qty, r.side, r.prev, r.next), (3, 50, 2, IncomingSide::Sell, None, None));
}

#[test]
fn get_order_mut_edits_the_resting_cell() {
    let mut book = OrderBook::new(8);
    let o = RestingOrder {
        order_id: 11,
        price: 100,
        qty: 4,
        side: IncomingSide::Buy,
        prev: None,
        next: None,
        ts: 0,
    };
    book.insert_bids(o, 4);
    assert!(book.get_order_mut(12).is_none());
    let cell = book.get_order_mut(11).unwrap();
    assert_eq!(cell.order_id, 11);
    cell.ts = 42;
    assert_eq!(book.get_order(11).unwrap().ts, 42);
    assert_eq!(book.get_order(11).unwrap().qty, 4);
}

#[test]
fn checksum_reads_side_as_eight_bytes() {
    let mut a = OrderBook::new(8);
    let mut b = OrderBook::new(8);
    let o = |side| RestingOrder { order_id: 1, price: 100, qty: 4, side, prev: None, next: None, ts: 0 };
    a.insert_bids(o(IncomingSide::Buy), 4);
    b.insert_asks(o(IncomingSide::Sell), 4);
    assert_ne!(a.checksum(), b.checksum());
}
