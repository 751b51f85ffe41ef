use matching_engine::events::{BookEvent, MatchEvent};
use matching_engine::order_book::OrderBook;
use matching_engine::orders::{IncomingLimitOrder, IncomingMarketOrder, IncomingSide, RestingOrder};
use matching_engine::price_key::PriceKey;

fn resting(id: u64, price: u64, qty: u32, side: IncomingSide) -> RestingOrder {
    RestingOrder { order_id: id, price, qty, side, next: None, prev: None, ts: 0 }
}

fn market(id: u64, qty: u32, side: IncomingSide) -> IncomingMarketOrder {
    IncomingMarketOrder { order_id: id, qty, side }
}

fn limit(id: u64, price: u64, qty: u32, side: IncomingSide) -> IncomingLimitOrder {
    IncomingLimitOrder { order_id: id, price, qty, side }
}

fn match_event(e: &BookEvent) -> &MatchEvent {
    match e {
        BookEvent::Match(fill) => fill,
        _ => panic!("Expected MatchEvent"),
    }
}

fn assert_book_consistency(book: &OrderBook) {
    for level in book.bids().levels.values() {
        assert!(level.head.is_some());
        assert!(level.total_orders > 0);
    }
    for level in book.asks().levels.values() {
        assert!(level.head.is_some());
        assert!(level.total_orders > 0);
    }
}

#[test]
fn test_price_sorting() {
    let mut book = OrderBook::default();

    book.insert_bids(resting(1, 100, 5, IncomingSide::Buy), 5);
    book.insert_bids(resting(2, 105, 5, IncomingSide::Buy), 5);
    book.insert_bids(resting(3, 102, 5, IncomingSide::Buy), 5);

    book.insert_asks(resting(4, 110, 5, IncomingSide::Sell), 5);
    book.insert_asks(resting(5, 108, 5, IncomingSide::Sell), 5);
    book.insert_asks(resting(6, 115, 5, IncomingSide::Sell), 5);

    // Best bid should be highest
    let best_bid = book.best_bid().unwrap();
    assert_eq!(best_bid.0, 105);

    // Best ask should be lowest
    let best_ask = book.best_ask().unwrap();
    assert_eq!(best_ask.0, 108);
    assert_book_consistency(&book);
}

#[test]
fn test_fifo_same_price() {
    let mut book = OrderBook::default();

    book.insert_asks(resting(1, 100, 5, IncomingSide::Sell), 5);
    book.insert_asks(resting(2, 100, 5, IncomingSide::Sell), 5);
    book.insert_asks(resting(3, 100, 5, IncomingSide::Sell), 5);

    let level = book.asks().get(100).unwrap();

    let head = level.head.unwrap();
    let second = book.order_at(head).unwrap().next.unwrap();
    let third = book.order_at(second).unwrap().next.unwrap();

    assert_eq!(book.order_at(head).unwrap().order_id, 1);
    assert_eq!(book.order_at(second).unwrap().order_id, 2);
    assert_eq!(book.order_at(third).unwrap().order_id, 3);
    assert_book_consistency(&book);
}

#[test]
fn test_cancel_removes_order_and_level() {
    let mut book = OrderBook::default();

    book.insert_bids(resting(1, 100, 10, IncomingSide::Buy), 10);

    // Level should exist
    assert_eq!(book.bids().len(), 1);

    book.cancel_order(1);

    // After cancel, price level should be gone
    assert!(book.bids().is_empty());
    assert_book_consistency(&book);
}

#[test]
fn test_match_price_time_priority() {
    let mut book = OrderBook::default();

    // Bids
    book.insert_bids(resting(3, 101, 5, IncomingSide::Buy), 5);
    book.insert_bids(resting(1, 102, 5, IncomingSide::Buy), 5);
    book.insert_bids(resting(2, 102, 5, IncomingSide::Buy), 5);

    book.bids().print_levels();

    let mut iter = book.match_limit_sell(&limit(4, 101, 8, IncomingSide::Sell));

    let fills: Vec<_> = iter.collect_fills(&mut book);

    assert_eq!(fills.len(), 2);

    // FIFO within price 102
    assert_eq!(match_event(&fills[0]).maker, 1);
    assert_eq!(match_event(&fills[0]).taker, 4);
    assert_eq!(match_event(&fills[0]).price, 102);
    assert_eq!(match_event(&fills[0]).qty, 5);

    assert_eq!(match_event(&fills[1]).maker, 2);
    assert_eq!(match_event(&fills[1]).taker, 4);
    assert_eq!(match_event(&fills[1]).price, 102);
    assert_eq!(match_event(&fills[1]).qty, 3);

    assert_eq!(book.bids().len(), 2);
    assert_eq!(book.len(), 2);

    assert_book_consistency(&book);
}

#[test]
fn test_price_level_removed_after_full_fill() {
    let mut book = OrderBook::default();

    book.insert_asks(resting(1, 100, 5, IncomingSide::Sell), 5);
    book.insert_asks(resting(2, 100, 5, IncomingSide::Sell), 5);
    book.insert_asks(resting(3, 101, 6, IncomingSide::Sell), 6);

    let mut iter = book.match_limit_buy(&limit(4, 101, 16, IncomingSide::Buy));
    let fills: Vec<_> = iter.collect_fills(&mut book);

    assert_eq!(fills.len(), 3);

    // FIFO within price 100
    assert_eq!(match_event(&fills[0]).maker, 1);
    assert_eq!(match_event(&fills[0]).taker, 4);
    assert_eq!(match_event(&fills[0]).price, 100);
    assert_eq!(match_event(&fills[0]).qty, 5);

    assert_eq!(match_event(&fills[1]).maker, 2);
    assert_eq!(match_event(&fills[1]).taker, 4);
    assert_eq!(match_event(&fills[1]).price, 100);
    assert_eq!(match_event(&fills[1]).qty, 5);

    assert_eq!(match_event(&fills[2]).maker, 3);
    assert_eq!(match_event(&fills[2]).taker, 4);
    assert_eq!(match_event(&fills[2]).price, 101);
    assert_eq!(match_event(&fills[2]).qty, 6);

    assert!(book.asks().is_empty());
}

#[test]
fn test_limit_order_no_match() {
    let mut book = OrderBook::default();

    // Existing ask at 105
    book.insert_asks(resting(1, 105, 5, IncomingSide::Sell), 5);

    let mut iter = book.match_limit_buy(&limit(999, 100, 5, IncomingSide::Buy));

    let fills: Vec<_> = iter.collect_fills(&mut book);

    assert!(fills.is_empty());

    // Entire quantity should remain
    let remaining = iter.remaining();
    assert_eq!(remaining, 5);

    // Simulate typical behavior: remainder inserted
    book.insert_bids(resting(999, 100, 5, IncomingSide::Buy), 5);

    let best_bid = book.best_bid().unwrap();
    assert_eq!(best_bid, PriceKey(100));

    let level = book.bids().get(100).unwrap();

    assert_eq!(level.total_orders, 1);

    let head_idx = level.head.unwrap();
    assert_eq!(book.order_at(head_idx).unwrap().order_id, 999);
    assert_eq!(book.order_at(head_idx).unwrap().qty, 5);
}

#[test]
fn test_market_partial_and_full_fill() {
    let mut book = OrderBook::default();

    // Add asks
    book.insert_asks(resting(1, 100, 5, IncomingSide::Sell), 5);
    book.insert_asks(resting(2, 100, 5, IncomingSide::Sell), 5);
    book.insert_asks(resting(3, 101, 10, IncomingSide::Sell), 10);

    // Market buy for qty 8
    let mut iter = book.match_market_buy(&market(4, 8, IncomingSide::Buy));
    let fills: Vec<_> = iter.collect_fills(&mut book);

    // Should consume:
    // Order 1 (5)
    // Order 2 (3 partial)
    assert_eq!(fills.len(), 2);

    assert_eq!(match_event(&fills[0]).maker, 1);
    assert_eq!(match_event(&fills[0]).price, 100);
    assert_eq!(match_event(&fills[0]).qty, 5);

    assert_eq!(match_event(&fills[1]).maker, 2);
    assert_eq!(match_event(&fills[1]).price, 100);
    assert_eq!(match_event(&fills[1]).qty, 3);

    // Order 2 should still have 2 remaining
    let remaining = book.get_order(2).unwrap();
    assert_eq!(remaining.qty, 2);

    // Price level 100 should still exist
    assert_eq!(book.asks().len(), 2);
    assert_book_consistency(&book);
}

#[test]
fn test_full_price_level_cleanup_after_market_match() {
    let mut book = OrderBook::default();

    book.insert_asks(resting(1, 100, 5, IncomingSide::Sell), 5);

    // Fully consume
    let mut iter = book.match_market_buy(&market(2, 5, IncomingSide::Buy));
    let fills: Vec<_> = iter.collect_fills(&mut book);

    assert_eq!(fills.len(), 1);
    assert!(book.asks().is_empty());
    assert_book_consistency(&book);
}

#[test]
fn test_multi_price_level_match_market_order() {
    let mut book = OrderBook::default();

    book.insert_asks(resting(1, 100, 5, IncomingSide::Sell), 5);
    book.insert_asks(resting(2, 101, 5, IncomingSide::Sell), 5);
    book.insert_asks(resting(3, 102, 5, IncomingSide::Sell), 5);

    let mut iter = book.match_market_buy(&market(4, 12, IncomingSide::Buy));
    let fills: Vec<_> = iter.collect_fills(&mut book);

    // Should match strictly price-time priority:
    // 100 -> 101 -> 102
    assert_eq!(fills.len(), 3);

    assert_eq!(match_event(&fills[0]).price, 100);
    assert_eq!(match_event(&fills[0]).qty, 5);
    assert_eq!(match_event(&fills[1]).price, 101);
    assert_eq!(match_event(&fills[1]).qty, 5);
    assert_eq!(match_event(&fills[2]).price, 102);
    assert_eq!(match_event(&fills[2]).qty, 2);
    assert_book_consistency(&book);
}
