use matching_engine::orders::{
    IncomingCancelOrder, IncomingLimitOrder, IncomingMarketOrder, IncomingOrder, IncomingSide,
};
use matching_engine::replay::{format_order, parse_event, split_fields};

#[test]
fn parses_limit_line() {
    assert_eq!(
        parse_event("ADD,1,B,LIMIT,100,5"),
        Some(IncomingOrder::InboundLimit(IncomingLimitOrder {
            order_id: 1,
            price: 100,
            qty: 5,
            side: IncomingSide::Buy,
        }))
    );
    assert_eq!(
        parse_event("ADD,18446744073709551615,A,LIMIT,7,4294967295"),
        Some(IncomingOrder::InboundLimit(IncomingLimitOrder {
            order_id: u64::MAX,
            price: 7,
            qty: u32::MAX,
            side: IncomingSide::Sell,
        }))
    );
}

#[test]
fn parses_market_and_cancel_lines() {
    assert_eq!(
        parse_event("ADD,2,A,MARKET,8"),
        Some(IncomingOrder::InboundMarket(IncomingMarketOrder {
            order_id: 2,
            qty: 8,
            side: IncomingSide::Sell,
        }))
    );
    assert_eq!(
        parse_event("CANCEL,77"),
        Some(IncomingOrder::InboundCancel(IncomingCancelOrder { order_id: 77 }))
    );
}

#[test]
fn reads_numbers_as_str_parse_does() {
    assert_eq!(
        parse_event("CANCEL,+12"),
        Some(IncomingOrder::InboundCancel(IncomingCancelOrder { order_id: 12 }))
    );
    assert_eq!(parse_event("CANCEL,+"), None);
    assert_eq!(parse_event("CANCEL,-1"), None);
    assert_eq!(parse_event("CANCEL,"), None);
    assert_eq!(parse_event("CANCEL,18446744073709551616"), None);
    assert_eq!(parse_event("ADD,1,B,LIMIT,100,4294967296"), None);
    assert_eq!(parse_event("ADD,1,B,MARKET,5x"), None);
}

#[test]
fn ignores_extra_fields() {
    assert_eq!(
        parse_event("CANCEL,3,whatever"),
        Some(IncomingOrder::InboundCancel(IncomingCancelOrder { order_id: 3 }))
    );
    assert_eq!(
        parse_event("ADD,4,B,MARKET,6,9"),
        Some(IncomingOrder::InboundMarket(IncomingMarketOrder {
            order_id: 4,
            qty: 6,
            side: IncomingSide::Buy,
        }))
    );
}

#[test]
fn rejects_malformed_lines() {
    assert_eq!(parse_event(""), None);
    assert_eq!(parse_event("ADD"), None);
    assert_eq!(parse_event("ADD,1,B,LIMIT,100"), None);
    assert_eq!(parse_event("ADD,1,X,LIMIT,100,5"), None);
    assert_eq!(parse_event("ADD,1,BB,LIMIT,100,5"), None);
    assert_eq!(parse_event("ADD,1,B,STOP,100,5"), None);
    assert_eq!(parse_event("add,1,B,LIMIT,100,5"), None);
    assert_eq!(parse_event("ADD,1,B,LIMIT,100,5\n"), None);
    assert_eq!(parse_event("MODIFY,1"), None);
}

#[test]
fn splits_at_commas() {
    let f = split_fields(b"a,,bc,");
    assert_eq!(f, vec![b"a".to_vec(), vec![], b"bc".to_vec(), vec![]]);
    assert_eq!(split_fields(b""), vec![Vec::<u8>::new()]);
}

#[test]
fn formats_orders_as_replay_lines() {
    let l = IncomingOrder::InboundLimit(IncomingLimitOrder {
        order_id: 12,
        price: 100,
        qty: 5,
        side: IncomingSide::Buy,
    });
    let m = IncomingOrder::InboundMarket(IncomingMarketOrder { order_id: 13, qty: 8, side: IncomingSide::Sell });
    let c = IncomingOrder::InboundCancel(IncomingCancelOrder { order_id: 12 });
    assert_eq!(format_order(&l), "ADD,12,B,LIMIT,100,5\n");
    assert_eq!(format_order(&m), "ADD,13,A,MARKET,8\n");
    assert_eq!(format_order(&c), "CANCEL,12\n");
    for o in [l, m, c] {
        let line = format_order(&o);
        assert_eq!(parse_event(line.trim_end_matches('\n')), Some(o));
    }
}
