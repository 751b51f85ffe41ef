use matching_engine::events::{BookEvent, CancelEvent, InsertEvent, MatchEvent};
use matching_engine::logger::{drain_step, format_event, DrainAction, DrainPhase};
use matching_engine::orders::IncomingSide;

#[test]
fn formats_match_line() {
    let e = BookEvent::Match(MatchEvent { maker: 1, taker: 4, price: 102, qty: 5, ts: 1700000000123456 });
    assert_eq!(format_event(&e), "MATCH,maker(1),taker(4),price(102),qty(5),ts(1700000000123456)\n");
}

#[test]
fn formats_cancel_and_insert_lines() {
    let c = BookEvent::Cancel(CancelEvent { order_id: 7, qty: 10, ts: -3 });
    assert_eq!(format_event(&c), "CANCEL,id(7),qty(10),ts(-3)\n");
    let i = BookEvent::Insert(InsertEvent {
        order_id: 999,
        price: 100,
        side: IncomingSide::Buy,
        qty: 4294967295,
        ts: 0,
    });
    assert_eq!(format_event(&i), "INSERT,id(999),price(100),qty(4294967295),ts(0)\n");
    let s = BookEvent::BookSnapshot("BIDS\nASKS\n".to_string());
    assert_eq!(format_event(&s), "BIDS\nASKS\n");
}

#[test]
fn drain_logs_events_and_stops_after_final_drain() {
    let e = BookEvent::Cancel(CancelEvent { order_id: 1, qty: 2, ts: 3 });
    match drain_step(DrainPhase::Running, Some(e), false) {
        (DrainPhase::Running, DrainAction::Write(line)) => assert_eq!(line, "CANCEL,id(1),qty(2),ts(3)\n"),
        _ => panic!("expected a write"),
    }
    assert!(matches!(drain_step(DrainPhase::Running, None, false), (DrainPhase::Running, DrainAction::Retry)));
    assert!(matches!(drain_step(DrainPhase::Running, None, true), (DrainPhase::Draining, DrainAction::Retry)));
    let e = BookEvent::Cancel(CancelEvent { order_id: 1, qty: 2, ts: 3 });
    assert!(matches!(drain_step(DrainPhase::Draining, Some(e), true), (DrainPhase::Draining, DrainAction::Write(_))));
    assert!(matches!(drain_step(DrainPhase::Draining, None, true), (DrainPhase::Draining, DrainAction::Stop)));
}
