//! The log side of the event stream: the text of each event, and the
//! decisions of the thread that drains the stream into the log.
use vstd::prelude::*;
use crate::events::BookEvent;
use crate::text::{decimal, i64_text, signed_decimal, u64_text};

verus! {

/// The log line of an event, with its line break; a snapshot is logged as
/// its text.
pub open spec fn event_line(e: BookEvent) -> Seq<char> {
    match e {
        BookEvent::Match(m) => "MATCH,maker("@ + decimal(m.maker as nat) + "),taker("@ + decimal(
            m.taker as nat,
        ) + "),price("@ + decimal(m.price as nat) + "),qty("@ + decimal(m.qty as nat) + "),ts("@
            + signed_decimal(m.ts as int) + ")\n"@,
        BookEvent::Cancel(c) => "CANCEL,id("@ + decimal(c.order_id as nat) + "),qty("@ + decimal(
            c.qty as nat,
        ) + "),ts("@ + signed_decimal(c.ts as int) + ")\n"@,
        BookEvent::Insert(i) => "INSERT,id("@ + decimal(i.order_id as nat) + "),price("@ + decimal(
            i.price as nat,
        ) + "),qty("@ + decimal(i.qty as nat) + "),ts("@ + signed_decimal(i.ts as int) + ")\n"@,
        BookEvent::BookSnapshot(t) => t@,
    }
}

/// The log line of an event.
pub fn format_event(event: &BookEvent) -> (r: String)
    ensures
        r@ == event_line(*event),
{
    proof {
        reveal_strlit("MATCH,maker(");
        reveal_strlit("),taker(");
        reveal_strlit("),price(");
        reveal_strlit("),qty(");
        reveal_strlit("),ts(");
        reveal_strlit(")\n");
        reveal_strlit("CANCEL,id(");
        reveal_strlit("INSERT,id(");
    }
    match event {
        BookEvent::Match(m) => {
            let mut line = String::from_str("MATCH,maker(");
            line.append(u64_text(m.maker).as_str());
            line.append("),taker(");
            line.append(u64_text(m.taker).as_str());
            line.append("),price(");
            line.append(u64_text(m.price).as_str());
            line.append("),qty(");
            line.append(u64_text(m.qty as u64).as_str());
            line.append("),ts(");
            line.append(i64_text(m.ts).as_str());
            line.append(")\n");
            line
        },
        BookEvent::Cancel(c) => {
            let mut line = String::from_str("CANCEL,id(");
            line.append(u64_text(c.order_id).as_str());
            line.append("),qty(");
            line.append(u64_text(c.qty as u64).as_str());
            line.append("),ts(");
            line.append(i64_text(c.ts).as_str());
            line.append(")\n");
            line
        },
        BookEvent::Insert(i) => {
            let mut line = String::from_str("INSERT,id(");
            line.append(u64_text(i.order_id).as_str());
            line.append("),price(");
            line.append(u64_text(i.price).as_str());
            line.append("),qty(");
            line.append(u64_text(i.qty as u64).as_str());
            line.append("),ts(");
            line.append(i64_text(i.ts).as_str());
            line.append(")\n");
            line
        },
        BookEvent::BookSnapshot(t) => t.clone(),
    }
}

/// Where the draining thread stands: taking events while the producer may
/// still send, or taking the last ones after it said it is done.
#[derive(Clone, Copy, PartialEq, Eq, Structural, Debug)]
pub enum DrainPhase {
    Running,
    Draining,
}

/// What the draining thread does next.
#[derive(Clone, Debug)]
pub enum DrainAction {
    /// Append this line to the log, then try the stream again.
    Write(String),
    /// Try the stream again.
    Retry,
    /// Stop: every event sent has been logged.
    Stop,
}

/// One decision of the draining thread, from its phase, what the last try
/// of the stream gave, and whether the producer has said it is done (read
/// after that try came back empty). An event is logged. An empty stream is
/// tried again, and once the producer is done, once more to take what it
/// sent before saying so; the stream found empty after that is finished.
pub fn drain_step(phase: DrainPhase, popped: Option<BookEvent>, done: bool) -> (r: (
    DrainPhase,
    DrainAction,
))
    ensures
        popped matches Some(e) ==> r.0 == phase && (r.1 matches DrainAction::Write(line) && line@
            == event_line(e)),
        popped is None && phase == DrainPhase::Running && !done ==> r.0 == DrainPhase::Running
            && r.1 is Retry,
        popped is None && phase == DrainPhase::Running && done ==> r.0 == DrainPhase::Draining
            && r.1 is Retry,
        popped is None && phase == DrainPhase::Draining ==> r.0 == DrainPhase::Draining
            && r.1 is Stop,
{
    match popped {
        Some(e) => (phase, DrainAction::Write(format_event(&e))),
        None => match phase {
            DrainPhase::Running => if done {
                (DrainPhase::Draining, DrainAction::Retry)
            } else {
                (DrainPhase::Running, DrainAction::Retry)
            },
            DrainPhase::Draining => (DrainPhase::Draining, DrainAction::Stop),
        },
    }
}

} // verus!
