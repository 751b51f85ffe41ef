//! Events that the book and the engine hand out.
use vstd::prelude::*;
use crate::orders::{IncomingSide, OrderId};

verus! {

/// A fill: `qty` traded between a resting `maker` and an incoming `taker`
/// at the maker's `price`.
#[derive(Clone, Copy, PartialEq, Eq, Structural, Debug)]
pub struct MatchEvent {
    pub maker: OrderId,
    pub taker: OrderId,
    pub price: u64,
    pub qty: u32,
    pub ts: i64,
}

/// A resting order withdrawn with `qty` still open.
#[derive(Clone, Copy, PartialEq, Eq, Structural, Debug)]
pub struct CancelEvent {
    pub order_id: OrderId,
    pub qty: u32,
    pub ts: i64,
}

/// An order that came to rest in the book with `qty` open at `price`.
#[derive(Clone, Copy, PartialEq, Eq, Structural, Debug)]
pub struct InsertEvent {
    pub order_id: OrderId,
    pub price: u64,
    pub side: IncomingSide,
    pub qty: u32,
    pub ts: i64,
}

/// One entry of the outbound event stream.
#[derive(Clone, Debug)]
pub enum BookEvent {
    Match(MatchEvent),
    Cancel(CancelEvent),
    Insert(InsertEvent),
    /// A text dump of the book, sent once at the end of a run.
    BookSnapshot(String),
}

} // verus!
