//! Inbound orders and the resting-order record kept in the book.
use vstd::prelude::*;

verus! {

/// Identifier of an order, unique among the orders resting in the book.
pub type OrderId = u64;

/// Side of an order: a buy rests among the bids, a sell among the asks.
#[derive(Clone, Copy, PartialEq, Eq, Structural, Debug, Hash)]
pub enum IncomingSide {
    Buy,
    Sell,
}

impl IncomingSide {
    /// Printable name of the side.
    pub open spec fn label(self) -> Seq<char> {
        match self {
            IncomingSide::Buy => seq!['B', 'U', 'Y'],
            IncomingSide::Sell => seq!['S', 'E', 'L', 'L'],
        }
    }

    /// Printable name of the side: `BUY` or `SELL`.
    pub fn to_string(&self) -> (r: String)
        ensures
            r@ == self.label(),
    {
        match self {
            IncomingSide::Buy => {
                proof {
                    reveal_strlit("BUY");
                }
                String::from_str("BUY")
            },
            IncomingSide::Sell => {
                proof {
                    reveal_strlit("SELL");
                }
                String::from_str("SELL")
            },
        }
    }
}

/// A limit order: trade up to `qty` at `price` or better, then rest.
#[derive(Clone, Copy, PartialEq, Eq, Structural, Debug)]
pub struct IncomingLimitOrder {
    pub order_id: OrderId,
    pub price: u64,
    pub qty: u32,
    pub side: IncomingSide,
}

/// A market order: trade up to `qty` at any price; what is left is dropped.
#[derive(Clone, Copy, PartialEq, Eq, Structural, Debug)]
pub struct IncomingMarketOrder {
    pub order_id: OrderId,
    pub qty: u32,
    pub side: IncomingSide,
}

/// A request to withdraw a resting order.
#[derive(Clone, Copy, PartialEq, Eq, Structural, Debug)]
pub struct IncomingCancelOrder {
    pub order_id: OrderId,
}

/// One inbound event for the engine.
#[derive(Clone, Copy, PartialEq, Eq, Structural, Debug)]
pub enum IncomingOrder {
    InboundLimit(IncomingLimitOrder),
    InboundMarket(IncomingMarketOrder),
    InboundCancel(IncomingCancelOrder),
}

/// An order resting in the book: a cell of the arena, linked to its
/// neighbours at the same price by arena indices.
#[derive(Clone, Copy, PartialEq, Eq, Structural, Debug)]
pub struct RestingOrder {
    pub order_id: OrderId,
    pub price: u64,
    pub qty: u32,
    pub side: IncomingSide,
    pub prev: Option<usize>,
    pub next: Option<usize>,
    /// Microseconds since the Unix epoch at which the order entered the book.
    pub ts: i64,
}

impl From<IncomingLimitOrder> for RestingOrder {
    /// The resting form of a limit order, unlinked; its time is stamped when
    /// the book takes it in.
    fn from(order: IncomingLimitOrder) -> (r: RestingOrder)
        ensures
            r == resting_of(order),
    {
        RestingOrder {
            order_id: order.order_id,
            price: order.price,
            qty: order.qty,
            side: order.side,
            prev: None,
            next: None,
            ts: 0,
        }
    }
}

impl vstd::std_specs::convert::FromSpecImpl<IncomingLimitOrder> for RestingOrder {
    open spec fn obeys_from_spec() -> bool {
        true
    }

    open spec fn from_spec(order: IncomingLimitOrder) -> RestingOrder {
        resting_of(order)
    }
}

/// The unlinked resting form of a limit order, with its time not yet stamped.
pub open spec fn resting_of(order: IncomingLimitOrder) -> RestingOrder {
    RestingOrder {
        order_id: order.order_id,
        price: order.price,
        qty: order.qty,
        side: order.side,
        prev: None,
        next: None,
        ts: 0,
    }
}

} // verus!
