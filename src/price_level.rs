//! One price of one side of the book: the ends of its FIFO chain of orders.
use vstd::prelude::*;

verus! {

/// The resting orders at one price, as the arena indices of the first and
/// last order of an intrusive doubly-linked list, and their number.
#[derive(Clone, Copy, PartialEq, Eq, Structural, Debug, Hash)]
pub struct PriceLevel {
    pub head: Option<usize>,
    pub tail: Option<usize>,
    pub total_orders: u64,
}

impl PriceLevel {
    /// A level with no order.
    pub open spec fn spec_empty() -> PriceLevel {
        PriceLevel { head: None, tail: None, total_orders: 0 }
    }

    /// A level with no order.
    pub fn empty() -> (r: PriceLevel)
        ensures
            r == Self::spec_empty(),
    {
        PriceLevel { head: None, tail: None, total_orders: 0 }
    }
}

impl Default for PriceLevel {
    fn default() -> (r: PriceLevel)
        ensures
            r == PriceLevel::spec_empty(),
    {
        PriceLevel::empty()
    }
}

} // verus!
