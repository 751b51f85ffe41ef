//! Prices, and the policy that orders each side of the book.
use vstd::prelude::*;
use std::collections::BTreeMap;
use crate::price_level::PriceLevel;
use crate::text::{decimal, u64_text};

verus! {

/// A price in ticks.
#[derive(Clone, Copy, PartialEq, Eq, Structural, Debug, Hash, PartialOrd, Ord)]
pub struct PriceKey(pub u64);

impl PriceKey {
    /// Decimal text of the price.
    pub fn to_string(&self) -> (r: String)
        ensures
            r@ == decimal(self.0 as nat),
    {
        u64_text(self.0)
    }
}

impl From<u64> for PriceKey {
    fn from(price: u64) -> (r: PriceKey)
        ensures
            r == PriceKey(price),
    {
        PriceKey(price)
    }
}

impl vstd::std_specs::convert::FromSpecImpl<u64> for PriceKey {
    open spec fn obeys_from_spec() -> bool {
        true
    }

    open spec fn from_spec(price: u64) -> PriceKey {
        PriceKey(price)
    }
}

/// Whether a price `a` comes before a price `b` on a side: higher first among
/// the bids, lower first among the asks.
pub open spec fn precedes(is_bid: bool, a: u64, b: u64) -> bool {
    if is_bid {
        a > b
    } else {
        a < b
    }
}

/// Whether `p` is the best price among `prices` on a side: the highest bid or
/// the lowest ask.
pub open spec fn is_best(is_bid: bool, p: u64, prices: Set<u64>) -> bool {
    &&& prices.contains(p)
    &&& forall|q: u64| #[trigger] prices.contains(q) && q != p ==> precedes(is_bid, p, q)
}

/// Whether a best price `best` lies beyond the limit `limit` of a taker on the
/// other side, so that matching must stop: below the limit for bids, above it
/// for asks.
pub open spec fn beyond_limit(is_bid: bool, best: u64, limit: u64) -> bool {
    if is_bid {
        best < limit
    } else {
        best > limit
    }
}

/// The ordering policy of one side of the book.
pub trait Side {
    /// Whether this is the bid side.
    spec fn spec_is_bid() -> bool;

    /// Whether this is the bid side.
    fn is_bid() -> (r: bool)
        ensures
            r == Self::spec_is_bid(),
    ;

    /// The price that a map key stands for.
    fn key_to_price(key: u64) -> (r: PriceKey)
        ensures
            r.0 == key,
    ;

    /// Whether matching must stop at a best price `best` for a taker whose
    /// limit is `limit`.
    fn compare_price(best: u64, limit: u64) -> (r: bool)
        ensures
            r == beyond_limit(Self::spec_is_bid(), best, limit),
    ;

    /// The entry of the best price of a side's levels, if there is one.
    fn best_entry(levels: &BTreeMap<u64, PriceLevel>) -> (r: Option<(u64, PriceLevel)>)
        ensures
            r is None <==> levels@.dom().is_empty(),
            r matches Some((p, l)) ==> is_best(Self::spec_is_bid(), p, levels@.dom())
                && levels@[p] == l,
    ;
}

/// The bid side: the highest price is the best.
pub struct Bids;

/// The ask side: the lowest price is the best.
pub struct Asks;

impl Side for Bids {
    open spec fn spec_is_bid() -> bool {
        true
    }

    fn is_bid() -> (r: bool) {
        true
    }

    fn key_to_price(key: u64) -> (r: PriceKey) {
        PriceKey(key)
    }

    fn compare_price(best: u64, limit: u64) -> (r: bool) {
        best < limit
    }

    fn best_entry(levels: &BTreeMap<u64, PriceLevel>) -> (r: Option<(u64, PriceLevel)>) {
        last_entry(levels)
    }
}

impl Side for Asks {
    open spec fn spec_is_bid() -> bool {
        false
    }

    fn is_bid() -> (r: bool) {
        false
    }

    fn key_to_price(key: u64) -> (r: PriceKey) {
        PriceKey(key)
    }

    fn compare_price(best: u64, limit: u64) -> (r: bool) {
        best > limit
    }

    fn best_entry(levels: &BTreeMap<u64, PriceLevel>) -> (r: Option<(u64, PriceLevel)>) {
        first_entry(levels)
    }
}

/// Relies on `BTreeMap::first_key_value`: the entry with the smallest key, or
/// `None` for an empty map.
#[verifier::external_body]
fn first_entry(levels: &BTreeMap<u64, PriceLevel>) -> (r: Option<(u64, PriceLevel)>)
    ensures
        r is None <==> levels@.dom().is_empty(),
        r matches Some((p, l)) ==> levels@.contains_key(p) && levels@[p] == l && forall|q: u64|
            #[trigger] levels@.contains_key(q) ==> p <= q,
{
    levels.first_key_value().map(|(p, l)| (*p, *l))
}

/// Relies on `BTreeMap::last_key_value`: the entry with the largest key, or
/// `None` for an empty map.
#[verifier::external_body]
fn last_entry(levels: &BTreeMap<u64, PriceLevel>) -> (r: Option<(u64, PriceLevel)>)
    ensures
        r is None <==> levels@.dom().is_empty(),
        r matches Some((p, l)) ==> levels@.contains_key(p) && levels@[p] == l && forall|q: u64|
            #[trigger] levels@.contains_key(q) ==> q <= p,
{
    levels.last_key_value().map(|(p, l)| (*p, *l))
}

} // verus!
