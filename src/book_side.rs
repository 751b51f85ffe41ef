//! One side of the book: an ordered map from price to price level.
use vstd::prelude::*;
use std::collections::BTreeMap;
use std::marker::PhantomData;
use crate::price_key::{is_best, PriceKey, Side};
use crate::price_level::PriceLevel;
use crate::text::{decimal, u64_text};

verus! {

/// The prices of a side in priority order: the best first, then the best of
/// the rest, and so on.
pub open spec fn priority_prices(is_bid: bool, prices: Set<u64>) -> Seq<u64>
    decreases prices.len(),
{
    if prices.finite() && exists|p: u64| is_best(is_bid, p, prices) {
        let p = choose|p: u64| is_best(is_bid, p, prices);
        seq![p] + priority_prices(is_bid, prices.remove(p))
    } else {
        Seq::empty()
    }
}

/// A side has at most one best price.
pub proof fn lemma_best_unique(is_bid: bool, p: u64, q: u64, prices: Set<u64>)
    requires
        is_best(is_bid, p, prices),
        is_best(is_bid, q, prices),
    ensures
        p == q,
{
    if p != q {
        assert(prices.contains(q) && q != p);
        assert(prices.contains(p) && p != q);
    }
}

/// One line of a side's listing: the price as `PriceKey(<price>)` and the
/// level's number of orders.
pub open spec fn level_line(price: u64, total_orders: u64) -> Seq<char> {
    "Price: PriceKey("@ + decimal(price as nat) + ") | Orders: "@ + decimal(total_orders as nat)
        + "\n"@
}

/// The listing of the levels at the given prices, in that order.
pub open spec fn levels_text(prices: Seq<u64>, levels: Map<u64, PriceLevel>) -> Seq<char>
    decreases prices.len(),
{
    if prices.len() == 0 {
        Seq::empty()
    } else {
        levels_text(prices.drop_last(), levels) + level_line(
            prices.last(),
            levels[prices.last()].total_orders,
        )
    }
}

/// The price levels of one side, keyed by price.
pub struct BookSide<S: Side> {
    pub levels: BTreeMap<u64, PriceLevel>,
    pub policy: PhantomData<S>,
}

impl<S: Side> View for BookSide<S> {
    type V = Map<u64, PriceLevel>;

    open spec fn view(&self) -> Map<u64, PriceLevel> {
        self.levels@
    }
}

impl<S: Side> BookSide<S> {
    /// A side with no level.
    pub fn new() -> (r: Self)
        ensures
            r@ == Map::<u64, PriceLevel>::empty(),
    {
        BookSide { levels: BTreeMap::new(), policy: PhantomData }
    }

    /// The level at `price`, created empty if there is none.
    pub fn level_mut(&mut self, price: PriceKey) -> (r: &mut PriceLevel)
        ensures
            *r == (if old(self)@.contains_key(price.0) {
                old(self)@[price.0]
            } else {
                PriceLevel::spec_empty()
            }),
            final(self)@ == old(self)@.insert(price.0, *final(r)),
    {
        if !self.levels.contains_key(&price.0) {
            self.levels.insert(price.0, PriceLevel::empty());
        }
        level_entry_mut(&mut self.levels, price.0)
    }

    /// The level at `price`, if there is one.
    pub fn get(&self, price: u64) -> (r: Option<PriceLevel>)
        ensures
            r == (if self@.contains_key(price) {
                Some(self@[price])
            } else {
                None::<PriceLevel>
            }),
    {
        match self.levels.get(&price) {
            Some(level) => Some(*level),
            None => None,
        }
    }

    /// Replaces or adds the level at `price`.
    pub fn set(&mut self, price: u64, level: PriceLevel)
        ensures
            final(self)@ == old(self)@.insert(price, level),
    {
        self.levels.insert(price, level);
    }

    /// Erases the level at `price`.
    pub fn remove(&mut self, price: u64)
        ensures
            final(self)@ == old(self)@.remove(price),
    {
        self.levels.remove(&price);
    }

    /// The best price and its level, if the side has any level.
    pub fn best(&self) -> (r: Option<(u64, PriceLevel)>)
        ensures
            r is None <==> self@.dom().is_empty(),
            r matches Some((p, l)) ==> is_best(S::spec_is_bid(), p, self@.dom()) && self@[p] == l,
    {
        S::best_entry(&self.levels)
    }

    /// The number of levels.
    pub fn len(&self) -> (r: usize)
        ensures
            r == self@.len(),
    {
        self.levels.len()
    }

    /// Whether the side has no level.
    pub fn is_empty(&self) -> (r: bool)
        ensures
            r == (self@.len() == 0),
    {
        self.levels.len() == 0
    }

    /// The prices of the side in priority order.
    pub fn prices(&self) -> (r: Vec<u64>)
        ensures
            r@ == priority_prices(S::spec_is_bid(), self@.dom()),
    {
        let mut rest = BookSide::<S> { levels: self.levels.clone(), policy: PhantomData };
        let mut out: Vec<u64> = Vec::new();
        while !rest.is_empty()
            invariant
                rest@.dom().finite(),
                out@ + priority_prices(S::spec_is_bid(), rest@.dom()) == priority_prices(
                    S::spec_is_bid(),
                    self@.dom(),
                ),
            decreases rest@.len(),
        {
            let ghost before = rest@.dom();
            match rest.best() {
                Some((p, _)) => {
                    proof {
                        let c = choose|c: u64| is_best(S::spec_is_bid(), c, before);
                        lemma_best_unique(S::spec_is_bid(), p, c, before);
                        assert(priority_prices(S::spec_is_bid(), before) == seq![p]
                            + priority_prices(S::spec_is_bid(), before.remove(p)));
                        assert(rest@.remove(p).dom() == before.remove(p));
                    }
                    rest.remove(p);
                    out.push(p);
                },
                None => {},
            }
        }
        proof {
            assert(rest@.dom() == Set::<u64>::empty());
            assert(out@ + priority_prices(S::spec_is_bid(), rest@.dom()) == out@);
        }
        out
    }

    /// The listing of the levels in priority order, one line per price with
    /// its number of orders.
    pub fn print_levels(&self) -> (r: String)
        ensures
            r@ == levels_text(priority_prices(S::spec_is_bid(), self@.dom()), self@),
    {
        let prices = self.prices();
        let mut out = String::new();
        let mut i: usize = 0;
        while i < prices.len()
            invariant
                i <= prices@.len(),
                prices@ == priority_prices(S::spec_is_bid(), self@.dom()),
                out@ == levels_text(prices@.subrange(0, i as int), self@),
            decreases prices@.len() - i,
        {
            let p = prices[i];
            proof {
                lemma_priority_prices_members(S::spec_is_bid(), self@.dom());
                assert(self@.dom().contains(prices@[i as int]));
            }
            let level = self.get(p);
            let n = match level {
                Some(l) => l.total_orders,
                None => 0,
            };
            proof {
                reveal_strlit("Price: PriceKey(");
                reveal_strlit(") | Orders: ");
                reveal_strlit("\n");
                assert(prices@.subrange(0, i + 1).drop_last() == prices@.subrange(0, i as int));
            }
            out.append("Price: PriceKey(");
            out.append(u64_text(p).as_str());
            out.append(") | Orders: ");
            out.append(u64_text(n).as_str());
            out.append("\n");
            i = i + 1;
        }
        proof {
            assert(prices@.subrange(0, i as int) == prices@);
        }
        out
    }
}

/// Every price listed by `priority_prices` is one of the side's prices.
pub proof fn lemma_priority_prices_members(is_bid: bool, prices: Set<u64>)
    ensures
        forall|i: int|
            0 <= i < priority_prices(is_bid, prices).len() ==> #[trigger] prices.contains(
                priority_prices(is_bid, prices)[i],
            ),
    decreases prices.len(),
{
    if prices.finite() && exists|p: u64| is_best(is_bid, p, prices) {
        let p = choose|p: u64| is_best(is_bid, p, prices);
        lemma_priority_prices_members(is_bid, prices.remove(p));
        let s = priority_prices(is_bid, prices);
        assert forall|i: int| 0 <= i < s.len() implies #[trigger] prices.contains(s[i]) by {
            if i > 0 {
                assert(s[i] == priority_prices(is_bid, prices.remove(p))[i - 1]);
            }
        }
    }
}

/// Relies on `BTreeMap::get_mut`: a mutable reference to the value at a key
/// that the map holds.
#[verifier::external_body]
fn level_entry_mut(levels: &mut BTreeMap<u64, PriceLevel>, price: u64) -> (r: &mut PriceLevel)
    requires
        old(levels)@.contains_key(price),
    ensures
        *r == old(levels)@[price],
        final(levels)@ == old(levels)@.insert(price, *final(r)),
{
    levels.get_mut(&price).unwrap()
}

} // verus!
