//! The match sequence: a taker's walk across the opposing side of the book,
//! one fill at a time.
use vstd::prelude::*;
use std::marker::PhantomData;
use crate::events::{BookEvent, MatchEvent};
use crate::order_book::{BookView, OrderBook};
use crate::orders::OrderId;
use crate::price_key::Side;

verus! {

/// A fill as the state sees it: the maker, the price and the quantity.
pub type Fill = (OrderId, u64, u32);

/// The fills of a taker with `remaining` open, and an optional limit,
/// against a side, in the order they come, with the book and the quantity
/// left open when matching stops.
pub open spec fn run_fills(v: BookView, is_bid: bool, limit: Option<u64>, remaining: u32) -> (
    Seq<Fill>,
    BookView,
    u32,
)
    decreases remaining,
{
    match v.next_fill(is_bid, limit, remaining) {
        None => (Seq::empty(), v, remaining),
        Some((maker, price, traded)) => {
            if traded == 0 || traded > remaining {
                (Seq::empty(), v, remaining)
            } else {
                let (rest, last, left) = run_fills(
                    v.filled(is_bid, price, traded),
                    is_bid,
                    limit,
                    (remaining - traded) as u32,
                );
                (seq![(maker, price, traded)] + rest, last, left)
            }
        },
    }
}

/// The total quantity of some fills.
pub open spec fn fills_qty(fills: Seq<Fill>) -> nat
    decreases fills.len(),
{
    if fills.len() == 0 {
        0
    } else {
        fills_qty(fills.drop_last()) + fills.last().2 as nat
    }
}

/// The quantity of some fills followed by others is the sum of both.
pub proof fn lemma_fills_qty_concat(a: Seq<Fill>, b: Seq<Fill>)
    ensures
        fills_qty(a + b) == fills_qty(a) + fills_qty(b),
    decreases b.len(),
{
    if b.len() == 0 {
        assert(a + b =~= a);
    } else {
        lemma_fills_qty_concat(a, b.drop_last());
        assert((a + b).drop_last() =~= a + b.drop_last());
    }
}

/// Quantity conservation: a fill trades the smaller of the taker's and the
/// maker's open quantities, and the fills of a walk add up to the taker's
/// quantity less what is left open, so never to more than the taker's
/// quantity.
pub proof fn lemma_quantity_conservation(v: BookView, is_bid: bool, limit: Option<u64>, remaining: u32)
    ensures
        v.next_fill(is_bid, limit, remaining) matches Some((maker, price, traded)) ==> {
            let open = v.orders[maker].qty;
            &&& maker == v.side(is_bid)[price][0]
            &&& traded == if remaining < open {
                remaining
            } else {
                open
            }
        },
        ({
            let (fills, last, left) = run_fills(v, is_bid, limit, remaining);
            &&& fills_qty(fills) + left == remaining
            &&& fills_qty(fills) <= remaining
        }),
    decreases remaining,
{
    match v.next_fill(is_bid, limit, remaining) {
        None => {},
        Some((maker, price, traded)) => {
            if traded == 0 || traded > remaining {
            } else {
                let w = v.filled(is_bid, price, traded);
                let left = (remaining - traded) as u32;
                lemma_quantity_conservation(w, is_bid, limit, left);
                let (rest, last, l2) = run_fills(w, is_bid, limit, left);
                lemma_fills_qty_concat(seq![(maker, price, traded)], rest);
                assert(fills_qty(seq![(maker, price, traded)]) == traded) by {
                    let one = seq![(maker, price, traded)];
                    assert(one.drop_last() =~= Seq::<Fill>::empty());
                    assert(fills_qty(one.drop_last()) == 0);
                    assert(one.last() == (maker, price, traded));
                }
            }
        },
    }
}

/// Whether `e` reports the fill `f` of the taker `taker`.
pub open spec fn reports_fill(e: BookEvent, f: Fill, taker: OrderId) -> bool {
    e matches BookEvent::Match(m) && m.maker == f.0 && m.taker == taker && m.price == f.1 && m.qty
        == f.2 && m.ts >= 0
}

/// Whether the events report the fills, one for one and in order.
pub open spec fn reports_fills(events: Seq<BookEvent>, fills: Seq<Fill>, taker: OrderId) -> bool {
    &&& events.len() == fills.len()
    &&& forall|i: int| 0 <= i < events.len() ==> #[trigger] reports_fill(events[i], fills[i], taker)
}

/// A taker's walk across the side `S` of the book.
pub struct MatchIter<S: Side> {
    order_id: OrderId,
    remaining: u32,
    price_limit: Option<u64>,
    side: PhantomData<S>,
}

impl<S: Side> MatchIter<S> {
    /// The taker's id.
    pub closed spec fn taker(&self) -> OrderId {
        self.order_id
    }

    /// The taker's open quantity.
    pub closed spec fn spec_remaining(&self) -> u32 {
        self.remaining
    }

    /// The taker's price limit, none for a market order.
    pub closed spec fn limit(&self) -> Option<u64> {
        self.price_limit
    }

    /// A walk for the taker `order_id` with `remaining` open, stopping at
    /// prices beyond `price_limit` if there is one.
    pub fn new(order_id: OrderId, remaining: u32, price_limit: Option<u64>) -> (r: Self)
        ensures
            r.taker() == order_id,
            r.spec_remaining() == remaining,
            r.limit() == price_limit,
    {
        MatchIter { order_id, remaining, price_limit, side: PhantomData }
    }

    /// The taker's open quantity.
    pub fn remaining(&self) -> (r: u32)
        ensures
            r == self.spec_remaining(),
    {
        self.remaining
    }

    /// The next fill, if matching goes on: the maker at the head of the best
    /// level trades the smaller of its and the taker's open quantities at its
    /// price. None, with nothing changed, once the taker is filled, the side
    /// is empty or its best price lies beyond the limit.
    pub fn next(&mut self, book: &mut OrderBook) -> (r: Option<BookEvent>)
        requires
            old(book).wf(),
        ensures
            final(book).wf(),
            final(self).taker() == old(self).taker(),
            final(self).limit() == old(self).limit(),
            match old(book)@.next_fill(S::spec_is_bid(), old(self).limit(), old(self).spec_remaining()) {
                None => r is None && *final(book) == *old(book) && final(self).spec_remaining() == old(
                    self,
                ).spec_remaining(),
                Some(f) => {
                    &&& r matches Some(e) && reports_fill(e, f, old(self).taker())
                    &&& final(book)@ == old(book)@.filled(S::spec_is_bid(), f.1, f.2)
                    &&& f.2 > 0
                    &&& final(self).spec_remaining() == old(self).spec_remaining() - f.2
                    &&& final(book).arena_len() <= old(book).arena_len()
                    &&& final(book)@.side(!S::spec_is_bid()) == old(book)@.side(!S::spec_is_bid())
                    &&& final(book)@.side(S::spec_is_bid()).dom().subset_of(
                        old(book)@.side(S::spec_is_bid()).dom(),
                    )
                    &&& final(book)@.orders.dom().subset_of(old(book)@.orders.dom())
                    &&& old(book).chain_at(S::spec_is_bid(), f.1)[0] == old(book).index()[f.0]
                    &&& old(book)@.orders[f.0].qty <= f.2 ==> final(book).removed_from(
                        *old(book),
                        f.0,
                    )
                    &&& old(book)@.orders[f.0].qty > f.2 ==> final(book).reduced_from(
                        *old(book),
                        f.0,
                        (old(book)@.orders[f.0].qty - f.2) as u32,
                    )
                },
            },
    {
        match book.match_step::<S>(self.order_id, self.remaining, self.price_limit) {
            None => None,
            Some(e) => {
                self.remaining = self.remaining - e.qty;
                Some(BookEvent::Match(e))
            },
        }
    }

    /// Runs the walk until it stops and returns its fills in order.
    pub fn collect_fills(&mut self, book: &mut OrderBook) -> (r: Vec<BookEvent>)
        requires
            old(book).wf(),
        ensures
            final(book).wf(),
            final(self).taker() == old(self).taker(),
            final(self).limit() == old(self).limit(),
            ({
                let (fills, last, left) = run_fills(
                    old(book)@,
                    S::spec_is_bid(),
                    old(self).limit(),
                    old(self).spec_remaining(),
                );
                &&& reports_fills(r@, fills, old(self).taker())
                &&& final(book)@ == last
                &&& final(self).spec_remaining() == left
                &&& fills_qty(fills) + left == old(self).spec_remaining()
            }),
            final(book)@.next_fill(S::spec_is_bid(), old(self).limit(), final(self).spec_remaining())
                is None,
            final(book).arena_len() <= old(book).arena_len(),
            final(book)@.side(!S::spec_is_bid()) == old(book)@.side(!S::spec_is_bid()),
            final(book)@.side(S::spec_is_bid()).dom().subset_of(old(book)@.side(S::spec_is_bid()).dom()),
            final(book)@.orders.dom().subset_of(old(book)@.orders.dom()),
    {
        let ghost v0 = book@;
        let ghost rem0 = self.remaining;
        let ghost is_bid = S::spec_is_bid();
        let ghost limit = self.price_limit;
        let ghost mut done: Seq<Fill> = Seq::empty();
        let mut out: Vec<BookEvent> = Vec::new();
        let mut finished = false;
        while !finished
            invariant
                book.wf(),
                self.taker() == old(self).taker(),
                self.limit() == limit,
                limit == old(self).limit(),
                is_bid == S::spec_is_bid(),
                run_fills(v0, is_bid, limit, rem0) == ({
                    let (rest, last, left) = run_fills(book@, is_bid, limit, self.spec_remaining());
                    (done + rest, last, left)
                }),
                reports_fills(out@, done, self.taker()),
                fills_qty(done) + self.spec_remaining() == rem0,
                finished ==> book@.next_fill(is_bid, limit, self.spec_remaining()) is None,
                book.arena_len() <= old(book).arena_len(),
                book@.side(!is_bid) == v0.side(!is_bid),
                book@.side(is_bid).dom().subset_of(v0.side(is_bid).dom()),
                book@.orders.dom().subset_of(v0.orders.dom()),
            decreases self.spec_remaining() as int + (if finished {
                0int
            } else {
                1int
            }),
        {
            let ghost v = book@;
            let ghost rem = self.remaining;
            match self.next(book) {
                None => {
                    finished = true;
                },
                Some(e) => {
                    proof {
                        let f = v.next_fill(is_bid, limit, rem).unwrap();
                        let (rest, last, left) = run_fills(book@, is_bid, limit, self.spec_remaining());
                        assert(run_fills(v, is_bid, limit, rem) == (seq![f] + rest, last, left));
                        assert(done.push(f) + rest =~= done + (seq![f] + rest));
                        assert(done.push(f).drop_last() =~= done);
                        done = done.push(f);
                    }
                    out.push(e);
                    proof {
                        assert forall|i: int| 0 <= i < out@.len() implies #[trigger] reports_fill(
                            out@[i],
                            done[i],
                            self.taker(),
                        ) by {
                            if i < out@.len() - 1 {
                                assert(reports_fill(out@[i], done[i], self.taker()));
                            }
                        }
                    }
                },
            }
        }
        proof {
            assert(run_fills(book@, is_bid, limit, self.spec_remaining()) == (
                Seq::<Fill>::empty(),
                book@,
                self.spec_remaining(),
            ));
            assert(done + Seq::<Fill>::empty() =~= done);
        }
        out
    }
}

} // verus!
