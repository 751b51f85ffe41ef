//! The matching engine: one inbound order in, its book events out.
use vstd::prelude::*;
use crate::events::BookEvent;
use crate::match_iter::{reports_fills, run_fills, Fill};
use crate::order_book::{book_checksum, BookView, OrderBook};
use crate::orders::{
    IncomingCancelOrder, IncomingLimitOrder, IncomingMarketOrder, IncomingOrder, IncomingSide,
    OrderId, RestingOrder,
};

verus! {

/// The fills of a limit order against the other side, the book after them,
/// and the quantity left open.
pub open spec fn limit_fills(v: BookView, o: IncomingLimitOrder) -> (Seq<Fill>, BookView, u32) {
    run_fills(v, o.side == IncomingSide::Sell, Some(o.price), o.qty)
}

/// The fills of a market order against the other side, the book after them,
/// and the quantity left open, which is dropped.
pub open spec fn market_fills(v: BookView, o: IncomingMarketOrder) -> (Seq<Fill>, BookView, u32) {
    run_fills(v, o.side == IncomingSide::Sell, None, o.qty)
}

/// The book after a limit order: its fills, then what is left open rests at
/// its price on its own side.
pub open spec fn after_limit(v: BookView, o: IncomingLimitOrder) -> BookView {
    let (fills, w, left) = limit_fills(v, o);
    if left > 0 {
        w.inserted(o.side == IncomingSide::Buy, o.order_id, o.price, left)
    } else {
        w
    }
}

/// The book after a cancel: the order leaves if it rests.
pub open spec fn after_cancel(v: BookView, o: IncomingCancelOrder) -> BookView {
    if v.orders.contains_key(o.order_id) {
        v.cancelled(o.order_id)
    } else {
        v
    }
}

/// The book after any inbound order.
pub open spec fn after_order(v: BookView, order: IncomingOrder) -> BookView {
    match order {
        IncomingOrder::InboundLimit(o) => after_limit(v, o),
        IncomingOrder::InboundMarket(o) => market_fills(v, o).1,
        IncomingOrder::InboundCancel(o) => after_cancel(v, o),
    }
}

/// The book after a stream of inbound orders, taken in order from an empty
/// book.
pub open spec fn replay(orders: Seq<IncomingOrder>) -> BookView
    decreases orders.len(),
{
    if orders.len() == 0 {
        BookView::empty()
    } else {
        after_order(replay(orders.drop_last()), orders.last())
    }
}

/// Whether `events` are those of a limit order: its fills in order, then an
/// insert of what is left open, if anything is.
pub open spec fn reports_limit(events: Seq<BookEvent>, v: BookView, o: IncomingLimitOrder) -> bool {
    let (fills, w, left) = limit_fills(v, o);
    if left > 0 {
        &&& events.len() == fills.len() + 1
        &&& reports_fills(events.drop_last(), fills, o.order_id)
        &&& events.last() matches BookEvent::Insert(e) && e.order_id == o.order_id && e.price
            == o.price && e.side == o.side && e.qty == left && e.ts >= 0
    } else {
        reports_fills(events, fills, o.order_id)
    }
}

/// Whether `events` are those of a cancel: one cancel event with the open
/// quantity if the order rests, none otherwise.
pub open spec fn reports_cancel(events: Seq<BookEvent>, v: BookView, o: IncomingCancelOrder) -> bool {
    if v.orders.contains_key(o.order_id) {
        &&& events.len() == 1
        &&& events[0] matches BookEvent::Cancel(e) && e.order_id == o.order_id && e.qty
            == v.orders[o.order_id].qty && e.ts >= 0
    } else {
        events.len() == 0
    }
}

/// Whether `events` are those of any inbound order.
pub open spec fn reports_order(events: Seq<BookEvent>, v: BookView, order: IncomingOrder) -> bool {
    match order {
        IncomingOrder::InboundLimit(o) => reports_limit(events, v, o),
        IncomingOrder::InboundMarket(o) => reports_fills(events, market_fills(v, o).0, o.order_id),
        IncomingOrder::InboundCancel(o) => reports_cancel(events, v, o),
    }
}

/// The engine: a book that matching never leaves crossed.
pub struct Engine {
    book: OrderBook,
    /// The inbound orders taken so far, oldest first.
    taken: Ghost<Seq<IncomingOrder>>,
}

impl Default for Engine {
    /// An engine with an empty book sized for 262144 orders.
    fn default() -> (r: Engine)
        ensures
            r.wf(),
            r@ == BookView::empty(),
            r.history() == Seq::<IncomingOrder>::empty(),
    {
        Engine::new(262144)
    }
}

impl View for Engine {
    type V = BookView;

    closed spec fn view(&self) -> BookView {
        self.book@
    }
}

impl Engine {
    /// The engine's invariant: the book's, every bid below every ask, and
    /// the book is what the orders taken so far make of an empty one.
    pub closed spec fn wf(&self) -> bool {
        &&& self.book.wf()
        &&& self.book@.not_crossed()
        &&& self.book@ == replay(self.taken@)
    }

    /// The inbound orders taken so far, oldest first.
    pub closed spec fn history(&self) -> Seq<IncomingOrder> {
        self.taken@
    }

    /// The number of resting orders held in the book's arena.
    pub closed spec fn arena_len(&self) -> nat {
        self.book.arena_len()
    }

    /// Whether the engine can take `order`: a limit order's id must not rest
    /// already, and the arena must have room for it.
    pub open spec fn accepts(&self, order: IncomingOrder) -> bool {
        order matches IncomingOrder::InboundLimit(o) ==> !self@.orders.contains_key(o.order_id)
            && self@.orders.len() < usize::MAX
    }

    /// An engine with an empty book sized for `capacity` orders.
    pub fn new(capacity: usize) -> (r: Engine)
        ensures
            r.wf(),
            r@ == BookView::empty(),
            r.arena_len() == 0,
            r.history() == Seq::<IncomingOrder>::empty(),
    {
        Engine { book: OrderBook::new(capacity), taken: Ghost(Seq::empty()) }
    }

    /// The book.
    pub fn get_book(&self) -> (r: &OrderBook)
        ensures
            r@ == self@,
            r.arena_len() == self.arena_len(),
            self.wf() ==> r.wf(),
    {
        &self.book
    }

    /// Runs one inbound order and returns its events: the fills in the order
    /// they happen, then at most one insert or cancel.
    pub fn match_order(&mut self, order: IncomingOrder) -> (r: Vec<BookEvent>)
        requires
            old(self).wf(),
            old(self).accepts(order),
        ensures
            final(self).wf(),
            final(self)@.not_crossed(),
            final(self)@ == after_order(old(self)@, order),
            reports_order(r@, old(self)@, order),
            final(self).history() == old(self).history().push(order),
    {
        match order {
            IncomingOrder::InboundLimit(limit) => self.match_limit(limit),
            IncomingOrder::InboundMarket(market) => self.match_market(market),
            IncomingOrder::InboundCancel(cancel) => self.match_cancel(cancel),
        }
    }

    /// Runs a limit order: it trades against the other side up to its price,
    /// then what is left open rests at its price.
    pub fn match_limit(&mut self, order: IncomingLimitOrder) -> (r: Vec<BookEvent>)
        requires
            old(self).wf(),
            !old(self)@.orders.contains_key(order.order_id),
            old(self)@.orders.len() < usize::MAX,
        ensures
            final(self).wf(),
            final(self)@ == after_limit(old(self)@, order),
            final(self)@.not_crossed(),
            reports_limit(r@, old(self)@, order),
            final(self).history() == old(self).history().push(IncomingOrder::InboundLimit(order)),
    {
        let ghost v0 = self.book@;
        proof {
            self.book.lemma_arena_len();
        }
        self.taken = Ghost(self.taken@.push(IncomingOrder::InboundLimit(order)));
        proof {
            assert(self.taken@.drop_last() =~= old(self).taken@);
        }
        match order.side {
            IncomingSide::Buy => {
                let mut iter = self.book.match_limit_buy(&order);
                let mut fill = iter.collect_fills(&mut self.book);
                let remaining = iter.remaining();
                if remaining > 0 {
                    proof {
                        self.lemma_stopped_beyond(false, order.price, remaining);
                        self.book.lemma_arena_len();
                        Self::lemma_rest_uncrossed(v0, self.book@, false, order.order_id, order.price, remaining);
                    }
                    let event = self.book.insert_bids(RestingOrder::from(order), remaining);
                    proof {
                        assert(fill@.push(event).drop_last() == fill@);
                    }
                    fill.push(event);
                } else {
                    proof {
                        self.lemma_fills_uncrossed(v0, false);
                    }
                }
                fill
            },
            IncomingSide::Sell => {
                let mut iter = self.book.match_limit_sell(&order);
                let mut fill = iter.collect_fills(&mut self.book);
                let remaining = iter.remaining();
                if remaining > 0 {
                    proof {
                        self.lemma_stopped_beyond(true, order.price, remaining);
                        self.book.lemma_arena_len();
                        Self::lemma_rest_uncrossed(v0, self.book@, true, order.order_id, order.price, remaining);
                    }
                    let event = self.book.insert_asks(RestingOrder::from(order), remaining);
                    proof {
                        assert(fill@.push(event).drop_last() == fill@);
                    }
                    fill.push(event);
                } else {
                    proof {
                        self.lemma_fills_uncrossed(v0, true);
                    }
                }
                fill
            },
        }
    }

    /// Runs a market order: it trades against the other side until it is
    /// filled or the side is empty; what is left open is dropped.
    pub fn match_market(&mut self, order: IncomingMarketOrder) -> (r: Vec<BookEvent>)
        requires
            old(self).wf(),
        ensures
            final(self).wf(),
            final(self)@ == market_fills(old(self)@, order).1,
            final(self)@.not_crossed(),
            reports_fills(r@, market_fills(old(self)@, order).0, order.order_id),
            final(self).history() == old(self).history().push(IncomingOrder::InboundMarket(order)),
    {
        let ghost v0 = self.book@;
        self.taken = Ghost(self.taken@.push(IncomingOrder::InboundMarket(order)));
        proof {
            assert(self.taken@.drop_last() =~= old(self).taken@);
        }
        match order.side {
            IncomingSide::Buy => {
                let mut iter = self.book.match_market_buy(&order);
                let fill = iter.collect_fills(&mut self.book);
                proof {
                    self.lemma_fills_uncrossed(v0, false);
                }
                fill
            },
            IncomingSide::Sell => {
                let mut iter = self.book.match_market_sell(&order);
                let fill = iter.collect_fills(&mut self.book);
                proof {
                    self.lemma_fills_uncrossed(v0, true);
                }
                fill
            },
        }
    }

    /// Runs a cancel: the order leaves the book if it rests.
    pub fn match_cancel(&mut self, order: IncomingCancelOrder) -> (r: Vec<BookEvent>)
        requires
            old(self).wf(),
        ensures
            final(self).wf(),
            final(self)@ == after_cancel(old(self)@, order),
            reports_cancel(r@, old(self)@, order),
            final(self).history() == old(self).history().push(IncomingOrder::InboundCancel(order)),
    {
        let ghost v0 = self.book@;
        self.taken = Ghost(self.taken@.push(IncomingOrder::InboundCancel(order)));
        proof {
            assert(self.taken@.drop_last() =~= old(self).taken@);
        }
        proof {
            if v0.orders.contains_key(order.order_id) {
                self.book.lemma_cancelled_sides(order.order_id);
            }
        }
        let r = self.book.cancel_order(order.order_id);
        proof {
            Self::lemma_shrunk_uncrossed(v0, self.book@);
        }
        r
    }

    /// Runs one inbound order if the engine can take it, as `match_order`
    /// does; otherwise returns `None` and leaves the engine as it was. A
    /// limit order whose id already rests is refused.
    pub fn process(&mut self, order: IncomingOrder) -> (r: Option<Vec<BookEvent>>)
        requires
            old(self).wf(),
        ensures
            final(self).wf(),
            old(self).accepts(order) ==> (r matches Some(events) && reports_order(
                events@,
                old(self)@,
                order,
            )),
            old(self).accepts(order) ==> final(self)@ == after_order(old(self)@, order)
                && final(self).history() == old(self).history().push(order),
            !old(self).accepts(order) ==> r is None && *final(self) == *old(self),
    {
        let ok = match order {
            IncomingOrder::InboundLimit(o) => {
                self.book.get_index(o.order_id).is_none() && self.book.len() < usize::MAX
            },
            _ => true,
        };
        if ok {
            Some(self.match_order(order))
        } else {
            None
        }
    }

    /// The checksum of the book, which the orders taken so far determine.
    pub fn checksum(&self) -> (r: u64)
        requires
            self.wf(),
        ensures
            r == book_checksum(self@),
            r == book_checksum(replay(self.history())),
    {
        self.book.checksum()
    }

    /// Checksum stability: two engines that have taken the same stream of
    /// inbound orders hold the same book, so their checksums agree.
    pub proof fn lemma_checksum_stability(a: &Engine, b: &Engine)
        requires
            a.wf(),
            b.wf(),
            a.history() == b.history(),
        ensures
            a@ == b@,
            book_checksum(a@) == book_checksum(b@),
    {
    }

    /// A book whose sides only lost prices stays uncrossed.
    proof fn lemma_shrunk_uncrossed(v0: BookView, v: BookView)
        requires
            v0.not_crossed(),
            v.bids.dom().subset_of(v0.bids.dom()),
            v.asks.dom().subset_of(v0.asks.dom()),
        ensures
            v.not_crossed(),
    {
        assert forall|b: u64, a: u64| #[trigger] v.bids.contains_key(b) && #[trigger] v.asks.contains_key(
            a,
        ) implies b < a by {
            assert(v0.bids.contains_key(b) && v0.asks.contains_key(a));
        }
    }

    /// Fills that only take from one side leave the book uncrossed.
    proof fn lemma_fills_uncrossed(&self, v0: BookView, is_bid: bool)
        requires
            v0.not_crossed(),
            self.book@.side(!is_bid) == v0.side(!is_bid),
            self.book@.side(is_bid).dom().subset_of(v0.side(is_bid).dom()),
        ensures
            self.book@.not_crossed(),
    {
        Self::lemma_shrunk_uncrossed(v0, self.book@);
    }

    /// Once matching stops short of filling a taker with limit `limit`, every
    /// price left on the side it walked lies beyond that limit.
    proof fn lemma_stopped_beyond(&self, is_bid: bool, limit: u64, rem: u32)
        requires
            self.book.wf(),
            rem > 0,
            self.book@.next_fill(is_bid, Some(limit), rem) is None,
        ensures
            forall|p: u64| #[trigger]
                self.book@.side(is_bid).contains_key(p) ==> crate::price_key::beyond_limit(
                    is_bid,
                    p,
                    limit,
                ),
    {
        let v = self.book@;
        if !v.side(is_bid).dom().is_empty() {
            self.book.lemma_best_of_book(is_bid);
            let best = v.best_price(is_bid);
            assert forall|p: u64| #[trigger] v.side(is_bid).contains_key(p) implies crate::price_key::beyond_limit(
                is_bid,
                p,
                limit,
            ) by {
                if p != best {
                    assert(v.side(is_bid).dom().contains(p));
                }
            }
        }
    }

    /// Resting a taker's remainder at its limit, on the side other than the
    /// one it walked, after every price left there lies beyond that limit,
    /// leaves the book uncrossed.
    proof fn lemma_rest_uncrossed(v0: BookView, w: BookView, is_bid: bool, id: OrderId, limit: u64, qty: u32)
        requires
            v0.not_crossed(),
            w.side(!is_bid) == v0.side(!is_bid),
            w.side(is_bid).dom().subset_of(v0.side(is_bid).dom()),
            forall|p: u64| #[trigger]
                w.side(is_bid).contains_key(p) ==> crate::price_key::beyond_limit(is_bid, p, limit),
        ensures
            w.inserted(!is_bid, id, limit, qty).not_crossed(),
    {
        let v = w.inserted(!is_bid, id, limit, qty);
        assert forall|b: u64, a: u64| #[trigger] v.bids.contains_key(b) && #[trigger] v.asks.contains_key(
            a,
        ) implies b < a by {
            if is_bid {
                assert(w.bids.contains_key(b));
                if a != limit {
                    assert(v0.asks.contains_key(a));
                    assert(v0.bids.contains_key(b));
                }
            } else {
                assert(w.asks.contains_key(a));
                if b != limit {
                    assert(v0.asks.contains_key(a));
                    assert(v0.bids.contains_key(b));
                }
            }
        }
    }
}

} // verus!
