//! The order book: both sides, the arena of resting orders and the index from
//! order id to arena key.
use vstd::prelude::*;
use slab::Slab;
use rustc_hash::FxHashMap;
use crate::arena::{
    arena_entry_mut, arena_get, arena_insert, arena_len, arena_lookup, arena_remove, arena_set, arena_with_capacity,
    slab_cells,
};
use std::collections::hash_map::DefaultHasher;
use std::hash::Hasher;
use vstd::std_specs::hash::DefaultHasherAdditionalSpecFns;
use crate::book_side::{levels_text, lemma_priority_prices_members, priority_prices, BookSide};
use crate::clock::now_micros;
use crate::events::{BookEvent, CancelEvent, InsertEvent, MatchEvent};
use crate::id_index::{index_get, index_insert, index_remove, index_with_capacity};
use crate::match_iter::MatchIter;
use crate::orders::{IncomingLimitOrder, IncomingMarketOrder, IncomingSide, OrderId, RestingOrder};
use crate::price_key::{beyond_limit, is_best, Asks, Bids, PriceKey, Side};
use crate::price_level::PriceLevel;

verus! {

/// The side of the orders that rest among the bids (`true`) or the asks.
pub open spec fn side_of(is_bid: bool) -> IncomingSide {
    if is_bid {
        IncomingSide::Buy
    } else {
        IncomingSide::Sell
    }
}

/// What the book holds of one resting order besides its place in its level.
#[derive(Clone, Copy, PartialEq, Eq, Structural, Debug)]
pub struct OrderInfo {
    pub price: u64,
    pub qty: u32,
    pub side: IncomingSide,
}

/// The parts of a resting order that the book's state is made of.
pub open spec fn info_of(o: RestingOrder) -> OrderInfo {
    OrderInfo { price: o.price, qty: o.qty, side: o.side }
}

/// The state of a book: for each side, the order ids resting at each price
/// from oldest to newest, and what each resting order holds.
pub struct BookView {
    pub bids: Map<u64, Seq<OrderId>>,
    pub asks: Map<u64, Seq<OrderId>>,
    pub orders: Map<OrderId, OrderInfo>,
}

impl BookView {
    /// The book with no order.
    pub open spec fn empty() -> BookView {
        BookView { bids: Map::empty(), asks: Map::empty(), orders: Map::empty() }
    }

    /// The levels of the bids (`true`) or of the asks.
    pub open spec fn side(self, is_bid: bool) -> Map<u64, Seq<OrderId>> {
        if is_bid {
            self.bids
        } else {
            self.asks
        }
    }

    /// The book with the levels of one side replaced.
    pub open spec fn with_side(self, is_bid: bool, levels: Map<u64, Seq<OrderId>>) -> BookView {
        if is_bid {
            BookView { bids: levels, asks: self.asks, orders: self.orders }
        } else {
            BookView { bids: self.bids, asks: levels, orders: self.orders }
        }
    }

    /// The order ids at `price` on a side, none if there is no such level.
    pub open spec fn queue(self, is_bid: bool, price: u64) -> Seq<OrderId> {
        if self.side(is_bid).contains_key(price) {
            self.side(is_bid)[price]
        } else {
            Seq::empty()
        }
    }

    /// The shape of a book: every level holds some orders, none twice, each
    /// resting at that level's price on that side with some quantity open;
    /// and every resting order is in the level of its side and price.
    pub open spec fn wf(self) -> bool {
        &&& forall|b: bool, p: u64| #[trigger]
            self.side(b).contains_key(p) ==> self.side(b)[p].len() > 0
                && self.side(b)[p].no_duplicates()
        &&& forall|b: bool, p: u64, j: int|
            self.side(b).contains_key(p) && 0 <= j < self.side(b)[p].len() ==> {
                let id = #[trigger] self.side(b)[p][j];
                &&& self.orders.contains_key(id)
                &&& self.orders[id].price == p
                &&& self.orders[id].side == side_of(b)
                &&& self.orders[id].qty > 0
            }
        &&& forall|id: OrderId| #[trigger]
            self.orders.contains_key(id) ==> {
                let o = self.orders[id];
                let b = o.side == IncomingSide::Buy;
                self.side(b).contains_key(o.price) && self.side(b)[o.price].contains(id)
            }
    }

    /// Every bid price lies below every ask price.
    pub open spec fn not_crossed(self) -> bool {
        forall|b: u64, a: u64|
            #[trigger] self.bids.contains_key(b) && #[trigger] self.asks.contains_key(a) ==> b < a
    }

    /// The book after order `id` comes to rest with `qty` at `price` on a
    /// side, behind the orders already there.
    pub open spec fn inserted(self, is_bid: bool, id: OrderId, price: u64, qty: u32) -> BookView {
        let levels = self.side(is_bid).insert(price, self.queue(is_bid, price).push(id));
        let orders = self.orders.insert(id, OrderInfo { price, qty, side: side_of(is_bid) });
        BookView { orders, ..self.with_side(is_bid, levels) }
    }

    /// The book after the resting order `id` is taken out of its level; a
    /// level left empty disappears.
    pub open spec fn cancelled(self, id: OrderId) -> BookView {
        let info = self.orders[id];
        let is_bid = info.side == IncomingSide::Buy;
        let q = self.queue(is_bid, info.price);
        let rest = q.remove(q.index_of(id));
        let levels = if rest.len() == 0 {
            self.side(is_bid).remove(info.price)
        } else {
            self.side(is_bid).insert(info.price, rest)
        };
        BookView { orders: self.orders.remove(id), ..self.with_side(is_bid, levels) }
    }

    /// The book after the open quantity of the resting order `id` drops to
    /// `qty`.
    pub open spec fn reduced(self, id: OrderId, qty: u32) -> BookView {
        BookView {
            orders: self.orders.insert(id, OrderInfo { qty, ..self.orders[id] }),
            ..self
        }
    }

    /// The best of a set of prices on a side.
    pub open spec fn best_of(is_bid: bool, prices: Set<u64>) -> u64 {
        choose|p: u64| is_best(is_bid, p, prices)
    }

    /// The best price of a side: the highest bid or the lowest ask.
    pub open spec fn best_price(self, is_bid: bool) -> u64 {
        BookView::best_of(is_bid, self.side(is_bid).dom())
    }

    /// The fill that the next step of matching a taker with `remaining` open,
    /// and an optional limit, against a side gives: the maker at the head of
    /// the best level, that level's price, and the quantity traded. None when
    /// the taker is filled, the side is empty, or its best price lies beyond
    /// the limit.
    pub open spec fn next_fill(self, is_bid: bool, limit: Option<u64>, remaining: u32) -> Option<
        (OrderId, u64, u32),
    > {
        if remaining == 0 || self.side(is_bid).dom().is_empty() {
            None
        } else {
            let p = self.best_price(is_bid);
            if limit matches Some(l) && beyond_limit(is_bid, p, l) {
                None
            } else {
                let maker = self.side(is_bid)[p][0];
                let open = self.orders[maker].qty;
                Some((maker, p, if remaining < open { remaining } else { open }))
            }
        }
    }

    /// The book after `traded` of the order at the head of the level at
    /// `price` of a side fills; a maker filled in full leaves the book.
    pub open spec fn filled(self, is_bid: bool, price: u64, traded: u32) -> BookView {
        let maker = self.side(is_bid)[price][0];
        let open = self.orders[maker].qty;
        if open <= traded {
            self.cancelled(maker)
        } else {
            self.reduced(maker, (open - traded) as u32)
        }
    }
}

/// The order ids along each chain of arena keys.
pub open spec fn ids_of(cells: Map<usize, RestingOrder>, chains: Map<u64, Seq<usize>>) -> Map<
    u64,
    Seq<OrderId>,
> {
    chains.map_values(|c: Seq<usize>| c.map_values(|i: usize| cells[i].order_id))
}

/// What each indexed order holds.
pub open spec fn orders_of(cells: Map<usize, RestingOrder>, index: Map<OrderId, usize>) -> Map<
    OrderId,
    OrderInfo,
> {
    index.map_values(|i: usize| info_of(cells[i]))
}

/// Whether the arena cell at position `j` of the chain `c` of a level at
/// `price` belongs there and is linked to its neighbours in the chain.
pub open spec fn cell_linked(
    cells: Map<usize, RestingOrder>,
    c: Seq<usize>,
    j: int,
    is_bid: bool,
    price: u64,
) -> bool {
    &&& cells.contains_key(c[j])
    &&& cells[c[j]].price == price
    &&& cells[c[j]].side == side_of(is_bid)
    &&& cells[c[j]].qty > 0
    &&& cells[c[j]].prev == (if j == 0 {
        None
    } else {
        Some(c[j - 1])
    })
    &&& cells[c[j]].next == (if j == c.len() - 1 {
        None
    } else {
        Some(c[j + 1])
    })
}

/// Whether a level and the chain of arena keys that it stands for agree.
pub open spec fn level_matches(
    cells: Map<usize, RestingOrder>,
    c: Seq<usize>,
    level: PriceLevel,
    is_bid: bool,
    price: u64,
) -> bool {
    &&& c.len() > 0
    &&& level.head == Some(c[0])
    &&& level.tail == Some(c.last())
    &&& level.total_orders == c.len()
    &&& c.no_duplicates()
    &&& forall|j: int| 0 <= j < c.len() ==> #[trigger] cell_linked(cells, c, j, is_bid, price)
}

/// The arena after the cell at position `j` of the chain `c` is unlinked
/// from its neighbours and released.
pub open spec fn unlinked(cells: Map<usize, RestingOrder>, c: Seq<usize>, j: int) -> Map<
    usize,
    RestingOrder,
> {
    let o = cells[c[j]];
    let c1 = if j > 0 {
        cells.insert(c[j - 1], RestingOrder { next: o.next, ..cells[c[j - 1]] })
    } else {
        cells
    };
    let c2 = if j + 1 < c.len() {
        c1.insert(c[j + 1], RestingOrder { prev: o.prev, ..c1[c[j + 1]] })
    } else {
        c1
    };
    c2.remove(c[j])
}

/// The `n` low bytes of `v`, least significant first.
pub open spec fn le_bytes(v: nat, n: nat) -> Seq<u8>
    decreases n,
{
    if n == 0 {
        Seq::empty()
    } else {
        seq![(v % 256) as u8] + le_bytes(v / 256, (n - 1) as nat)
    }
}

/// The discriminant that stands for a side in the checksum, hashed as a
/// 64-bit integer.
pub open spec fn side_discriminant(side: IncomingSide) -> u64 {
    match side {
        IncomingSide::Buy => 0,
        IncomingSide::Sell => 1,
    }
}

/// What the checksum reads of one resting order: its id, open quantity and
/// side.
pub open spec fn order_writes(v: BookView, id: OrderId) -> Seq<Seq<u8>> {
    seq![
        le_bytes(id as nat, 8),
        le_bytes(v.orders[id].qty as nat, 4),
        le_bytes(side_discriminant(v.orders[id].side) as nat, 8),
    ]
}

/// What the checksum reads of the orders of a level, oldest first.
pub open spec fn queue_writes(v: BookView, q: Seq<OrderId>) -> Seq<Seq<u8>>
    decreases q.len(),
{
    if q.len() == 0 {
        Seq::empty()
    } else {
        queue_writes(v, q.drop_last()) + order_writes(v, q.last())
    }
}

/// What the checksum reads of a level: its price, its number of orders, then
/// its orders.
pub open spec fn level_writes(v: BookView, is_bid: bool, price: u64) -> Seq<Seq<u8>> {
    seq![le_bytes(price as nat, 8), le_bytes(v.side(is_bid)[price].len(), 8)] + queue_writes(
        v,
        v.side(is_bid)[price],
    )
}

/// What the checksum reads of the levels at the given prices, in that order.
pub open spec fn prices_writes(v: BookView, is_bid: bool, prices: Seq<u64>) -> Seq<Seq<u8>>
    decreases prices.len(),
{
    if prices.len() == 0 {
        Seq::empty()
    } else {
        prices_writes(v, is_bid, prices.drop_last()) + level_writes(v, is_bid, prices.last())
    }
}

/// Everything the checksum reads of a book: the bids, then the asks, each in
/// priority order.
pub open spec fn checksum_writes(v: BookView) -> Seq<Seq<u8>> {
    prices_writes(v, true, priority_prices(true, v.bids.dom())) + prices_writes(
        v,
        false,
        priority_prices(false, v.asks.dom()),
    )
}

/// The checksum of a book.
pub open spec fn book_checksum(v: BookView) -> u64 {
    DefaultHasher::spec_finish(checksum_writes(v))
}

/// The `n` low bytes of `v`, least significant first.
pub fn le_bytes_of(v: u64, n: usize) -> (r: Vec<u8>)
    requires
        n <= 8,
    ensures
        r@ == le_bytes(v as nat, n as nat),
{
    let mut out: Vec<u8> = Vec::new();
    let mut x: u64 = v;
    let mut k: usize = 0;
    while k < n
        invariant
            k <= n,
            out@ + le_bytes(x as nat, (n - k) as nat) == le_bytes(v as nat, n as nat),
        decreases n - k,
    {
        proof {
            assert(le_bytes(x as nat, (n - k) as nat) == seq![(x % 256) as u8] + le_bytes(
                (x / 256) as nat,
                (n - k - 1) as nat,
            ));
            assert(out@.push((x % 256) as u8) + le_bytes((x / 256) as nat, (n - k - 1) as nat)
                =~= out@ + (seq![(x % 256) as u8] + le_bytes((x / 256) as nat, (n - k - 1) as nat)));
        }
        out.push((x % 256) as u8);
        x = x / 256;
        k = k + 1;
    }
    proof {
        assert(out@ + Seq::<u8>::empty() =~= out@);
    }
    out
}

/// Whether two cells hold the same order: id, price, open quantity, side
/// and time stamp.
pub open spec fn same_payload(a: RestingOrder, b: RestingOrder) -> bool {
    &&& a.order_id == b.order_id
    &&& a.price == b.price
    &&& a.qty == b.qty
    &&& a.side == b.side
    &&& a.ts == b.ts
}

/// The arena keys met by following `next` links from `from`, for at most
/// `n` steps, stopping at an empty link or a vacant key.
pub open spec fn walk(cells: Map<usize, RestingOrder>, from: Option<usize>, n: nat) -> Seq<usize>
    decreases n,
{
    if n == 0 {
        Seq::empty()
    } else {
        match from {
            None => Seq::empty(),
            Some(i) => if cells.contains_key(i) {
                seq![i] + walk(cells, cells[i].next, (n - 1) as nat)
            } else {
                Seq::empty()
            },
        }
    }
}

/// A limit order book.
pub struct OrderBook {
    bids: BookSide<Bids>,
    asks: BookSide<Asks>,
    orders: Slab<RestingOrder>,
    order_map: FxHashMap<OrderId, usize>,
    /// For each bid price, the arena keys of its orders from head to tail.
    bid_chains: Ghost<Map<u64, Seq<usize>>>,
    /// For each ask price, the arena keys of its orders from head to tail.
    ask_chains: Ghost<Map<u64, Seq<usize>>>,
}

impl Default for OrderBook {
    /// An empty book sized for 262144 orders.
    fn default() -> (r: OrderBook)
        ensures
            r.wf(),
            r@ == BookView::empty(),
            r.arena_len() == 0,
    {
        OrderBook::new(262144)
    }
}

impl View for OrderBook {
    type V = BookView;

    closed spec fn view(&self) -> BookView {
        BookView {
            bids: ids_of(self.cells(), self.bid_chains@),
            asks: ids_of(self.cells(), self.ask_chains@),
            orders: orders_of(self.cells(), self.index()),
        }
    }
}

impl OrderBook {
    /// The arena: the resting order under each occupied key.
    pub closed spec fn cells(&self) -> Map<usize, RestingOrder> {
        slab_cells(self.orders)
    }

    /// The index from order id to arena key.
    pub closed spec fn index(&self) -> Map<OrderId, usize> {
        self.order_map@
    }

    /// The levels of the bids (`true`) or of the asks.
    pub closed spec fn levels(&self, is_bid: bool) -> Map<u64, PriceLevel> {
        if is_bid {
            self.bids@
        } else {
            self.asks@
        }
    }

    /// For each price of a side, the arena keys of its orders from head to
    /// tail.
    pub closed spec fn chains(&self, is_bid: bool) -> Map<u64, Seq<usize>> {
        if is_bid {
            self.bid_chains@
        } else {
            self.ask_chains@
        }
    }

    /// The chain of arena keys at `price` on a side, empty if there is no
    /// such level.
    pub open spec fn chain_at(&self, is_bid: bool, price: u64) -> Seq<usize> {
        if self.chains(is_bid).contains_key(price) {
            self.chains(is_bid)[price]
        } else {
            Seq::empty()
        }
    }

    /// `self` is `pre` after `order` came to rest with `remaining` open, stamped
    /// `ts`, under an arena key that was vacant, at the tail of its level: the
    /// old tail links to it, and every other cell, with its key, is as it was.
    pub open spec fn rested_from(
        &self,
        pre: OrderBook,
        is_bid: bool,
        order: RestingOrder,
        remaining: u32,
        ts: i64,
    ) -> bool {
        let k = self.index()[order.order_id];
        let q = pre.chain_at(is_bid, order.price);
        &&& self.index() == pre.index().insert(order.order_id, k)
        &&& !pre.cells().contains_key(k)
        &&& self.cells().dom() == pre.cells().dom().insert(k)
        &&& self.cells()[k] == RestingOrder {
            order_id: order.order_id,
            price: order.price,
            qty: remaining,
            side: side_of(is_bid),
            prev: if q.len() > 0 {
                Some(q.last())
            } else {
                None
            },
            next: None,
            ts,
        }
        &&& q.len() > 0 ==> self.cells()[q.last()] == RestingOrder {
            next: Some(k),
            ..pre.cells()[q.last()]
        }
        &&& forall|i: usize| #[trigger]
            pre.cells().contains_key(i) && (q.len() == 0 || i != q.last()) ==> self.cells()[i]
                == pre.cells()[i]
        &&& self.chains(is_bid) == pre.chains(is_bid).insert(order.price, q.push(k))
        &&& self.chains(!is_bid) == pre.chains(!is_bid)
    }

    /// `self` is `pre` after the resting order `id` was unlinked from its
    /// level and its arena cell released: only its neighbours' links changed,
    /// and every other order keeps its key, quantity and time stamp.
    pub open spec fn removed_from(&self, pre: OrderBook, id: OrderId) -> bool {
        let k = pre.index()[id];
        let o = pre.cells()[k];
        let b = o.side == IncomingSide::Buy;
        let q = pre.chain_at(b, o.price);
        let j = q.index_of(k);
        &&& self.index() == pre.index().remove(id)
        &&& self.cells() == unlinked(pre.cells(), q, j)
        &&& self.cells().dom() == pre.cells().dom().remove(k)
        &&& forall|i: usize| #[trigger]
            self.cells().contains_key(i) ==> pre.cells().contains_key(i) && same_payload(
                pre.cells()[i],
                self.cells()[i],
            )
        &&& self.chains(b) == (if q.len() == 1 {
            pre.chains(b).remove(o.price)
        } else {
            pre.chains(b).insert(o.price, q.remove(j))
        })
        &&& self.chains(!b) == pre.chains(!b)
    }

    /// `self` is `pre` after the open quantity of the resting order `id`
    /// dropped to `qty` in its cell; nothing else changed.
    pub open spec fn reduced_from(&self, pre: OrderBook, id: OrderId, qty: u32) -> bool {
        let k = pre.index()[id];
        &&& self.index() == pre.index()
        &&& self.cells() == pre.cells().insert(k, RestingOrder { qty, ..pre.cells()[k] })
        &&& self.chains(true) == pre.chains(true)
        &&& self.chains(false) == pre.chains(false)
    }

    /// The number of occupied arena cells.
    pub closed spec fn arena_len(&self) -> nat {
        self.cells().len()
    }

    /// Each level of a side agrees with its chain, and each chain has a level.
    pub closed spec fn side_wf(&self, is_bid: bool) -> bool {
        &&& self.chains(is_bid).dom() == self.levels(is_bid).dom()
        &&& forall|p: u64| #[trigger]
            self.chains(is_bid).contains_key(p) ==> level_matches(
                self.cells(),
                self.chains(is_bid)[p],
                self.levels(is_bid)[p],
                is_bid,
                p,
            )
    }

    /// The index and the arena are inverse to each other.
    pub closed spec fn index_wf(&self) -> bool {
        &&& forall|id: OrderId| #[trigger]
            self.index().contains_key(id) ==> self.cells().contains_key(self.index()[id])
                && self.cells()[self.index()[id]].order_id == id
        &&& forall|i: usize| #[trigger]
            self.cells().contains_key(i) ==> self.index().contains_key(self.cells()[i].order_id)
                && self.index()[self.cells()[i].order_id] == i
    }

    /// Every occupied arena cell lies on the chain of its side and price.
    pub closed spec fn covered(&self) -> bool {
        forall|i: usize| #[trigger]
            self.cells().contains_key(i) ==> {
                let o = self.cells()[i];
                let s = o.side == IncomingSide::Buy;
                self.chains(s).contains_key(o.price) && self.chains(s)[o.price].contains(i)
            }
    }

    /// The book's invariant.
    pub closed spec fn wf(&self) -> bool {
        &&& self.cells().dom().finite()
        &&& self.side_wf(true)
        &&& self.side_wf(false)
        &&& self.index_wf()
        &&& self.covered()
    }

    /// An empty book whose arena and index are sized for `capacity` orders.
    pub fn new(capacity: usize) -> (r: OrderBook)
        ensures
            r.wf(),
            r@ == BookView::empty(),
            r.arena_len() == 0,
    {
        let r = OrderBook {
            bids: BookSide::new(),
            asks: BookSide::new(),
            orders: arena_with_capacity(capacity),
            order_map: index_with_capacity(capacity),
            bid_chains: Ghost(Map::empty()),
            ask_chains: Ghost(Map::empty()),
        };
        proof {
            assert(r.cells() == Map::<usize, RestingOrder>::empty());
            assert(r.index() == Map::<OrderId, usize>::empty());
            assert(r.bids@.dom() == Set::<u64>::empty());
            assert(r.asks@.dom() == Set::<u64>::empty());
            assert(r@.bids == Map::<u64, Seq<OrderId>>::empty());
            assert(r@.asks == Map::<u64, Seq<OrderId>>::empty());
            assert(r@.orders == Map::<OrderId, OrderInfo>::empty());
        }
        r
    }

    /// A chain without repeats whose keys are all occupied is no longer than
    /// the arena holds.
    proof fn lemma_chain_len(c: Seq<usize>, cells: Map<usize, RestingOrder>)
        requires
            c.no_duplicates(),
            cells.dom().finite(),
            forall|j: int| 0 <= j < c.len() ==> cells.contains_key(#[trigger] c[j]),
        ensures
            c.len() <= cells.len(),
    {
        c.unique_seq_to_set();
        assert(c.to_set().subset_of(cells.dom()));
        vstd::set_lib::lemma_len_subset(c.to_set(), cells.dom());
    }

    /// A level stays linked to its chain when the cells on the chain are kept.
    proof fn lemma_level_kept(
        c0: Map<usize, RestingOrder>,
        c: Map<usize, RestingOrder>,
        chain: Seq<usize>,
        level: PriceLevel,
        is_bid: bool,
        price: u64,
    )
        requires
            level_matches(c0, chain, level, is_bid, price),
            forall|j: int|
                0 <= j < chain.len() ==> c.contains_key(#[trigger] chain[j]) && c[chain[j]]
                    == c0[chain[j]],
        ensures
            level_matches(c, chain, level, is_bid, price),
    {
        assert forall|j: int| 0 <= j < chain.len() implies #[trigger] cell_linked(
            c,
            chain,
            j,
            is_bid,
            price,
        ) by {
            assert(cell_linked(c0, chain, j, is_bid, price));
        }
    }

    /// The ids along chains do not change when the cells on them keep their ids.
    proof fn lemma_ids_kept(
        c0: Map<usize, RestingOrder>,
        c: Map<usize, RestingOrder>,
        chains: Map<u64, Seq<usize>>,
    )
        requires
            forall|p: u64, j: int|
                chains.contains_key(p) && 0 <= j < chains[p].len() ==> #[trigger] c[chains[p][j]].order_id
                    == c0[chains[p][j]].order_id,
        ensures
            ids_of(c, chains) == ids_of(c0, chains),
    {
        assert forall|p: u64| #[trigger] chains.contains_key(p) implies ids_of(c, chains)[p]
            == ids_of(c0, chains)[p] by {
            assert(ids_of(c, chains)[p] =~= ids_of(c0, chains)[p]);
        }
        assert(ids_of(c, chains) =~= ids_of(c0, chains));
    }

    /// What indexed orders hold does not change when their cells keep it.
    proof fn lemma_orders_kept(
        c0: Map<usize, RestingOrder>,
        c: Map<usize, RestingOrder>,
        index: Map<OrderId, usize>,
    )
        requires
            forall|id: OrderId| #[trigger]
                index.contains_key(id) ==> info_of(c[index[id]]) == info_of(c0[index[id]]),
        ensures
            orders_of(c, index) == orders_of(c0, index),
    {
        assert(orders_of(c, index) =~= orders_of(c0, index));
    }

    /// Resting a new order at the tail of its level keeps the invariant and
    /// changes the state as `inserted` says.
    proof fn lemma_insert_wf(
        pre: OrderBook,
        post: OrderBook,
        is_bid: bool,
        price: u64,
        id: OrderId,
        idx: usize,
        q: Seq<usize>,
        cell: RestingOrder,
        remaining: u32,
    )
        requires
            pre.wf(),
            !pre@.orders.contains_key(id),
            !pre.cells().contains_key(idx),
            remaining > 0,
            q.len() < usize::MAX,
            q == (if pre.chains(is_bid).contains_key(price) {
                pre.chains(is_bid)[price]
            } else {
                Seq::<usize>::empty()
            }),
            cell.order_id == id,
            cell.price == price,
            cell.qty == remaining,
            cell.side == side_of(is_bid),
            cell.next == None::<usize>,
            cell.prev == (if q.len() > 0 {
                Some(q.last())
            } else {
                None::<usize>
            }),
            post.cells() == (if q.len() > 0 {
                pre.cells().insert(idx, cell).insert(
                    q.last(),
                    RestingOrder { next: Some(idx), ..pre.cells()[q.last()] },
                )
            } else {
                pre.cells().insert(idx, cell)
            }),
            post.levels(is_bid) == pre.levels(is_bid).insert(
                price,
                PriceLevel {
                    head: Some(
                        if q.len() > 0 {
                            q[0]
                        } else {
                            idx
                        },
                    ),
                    tail: Some(idx),
                    total_orders: (q.len() + 1) as u64,
                },
            ),
            post.levels(!is_bid) == pre.levels(!is_bid),
            post.chains(is_bid) == pre.chains(is_bid).insert(price, q.push(idx)),
            post.chains(!is_bid) == pre.chains(!is_bid),
            post.index() == pre.index().insert(id, idx),
        ensures
            post.wf(),
            post@ == pre@.inserted(is_bid, id, price, remaining),
            post.arena_len() == pre.arena_len() + 1,
    {
        let c0 = pre.cells();
        let c = post.cells();
        let q1 = q.push(idx);
        let ch0 = pre.chains(is_bid);
        assert(pre.side_wf(true) && pre.side_wf(false));
        if q.len() > 0 {
            assert(ch0.contains_key(price));
            assert(level_matches(c0, q, pre.levels(is_bid)[price], is_bid, price));
            assert(cell_linked(c0, q, q.len() - 1, is_bid, price));
        }
        assert forall|j: int| 0 <= j < q.len() implies c0.contains_key(#[trigger] q[j]) && q[j]
            != idx by {
            assert(cell_linked(c0, q, j, is_bid, price));
        }
        // Old cells keep what they hold but for the old tail's link.
        assert forall|i: usize| #[trigger] c0.contains_key(i) implies c.contains_key(i) && info_of(
            c[i],
        ) == info_of(c0[i]) && c[i].order_id == c0[i].order_id && c[i].side == c0[i].side
            && c[i].price == c0[i].price && (q.len() == 0 || i != q.last() ==> c[i] == c0[i]) by {}
        assert(c.dom() == c0.dom().insert(idx));
        // The level at `price`.
        assert forall|j: int| 0 <= j < q1.len() implies #[trigger] cell_linked(
            c,
            q1,
            j,
            is_bid,
            price,
        ) by {
            if j < q.len() {
                assert(cell_linked(c0, q, j, is_bid, price));
            }
        }
        assert(q1.no_duplicates()) by {
            assert forall|a: int, b: int| 0 <= a < b < q1.len() implies q1[a] != q1[b] by {
                if b == q.len() {
                    assert(c0.contains_key(q[a]));
                }
            }
        }
        assert(q1[0] == (if q.len() > 0 {
            q[0]
        } else {
            idx
        }));
        assert(q1.last() == idx);
        assert(level_matches(c, q1, post.levels(is_bid)[price], is_bid, price));
        // The other levels of the side, and the other side.
        assert forall|p: u64| #[trigger] post.chains(is_bid).contains_key(p) implies level_matches(
            c,
            post.chains(is_bid)[p],
            post.levels(is_bid)[p],
            is_bid,
            p,
        ) by {
            if p != price {
                let cp = ch0[p];
                assert(level_matches(c0, cp, pre.levels(is_bid)[p], is_bid, p));
                assert forall|j: int| 0 <= j < cp.len() implies c.contains_key(#[trigger] cp[j])
                    && c[cp[j]] == c0[cp[j]] by {
                    assert(cell_linked(c0, cp, j, is_bid, p));
                }
                Self::lemma_level_kept(c0, c, cp, pre.levels(is_bid)[p], is_bid, p);
            }
        }
        assert(post.chains(is_bid).dom() =~= post.levels(is_bid).dom());
        let ob = !is_bid;
        assert forall|p: u64| #[trigger] post.chains(ob).contains_key(p) implies level_matches(
            c,
            post.chains(ob)[p],
            post.levels(ob)[p],
            ob,
            p,
        ) by {
            let cp = pre.chains(ob)[p];
            assert(level_matches(c0, cp, pre.levels(ob)[p], ob, p));
            assert forall|j: int| 0 <= j < cp.len() implies c.contains_key(#[trigger] cp[j])
                && c[cp[j]] == c0[cp[j]] by {
                assert(cell_linked(c0, cp, j, ob, p));
            }
            Self::lemma_level_kept(c0, c, cp, pre.levels(ob)[p], ob, p);
        }
        assert(post.side_wf(is_bid));
        assert(post.side_wf(ob));
        if is_bid {
            assert(post.side_wf(true) && post.side_wf(false));
        } else {
            assert(post.side_wf(false) && post.side_wf(true));
        }
        // The index.
        assert(pre.index().dom() == pre@.orders.dom());
        assert forall|i: usize| #[trigger] c.contains_key(i) implies post.index().contains_key(
            c[i].order_id,
        ) && post.index()[c[i].order_id] == i by {
            if i != idx {
                assert(pre.index().contains_key(c0[i].order_id));
            }
        }
        assert(post.index_wf());
        // Every cell is on its chain.
        assert forall|i: usize| #[trigger] c.contains_key(i) implies ({
            let o = c[i];
            let s = o.side == IncomingSide::Buy;
            post.chains(s).contains_key(o.price) && post.chains(s)[o.price].contains(i)
        }) by {
            let s = c[i].side == IncomingSide::Buy;
            if i == idx {
                assert(q1[q.len() as int] == idx);
            } else {
                assert(pre.chains(s).contains_key(c0[i].price) && pre.chains(s)[c0[i].price].contains(i));
                if s == is_bid && c0[i].price == price {
                    let k = choose|k: int| 0 <= k < q.len() && q[k] == i;
                    assert(q1[k] == i);
                }
            }
        }
        assert(post.covered());
        assert(c.dom().finite());
        // The state.
        let other = pre.chains(ob);
        assert forall|p: u64, j: int|
            other.contains_key(p) && 0 <= j < other[p].len() implies #[trigger] c[other[p][j]].order_id
            == c0[other[p][j]].order_id by {
            assert(level_matches(c0, other[p], pre.levels(ob)[p], ob, p));
            assert(cell_linked(c0, other[p], j, ob, p));
        }
        Self::lemma_ids_kept(c0, c, other);
        assert forall|p: u64, j: int|
            ch0.contains_key(p) && 0 <= j < ch0[p].len() implies #[trigger] c[ch0[p][j]].order_id
            == c0[ch0[p][j]].order_id by {
            assert(level_matches(c0, ch0[p], pre.levels(is_bid)[p], is_bid, p));
            assert(cell_linked(c0, ch0[p], j, is_bid, p));
        }
        Self::lemma_ids_kept(c0, c, ch0);
        let ids = ids_of(c, post.chains(is_bid));
        let ids0 = ids_of(c0, ch0);
        assert(pre@.queue(is_bid, price) =~= q.map_values(|i: usize| c0[i].order_id));
        assert(ids[price] =~= pre@.queue(is_bid, price).push(id));
        assert(ids =~= ids0.insert(price, pre@.queue(is_bid, price).push(id)));
        assert forall|oid: OrderId| #[trigger]
            pre.index().contains_key(oid) implies info_of(c[pre.index()[oid]]) == info_of(
            c0[pre.index()[oid]],
        ) by {}
        Self::lemma_orders_kept(c0, c, pre.index());
        assert(orders_of(c, post.index()) =~= orders_of(c0, pre.index()).insert(
            id,
            OrderInfo { price, qty: remaining, side: side_of(is_bid) },
        ));
        if is_bid {
            assert(post@ == pre@.inserted(is_bid, id, price, remaining));
        } else {
            assert(post@ == pre@.inserted(is_bid, id, price, remaining));
        }
    }

    /// `post` is `pre` after the cell at position `j` of the chain at `price`,
    /// which holds order `id` under key `idx`, is unlinked and released.
    spec fn unlink_step(
        pre: OrderBook,
        post: OrderBook,
        is_bid: bool,
        price: u64,
        id: OrderId,
        idx: usize,
        j: int,
    ) -> bool {
        &&& pre.wf()
        &&& pre.index().contains_key(id)
        &&& idx == pre.index()[id]
        &&& pre.cells()[idx].price == price
        &&& pre.cells()[idx].side == side_of(is_bid)
        &&& pre.chains(is_bid).contains_key(price)
        &&& 0 <= j < pre.chains(is_bid)[price].len()
        &&& pre.chains(is_bid)[price][j] == idx
        &&& post.cells() == unlinked(pre.cells(), pre.chains(is_bid)[price], j)
        &&& post.levels(is_bid) == (if pre.chains(is_bid)[price].len() == 1 {
                pre.levels(is_bid).remove(price)
            } else {
                pre.levels(is_bid).insert(
                    price,
                    PriceLevel {
                        head: if j == 0 {
                            pre.cells()[idx].next
                        } else {
                            pre.levels(is_bid)[price].head
                        },
                        tail: if j == pre.chains(is_bid)[price].len() - 1 {
                            pre.cells()[idx].prev
                        } else {
                            pre.levels(is_bid)[price].tail
                        },
                        total_orders: (pre.chains(is_bid)[price].len() - 1) as u64,
                    },
                )
            })
        &&& post.levels(!is_bid) == pre.levels(!is_bid)
        &&& post.chains(is_bid) == (if pre.chains(is_bid)[price].len() == 1 {
                pre.chains(is_bid).remove(price)
            } else {
                pre.chains(is_bid).insert(price, pre.chains(is_bid)[price].remove(j))
            })
        &&& post.chains(!is_bid) == pre.chains(!is_bid)
        &&& post.index() == pre.index().remove(id)
    }

    /// After an unlink, the other cells hold what they held, and only the
    /// neighbours' links moved.
    proof fn lemma_unlink_cells(
        pre: OrderBook,
        post: OrderBook,
        is_bid: bool,
        price: u64,
        id: OrderId,
        idx: usize,
        j: int,
    )
        requires
            Self::unlink_step(pre, post, is_bid, price, id, idx, j),
        ensures
            ({
                let c0 = pre.cells();
                let c = post.cells();
                let q = pre.chains(is_bid)[price];
                &&& forall|i: usize| #[trigger]
                    c0.contains_key(i) && i != idx ==> c.contains_key(i) && info_of(c[i])
                        == info_of(c0[i]) && c[i].order_id == c0[i].order_id && c[i].side
                        == c0[i].side && c[i].price == c0[i].price && ((j == 0 || i != q[j - 1])
                        && (j + 1 >= q.len() || i != q[j + 1]) ==> c[i] == c0[i])
                &&& c.dom() == c0.dom().remove(idx)
                &&& !c.contains_key(idx)
            }),
    {
        let c0 = pre.cells();
        let c = post.cells();
        let q = pre.chains(is_bid)[price];
        assert(pre.side_wf(true) && pre.side_wf(false));
        assert(level_matches(c0, q, pre.levels(is_bid)[price], is_bid, price));
        assert(cell_linked(c0, q, j, is_bid, price));
        if j > 0 {
            assert(cell_linked(c0, q, j - 1, is_bid, price));
        }
        if j + 1 < q.len() {
            assert(cell_linked(c0, q, j + 1, is_bid, price));
        }
        assert(c.dom() =~= c0.dom().remove(idx));
    }

    /// After an unlink, every level still agrees with its chain.
    proof fn lemma_unlink_sides(
        pre: OrderBook,
        post: OrderBook,
        is_bid: bool,
        price: u64,
        id: OrderId,
        idx: usize,
        j: int,
    )
        requires
            Self::unlink_step(pre, post, is_bid, price, id, idx, j),
        ensures
            post.side_wf(true),
            post.side_wf(false),
    {
        let c0 = pre.cells();
        let c = post.cells();
        let ch0 = pre.chains(is_bid);
        let q = ch0[price];
        let n = q.len();
        let q2 = q.remove(j);
        let ob = !is_bid;
        assert(pre.side_wf(true) && pre.side_wf(false));
        assert(level_matches(c0, q, pre.levels(is_bid)[price], is_bid, price));
        assert(cell_linked(c0, q, j, is_bid, price));
        if j > 0 {
            assert(cell_linked(c0, q, j - 1, is_bid, price));
        }
        if j + 1 < n {
            assert(cell_linked(c0, q, j + 1, is_bid, price));
        }
        q.remove_ensures(j);
        Self::lemma_unlink_cells(pre, post, is_bid, price, id, idx, j);
        // The chain at `price`.
        if n > 1 {
            assert forall|k: int| 0 <= k < q2.len() implies #[trigger] cell_linked(
                c,
                q2,
                k,
                is_bid,
                price,
            ) by {
                if k < j {
                    assert(cell_linked(c0, q, k, is_bid, price));
                    assert(q2[k] == q[k]);
                    if k > 0 {
                        assert(q2[k - 1] == q[k - 1]);
                    }
                    if k + 1 < j {
                        assert(q2[k + 1] == q[k + 1]);
                    } else if k + 1 < q2.len() {
                        assert(q2[k + 1] == q[k + 2]);
                    }
                } else {
                    assert(cell_linked(c0, q, k + 1, is_bid, price));
                    assert(q2[k] == q[k + 1]);
                    if k > j {
                        assert(q2[k - 1] == q[k]);
                    } else if k > 0 {
                        assert(q2[k - 1] == q[k - 1]);
                    }
                    if k + 1 < q2.len() {
                        assert(q2[k + 1] == q[k + 2]);
                    }
                }
            }
            assert(q2.no_duplicates());
            if j == 0 {
                assert(q2[0] == q[1]);
            } else {
                assert(q2[0] == q[0]);
            }
            if j == n - 1 {
                assert(q2.last() == q[n - 2]);
            } else {
                assert(q2.last() == q.last());
            }
            assert(level_matches(c, q2, post.levels(is_bid)[price], is_bid, price));
        }
        // The other levels of the side, and the other side.
        assert forall|p: u64| #[trigger] post.chains(is_bid).contains_key(p) implies level_matches(
            c,
            post.chains(is_bid)[p],
            post.levels(is_bid)[p],
            is_bid,
            p,
        ) by {
            if p != price {
                let cp = ch0[p];
                assert(level_matches(c0, cp, pre.levels(is_bid)[p], is_bid, p));
                assert forall|k: int| 0 <= k < cp.len() implies c.contains_key(#[trigger] cp[k])
                    && c[cp[k]] == c0[cp[k]] by {
                    assert(cell_linked(c0, cp, k, is_bid, p));
                }
                Self::lemma_level_kept(c0, c, cp, pre.levels(is_bid)[p], is_bid, p);
            }
        }
        assert(post.chains(is_bid).dom() =~= post.levels(is_bid).dom());
        assert forall|p: u64| #[trigger] post.chains(ob).contains_key(p) implies level_matches(
            c,
            post.chains(ob)[p],
            post.levels(ob)[p],
            ob,
            p,
        ) by {
            let cp = pre.chains(ob)[p];
            assert(level_matches(c0, cp, pre.levels(ob)[p], ob, p));
            assert forall|k: int| 0 <= k < cp.len() implies c.contains_key(#[trigger] cp[k])
                && c[cp[k]] == c0[cp[k]] by {
                assert(cell_linked(c0, cp, k, ob, p));
            }
            Self::lemma_level_kept(c0, c, cp, pre.levels(ob)[p], ob, p);
        }
        assert(post.side_wf(is_bid));
        assert(post.side_wf(ob));
        if is_bid {
            assert(post.side_wf(true) && post.side_wf(false));
        } else {
            assert(post.side_wf(false) && post.side_wf(true));
        }
    }

    /// After an unlink, the index and the arena still match and cover each other.
    proof fn lemma_unlink_index(
        pre: OrderBook,
        post: OrderBook,
        is_bid: bool,
        price: u64,
        id: OrderId,
        idx: usize,
        j: int,
    )
        requires
            Self::unlink_step(pre, post, is_bid, price, id, idx, j),
        ensures
            post.index_wf(),
            post.covered(),
    {
        let c0 = pre.cells();
        let c = post.cells();
        let ch0 = pre.chains(is_bid);
        let q = ch0[price];
        let n = q.len();
        let q2 = q.remove(j);
        let ob = !is_bid;
        assert(pre.side_wf(true) && pre.side_wf(false));
        assert(level_matches(c0, q, pre.levels(is_bid)[price], is_bid, price));
        assert(cell_linked(c0, q, j, is_bid, price));
        if j > 0 {
            assert(cell_linked(c0, q, j - 1, is_bid, price));
        }
        if j + 1 < n {
            assert(cell_linked(c0, q, j + 1, is_bid, price));
        }
        q.remove_ensures(j);
        Self::lemma_unlink_cells(pre, post, is_bid, price, id, idx, j);
        // The index.
        assert forall|oid: OrderId| #[trigger] post.index().contains_key(oid) implies c.contains_key(
            post.index()[oid],
        ) && c[post.index()[oid]].order_id == oid by {
            assert(c0[pre.index()[oid]].order_id == oid);
        }
        assert forall|i: usize| #[trigger] c.contains_key(i) implies post.index().contains_key(
            c[i].order_id,
        ) && post.index()[c[i].order_id] == i by {
            assert(pre.index().contains_key(c0[i].order_id));
        }
        assert(post.index_wf());
        // Every cell is on its chain.
        assert forall|i: usize| #[trigger] c.contains_key(i) implies ({
            let o = c[i];
            let s = o.side == IncomingSide::Buy;
            post.chains(s).contains_key(o.price) && post.chains(s)[o.price].contains(i)
        }) by {
            let s = c0[i].side == IncomingSide::Buy;
            assert(pre.chains(s).contains_key(c0[i].price) && pre.chains(s)[c0[i].price].contains(i));
            if s == is_bid && c0[i].price == price {
                let k = choose|k: int| 0 <= k < q.len() && q[k] == i;
                assert(q.no_duplicates());
                assert(k != j);
                if k < j {
                    assert(q2[k] == i);
                } else {
                    assert(q2[k - 1] == i);
                }
            }
        }
        assert(post.covered());
    }

    /// An unlink changes the state as `cancelled` says.
    proof fn lemma_unlink_view(
        pre: OrderBook,
        post: OrderBook,
        is_bid: bool,
        price: u64,
        id: OrderId,
        idx: usize,
        j: int,
    )
        requires
            Self::unlink_step(pre, post, is_bid, price, id, idx, j),
        ensures
            post@ == pre@.cancelled(id),
    {
        let c0 = pre.cells();
        let c = post.cells();
        let ch0 = pre.chains(is_bid);
        let q = ch0[price];
        let n = q.len();
        let q2 = q.remove(j);
        let ob = !is_bid;
        assert(pre.side_wf(true) && pre.side_wf(false));
        assert(level_matches(c0, q, pre.levels(is_bid)[price], is_bid, price));
        assert(cell_linked(c0, q, j, is_bid, price));
        if j > 0 {
            assert(cell_linked(c0, q, j - 1, is_bid, price));
        }
        if j + 1 < n {
            assert(cell_linked(c0, q, j + 1, is_bid, price));
        }
        q.remove_ensures(j);
        Self::lemma_unlink_cells(pre, post, is_bid, price, id, idx, j);
        // The state.
        let ids0 = ids_of(c0, ch0);
        let qi = ids0[price];
        assert(qi =~= q.map_values(|i: usize| c0[i].order_id));
        assert(qi.index_of(id) == j) by {
            assert(qi[j] == id);
            let k = qi.index_of(id);
            assert(0 <= k < qi.len() && qi[k] == id);
            assert(cell_linked(c0, q, k, is_bid, price));
            assert(pre.index()[c0[q[k]].order_id] == q[k]);
        }
        assert(pre@.orders[id] == info_of(c0[idx]));
        let other = pre.chains(ob);
        assert forall|p: u64, k: int|
            other.contains_key(p) && 0 <= k < other[p].len() implies #[trigger] c[other[p][k]].order_id
            == c0[other[p][k]].order_id by {
            assert(level_matches(c0, other[p], pre.levels(ob)[p], ob, p));
            assert(cell_linked(c0, other[p], k, ob, p));
        }
        Self::lemma_ids_kept(c0, c, other);
        let chp = post.chains(is_bid);
        assert forall|p: u64, k: int|
            chp.contains_key(p) && 0 <= k < chp[p].len() implies #[trigger] c[chp[p][k]].order_id
            == c0[chp[p][k]].order_id by {
            if p == price {
                if k < j {
                    assert(chp[p][k] == q[k]);
                    assert(cell_linked(c0, q, k, is_bid, price));
                } else {
                    assert(chp[p][k] == q[k + 1]);
                    assert(cell_linked(c0, q, k + 1, is_bid, price));
                }
                assert(q.no_duplicates());
            } else {
                assert(level_matches(c0, ch0[p], pre.levels(is_bid)[p], is_bid, p));
                assert(cell_linked(c0, ch0[p], k, is_bid, p));
            }
        }
        Self::lemma_ids_kept(c0, c, chp);
        let ids = ids_of(c0, chp);
        if n > 1 {
            assert(ids[price] =~= qi.remove(j));
        }
        assert(ids =~= (if n == 1 {
            ids0.remove(price)
        } else {
            ids0.insert(price, qi.remove(j))
        }));
        assert forall|oid: OrderId| #[trigger]
            post.index().contains_key(oid) implies info_of(c[post.index()[oid]]) == info_of(
            c0[post.index()[oid]],
        ) by {
            assert(c0[pre.index()[oid]].order_id == oid);
        }
        Self::lemma_orders_kept(c0, c, post.index());
        assert(orders_of(c0, post.index()) =~= orders_of(c0, pre.index()).remove(id));
        if is_bid {
            assert(post@ == pre@.cancelled(id));
        } else {
            assert(post@ == pre@.cancelled(id));
        }
    }

    /// Unlinking a resting order from its chain and releasing its cell keeps
    /// the invariant and changes the state as `cancelled` says.
    proof fn lemma_unlink_wf(
        pre: OrderBook,
        post: OrderBook,
        is_bid: bool,
        price: u64,
        id: OrderId,
        idx: usize,
        j: int,
    )
        requires
            Self::unlink_step(pre, post, is_bid, price, id, idx, j),
        ensures
            post.wf(),
            post@ == pre@.cancelled(id),
            post.arena_len() == pre.arena_len() - 1,
    {
        Self::lemma_unlink_cells(pre, post, is_bid, price, id, idx, j);
        Self::lemma_unlink_sides(pre, post, is_bid, price, id, idx, j);
        Self::lemma_unlink_index(pre, post, is_bid, price, id, idx, j);
        Self::lemma_unlink_view(pre, post, is_bid, price, id, idx, j);
        assert(pre.cells().contains_key(idx));
        assert(post.cells().dom().finite());
    }

    /// Takes the resting order `id` out of its level, which disappears if it
    /// is left empty, and releases its cell.
    fn remove_resting(&mut self, id: OrderId) -> (r: RestingOrder)
        requires
            old(self).wf(),
            old(self)@.orders.contains_key(id),
        ensures
            final(self).wf(),
            final(self)@ == old(self)@.cancelled(id),
            final(self).arena_len() == old(self).arena_len() - 1,
            final(self).removed_from(*old(self), id),
            r.order_id == id,
            info_of(r) == old(self)@.orders[id],
    {
        let ghost pre = *self;
        let idx = index_get(&self.order_map, id).unwrap();
        let cell = arena_get(&self.orders, idx);
        let is_bid = match cell.side {
            IncomingSide::Buy => true,
            IncomingSide::Sell => false,
        };
        let price = cell.price;
        let ghost ch = self.chains(is_bid);
        proof {
            assert(self.cells().contains_key(idx));
            assert(ch.contains_key(price) && ch[price].contains(idx));
            assert(self.side_wf(true) && self.side_wf(false));
            assert(level_matches(self.cells(), ch[price], self.levels(is_bid)[price], is_bid, price));
        }
        let ghost q = ch[price];
        let ghost j = q.index_of(idx);
        proof {
            assert(cell_linked(self.cells(), q, j, is_bid, price));
            if j > 0 {
                assert(cell_linked(self.cells(), q, j - 1, is_bid, price));
            }
            if j + 1 < q.len() {
                assert(cell_linked(self.cells(), q, j + 1, is_bid, price));
            }
            assert(q.no_duplicates());
        }
        let level = self.level_get(is_bid, price).unwrap();
        let mut new_level = level;
        match cell.prev {
            Some(p) => {
                let mut prev_cell = arena_get(&self.orders, p);
                prev_cell.next = cell.next;
                arena_set(&mut self.orders, p, prev_cell);
            },
            None => {
                new_level.head = cell.next;
            },
        }
        match cell.next {
            Some(nx) => {
                let mut next_cell = arena_get(&self.orders, nx);
                next_cell.prev = cell.prev;
                arena_set(&mut self.orders, nx, next_cell);
            },
            None => {
                new_level.tail = cell.prev;
            },
        }
        new_level.total_orders = level.total_orders - 1;
        if new_level.total_orders == 0 {
            self.level_remove(is_bid, price);
        } else {
            self.level_set(is_bid, price, new_level);
        }
        let r = arena_remove(&mut self.orders, idx);
        index_remove(&mut self.order_map, id);
        let ghost q2: Seq<usize> = q.remove(j);
        let ghost next_chains = if q.len() == 1 {
            ch.remove(price)
        } else {
            ch.insert(price, q2)
        };
        if is_bid {
            self.bid_chains = Ghost(next_chains);
        } else {
            self.ask_chains = Ghost(next_chains);
        }
        proof {
            assert(self.cells() == unlinked(pre.cells(), q, j));
            Self::lemma_unlink_wf(pre, *self, is_bid, price, id, idx, j);
            Self::lemma_unlink_cells(pre, *self, is_bid, price, id, idx, j);
            assert(pre.chain_at(is_bid, price) == q);
        }
        r
    }

    /// Withdraws the resting order `order_id`. An unknown id leaves the book
    /// untouched and gives no event; otherwise one cancel event reports the
    /// quantity that was still open.
    pub fn cancel_order(&mut self, order_id: OrderId) -> (r: Vec<BookEvent>)
        requires
            old(self).wf(),
        ensures
            final(self).wf(),
            !old(self)@.orders.contains_key(order_id) ==> *final(self) == *old(self) && r@.len()
                == 0,
            old(self)@.orders.contains_key(order_id) ==> {
                &&& final(self)@ == old(self)@.cancelled(order_id)
                &&& final(self).arena_len() == old(self).arena_len() - 1
                &&& final(self).removed_from(*old(self), order_id)
                &&& r@.len() == 1
                &&& r@[0] matches BookEvent::Cancel(e) && e.order_id == order_id && e.qty == old(
                    self,
                )@.orders[order_id].qty && e.ts >= 0
            },
    {
        match index_get(&self.order_map, order_id) {
            None => Vec::new(),
            Some(_) => {
                let cell = self.remove_resting(order_id);
                let ts = now_micros();
                let mut out: Vec<BookEvent> = Vec::new();
                out.push(BookEvent::Cancel(CancelEvent { order_id, qty: cell.qty, ts }));
                out
            },
        }
    }

    /// Lowering the open quantity of a resting order, leaving some open, keeps
    /// the invariant and changes the state as `reduced` says.
    proof fn lemma_reduce_wf(pre: OrderBook, post: OrderBook, idx: usize, qty: u32)
        requires
            pre.wf(),
            pre.cells().contains_key(idx),
            qty > 0,
            post.cells() == pre.cells().insert(idx, RestingOrder { qty, ..pre.cells()[idx] }),
            post.levels(true) == pre.levels(true),
            post.levels(false) == pre.levels(false),
            post.chains(true) == pre.chains(true),
            post.chains(false) == pre.chains(false),
            post.index() == pre.index(),
        ensures
            post.wf(),
            post@ == pre@.reduced(pre.cells()[idx].order_id, qty),
            post.arena_len() == pre.arena_len(),
    {
        let c0 = pre.cells();
        let c = post.cells();
        let id = c0[idx].order_id;
        assert(c.dom() =~= c0.dom());
        assert forall|b: bool| #![auto] post.side_wf(b) by {
            assert(pre.side_wf(b));
            assert forall|p: u64| #[trigger] post.chains(b).contains_key(p) implies level_matches(
                c,
                post.chains(b)[p],
                post.levels(b)[p],
                b,
                p,
            ) by {
                let cp = pre.chains(b)[p];
                assert(level_matches(c0, cp, pre.levels(b)[p], b, p));
                assert forall|k: int| 0 <= k < cp.len() implies #[trigger] cell_linked(c, cp, k, b, p) by {
                    assert(cell_linked(c0, cp, k, b, p));
                }
            }
        }
        assert(post.side_wf(true) && post.side_wf(false));
        assert(post.index_wf());
        assert forall|i: usize| #[trigger] c.contains_key(i) implies ({
            let o = c[i];
            let s = o.side == IncomingSide::Buy;
            post.chains(s).contains_key(o.price) && post.chains(s)[o.price].contains(i)
        }) by {
            assert(c0.contains_key(i));
        }
        assert(post.covered());
        assert forall|b: bool| #![auto] ids_of(c, post.chains(b)) == ids_of(c0, pre.chains(b)) by {
            Self::lemma_ids_kept(c0, c, pre.chains(b));
        }
        assert(ids_of(c, post.chains(true)) == ids_of(c0, pre.chains(true)));
        assert(ids_of(c, post.chains(false)) == ids_of(c0, pre.chains(false)));
        assert(orders_of(c, post.index()) =~= orders_of(c0, pre.index()).insert(
            id,
            OrderInfo { qty, ..orders_of(c0, pre.index())[id] },
        ));
    }

    /// The levels of a side of the state are those of the book.
    proof fn lemma_side_dom(&self, is_bid: bool)
        requires
            self.wf(),
        ensures
            self@.side(is_bid).dom() == self.levels(is_bid).dom(),
    {
        assert(self.side_wf(true) && self.side_wf(false));
        assert(self@.side(is_bid).dom() =~= self.levels(is_bid).dom());
    }

    /// A finite, non-empty set of prices has a best one on either side.
    pub proof fn lemma_best_exists(is_bid: bool, prices: Set<u64>)
        requires
            prices.finite(),
            !prices.is_empty(),
        ensures
            is_best(is_bid, BookView::best_of(is_bid, prices), prices),
        decreases prices.len(),
    {
        let x = prices.choose();
        let rest = prices.remove(x);
        if rest.is_empty() {
            assert(is_best(is_bid, x, prices));
        } else {
            Self::lemma_best_exists(is_bid, rest);
            let b = BookView::best_of(is_bid, rest);
            if crate::price_key::precedes(is_bid, x, b) {
                assert(is_best(is_bid, x, prices));
            } else {
                assert(is_best(is_bid, b, prices));
            }
        }
    }

    /// A book with some level on a side has a best price there.
    pub proof fn lemma_best_of_book(&self, is_bid: bool)
        requires
            self.wf(),
            !self@.side(is_bid).dom().is_empty(),
        ensures
            is_best(is_bid, self@.best_price(is_bid), self@.side(is_bid).dom()),
    {
        self.lemma_side_dom(is_bid);
        Self::lemma_best_exists(is_bid, self@.side(is_bid).dom());
    }

    /// Taking a resting order out only removes prices from the book's sides.
    pub proof fn lemma_cancelled_sides(&self, id: OrderId)
        requires
            self.wf(),
            self@.orders.contains_key(id),
        ensures
            self@.cancelled(id).bids.dom().subset_of(self@.bids.dom()),
            self@.cancelled(id).asks.dom().subset_of(self@.asks.dom()),
    {
        let idx = self.index()[id];
        let o = self.cells()[idx];
        let s = o.side == IncomingSide::Buy;
        assert(self.cells().contains_key(idx));
        assert(self.chains(s).contains_key(o.price));
        assert(self@.side(s).contains_key(o.price));
        assert(self@.orders[id] == info_of(o));
    }

    /// The best level of the side `S`, if it has one.
    fn best_level<S: Side>(&self) -> (r: Option<(u64, PriceLevel)>)
        requires
            self.wf(),
        ensures
            r is None <==> self@.side(S::spec_is_bid()).dom().is_empty(),
            r matches Some((p, l)) ==> p == self@.best_price(S::spec_is_bid())
                && self.levels(S::spec_is_bid()).contains_key(p) && self.levels(
                S::spec_is_bid(),
            )[p] == l,
    {
        proof {
            self.lemma_side_dom(S::spec_is_bid());
        }
        let r = if S::is_bid() {
            self.bids.best()
        } else {
            self.asks.best()
        };
        proof {
            if let Some((p, _)) = r {
                let dom = self@.side(S::spec_is_bid()).dom();
                let c = choose|c: u64| is_best(S::spec_is_bid(), c, dom);
                assert(is_best(S::spec_is_bid(), p, dom));
                crate::book_side::lemma_best_unique(S::spec_is_bid(), p, c, dom);
            }
        }
        r
    }

    /// One step of matching the taker `taker`, with `remaining` open and an
    /// optional price limit, against the best level of the side `S`: the
    /// order at its head trades the smaller of the two open quantities, and
    /// leaves the book once it has none open.
    pub fn match_step<S: Side>(&mut self, taker: OrderId, remaining: u32, price_limit: Option<u64>) -> (r:
        Option<MatchEvent>)
        requires
            old(self).wf(),
        ensures
            final(self).wf(),
            match old(self)@.next_fill(S::spec_is_bid(), price_limit, remaining) {
                None => r is None && *final(self) == *old(self),
                Some((maker, price, traded)) => {
                    &&& r matches Some(e) && e.maker == maker && e.taker == taker && e.price
                        == price && e.qty == traded && e.ts >= 0
                    &&& final(self)@ == old(self)@.filled(S::spec_is_bid(), price, traded)
                    &&& final(self).arena_len() <= old(self).arena_len()
                    &&& traded > 0
                    &&& final(self)@.side(!S::spec_is_bid()) == old(self)@.side(!S::spec_is_bid())
                    &&& final(self)@.side(S::spec_is_bid()).dom().subset_of(
                        old(self)@.side(S::spec_is_bid()).dom(),
                    )
                    &&& final(self)@.orders.dom().subset_of(old(self)@.orders.dom())
                    &&& old(self).chain_at(S::spec_is_bid(), price)[0] == old(self).index()[maker]
                    &&& old(self)@.orders[maker].qty <= traded ==> final(self).removed_from(
                        *old(self),
                        maker,
                    )
                    &&& old(self)@.orders[maker].qty > traded ==> final(self).reduced_from(
                        *old(self),
                        maker,
                        (old(self)@.orders[maker].qty - traded) as u32,
                    )
                },
            },
    {
        if remaining == 0 {
            return None;
        }
        let (price, level) = match self.best_level::<S>() {
            None => {
                return None;
            },
            Some(best) => best,
        };
        match price_limit {
            Some(limit) => {
                if S::compare_price(price, limit) {
                    return None;
                }
            },
            None => {},
        }
        let ghost pre = *self;
        let ghost is_bid = S::spec_is_bid();
        let ghost chain = self.chains(is_bid)[price];
        proof {
            assert(self.side_wf(true) && self.side_wf(false));
            assert(self.chains(is_bid).contains_key(price));
            assert(level_matches(self.cells(), chain, level, is_bid, price));
            assert(cell_linked(self.cells(), chain, 0, is_bid, price));
        }
        let head = level.head.unwrap();
        let cell = arena_get(&self.orders, head);
        let traded = if remaining < cell.qty {
            remaining
        } else {
            cell.qty
        };
        proof {
            assert(self.index()[cell.order_id] == head);
            assert(self@.side(is_bid)[price] =~= chain.map_values(|i: usize| self.cells()[i].order_id));
            assert(self@.side(is_bid)[price][0] == cell.order_id);
            assert(self@.orders[cell.order_id] == info_of(cell));
            assert(cell.side == side_of(is_bid));
            assert(self.chain_at(is_bid, price) == chain);
        }
        if cell.qty == traded {
            self.remove_resting(cell.order_id);
        } else {
            let mut reduced = cell;
            reduced.qty = cell.qty - traded;
            arena_set(&mut self.orders, head, reduced);
            proof {
                Self::lemma_reduce_wf(pre, *self, head, reduced.qty);
            }
        }
        let ts = now_micros();
        Some(MatchEvent { maker: cell.order_id, taker, price, qty: traded, ts })
    }

    /// Rests `order` with `remaining` open among the bids.
    pub fn insert_bids(&mut self, order: RestingOrder, remaining: u32) -> (r: BookEvent)
        requires
            old(self).wf(),
            remaining > 0,
            !old(self)@.orders.contains_key(order.order_id),
            old(self)@.orders.len() < usize::MAX,
        ensures
            final(self).wf(),
            final(self)@ == old(self)@.inserted(true, order.order_id, order.price, remaining),
            final(self).arena_len() == old(self).arena_len() + 1,
            r matches BookEvent::Insert(e) && e.order_id == order.order_id && e.price
                == order.price && e.side == IncomingSide::Buy && e.qty == remaining && e.ts >= 0
                && final(self).rested_from(*old(self), true, order, remaining, e.ts),
    {
        self.insert_order(true, order, remaining)
    }

    /// Rests `order` with `remaining` open among the asks.
    pub fn insert_asks(&mut self, order: RestingOrder, remaining: u32) -> (r: BookEvent)
        requires
            old(self).wf(),
            remaining > 0,
            !old(self)@.orders.contains_key(order.order_id),
            old(self)@.orders.len() < usize::MAX,
        ensures
            final(self).wf(),
            final(self)@ == old(self)@.inserted(false, order.order_id, order.price, remaining),
            final(self).arena_len() == old(self).arena_len() + 1,
            r matches BookEvent::Insert(e) && e.order_id == order.order_id && e.price
                == order.price && e.side == IncomingSide::Sell && e.qty == remaining && e.ts >= 0
                && final(self).rested_from(*old(self), false, order, remaining, e.ts),
    {
        self.insert_order(false, order, remaining)
    }

    /// The walk of a market buy across the asks.
    pub fn match_market_buy(&self, order: &IncomingMarketOrder) -> (r: MatchIter<Asks>)
        ensures
            r.taker() == order.order_id,
            r.spec_remaining() == order.qty,
            r.limit() == None::<u64>,
    {
        MatchIter::new(order.order_id, order.qty, None)
    }

    /// The walk of a market sell across the bids.
    pub fn match_market_sell(&self, order: &IncomingMarketOrder) -> (r: MatchIter<Bids>)
        ensures
            r.taker() == order.order_id,
            r.spec_remaining() == order.qty,
            r.limit() == None::<u64>,
    {
        MatchIter::new(order.order_id, order.qty, None)
    }

    /// The walk of a limit buy across the asks, up to its price.
    pub fn match_limit_buy(&self, order: &IncomingLimitOrder) -> (r: MatchIter<Asks>)
        ensures
            r.taker() == order.order_id,
            r.spec_remaining() == order.qty,
            r.limit() == Some(order.price),
    {
        MatchIter::new(order.order_id, order.qty, Some(order.price))
    }

    /// The walk of a limit sell across the bids, down to its price.
    pub fn match_limit_sell(&self, order: &IncomingLimitOrder) -> (r: MatchIter<Bids>)
        ensures
            r.taker() == order.order_id,
            r.spec_remaining() == order.qty,
            r.limit() == Some(order.price),
    {
        MatchIter::new(order.order_id, order.qty, Some(order.price))
    }

    /// The arena key of the resting order `id`, if it rests.
    pub fn get_index(&self, id: OrderId) -> (r: Option<usize>)
        ensures
            r is Some <==> self@.orders.contains_key(id),
            r == (if self.index().contains_key(id) {
                Some(self.index()[id])
            } else {
                None::<usize>
            }),
    {
        index_get(&self.order_map, id)
    }

    /// The resting order `id`, if it rests.
    pub fn get_order(&self, id: OrderId) -> (r: Option<RestingOrder>)
        requires
            self.wf(),
        ensures
            r is Some <==> self@.orders.contains_key(id),
            r matches Some(o) ==> o.order_id == id && info_of(o) == self@.orders[id],
    {
        match self.get_index(id) {
            Some(idx) => Some(arena_get(&self.orders, idx)),
            None => None,
        }
    }

    /// A mutable reference to the cell of the resting order `id`, if it rests.
    /// The arena then holds whatever is written there, and nothing else of the
    /// book changes; changing the order's id, price, side or links can break
    /// the book's invariant, which this does not promise to keep.
    pub fn get_order_mut(&mut self, id: OrderId) -> (r: Option<&mut RestingOrder>)
        requires
            old(self).wf(),
        ensures
            r is Some <==> old(self)@.orders.contains_key(id),
            r matches Some(o) ==> *o == old(self).cells()[old(self).index()[id]]
                && final(self).cells() == old(self).cells().insert(old(self).index()[id], *final(o)),
            r is None ==> final(self).cells() == old(self).cells(),
            final(self).index() == old(self).index(),
            final(self).levels(true) == old(self).levels(true),
            final(self).levels(false) == old(self).levels(false),
            final(self).chains(true) == old(self).chains(true),
            final(self).chains(false) == old(self).chains(false),
    {
        match index_get(&self.order_map, id) {
            Some(idx) => {
                proof {
                    assert(self.cells().contains_key(idx));
                }
                Some(arena_entry_mut(&mut self.orders, idx))
            },
            None => None,
        }
    }

    /// The arena cell under `idx`, if it is occupied.
    pub fn order_at(&self, idx: usize) -> (r: Option<RestingOrder>)
        ensures
            r == (if self.cells().contains_key(idx) {
                Some(self.cells()[idx])
            } else {
                None::<RestingOrder>
            }),
    {
        arena_lookup(&self.orders, idx)
    }

    /// The arena holds one cell per resting order.
    pub proof fn lemma_arena_len(&self)
        requires
            self.wf(),
        ensures
            self.arena_len() == self@.orders.len(),
    {
        let cells = self.cells();
        let f = |i: usize| cells[i].order_id;
        assert(vstd::relations::injective_on(f, cells.dom())) by {
            assert forall|a: usize, b: usize|
                cells.dom().contains(a) && cells.dom().contains(b) && #[trigger] f(a) == #[trigger] f(
                    b,
                ) implies a == b by {
                assert(self.index()[cells[a].order_id] == a);
                assert(self.index()[cells[b].order_id] == b);
            }
        }
        assert(cells.dom().map(f) =~= self@.orders.dom()) by {
            assert forall|id: OrderId| #[trigger] self@.orders.dom().contains(id) implies cells.dom().map(
                f,
            ).contains(id) by {
                let i = self.index()[id];
                assert(cells.dom().contains(i) && f(i) == id);
            }
        }
        vstd::set_lib::lemma_map_size(cells.dom(), self@.orders.dom(), f);
    }

    /// The number of resting orders.
    pub fn len(&self) -> (r: usize)
        ensures
            r == self.arena_len(),
            self.wf() ==> r == self@.orders.len(),
    {
        proof {
            if self.wf() {
                self.lemma_arena_len();
            }
        }
        arena_len(&self.orders)
    }

    /// The bid side.
    pub fn bids(&self) -> (r: &BookSide<Bids>)
        ensures
            r@ == self.levels(true),
    {
        &self.bids
    }

    /// The ask side.
    pub fn asks(&self) -> (r: &BookSide<Asks>)
        ensures
            r@ == self.levels(false),
    {
        &self.asks
    }

    /// The best bid: the highest price among the bids, if any.
    pub fn best_bid(&self) -> (r: Option<PriceKey>)
        requires
            self.wf(),
        ensures
            r is None <==> self@.bids.dom().is_empty(),
            r matches Some(k) ==> k.0 == self@.best_price(true) && is_best(true, k.0, self@.bids.dom()),
    {
        match self.best_level::<Bids>() {
            Some((p, _)) => {
                proof {
                    self.lemma_best_of_book(true);
                }
                Some(PriceKey(p))
            },
            None => None,
        }
    }

    /// The best ask: the lowest price among the asks, if any.
    pub fn best_ask(&self) -> (r: Option<PriceKey>)
        requires
            self.wf(),
        ensures
            r is None <==> self@.asks.dom().is_empty(),
            r matches Some(k) ==> k.0 == self@.best_price(false) && is_best(false, k.0, self@.asks.dom()),
    {
        match self.best_level::<Asks>() {
            Some((p, _)) => {
                proof {
                    self.lemma_best_of_book(false);
                }
                Some(PriceKey(p))
            },
            None => None,
        }
    }

    /// Feeds the hasher one level: its price, its number of orders, then each
    /// order from head to tail.
    fn hash_level(&self, is_bid: bool, price: u64, hasher: &mut DefaultHasher)
        requires
            self.wf(),
            self@.side(is_bid).contains_key(price),
        ensures
            final(hasher)@ == old(hasher)@ + level_writes(self@, is_bid, price),
    {
        let ghost v = self@;
        let ghost chain = self.chains(is_bid)[price];
        let ghost q = v.side(is_bid)[price];
        proof {
            assert(self.side_wf(true) && self.side_wf(false));
            assert(self.chains(is_bid).contains_key(price));
            assert(level_matches(self.cells(), chain, self.levels(is_bid)[price], is_bid, price));
            assert(q =~= chain.map_values(|i: usize| self.cells()[i].order_id));
        }
        let level = self.level_get(is_bid, price).unwrap();
        let price_bytes = le_bytes_of(price, 8);
        hasher.write(price_bytes.as_slice());
        let count_bytes = le_bytes_of(level.total_orders, 8);
        hasher.write(count_bytes.as_slice());
        let ghost start = old(hasher)@ + seq![le_bytes(price as nat, 8), le_bytes(q.len(), 8)];
        proof {
            assert(hasher@ =~= start);
            assert(queue_writes(v, q.subrange(0, 0)) =~= Seq::<Seq<u8>>::empty());
            assert(start + Seq::<Seq<u8>>::empty() =~= start);
        }
        let mut cur = level.head;
        let mut k: u64 = 0;
        while k < level.total_orders
            invariant
                self.wf(),
                v == self@,
                level_matches(self.cells(), chain, level, is_bid, price),
                q == chain.map_values(|i: usize| self.cells()[i].order_id),
                k <= level.total_orders,
                level.total_orders == chain.len(),
                k < chain.len() ==> cur == Some(chain[k as int]),
                hasher@ == start + queue_writes(v, q.subrange(0, k as int)),
            decreases level.total_orders - k,
        {
            proof {
                assert(cell_linked(self.cells(), chain, k as int, is_bid, price));
            }
            let idx = cur.unwrap();
            let cell = arena_get(&self.orders, idx);
            proof {
                assert(self.index()[cell.order_id] == idx);
                assert(v.orders[cell.order_id] == info_of(cell));
                assert(q[k as int] == cell.order_id);
            }
            let id_bytes = le_bytes_of(cell.order_id, 8);
            hasher.write(id_bytes.as_slice());
            let qty_bytes = le_bytes_of(cell.qty as u64, 4);
            hasher.write(qty_bytes.as_slice());
            let code: u64 = match cell.side {
                IncomingSide::Buy => 0,
                IncomingSide::Sell => 1,
            };
            let side_bytes = le_bytes_of(code, 8);
            hasher.write(side_bytes.as_slice());
            proof {
                let q1 = q.subrange(0, k + 1);
                assert(q1.drop_last() =~= q.subrange(0, k as int));
                assert(q1.last() == cell.order_id);
                assert(hasher@ =~= start + queue_writes(v, q1));
            }
            cur = cell.next;
            k = k + 1;
        }
        proof {
            assert(q.subrange(0, k as int) =~= q);
            assert(hasher@ =~= old(hasher)@ + level_writes(v, is_bid, price));
        }
    }

    /// Feeds the hasher one side, level by level in priority order.
    fn hash_side(&self, is_bid: bool, hasher: &mut DefaultHasher)
        requires
            self.wf(),
        ensures
            final(hasher)@ == old(hasher)@ + prices_writes(
                self@,
                is_bid,
                priority_prices(is_bid, self@.side(is_bid).dom()),
            ),
    {
        proof {
            self.lemma_side_dom(is_bid);
        }
        let prices = if is_bid {
            self.bids.prices()
        } else {
            self.asks.prices()
        };
        let ghost ps = prices@;
        proof {
            assert(ps == priority_prices(is_bid, self@.side(is_bid).dom()));
            lemma_priority_prices_members(is_bid, self@.side(is_bid).dom());
            assert(prices_writes(self@, is_bid, ps.subrange(0, 0)) =~= Seq::<Seq<u8>>::empty());
            assert(old(hasher)@ + Seq::<Seq<u8>>::empty() =~= old(hasher)@);
        }
        let mut i: usize = 0;
        while i < prices.len()
            invariant
                self.wf(),
                i <= ps.len(),
                ps == prices@,
                ps == priority_prices(is_bid, self@.side(is_bid).dom()),
                forall|j: int|
                    0 <= j < ps.len() ==> #[trigger] self@.side(is_bid).dom().contains(ps[j]),
                hasher@ == old(hasher)@ + prices_writes(self@, is_bid, ps.subrange(0, i as int)),
            decreases ps.len() - i,
        {
            let p = prices[i];
            proof {
                assert(self@.side(is_bid).dom().contains(ps[i as int]));
            }
            self.hash_level(is_bid, p, hasher);
            proof {
                let s1 = ps.subrange(0, i + 1);
                assert(s1.drop_last() =~= ps.subrange(0, i as int));
                assert(hasher@ =~= old(hasher)@ + prices_writes(self@, is_bid, s1));
            }
            i = i + 1;
        }
        proof {
            assert(ps.subrange(0, i as int) =~= ps);
        }
    }

    /// A digest of the book's state: for each side in priority order, each
    /// price with its number of orders, then each order from oldest to newest
    /// with its id, open quantity and side. Arena keys and times play no part.
    pub fn checksum(&self) -> (r: u64)
        requires
            self.wf(),
        ensures
            r == book_checksum(self@),
    {
        let mut hasher = DefaultHasher::new();
        self.hash_side(true, &mut hasher);
        self.hash_side(false, &mut hasher);
        proof {
            assert(hasher@ =~= checksum_writes(self@));
        }
        hasher.finish()
    }

    /// The state of a well-formed book has the shape that `BookView::wf`
    /// describes.
    pub proof fn lemma_view_wf(&self)
        requires
            self.wf(),
        ensures
            self@.wf(),
    {
        let v = self@;
        let cells = self.cells();
        assert(self.side_wf(true) && self.side_wf(false));
        assert forall|b: bool, p: u64| #[trigger] v.side(b).contains_key(p) implies v.side(b)[p].len()
            > 0 && v.side(b)[p].no_duplicates() by {
            let c = self.chains(b)[p];
            assert(self.chains(b).contains_key(p));
            assert(level_matches(cells, c, self.levels(b)[p], b, p));
            assert(v.side(b)[p] =~= c.map_values(|i: usize| cells[i].order_id));
            assert forall|x: int, y: int| 0 <= x < y < c.len() implies v.side(b)[p][x] != v.side(
                b,
            )[p][y] by {
                assert(cell_linked(cells, c, x, b, p));
                assert(cell_linked(cells, c, y, b, p));
                assert(self.index()[cells[c[x]].order_id] == c[x]);
                assert(self.index()[cells[c[y]].order_id] == c[y]);
            }
        }
        assert forall|b: bool, p: u64, j: int|
            v.side(b).contains_key(p) && 0 <= j < v.side(b)[p].len() implies ({
            let id = #[trigger] v.side(b)[p][j];
            &&& v.orders.contains_key(id)
            &&& v.orders[id].price == p
            &&& v.orders[id].side == side_of(b)
            &&& v.orders[id].qty > 0
        }) by {
            let c = self.chains(b)[p];
            assert(self.chains(b).contains_key(p));
            assert(level_matches(cells, c, self.levels(b)[p], b, p));
            assert(cell_linked(cells, c, j, b, p));
            assert(v.side(b)[p][j] == cells[c[j]].order_id);
            assert(self.index()[cells[c[j]].order_id] == c[j]);
        }
        assert forall|id: OrderId| #[trigger] v.orders.contains_key(id) implies ({
            let o = v.orders[id];
            let b = o.side == IncomingSide::Buy;
            v.side(b).contains_key(o.price) && v.side(b)[o.price].contains(id)
        }) by {
            let i = self.index()[id];
            let o = cells[i];
            let b = o.side == IncomingSide::Buy;
            assert(cells.contains_key(i));
            let c = self.chains(b)[o.price];
            let k = choose|k: int| 0 <= k < c.len() && c[k] == i;
            assert(v.side(b)[o.price][k] == id);
        }
    }

    /// Index coherence: every resting order is found through the index at an
    /// arena cell that holds its id; every occupied cell is indexed under its
    /// id and lies on the chain of its level; and every key on a chain is an
    /// occupied cell. So the keys reached by walking the levels, the keys the
    /// index holds and the occupied cells are the same.
    pub proof fn lemma_index_coherence(&self)
        requires
            self.wf(),
        ensures
            forall|id: OrderId| #[trigger]
                self@.orders.contains_key(id) ==> self.index().contains_key(id)
                    && self.cells().contains_key(self.index()[id])
                    && self.cells()[self.index()[id]].order_id == id,
            forall|i: usize| #[trigger]
                self.cells().contains_key(i) ==> self.index().contains_key(self.cells()[i].order_id)
                    && self.index()[self.cells()[i].order_id] == i && self.chain_at(
                    self.cells()[i].side == IncomingSide::Buy,
                    self.cells()[i].price,
                ).contains(i),
            forall|b: bool, p: u64, j: int|
                self.chains(b).contains_key(p) && 0 <= j < self.chains(b)[p].len()
                    ==> self.cells().contains_key(#[trigger] self.chains(b)[p][j]),
    {
        assert(self.side_wf(true) && self.side_wf(false));
        assert forall|b: bool, p: u64, j: int|
            self.chains(b).contains_key(p) && 0 <= j < self.chains(b)[p].len()
            implies self.cells().contains_key(#[trigger] self.chains(b)[p][j]) by {
            assert(level_matches(self.cells(), self.chains(b)[p], self.levels(b)[p], b, p));
            assert(cell_linked(self.cells(), self.chains(b)[p], j, b, p));
        }
    }

    /// Following `next` links from position `k` of a level's chain walks the
    /// rest of the chain.
    proof fn lemma_walk_chain(
        cells: Map<usize, RestingOrder>,
        c: Seq<usize>,
        level: PriceLevel,
        is_bid: bool,
        price: u64,
        k: int,
    )
        requires
            level_matches(cells, c, level, is_bid, price),
            0 <= k < c.len(),
        ensures
            walk(cells, Some(c[k]), (c.len() - k) as nat) == c.subrange(k, c.len() as int),
        decreases c.len() - k,
    {
        assert(cell_linked(cells, c, k, is_bid, price));
        if k + 1 < c.len() {
            Self::lemma_walk_chain(cells, c, level, is_bid, price, k + 1);
            assert(c.subrange(k, c.len() as int) =~= seq![c[k]] + c.subrange(k + 1, c.len() as int));
        } else {
            assert(walk(cells, None, 0) == Seq::<usize>::empty());
            assert(c.subrange(k, c.len() as int) =~= seq![c[k]]);
        }
    }

    /// Level well-formedness: every level has a head and some orders, and
    /// walking `next` from its head visits exactly `total_orders` cells, all
    /// at its price and on its side, ending at its tail, whose `next` is
    /// empty.
    pub proof fn lemma_level_well_formed(&self, is_bid: bool, price: u64)
        requires
            self.wf(),
            self.levels(is_bid).contains_key(price),
        ensures
            ({
                let l = self.levels(is_bid)[price];
                let w = walk(self.cells(), l.head, l.total_orders as nat);
                &&& l.head is Some
                &&& l.total_orders > 0
                &&& w.len() == l.total_orders
                &&& l.tail == Some(w.last())
                &&& self.cells()[w.last()].next is None
                &&& forall|j: int|
                    0 <= j < w.len() ==> self.cells().contains_key(#[trigger] w[j])
                        && self.cells()[w[j]].price == price && self.cells()[w[j]].side == side_of(
                        is_bid,
                    )
            }),
    {
        assert(self.side_wf(true) && self.side_wf(false));
        let c = self.chains(is_bid)[price];
        let l = self.levels(is_bid)[price];
        assert(self.chains(is_bid).contains_key(price));
        assert(level_matches(self.cells(), c, l, is_bid, price));
        Self::lemma_walk_chain(self.cells(), c, l, is_bid, price, 0);
        assert(c.subrange(0, c.len() as int) =~= c);
        assert(cell_linked(self.cells(), c, c.len() - 1, is_bid, price));
        assert forall|j: int| 0 <= j < c.len() implies self.cells().contains_key(#[trigger] c[j])
            && self.cells()[c[j]].price == price && self.cells()[c[j]].side == side_of(is_bid) by {
            assert(cell_linked(self.cells(), c, j, is_bid, price));
        }
    }

    /// A text dump of the book, sent once at the end of a run: a `BIDS` line
    /// and the bid levels, then an `ASKS` line and the ask levels, each in
    /// priority order with its number of orders.
    pub fn print_book(&self) -> (r: BookEvent)
        ensures
            r matches BookEvent::BookSnapshot(t) && t@ == "BIDS\n"@ + levels_text(
                priority_prices(true, self.levels(true).dom()),
                self.levels(true),
            ) + "ASKS\n"@ + levels_text(
                priority_prices(false, self.levels(false).dom()),
                self.levels(false),
            ),
    {
        proof {
            reveal_strlit("BIDS\n");
            reveal_strlit("ASKS\n");
        }
        let mut text = String::from_str("BIDS\n");
        text.append(self.bids.print_levels().as_str());
        text.append("ASKS\n");
        text.append(self.asks.print_levels().as_str());
        BookEvent::BookSnapshot(text)
    }

    /// The level at `price` on a side, if there is one.
    fn level_get(&self, is_bid: bool, price: u64) -> (r: Option<PriceLevel>)
        ensures
            r == (if self.levels(is_bid).contains_key(price) {
                Some(self.levels(is_bid)[price])
            } else {
                None::<PriceLevel>
            }),
    {
        if is_bid {
            self.bids.get(price)
        } else {
            self.asks.get(price)
        }
    }

    /// Sets the level at `price` on a side.
    fn level_set(&mut self, is_bid: bool, price: u64, level: PriceLevel)
        ensures
            final(self).levels(is_bid) == old(self).levels(is_bid).insert(price, level),
            final(self).levels(!is_bid) == old(self).levels(!is_bid),
            final(self).cells() == old(self).cells(),
            final(self).index() == old(self).index(),
            final(self).chains(true) == old(self).chains(true),
            final(self).chains(false) == old(self).chains(false),
    {
        if is_bid {
            self.bids.set(price, level);
        } else {
            self.asks.set(price, level);
        }
    }

    /// Erases the level at `price` on a side.
    fn level_remove(&mut self, is_bid: bool, price: u64)
        ensures
            final(self).levels(is_bid) == old(self).levels(is_bid).remove(price),
            final(self).levels(!is_bid) == old(self).levels(!is_bid),
            final(self).cells() == old(self).cells(),
            final(self).index() == old(self).index(),
            final(self).chains(true) == old(self).chains(true),
            final(self).chains(false) == old(self).chains(false),
    {
        if is_bid {
            self.bids.remove(price);
        } else {
            self.asks.remove(price);
        }
    }

    /// Rests `order` with `remaining` open on the bid side (`is_bid`) or the
    /// ask side, at the tail of the level at its price, and reports it.
    pub fn insert_order(&mut self, is_bid: bool, order: RestingOrder, remaining: u32) -> (r:
        BookEvent)
        requires
            old(self).wf(),
            remaining > 0,
            !old(self)@.orders.contains_key(order.order_id),
            old(self)@.orders.len() < usize::MAX,
        ensures
            final(self).wf(),
            final(self)@ == old(self)@.inserted(is_bid, order.order_id, order.price, remaining),
            final(self).arena_len() == old(self).arena_len() + 1,
            r matches BookEvent::Insert(e) && e.order_id == order.order_id && e.price
                == order.price && e.side == side_of(is_bid) && e.qty == remaining && e.ts >= 0
                && final(self).rested_from(*old(self), is_bid, order, remaining, e.ts),
    {
        proof {
            self.lemma_arena_len();
        }
        let ghost c0 = self.cells();
        let ghost ch0 = self.chains(is_bid);
        let ghost idx0 = self.index();
        let ghost v0 = self@;
        let ts = now_micros();
        let price = order.price;
        let id = order.order_id;
        let side = if is_bid {
            IncomingSide::Buy
        } else {
            IncomingSide::Sell
        };
        let level = match self.level_get(is_bid, price) {
            Some(l) => l,
            None => PriceLevel::empty(),
        };
        let ghost q: Seq<usize> = if ch0.contains_key(price) {
            ch0[price]
        } else {
            Seq::empty()
        };
        proof {
            if ch0.contains_key(price) {
                assert(level_matches(c0, q, level, is_bid, price));
                assert forall|j: int| 0 <= j < q.len() implies c0.contains_key(#[trigger] q[j]) by {
                    assert(cell_linked(c0, q, j, is_bid, price));
                }
                Self::lemma_chain_len(q, c0);
            } else {
                assert(!self.levels(is_bid).contains_key(price));
            }
            assert(level.total_orders == q.len());
        }
        let cell = RestingOrder {
            order_id: id,
            price,
            qty: remaining,
            side,
            prev: level.tail,
            next: None,
            ts,
        };
        let idx = arena_insert(&mut self.orders, cell);
        let ghost c1 = self.cells();
        match level.tail {
            Some(t) => {
                let mut tail_cell = arena_get(&self.orders, t);
                tail_cell.next = Some(idx);
                arena_set(&mut self.orders, t, tail_cell);
            },
            None => {},
        }
        let new_level = PriceLevel {
            head: match level.head {
                Some(h) => Some(h),
                None => Some(idx),
            },
            tail: Some(idx),
            total_orders: level.total_orders + 1,
        };
        self.level_set(is_bid, price, new_level);
        index_insert(&mut self.order_map, id, idx);
        let ghost q1 = q.push(idx);
        if is_bid {
            self.bid_chains = Ghost(ch0.insert(price, q1));
        } else {
            self.ask_chains = Ghost(ch0.insert(price, q1));
        }
        proof {
            if q.len() > 0 {
                assert(cell_linked(c0, q, q.len() - 1, is_bid, price));
                assert(self.cells() == c0.insert(idx, cell).insert(
                    q.last(),
                    RestingOrder { next: Some(idx), ..c0[q.last()] },
                ));
            }
            Self::lemma_insert_wf(*old(self), *self, is_bid, price, id, idx, q, cell, remaining);
            assert(old(self).chain_at(is_bid, price) == q);
            assert(self.index()[id] == idx);
            assert(self.cells().dom() =~= c0.dom().insert(idx));
            assert forall|i: usize| #[trigger]
                c0.contains_key(i) && (q.len() == 0 || i != q.last()) implies self.cells()[i]
                == c0[i] by {
                assert(i != idx);
            }
        }
        BookEvent::Insert(InsertEvent { order_id: id, price, side, qty: remaining, ts })
    }
}

} // verus!
