use vstd::prelude::*;
use crate::error::{OrderBookError, PriceLevelError};
use crate::level::{level_wf, seq_has_order_id, PriceLevel};
use crate::order::{order_wf, Order, OrderKind};
use crate::trade::PriceLevelChangedEvent;
use crate::types::{Side, TimeInForce};

verus! {

/// Where a live order rests: its price and side. The order id is the key.
#[derive(Clone, Copy, Debug, PartialEq, Eq, Structural)]
pub struct OrderLocation {
    pub order_id: u64,
    pub price: u64,
    pub side: Side,
}

/// Prices strictly ascend along the sequence of levels.
pub open spec fn levels_sorted(levels: Seq<PriceLevel>) -> bool {
    forall|i: int, j: int|
        0 <= i < j < levels.len() ==> (#[trigger] levels[i]).price < (#[trigger] levels[j]).price
}

/// One side of the book: sorted, well-formed, no empty level, every order on
/// the right side.
pub open spec fn side_levels_wf(levels: Seq<PriceLevel>, side: Side) -> bool {
    &&& levels_sorted(levels)
    &&& forall|i: int| 0 <= i < levels.len() ==> level_wf(#[trigger] levels[i])
    &&& forall|i: int| 0 <= i < levels.len() ==> (#[trigger] levels[i]).orders@.len() > 0
    &&& forall|i: int, j: int|
        0 <= i < levels.len() && 0 <= j < levels[i].orders@.len() ==> (#[trigger] levels[i].orders@[j]).side
            == side
}

/// Whether the side holds a level at `price`.
pub open spec fn side_has_level(levels: Seq<PriceLevel>, price: u64) -> bool {
    exists|i: int| 0 <= i < levels.len() && (#[trigger] levels[i]).price == price
}

/// The index of the level at `price`, where one exists.
pub open spec fn level_index_of(levels: Seq<PriceLevel>, price: u64) -> int {
    choose|i: int| 0 <= i < levels.len() && (#[trigger] levels[i]).price == price
}

/// The total resting quantity at `price` on this side, zero if no level.
#[verifier::opaque]
pub open spec fn level_total_at(levels: Seq<PriceLevel>, price: u64) -> int {
    if side_has_level(levels, price) {
        let i = level_index_of(levels, price);
        levels[i].visible_sum + levels[i].hidden_sum
    } else {
        0
    }
}

/// The visible resting quantity at `price` on this side, zero if no level.
#[verifier::opaque]
pub open spec fn level_visible_at(levels: Seq<PriceLevel>, price: u64) -> int {
    if side_has_level(levels, price) {
        levels[level_index_of(levels, price)].visible_sum as int
    } else {
        0
    }
}

/// Whether an order with `id` rests anywhere on this side.
pub open spec fn side_has_id(levels: Seq<PriceLevel>, id: u64) -> bool {
    exists|i: int|
        0 <= i < levels.len() && seq_has_order_id(#[trigger] levels[i].orders@, id)
}

/// Whether an order with `id` rests at `price` on this side.
pub open spec fn side_has_id_at(levels: Seq<PriceLevel>, id: u64, price: u64) -> bool {
    exists|i: int|
        0 <= i < levels.len() && (#[trigger] levels[i]).price == price && seq_has_order_id(
            levels[i].orders@,
            id,
        )
}

/// Whether this exact order value rests somewhere on this side.
#[verifier::opaque]
pub open spec fn side_has_order(levels: Seq<PriceLevel>, o: Order) -> bool {
    exists|i: int, j: int|
        0 <= i < levels.len() && 0 <= j < levels[i].orders@.len() && (#[trigger] levels[i].orders@[j])
            == o
}

/// A side shrunk by one cancelled order keeps every surviving order value.
pub proof fn lemma_side_values_after_cancel(s0: Seq<PriceLevel>, s1: Seq<PriceLevel>)
    requires
        (exists|pos: int| 0 <= pos < s0.len() && s1 == s0.remove(pos)) || (exists|pos: int, j: int|
            0 <= pos < s0.len() && 0 <= j < s0[pos].orders@.len() && s1.len() == s0.len() && s1
                == s0.update(pos, s1[pos]) && (#[trigger] s1[pos].orders@) == (
            #[trigger] s0[pos].orders@.remove(j))),
    ensures
        forall|i: int, j: int|
            0 <= i < s1.len() && 0 <= j < s1[i].orders@.len() ==> side_has_order(
                s0,
                #[trigger] s1[i].orders@[j],
            ),
{
    reveal(side_has_order);
    if exists|pos: int| 0 <= pos < s0.len() && s1 == s0.remove(pos) {
        let pos = choose|pos: int| 0 <= pos < s0.len() && s1 == s0.remove(pos);
        assert forall|i: int, j: int|
            0 <= i < s1.len() && 0 <= j < s1[i].orders@.len() implies side_has_order(
            s0,
            #[trigger] s1[i].orders@[j],
        ) by {
            let oi = if i < pos {
                i
            } else {
                i + 1
            };
            assert(s1[i] == s0[oi]);
            assert(s0[oi].orders@[j] == s1[i].orders@[j]);
        }
    } else {
        let (pos, j0) = choose|pos: int, j0: int|
            0 <= pos < s0.len() && 0 <= j0 < s0[pos].orders@.len() && s1.len() == s0.len() && s1
                == s0.update(pos, s1[pos]) && (#[trigger] s1[pos].orders@) == (
            #[trigger] s0[pos].orders@.remove(j0));
        assert forall|i: int, j: int|
            0 <= i < s1.len() && 0 <= j < s1[i].orders@.len() implies side_has_order(
            s0,
            #[trigger] s1[i].orders@[j],
        ) by {
            if i != pos {
                assert(s1[i] == s0[i]);
                assert(s0[i].orders@[j] == s1[i].orders@[j]);
            } else {
                let oj = if j < j0 {
                    j
                } else {
                    j + 1
                };
                assert(s1[pos].orders@[j] == s0[pos].orders@[oj]);
            }
        }
    }
}

/// No two location entries share an order id.
pub open spec fn locs_distinct(locs: Seq<OrderLocation>) -> bool {
    forall|i: int, j: int|
        0 <= i < j < locs.len() ==> (#[trigger] locs[i]).order_id != (#[trigger] locs[j]).order_id
}

/// Whether the location index has an entry for `id`.
pub open spec fn loc_has_id(locs: Seq<OrderLocation>, id: u64) -> bool {
    exists|i: int| 0 <= i < locs.len() && (#[trigger] locs[i]).order_id == id
}

/// Whether the location index tracks `id` at exactly (`price`, `side`).
pub open spec fn loc_tracks(locs: Seq<OrderLocation>, id: u64, price: u64, side: Side) -> bool {
    exists|k: int|
        0 <= k < locs.len() && #[trigger] locs[k] == (OrderLocation { order_id: id, price, side })
}

/// Every order resting on this side is tracked at its price and side.
pub open spec fn side_covered(levels: Seq<PriceLevel>, side: Side, locs: Seq<OrderLocation>) -> bool {
    forall|i: int, j: int|
        0 <= i < levels.len() && 0 <= j < levels[i].orders@.len() ==> loc_tracks(
            locs,
            (#[trigger] levels[i].orders@[j]).id,
            levels[i].price,
            side,
        )
}

/// A price-time-priority order book for one instrument: two price-ordered
/// sides, a location index over the live orders, last-trade and market-close
/// state, a transaction id counter, and the pending price-level-change
/// events not yet handed to the listener.
pub struct OrderBook {
    /// Buy levels, prices strictly ascending: the best bid is the last.
    pub bids: Vec<PriceLevel>,
    /// Sell levels, prices strictly ascending: the best ask is the first.
    pub asks: Vec<PriceLevel>,
    /// The live orders' whereabouts, keyed by order id.
    pub order_locations: Vec<OrderLocation>,
    /// Price of the most recent trade, meaningful once `has_traded`.
    pub last_trade_price: u64,
    /// Whether any trade has occurred in this book.
    pub has_traded: bool,
    /// The market close timestamp, meaningful once `has_market_close`.
    pub market_close_timestamp: u64,
    /// Whether a market close timestamp is set.
    pub has_market_close: bool,
    /// The next transaction id to hand out; saturates at `u64::MAX`.
    pub next_transaction_id: u64,
    /// Price-level-change events not yet drained by the host.
    pub pending_events: Vec<PriceLevelChangedEvent>,
}

/// One side of the book, chosen by `side`.
pub open spec fn book_side_seq(b: OrderBook, side: Side) -> Seq<PriceLevel> {
    if side == Side::Buy {
        b.bids@
    } else {
        b.asks@
    }
}

/// The book is never crossed at rest: the best bid stays below the best ask.
pub open spec fn book_uncrossed(b: OrderBook) -> bool {
    b.bids@.len() > 0 && b.asks@.len() > 0 ==> b.bids@.last().price < b.asks@.first().price
}

/// Every tracked id rests where its entry says.
pub open spec fn locs_exact(b: OrderBook) -> bool {
    forall|k: int|
        0 <= k < b.order_locations@.len() ==> side_has_id_at(
            book_side_seq(b, (#[trigger] b.order_locations@[k]).side),
            b.order_locations@[k].order_id,
            b.order_locations@[k].price,
        )
}

/// The book's invariant, which every operation preserves: both sides well
/// formed, the book uncrossed, and the location index exactly the set of
/// live order ids, each tracked at its true price and side.
pub open spec fn book_wf(b: OrderBook) -> bool {
    &&& side_levels_wf(b.bids@, Side::Buy)
    &&& side_levels_wf(b.asks@, Side::Sell)
    &&& book_uncrossed(b)
    &&& locs_distinct(b.order_locations@)
    &&& side_covered(b.bids@, Side::Buy, b.order_locations@)
    &&& side_covered(b.asks@, Side::Sell, b.order_locations@)
    &&& locs_exact(b)
}

/// The two books hold the same state, field for field, with the container
/// fields compared by their contents.
pub open spec fn book_unchanged(a: OrderBook, b: OrderBook) -> bool {
    &&& a.bids@ == b.bids@
    &&& a.asks@ == b.asks@
    &&& a.order_locations@ == b.order_locations@
    &&& a.last_trade_price == b.last_trade_price
    &&& a.has_traded == b.has_traded
    &&& a.market_close_timestamp == b.market_close_timestamp
    &&& a.has_market_close == b.has_market_close
    &&& a.next_transaction_id == b.next_transaction_id
    &&& a.pending_events@ == b.pending_events@
}

/// The market close the book evaluates `Day` orders against, if set.
pub open spec fn spec_market_close(b: OrderBook) -> Option<u64> {
    if b.has_market_close {
        Some(b.market_close_timestamp)
    } else {
        None
    }
}

/// Whether an entry at `price` on `side` would cross the opposite best.
pub open spec fn spec_crosses(b: OrderBook, price: u64, side: Side) -> bool {
    if side == Side::Buy {
        b.asks@.len() > 0 && price >= b.asks@.first().price
    } else {
        b.bids@.len() > 0 && price <= b.bids@.last().price
    }
}

impl OrderBook {
    /// An empty book.
    pub fn new() -> (r: OrderBook)
        ensures
            book_wf(r),
            r.bids@.len() == 0,
            r.asks@.len() == 0,
            r.order_locations@.len() == 0,
            !r.has_traded,
            !r.has_market_close,
            r.pending_events@.len() == 0,
            r.last_trade_price == 0,
            r.market_close_timestamp == 0,
            r.next_transaction_id == 1,
    {
        OrderBook {
            bids: Vec::new(),
            asks: Vec::new(),
            order_locations: Vec::new(),
            last_trade_price: 0,
            has_traded: false,
            market_close_timestamp: 0,
            has_market_close: false,
            next_transaction_id: 1,
            pending_events: Vec::new(),
        }
    }

    /// The highest bid price, if any bid rests.
    pub fn best_bid(&self) -> (r: Option<u64>)
        ensures
            match r {
                Some(p) => self.bids@.len() > 0 && p == self.bids@.last().price,
                None => self.bids@.len() == 0,
            },
    {
        let n = self.bids.len();
        if n == 0 {
            None
        } else {
            Some(self.bids[n - 1].price)
        }
    }

    /// The lowest ask price, if any ask rests.
    pub fn best_ask(&self) -> (r: Option<u64>)
        ensures
            match r {
                Some(p) => self.asks@.len() > 0 && p == self.asks@.first().price,
                None => self.asks@.len() == 0,
            },
    {
        if self.asks.len() == 0 {
            None
        } else {
            Some(self.asks[0].price)
        }
    }

    /// Whether an entry at `price` on `side` would cross the opposite best:
    /// a buy crosses when it reaches the best ask, a sell when it reaches
    /// the best bid.
    pub fn will_cross_market(&self, price: u64, side: Side) -> (r: bool)
        ensures
            r == spec_crosses(*self, price, side),
    {
        match side {
            Side::Buy => match self.best_ask() {
                Some(best_ask) => price >= best_ask,
                None => false,
            },
            Side::Sell => match self.best_bid() {
                Some(best_bid) => price <= best_bid,
                None => false,
            },
        }
    }

    /// The market close the book evaluates `Day` orders against, if set.
    pub fn market_close(&self) -> (r: Option<u64>)
        ensures
            r == (if self.has_market_close {
                Some(self.market_close_timestamp)
            } else {
                None
            }),
    {
        if self.has_market_close {
            Some(self.market_close_timestamp)
        } else {
            None
        }
    }

    /// Sets the market close timestamp that `Day` orders expire at.
    pub fn set_market_close(&mut self, close_ms: u64)
        requires
            book_wf(*old(self)),
        ensures
            book_wf(*final(self)),
            *final(self) == (OrderBook {
                market_close_timestamp: close_ms,
                has_market_close: true,
                ..*old(self)
            }),
    {
        self.market_close_timestamp = close_ms;
        self.has_market_close = true;
    }

    /// Whether `order` is expired at `now_ms`, under this book's market
    /// close if one is set.
    pub fn has_expired(&self, order: &Order, now_ms: u64) -> (r: bool)
        ensures
            r == order.time_in_force.spec_is_expired(
                now_ms,
                if self.has_market_close {
                    Some(self.market_close_timestamp)
                } else {
                    None
                },
            ),
    {
        order.time_in_force.is_expired(now_ms, self.market_close())
    }

    /// The index of the location entry for `order_id`, if the order is live.
    pub fn find_location_index(&self, order_id: u64) -> (r: Option<usize>)
        ensures
            match r {
                Some(i) => i < self.order_locations@.len()
                    && self.order_locations@[i as int].order_id == order_id,
                None => !loc_has_id(self.order_locations@, order_id),
            },
    {
        let mut i: usize = 0;
        while i < self.order_locations.len()
            invariant
                0 <= i <= self.order_locations@.len(),
                forall|j: int|
                    0 <= j < i ==> (#[trigger] self.order_locations@[j]).order_id != order_id,
            decreases self.order_locations@.len() - i,
        {
            if self.order_locations[i].order_id == order_id {
                return Some(i);
            }
            i = i + 1;
        }
        None
    }
}

/// Extending the level at `pos` with an order of a fresh id adds exactly
/// that id to the side, at exactly that level's price.
pub proof fn lemma_side_ids_after_level_push(
    levels: Seq<PriceLevel>,
    pos: int,
    lvl2: PriceLevel,
    o: Order,
)
    requires
        0 <= pos < levels.len(),
        levels[pos].price == o.price,
        lvl2.price == o.price,
        lvl2.orders@ == levels[pos].orders@.push(o),
        !side_has_id(levels, o.id),
    ensures
        forall|id2: u64, p2: u64|
            #[trigger] side_has_id_at(levels.update(pos, lvl2), id2, p2) <==> (side_has_id_at(
                levels,
                id2,
                p2,
            ) || (id2 == o.id && p2 == o.price)),
        forall|id2: u64|
            #[trigger] side_has_id(levels.update(pos, lvl2), id2) <==> (side_has_id(levels, id2)
                || id2 == o.id),
{
    let t = levels.update(pos, lvl2);
    assert(forall|i: int| 0 <= i < t.len() && i != pos ==> #[trigger] t[i] == levels[i]);
    assert(t[pos] == lvl2);
    assert forall|id2: u64, p2: u64| #[trigger] side_has_id_at(t, id2, p2) implies (side_has_id_at(
        levels,
        id2,
        p2,
    ) || (id2 == o.id && p2 == o.price)) by {
        let i = choose|i: int|
            0 <= i < t.len() && (#[trigger] t[i]).price == p2 && seq_has_order_id(
                t[i].orders@,
                id2,
            );
        if i != pos {
            assert(side_has_id_at(levels, id2, p2));
        } else {
            let j = choose|j: int|
                0 <= j < lvl2.orders@.len() && (#[trigger] lvl2.orders@[j]).id == id2;
            if j < levels[pos].orders@.len() {
                assert(levels[pos].orders@[j].id == id2);
                assert(seq_has_order_id(levels[pos].orders@, id2));
                assert(side_has_id_at(levels, id2, p2));
            } else {
                assert(lvl2.orders@[j] == o);
            }
        }
    }
    assert forall|id2: u64, p2: u64| side_has_id_at(levels, id2, p2) implies side_has_id_at(
        t,
        id2,
        p2,
    ) by {
        let i = choose|i: int|
            0 <= i < levels.len() && (#[trigger] levels[i]).price == p2 && seq_has_order_id(
                levels[i].orders@,
                id2,
            );
        if i != pos {
            assert(t[i].price == p2 && seq_has_order_id(t[i].orders@, id2));
        } else {
            let j = choose|j: int|
                0 <= j < levels[pos].orders@.len() && (#[trigger] levels[pos].orders@[j]).id
                    == id2;
            assert(lvl2.orders@[j] == levels[pos].orders@[j]);
            assert(seq_has_order_id(lvl2.orders@, id2));
            assert(t[pos].price == p2 && seq_has_order_id(t[pos].orders@, id2));
        }
    }
    assert(side_has_id_at(t, o.id, o.price)) by {
        assert(lvl2.orders@[levels[pos].orders@.len() as int] == o);
        assert(seq_has_order_id(lvl2.orders@, o.id));
        assert(t[pos].price == o.price);
    }
    assert forall|id2: u64| #[trigger] side_has_id(t, id2) implies (side_has_id(levels, id2)
        || id2 == o.id) by {
        let i = choose|i: int|
            0 <= i < t.len() && seq_has_order_id(#[trigger] t[i].orders@, id2);
        assert(side_has_id_at(t, id2, t[i].price));
    }
    assert forall|id2: u64| side_has_id(levels, id2) implies side_has_id(t, id2) by {
        let i = choose|i: int|
            0 <= i < levels.len() && seq_has_order_id(#[trigger] levels[i].orders@, id2);
        assert(side_has_id_at(levels, id2, levels[i].price));
        assert(side_has_id_at(t, id2, levels[i].price));
        let i2 = choose|i2: int|
            0 <= i2 < t.len() && (#[trigger] t[i2]).price == levels[i].price && seq_has_order_id(
                t[i2].orders@,
                id2,
            );
        assert(seq_has_order_id(t[i2].orders@, id2));
    }
    assert(side_has_id(t, o.id)) by {
        assert(seq_has_order_id(t[pos].orders@, o.id));
    }
}

/// Inserting a fresh single-order level at `pos` adds exactly that order's
/// id to the side, at exactly the new level's price.
pub proof fn lemma_side_ids_after_level_insert(
    levels: Seq<PriceLevel>,
    pos: int,
    lvl: PriceLevel,
    o: Order,
)
    requires
        0 <= pos <= levels.len(),
        lvl.price == o.price,
        lvl.orders@ =~= seq![o],
        !side_has_level(levels, o.price),
    ensures
        forall|id2: u64, p2: u64|
            #[trigger] side_has_id_at(levels.insert(pos, lvl), id2, p2) <==> (side_has_id_at(
                levels,
                id2,
                p2,
            ) || (id2 == o.id && p2 == o.price)),
        forall|id2: u64|
            #[trigger] side_has_id(levels.insert(pos, lvl), id2) <==> (side_has_id(levels, id2)
                || id2 == o.id),
{
    let t = levels.insert(pos, lvl);
    assert(forall|i: int| 0 <= i < pos ==> #[trigger] t[i] == levels[i]);
    assert(forall|i: int| pos < i < t.len() ==> #[trigger] t[i] == levels[i - 1]);
    assert(t[pos] == lvl);
    assert(seq_has_order_id(lvl.orders@, o.id)) by {
        assert(lvl.orders@[0] == o);
    }
    assert forall|id2: u64, p2: u64| #[trigger] side_has_id_at(t, id2, p2) implies (side_has_id_at(
        levels,
        id2,
        p2,
    ) || (id2 == o.id && p2 == o.price)) by {
        let i = choose|i: int|
            0 <= i < t.len() && (#[trigger] t[i]).price == p2 && seq_has_order_id(
                t[i].orders@,
                id2,
            );
        if i < pos {
            assert(side_has_id_at(levels, id2, p2));
        } else if i > pos {
            assert(levels[i - 1].price == p2 && seq_has_order_id(levels[i - 1].orders@, id2));
            assert(side_has_id_at(levels, id2, p2));
        } else {
            let j = choose|j: int|
                0 <= j < lvl.orders@.len() && (#[trigger] lvl.orders@[j]).id == id2;
            assert(lvl.orders@[j] == o);
        }
    }
    assert forall|id2: u64, p2: u64| side_has_id_at(levels, id2, p2) implies side_has_id_at(
        t,
        id2,
        p2,
    ) by {
        let i = choose|i: int|
            0 <= i < levels.len() && (#[trigger] levels[i]).price == p2 && seq_has_order_id(
                levels[i].orders@,
                id2,
            );
        if i < pos {
            assert(t[i].price == p2 && seq_has_order_id(t[i].orders@, id2));
        } else {
            assert(t[i + 1].price == p2 && seq_has_order_id(t[i + 1].orders@, id2));
        }
    }
    assert(side_has_id_at(t, o.id, o.price)) by {
        assert(t[pos].price == o.price && seq_has_order_id(t[pos].orders@, o.id));
    }
    assert forall|id2: u64| #[trigger] side_has_id(t, id2) implies (side_has_id(levels, id2)
        || id2 == o.id) by {
        let i = choose|i: int|
            0 <= i < t.len() && seq_has_order_id(#[trigger] t[i].orders@, id2);
        assert(side_has_id_at(t, id2, t[i].price));
    }
    assert forall|id2: u64| side_has_id(levels, id2) implies side_has_id(t, id2) by {
        let i = choose|i: int|
            0 <= i < levels.len() && seq_has_order_id(#[trigger] levels[i].orders@, id2);
        if i < pos {
            assert(seq_has_order_id(t[i].orders@, id2));
        } else {
            assert(seq_has_order_id(t[i + 1].orders@, id2));
        }
    }
    assert(side_has_id(t, o.id)) by {
        assert(seq_has_order_id(t[pos].orders@, o.id));
    }
}

/// The first position whose level price reaches `price`; equally, the number
/// of levels priced strictly below it.
pub fn find_insert_point(levels: &Vec<PriceLevel>, price: u64) -> (r: usize)
    ensures
        r <= levels@.len(),
        forall|j: int| 0 <= j < r ==> (#[trigger] levels@[j]).price < price,
        r < levels@.len() ==> levels@[r as int].price >= price,
{
    let mut i: usize = 0;
    while i < levels.len()
        invariant
            0 <= i <= levels@.len(),
            forall|j: int| 0 <= j < i ==> (#[trigger] levels@[j]).price < price,
        decreases levels@.len() - i,
    {
        if levels[i].price >= price {
            return i;
        }
        i = i + 1;
    }
    i
}

/// Inserts `order` at the tail of its price's level on one side, creating
/// the level if absent, keeping the side sorted. Rejects an order with
/// nothing visible, or one that would overflow its level's accounting; on
/// rejection the side is unchanged.
pub fn side_insert(levels: &mut Vec<PriceLevel>, order: Order, side: Side) -> (r: Result<
    u64,
    PriceLevelError,
>)
    requires
        side_levels_wf(old(levels)@, side),
        order.price > 0,
        order.side == side,
        !side_has_id(old(levels)@, order.id),
    ensures
        side_levels_wf(final(levels)@, side),
        match r {
            Ok(vq) => {
                &&& order_wf(order)
                &&& vq == level_visible_at(old(levels)@, order.price) + order.spec_visible()
                &&& final(levels)@.len() > 0
                &&& final(levels)@.last().price == (if old(levels)@.len() > 0
                    && old(levels)@.last().price > order.price {
                    old(levels)@.last().price
                } else {
                    order.price
                })
                &&& final(levels)@.first().price == (if old(levels)@.len() > 0
                    && old(levels)@.first().price < order.price {
                    old(levels)@.first().price
                } else {
                    order.price
                })
                &&& level_total_at(old(levels)@, order.price) + order.spec_visible()
                    + order.spec_hidden() <= u64::MAX
                &&& forall|id2: u64, p2: u64|
                    #[trigger] side_has_id_at(final(levels)@, id2, p2) <==> (side_has_id_at(
                        old(levels)@,
                        id2,
                        p2,
                    ) || (id2 == order.id && p2 == order.price))
                &&& forall|id2: u64|
                    #[trigger] side_has_id(final(levels)@, id2) <==> (side_has_id(
                        old(levels)@,
                        id2,
                    ) || id2 == order.id)
                &&& exists|i: int|
                    0 <= i < final(levels)@.len() && (#[trigger] final(levels)@[i]).price
                        == order.price && final(levels)@[i].orders@.len() > 0
                        && final(levels)@[i].orders@.last() == order
                &&& (if side_has_level(old(levels)@, order.price) {
                    exists|lvl: PriceLevel|
                        final(levels)@ == old(levels)@.update(
                            level_index_of(old(levels)@, order.price),
                            lvl,
                        ) && (#[trigger] lvl.orders@) == old(levels)@[level_index_of(
                            old(levels)@,
                            order.price,
                        )].orders@.push(order) && lvl.price == order.price
                } else {
                    exists|pos: int|
                        0 <= pos <= old(levels)@.len() && (#[trigger] final(levels)@.len())
                            == old(levels)@.len() + 1 && final(levels)@
                            == old(levels)@.insert(pos, final(levels)@[pos])
                            && final(levels)@[pos].orders@ =~= seq![order]
                            && (#[trigger] final(levels)@[pos]).price == order.price
                })
            },
            Err(PriceLevelError::InvalidQuantity) => {
                &&& order.spec_visible() == 0
                &&& final(levels)@ == old(levels)@
            },
            Err(PriceLevelError::ArithmeticOverflow) => {
                &&& order.spec_visible() > 0
                &&& level_total_at(old(levels)@, order.price) + order.spec_visible()
                    + order.spec_hidden() > u64::MAX
                &&& final(levels)@ == old(levels)@
            },
        },
{
    let ghost levels0 = levels@;
    let pos = find_insert_point(levels, order.price);
    if pos < levels.len() && levels[pos].price == order.price {
        proof {
            reveal(level_total_at);
            reveal(level_visible_at);
            assert(side_has_level(levels0, order.price));
            let i = level_index_of(levels0, order.price);
            assert(0 <= i < levels0.len() && levels0[i].price == order.price);
            assert(i == pos) by {
                if i < pos {
                    assert(levels0[i].price < order.price);
                } else if i > pos {
                    assert(levels0[pos as int].price < levels0[i].price);
                }
            }
            assert(!seq_has_order_id(levels0[pos as int].orders@, order.id)) by {
                if seq_has_order_id(levels0[pos as int].orders@, order.id) {
                    assert(side_has_id(levels0, order.id));
                }
            }
        }
        let mut lvl = levels.remove(pos);
        let res = lvl.add_order(order);
        match res {
            Ok(()) => {
                proof {
                    assert(levels@.insert(pos as int, lvl) =~= levels0.update(pos as int, lvl));
                    lemma_side_ids_after_level_push(levels0, pos as int, lvl, order);
                }
                let vq = lvl.visible_quantity();
                levels.insert(pos, lvl);
                proof {
                    let t = levels@;
                    assert(t == levels0.update(pos as int, lvl));
                    assert(forall|i: int| 0 <= i < t.len() && i != pos ==> #[trigger] t[i]
                        == levels0[i]);
                    assert(t[pos as int].orders@.last() == order);
                    assert(level_total_at(levels0, order.price) == levels0[pos as int].visible_sum
                        + levels0[pos as int].hidden_sum);
                    assert(level_visible_at(levels0, order.price) == levels0[
                        pos as int].visible_sum as int);
                }
                Ok(vq)
            },
            Err(e) => {
                proof {
                    assert(levels@.insert(pos as int, lvl) =~= levels0);
                    assert(level_total_at(levels0, order.price) == levels0[pos as int].visible_sum
                        + levels0[pos as int].hidden_sum);
                }
                levels.insert(pos, lvl);
                Err(e)
            },
        }
    } else {
        proof {
            reveal(level_total_at);
            reveal(level_visible_at);
            assert(!side_has_level(levels0, order.price)) by {
                if side_has_level(levels0, order.price) {
                    let i = level_index_of(levels0, order.price);
                    assert(0 <= i < levels0.len() && levels0[i].price == order.price);
                    if i < pos {
                        assert(levels0[i].price < order.price);
                    } else if i > pos {
                        assert(levels0[pos as int].price < levels0[i].price);
                    }
                }
            }
            assert(level_total_at(levels0, order.price) == 0);
        }
        let mut lvl = PriceLevel::new(order.price);
        let res = lvl.add_order(order);
        match res {
            Ok(()) => {
                proof {
                    assert(lvl.orders@ =~= seq![order]);
                    lemma_side_ids_after_level_insert(levels0, pos as int, lvl, order);
                }
                let vq = lvl.visible_quantity();
                levels.insert(pos, lvl);
                proof {
                    let t = levels@;
                    assert(t == levels0.insert(pos as int, lvl));
                    assert(forall|i: int| 0 <= i < pos ==> #[trigger] t[i] == levels0[i]);
                    assert(forall|i: int| pos < i < t.len() ==> #[trigger] t[i] == levels0[i - 1]);
                    assert(t[pos as int] == lvl);
                    assert(t[pos as int].orders@.last() == order);
                    assert(levels_sorted(t)) by {
                        assert forall|i: int, j: int| 0 <= i < j < t.len() implies (
                        #[trigger] t[i]).price < (#[trigger] t[j]).price by {
                            if i < pos && j == pos {
                                assert(levels0[i].price < order.price);
                            } else if i == pos && j > pos {
                                assert(levels0[j - 1].price >= levels0[pos as int].price);
                                assert(levels0[pos as int].price > order.price || levels0[
                                    pos as int].price >= order.price);
                                assert(levels0[pos as int].price != order.price);
                            }
                        }
                    }
                }
                Ok(vq)
            },
            Err(e) => Err(e),
        }
    }
}

/// Appending a location entry with a fresh id adds exactly that entry.
pub proof fn lemma_loc_push(locs: Seq<OrderLocation>, x: OrderLocation)
    requires
        !loc_has_id(locs, x.order_id),
        locs_distinct(locs),
    ensures
        locs_distinct(locs.push(x)),
        forall|id: u64, p: u64, s: Side|
            #[trigger] loc_tracks(locs.push(x), id, p, s) <==> (loc_tracks(locs, id, p, s) || (
            OrderLocation { order_id: id, price: p, side: s }) == x),
        forall|id: u64|
            #[trigger] loc_has_id(locs.push(x), id) <==> (loc_has_id(locs, id) || id
                == x.order_id),
{
    let t = locs.push(x);
    assert(forall|j: int| 0 <= j < locs.len() ==> #[trigger] t[j] == locs[j]);
    assert(t[locs.len() as int] == x);
    assert forall|id: u64, p: u64, s: Side| #[trigger] loc_tracks(t, id, p, s) implies (
    loc_tracks(locs, id, p, s) || (OrderLocation { order_id: id, price: p, side: s }) == x) by {
        let k = choose|k: int|
            0 <= k < t.len() && #[trigger] t[k] == (OrderLocation { order_id: id, price: p, side: s });
        if k < locs.len() {
            assert(locs[k] == (OrderLocation { order_id: id, price: p, side: s }));
        }
    }
    assert forall|id: u64, p: u64, s: Side| loc_tracks(locs, id, p, s) implies loc_tracks(
        t,
        id,
        p,
        s,
    ) by {
        let k = choose|k: int|
            0 <= k < locs.len() && #[trigger] locs[k] == (OrderLocation {
                order_id: id,
                price: p,
                side: s,
            });
        assert(t[k] == (OrderLocation { order_id: id, price: p, side: s }));
    }
    assert(loc_tracks(t, x.order_id, x.price, x.side)) by {
        assert(t[locs.len() as int] == (OrderLocation {
            order_id: x.order_id,
            price: x.price,
            side: x.side,
        }));
    }
    assert forall|id: u64| #[trigger] loc_has_id(t, id) implies (loc_has_id(locs, id) || id
        == x.order_id) by {
        let k = choose|k: int| 0 <= k < t.len() && (#[trigger] t[k]).order_id == id;
        if k < locs.len() {
            assert(locs[k].order_id == id);
        }
    }
    assert forall|id: u64| loc_has_id(locs, id) implies loc_has_id(t, id) by {
        let k = choose|k: int| 0 <= k < locs.len() && (#[trigger] locs[k]).order_id == id;
        assert(t[k].order_id == id);
    }
    assert(loc_has_id(t, x.order_id)) by {
        assert(t[locs.len() as int].order_id == x.order_id);
    }
}

impl OrderBook {
    /// Places a resting order in the book: rejects the reserved zero price, a
    /// duplicate id, an entry that would cross the opposite best, an order
    /// with nothing visible, and one that would overflow its level's
    /// accounting; otherwise appends the order at the tail of its price's
    /// level, records its location, and queues a change event carrying the
    /// level's new visible total. A rejected order leaves the book unchanged.
    pub fn place_order_in_book(&mut self, order: Order, now_ms: u64) -> (r: Result<
        (),
        OrderBookError,
    >)
        requires
            book_wf(*old(self)),
        ensures
            book_wf(*final(self)),
            final(self).last_trade_price == old(self).last_trade_price,
            final(self).has_traded == old(self).has_traded,
            final(self).market_close_timestamp == old(self).market_close_timestamp,
            final(self).has_market_close == old(self).has_market_close,
            final(self).next_transaction_id == old(self).next_transaction_id,
            match r {
                Ok(()) => {
                    &&& order.price > 0
                    &&& order_wf(order)
                    &&& !loc_has_id(old(self).order_locations@, order.id)
                    &&& !order.time_in_force.spec_is_expired(
                        now_ms,
                        spec_market_close(*old(self)),
                    )
                    &&& !spec_crosses(*old(self), order.price, order.side)
                    &&& final(self).order_locations@ == old(self).order_locations@.push(
                        OrderLocation { order_id: order.id, price: order.price, side: order.side },
                    )
                    &&& (if order.side == Side::Buy {
                        final(self).asks@ == old(self).asks@
                    } else {
                        final(self).bids@ == old(self).bids@
                    })
                    &&& forall|id2: u64, p2: u64|
                        #[trigger] side_has_id_at(
                            book_side_seq(*final(self), order.side),
                            id2,
                            p2,
                        ) <==> (side_has_id_at(book_side_seq(*old(self), order.side), id2, p2) || (
                        id2 == order.id && p2 == order.price))
                    &&& exists|i: int|
                        0 <= i < book_side_seq(*final(self), order.side).len() && (
                        #[trigger] book_side_seq(*final(self), order.side)[i]).price == order.price
                            && book_side_seq(*final(self), order.side)[i].orders@.len() > 0
                            && book_side_seq(*final(self), order.side)[i].orders@.last() == order
                    &&& final(self).pending_events@ == old(self).pending_events@.push(
                        final(self).pending_events@.last(),
                    )
                    &&& final(self).pending_events@.last().side == order.side
                    &&& final(self).pending_events@.last().price == order.price
                    &&& final(self).pending_events@.last().quantity == level_visible_at(
                        book_side_seq(*old(self), order.side),
                        order.price,
                    ) + order.spec_visible()
                },
                Err(OrderBookError::InvalidPriceLevel(p)) => {
                    &&& p == 0
                    &&& order.price == 0
                    &&& book_unchanged(*final(self), *old(self))
                },
                Err(OrderBookError::InvalidOperation) => {
                    &&& order.price > 0
                    &&& (loc_has_id(old(self).order_locations@, order.id)
                        || order.time_in_force.spec_is_expired(
                            now_ms,
                            spec_market_close(*old(self)),
                        ))
                    &&& book_unchanged(*final(self), *old(self))
                },
                Err(OrderBookError::PriceCrossing { price, side, opposite_price }) => {
                    &&& price == order.price
                    &&& side == order.side
                    &&& order.price > 0
                    &&& !loc_has_id(old(self).order_locations@, order.id)
                    &&& !order.time_in_force.spec_is_expired(
                        now_ms,
                        spec_market_close(*old(self)),
                    )
                    &&& spec_crosses(*old(self), order.price, order.side)
                    &&& opposite_price == (if order.side == Side::Buy {
                        old(self).asks@.first().price
                    } else {
                        old(self).bids@.last().price
                    })
                    &&& book_unchanged(*final(self), *old(self))
                },
                Err(OrderBookError::PriceLevelError(e)) => {
                    &&& order.price > 0
                    &&& !loc_has_id(old(self).order_locations@, order.id)
                    &&& !order.time_in_force.spec_is_expired(
                        now_ms,
                        spec_market_close(*old(self)),
                    )
                    &&& !spec_crosses(*old(self), order.price, order.side)
                    &&& (e == PriceLevelError::InvalidQuantity <==> order.spec_visible() == 0)
                    &&& (e == PriceLevelError::ArithmeticOverflow ==> level_total_at(
                        book_side_seq(*old(self), order.side),
                        order.price,
                    ) + order.spec_visible() + order.spec_hidden() > u64::MAX)
                    &&& book_unchanged(*final(self), *old(self))
                },
                _ => false,
            },
    {
        let ghost b0 = *self;
        if order.price == 0 {
            return Err(OrderBookError::InvalidPriceLevel(0));
        }
        if self.find_location_index(order.id).is_some() {
            return Err(OrderBookError::InvalidOperation);
        }
        if self.has_expired(&order, now_ms) {
            return Err(OrderBookError::InvalidOperation);
        }
        if self.will_cross_market(order.price, order.side) {
            let opposite_price = match order.side {
                Side::Buy => match self.best_ask() {
                    Some(p) => p,
                    None => 0,
                },
                Side::Sell => match self.best_bid() {
                    Some(p) => p,
                    None => 0,
                },
            };
            return Err(OrderBookError::PriceCrossing {
                price: order.price,
                side: order.side,
                opposite_price,
            });
        }
        proof {
            assert(!side_has_id(book_side_seq(b0, order.side), order.id)) by {
                if side_has_id(book_side_seq(b0, order.side), order.id) {
                    let i = choose|i: int|
                        0 <= i < book_side_seq(b0, order.side).len() && seq_has_order_id(
                            #[trigger] book_side_seq(b0, order.side)[i].orders@,
                            order.id,
                        );
                    let lvl = book_side_seq(b0, order.side)[i];
                    let j = choose|j: int|
                        0 <= j < lvl.orders@.len() && (#[trigger] lvl.orders@[j]).id == order.id;
                    assert(loc_tracks(b0.order_locations@, order.id, lvl.price, order.side));
                    assert(loc_has_id(b0.order_locations@, order.id)) by {
                        let k = choose|k: int|
                            0 <= k < b0.order_locations@.len() && #[trigger] b0.order_locations@[k]
                                == (OrderLocation {
                                order_id: order.id,
                                price: lvl.price,
                                side: order.side,
                            });
                        assert(b0.order_locations@[k].order_id == order.id);
                    }
                }
            }
        }
        let placed: Result<u64, PriceLevelError>;
        if matches!(order.side, Side::Buy) {
            proof {
                assert(order.side == Side::Buy);
            }
            placed = side_insert(&mut self.bids, order, Side::Buy);
        } else {
            proof {
                assert(order.side == Side::Sell);
            }
            placed = side_insert(&mut self.asks, order, Side::Sell);
        }
        match placed {
            Err(e) => {
                proof {
                    assert(book_unchanged(*self, b0));
                }
                Err(OrderBookError::PriceLevelError(e))
            },
            Ok(vq) => {
                let x = OrderLocation { order_id: order.id, price: order.price, side: order.side };
                proof {
                    lemma_loc_push(b0.order_locations@, x);
                }
                self.order_locations.push(x);
                self.pending_events.push(
                    PriceLevelChangedEvent { side: order.side, price: order.price, quantity: vq },
                );
                proof {
                    let b1 = *self;
                    let locs1 = b1.order_locations@;
                    let t = book_side_seq(b1, order.side);
                    let s0 = book_side_seq(b0, order.side);
                    // The book stays uncrossed: the mutated side's best moved
                    // toward the order's price, which does not cross.
                    assert(book_uncrossed(b1));
                    // Every resting order is still tracked.
                    assert forall|i: int, j: int|
                        0 <= i < t.len() && 0 <= j < t[i].orders@.len() implies loc_tracks(
                        locs1,
                        (#[trigger] t[i].orders@[j]).id,
                        t[i].price,
                        order.side,
                    ) by {
                        let id2 = t[i].orders@[j].id;
                        let p2 = t[i].price;
                        assert(seq_has_order_id(t[i].orders@, id2));
                        assert(side_has_id_at(t, id2, p2));
                        if side_has_id_at(s0, id2, p2) {
                            let i0 = choose|i0: int|
                                0 <= i0 < s0.len() && (#[trigger] s0[i0]).price == p2
                                    && seq_has_order_id(s0[i0].orders@, id2);
                            let j0 = choose|j0: int|
                                0 <= j0 < s0[i0].orders@.len() && (#[trigger] s0[i0].orders@[j0]).id
                                    == id2;
                            assert(loc_tracks(b0.order_locations@, id2, p2, order.side));
                        }
                    }
                    // The untouched side is still tracked.
                    let u = book_side_seq(b1, if order.side == Side::Buy {
                        Side::Sell
                    } else {
                        Side::Buy
                    });
                    assert forall|i: int, j: int|
                        0 <= i < u.len() && 0 <= j < u[i].orders@.len() implies loc_tracks(
                        locs1,
                        (#[trigger] u[i].orders@[j]).id,
                        u[i].price,
                        if order.side == Side::Buy {
                            Side::Sell
                        } else {
                            Side::Buy
                        },
                    ) by {
                    }
                    // Every tracked id still rests where its entry says.
                    assert forall|k: int| 0 <= k < locs1.len() implies side_has_id_at(
                        book_side_seq(b1, (#[trigger] locs1[k]).side),
                        locs1[k].order_id,
                        locs1[k].price,
                    ) by {
                        if k < b0.order_locations@.len() {
                            let e = b0.order_locations@[k];
                            assert(locs1[k] == e);
                            assert(side_has_id_at(
                                book_side_seq(b0, e.side),
                                e.order_id,
                                e.price,
                            ));
                            if e.side == order.side {
                                assert(side_has_id_at(t, e.order_id, e.price));
                            }
                        } else {
                            assert(locs1[k] == x);
                            assert(side_has_id_at(t, order.id, order.price));
                        }
                    }
                    assert(book_wf(b1));
                }
                Ok(())
            },
        }
    }
}

/// The standard limit order that `add_limit_order` builds.
pub open spec fn standard_order(
    order_id: u64,
    price: u64,
    quantity: u64,
    side: Side,
    time_in_force: TimeInForce,
    now_ms: u64,
) -> Order {
    Order {
        id: order_id,
        price,
        side,
        timestamp_ms: now_ms,
        time_in_force,
        kind: OrderKind::Standard { quantity },
    }
}

impl OrderBook {
    /// Enters a standard limit order as a resting order: rejected when the
    /// price is the zero sentinel, the id is already live, the policy is
    /// already expired, the entry would cross the opposite best, or the
    /// quantity is zero or overflows the level's accounting. A rejected
    /// order leaves the book unchanged; an accepted one rests at the tail of
    /// its price's level.
    pub fn add_limit_order(
        &mut self,
        order_id: u64,
        price: u64,
        quantity: u64,
        side: Side,
        time_in_force: TimeInForce,
        now_ms: u64,
    ) -> (r: Result<(), OrderBookError>)
        requires
            book_wf(*old(self)),
        ensures
            book_wf(*final(self)),
            final(self).last_trade_price == old(self).last_trade_price,
            final(self).has_traded == old(self).has_traded,
            final(self).market_close_timestamp == old(self).market_close_timestamp,
            final(self).has_market_close == old(self).has_market_close,
            final(self).next_transaction_id == old(self).next_transaction_id,
            match r {
                Ok(()) => {
                    &&& price > 0
                    &&& quantity > 0
                    &&& !loc_has_id(old(self).order_locations@, order_id)
                    &&& !time_in_force.spec_is_expired(now_ms, spec_market_close(*old(self)))
                    &&& !spec_crosses(*old(self), price, side)
                    &&& final(self).order_locations@ == old(self).order_locations@.push(
                        OrderLocation { order_id, price, side },
                    )
                    &&& (if side == Side::Buy {
                        final(self).asks@ == old(self).asks@
                    } else {
                        final(self).bids@ == old(self).bids@
                    })
                    &&& forall|id2: u64, p2: u64|
                        #[trigger] side_has_id_at(book_side_seq(*final(self), side), id2, p2)
                            <==> (side_has_id_at(book_side_seq(*old(self), side), id2, p2) || (id2
                            == order_id && p2 == price))
                    &&& exists|i: int|
                        0 <= i < book_side_seq(*final(self), side).len() && (
                        #[trigger] book_side_seq(*final(self), side)[i]).price == price
                            && book_side_seq(*final(self), side)[i].orders@.len() > 0
                            && book_side_seq(*final(self), side)[i].orders@.last()
                            == standard_order(order_id, price, quantity, side, time_in_force, now_ms)
                    &&& final(self).pending_events@ == old(self).pending_events@.push(
                        final(self).pending_events@.last(),
                    )
                    &&& final(self).pending_events@.last().side == side
                    &&& final(self).pending_events@.last().price == price
                    &&& final(self).pending_events@.last().quantity == level_visible_at(
                        book_side_seq(*old(self), side),
                        price,
                    ) + quantity
                },
                Err(OrderBookError::InvalidPriceLevel(p)) => {
                    &&& p == 0
                    &&& price == 0
                    &&& book_unchanged(*final(self), *old(self))
                },
                Err(OrderBookError::InvalidOperation) => {
                    &&& price > 0
                    &&& (loc_has_id(old(self).order_locations@, order_id)
                        || time_in_force.spec_is_expired(now_ms, spec_market_close(*old(self))))
                    &&& book_unchanged(*final(self), *old(self))
                },
                Err(OrderBookError::PriceCrossing { price: p, side: s, opposite_price }) => {
                    &&& p == price
                    &&& s == side
                    &&& spec_crosses(*old(self), price, side)
                    &&& opposite_price == (if side == Side::Buy {
                        old(self).asks@.first().price
                    } else {
                        old(self).bids@.last().price
                    })
                    &&& book_unchanged(*final(self), *old(self))
                },
                Err(OrderBookError::PriceLevelError(e)) => {
                    &&& (e == PriceLevelError::InvalidQuantity <==> quantity == 0)
                    &&& (e == PriceLevelError::ArithmeticOverflow ==> level_total_at(
                        book_side_seq(*old(self), side),
                        price,
                    ) + quantity > u64::MAX)
                    &&& book_unchanged(*final(self), *old(self))
                },
                _ => false,
            },
    {
        let order = Order {
            id: order_id,
            price,
            side,
            timestamp_ms: now_ms,
            time_in_force,
            kind: OrderKind::Standard { quantity },
        };
        self.place_order_in_book(order, now_ms)
    }
}


/// Shrinking the level at `pos` by one order removes exactly that order's
/// id from the side, provided the id rests nowhere else on it.
pub proof fn lemma_side_ids_after_level_shrink(
    levels: Seq<PriceLevel>,
    pos: int,
    lvl2: PriceLevel,
    id0: u64,
)
    requires
        0 <= pos < levels.len(),
        lvl2.price == levels[pos].price,
        seq_has_order_id(levels[pos].orders@, id0),
        !seq_has_order_id(lvl2.orders@, id0),
        forall|id2: u64|
            id2 != id0 ==> (#[trigger] seq_has_order_id(lvl2.orders@, id2) <==> seq_has_order_id(
                levels[pos].orders@,
                id2,
            )),
        forall|i: int|
            0 <= i < levels.len() && i != pos ==> !seq_has_order_id(
                #[trigger] levels[i].orders@,
                id0,
            ),
    ensures
        !side_has_id(levels.update(pos, lvl2), id0),
        forall|id2: u64, p2: u64|
            id2 != id0 ==> (#[trigger] side_has_id_at(levels.update(pos, lvl2), id2, p2)
                <==> side_has_id_at(levels, id2, p2)),
        forall|id2: u64|
            id2 != id0 ==> (#[trigger] side_has_id(levels.update(pos, lvl2), id2)
                <==> side_has_id(levels, id2)),
{
    let t = levels.update(pos, lvl2);
    assert(forall|i: int| 0 <= i < t.len() && i != pos ==> #[trigger] t[i] == levels[i]);
    assert(t[pos] == lvl2);
    assert(!side_has_id(t, id0)) by {
        if side_has_id(t, id0) {
            let i = choose|i: int|
                0 <= i < t.len() && seq_has_order_id(#[trigger] t[i].orders@, id0);
            assert(i == pos);
            assert(false);
        }
    }
    assert forall|id2: u64, p2: u64|
        id2 != id0 && #[trigger] side_has_id_at(t, id2, p2) implies side_has_id_at(
        levels,
        id2,
        p2,
    ) by {
        let i = choose|i: int|
            0 <= i < t.len() && (#[trigger] t[i]).price == p2 && seq_has_order_id(
                t[i].orders@,
                id2,
            );
        if i == pos {
            assert(seq_has_order_id(levels[pos].orders@, id2));
        }
    }
    assert forall|id2: u64, p2: u64|
        id2 != id0 && side_has_id_at(levels, id2, p2) implies side_has_id_at(t, id2, p2) by {
        let i = choose|i: int|
            0 <= i < levels.len() && (#[trigger] levels[i]).price == p2 && seq_has_order_id(
                levels[i].orders@,
                id2,
            );
        if i == pos {
            assert(seq_has_order_id(lvl2.orders@, id2));
            assert(t[pos].price == p2);
        } else {
            assert(t[i].price == p2 && seq_has_order_id(t[i].orders@, id2));
        }
    }
    assert forall|id2: u64| id2 != id0 && #[trigger] side_has_id(t, id2) implies side_has_id(
        levels,
        id2,
    ) by {
        let i = choose|i: int|
            0 <= i < t.len() && seq_has_order_id(#[trigger] t[i].orders@, id2);
        assert(side_has_id_at(t, id2, t[i].price));
        assert(side_has_id_at(levels, id2, t[i].price));
        let i2 = choose|i2: int|
            0 <= i2 < levels.len() && (#[trigger] levels[i2]).price == t[i].price
                && seq_has_order_id(levels[i2].orders@, id2);
        assert(seq_has_order_id(levels[i2].orders@, id2));
    }
    assert forall|id2: u64| id2 != id0 && side_has_id(levels, id2) implies side_has_id(t, id2) by {
        let i = choose|i: int|
            0 <= i < levels.len() && seq_has_order_id(#[trigger] levels[i].orders@, id2);
        assert(side_has_id_at(levels, id2, levels[i].price));
        assert(side_has_id_at(t, id2, levels[i].price));
        let i2 = choose|i2: int|
            0 <= i2 < t.len() && (#[trigger] t[i2]).price == levels[i].price && seq_has_order_id(
                t[i2].orders@,
                id2,
            );
        assert(seq_has_order_id(t[i2].orders@, id2));
    }
}

/// Dropping the level at `pos`, whose only order carries `id0`, removes
/// exactly that id from the side.
pub proof fn lemma_side_ids_after_level_drop(levels: Seq<PriceLevel>, pos: int, id0: u64)
    requires
        0 <= pos < levels.len(),
        seq_has_order_id(levels[pos].orders@, id0),
        forall|id2: u64| #[trigger] seq_has_order_id(levels[pos].orders@, id2) ==> id2 == id0,
        forall|i: int|
            0 <= i < levels.len() && i != pos ==> !seq_has_order_id(
                #[trigger] levels[i].orders@,
                id0,
            ),
        levels_sorted(levels),
    ensures
        !side_has_id(levels.remove(pos), id0),
        forall|id2: u64, p2: u64|
            id2 != id0 ==> (#[trigger] side_has_id_at(levels.remove(pos), id2, p2)
                <==> side_has_id_at(levels, id2, p2)),
        forall|id2: u64|
            id2 != id0 ==> (#[trigger] side_has_id(levels.remove(pos), id2) <==> side_has_id(
                levels,
                id2,
            )),
        !side_has_level(levels.remove(pos), levels[pos].price),
        levels_sorted(levels.remove(pos)),
{
    let t = levels.remove(pos);
    assert(forall|i: int|
        0 <= i < t.len() ==> #[trigger] t[i] == (if i < pos {
            levels[i]
        } else {
            levels[i + 1]
        }));
    assert(!side_has_id(t, id0)) by {
        if side_has_id(t, id0) {
            let i = choose|i: int|
                0 <= i < t.len() && seq_has_order_id(#[trigger] t[i].orders@, id0);
            if i < pos {
                assert(!seq_has_order_id(levels[i].orders@, id0));
            } else {
                assert(!seq_has_order_id(levels[i + 1].orders@, id0));
            }
            assert(false);
        }
    }
    assert forall|id2: u64, p2: u64|
        id2 != id0 && #[trigger] side_has_id_at(t, id2, p2) implies side_has_id_at(
        levels,
        id2,
        p2,
    ) by {
        let i = choose|i: int|
            0 <= i < t.len() && (#[trigger] t[i]).price == p2 && seq_has_order_id(
                t[i].orders@,
                id2,
            );
        if i < pos {
            assert(levels[i].price == p2 && seq_has_order_id(levels[i].orders@, id2));
        } else {
            assert(levels[i + 1].price == p2 && seq_has_order_id(levels[i + 1].orders@, id2));
        }
    }
    assert forall|id2: u64, p2: u64|
        id2 != id0 && side_has_id_at(levels, id2, p2) implies side_has_id_at(t, id2, p2) by {
        let i = choose|i: int|
            0 <= i < levels.len() && (#[trigger] levels[i]).price == p2 && seq_has_order_id(
                levels[i].orders@,
                id2,
            );
        if i < pos {
            assert(t[i].price == p2 && seq_has_order_id(t[i].orders@, id2));
        } else if i > pos {
            assert(t[i - 1].price == p2 && seq_has_order_id(t[i - 1].orders@, id2));
        } else {
            assert(seq_has_order_id(levels[pos].orders@, id2));
            assert(false);
        }
    }
    assert forall|id2: u64| id2 != id0 && #[trigger] side_has_id(t, id2) implies side_has_id(
        levels,
        id2,
    ) by {
        let i = choose|i: int|
            0 <= i < t.len() && seq_has_order_id(#[trigger] t[i].orders@, id2);
        assert(side_has_id_at(t, id2, t[i].price));
        assert(side_has_id_at(levels, id2, t[i].price));
        let i2 = choose|i2: int|
            0 <= i2 < levels.len() && (#[trigger] levels[i2]).price == t[i].price
                && seq_has_order_id(levels[i2].orders@, id2);
        assert(seq_has_order_id(levels[i2].orders@, id2));
    }
    assert forall|id2: u64| id2 != id0 && side_has_id(levels, id2) implies side_has_id(t, id2) by {
        let i = choose|i: int|
            0 <= i < levels.len() && seq_has_order_id(#[trigger] levels[i].orders@, id2);
        assert(side_has_id_at(levels, id2, levels[i].price));
        assert(side_has_id_at(t, id2, levels[i].price));
        let i2 = choose|i2: int|
            0 <= i2 < t.len() && (#[trigger] t[i2]).price == levels[i].price && seq_has_order_id(
                t[i2].orders@,
                id2,
            );
        assert(seq_has_order_id(t[i2].orders@, id2));
    }
    assert(!side_has_level(t, levels[pos].price)) by {
        if side_has_level(t, levels[pos].price) {
            let i = choose|i: int|
                0 <= i < t.len() && (#[trigger] t[i]).price == levels[pos].price;
            if i < pos {
                assert(levels[i].price < levels[pos].price);
            } else {
                assert(levels[i + 1].price > levels[pos].price);
            }
            assert(false);
        }
    }
}


/// A live order's id rests only where its location entry says: nowhere else
/// on its own side, and nowhere on the other.
pub proof fn lemma_book_id_localized(b: OrderBook, side: Side, i: int, id: u64)
    requires
        book_wf(b),
        0 <= i < book_side_seq(b, side).len(),
        seq_has_order_id(book_side_seq(b, side)[i].orders@, id),
    ensures
        forall|i2: int|
            0 <= i2 < book_side_seq(b, side).len() && i2 != i ==> !seq_has_order_id(
                #[trigger] book_side_seq(b, side)[i2].orders@,
                id,
            ),
        !side_has_id(
            book_side_seq(b, if side == Side::Buy { Side::Sell } else { Side::Buy }),
            id,
        ),
        loc_tracks(b.order_locations@, id, book_side_seq(b, side)[i].price, side),
{
    let s = book_side_seq(b, side);
    let j = choose|j: int| 0 <= j < s[i].orders@.len() && (#[trigger] s[i].orders@[j]).id == id;
    assert(loc_tracks(b.order_locations@, id, s[i].price, side));
    let k1 = choose|k: int|
        0 <= k < b.order_locations@.len() && #[trigger] b.order_locations@[k] == (OrderLocation {
            order_id: id,
            price: s[i].price,
            side,
        });
    assert forall|i2: int|
        0 <= i2 < s.len() && i2 != i implies !seq_has_order_id(
        #[trigger] s[i2].orders@,
        id,
    ) by {
        if seq_has_order_id(s[i2].orders@, id) {
            let j2 = choose|j2: int|
                0 <= j2 < s[i2].orders@.len() && (#[trigger] s[i2].orders@[j2]).id == id;
            assert(loc_tracks(b.order_locations@, id, s[i2].price, side));
            let k2 = choose|k: int|
                0 <= k < b.order_locations@.len() && #[trigger] b.order_locations@[k] == (
                OrderLocation { order_id: id, price: s[i2].price, side });
            assert(s[i2].price != s[i].price);
            assert(k1 != k2);
            assert(false);
        }
    }
    let opp = if side == Side::Buy {
        Side::Sell
    } else {
        Side::Buy
    };
    let u = book_side_seq(b, opp);
    assert(!side_has_id(u, id)) by {
        if side_has_id(u, id) {
            let i2 = choose|i2: int|
                0 <= i2 < u.len() && seq_has_order_id(#[trigger] u[i2].orders@, id);
            let j2 = choose|j2: int|
                0 <= j2 < u[i2].orders@.len() && (#[trigger] u[i2].orders@[j2]).id == id;
            assert(loc_tracks(b.order_locations@, id, u[i2].price, opp));
            let k2 = choose|k: int|
                0 <= k < b.order_locations@.len() && #[trigger] b.order_locations@[k] == (
                OrderLocation { order_id: id, price: u[i2].price, side: opp });
            assert(k1 != k2);
            assert(false);
        }
    }
}

/// Removing a location entry removes exactly its id from the index.
pub proof fn lemma_loc_remove(locs: Seq<OrderLocation>, k: int)
    requires
        locs_distinct(locs),
        0 <= k < locs.len(),
    ensures
        locs_distinct(locs.remove(k)),
        !loc_has_id(locs.remove(k), locs[k].order_id),
        forall|id: u64|
            id != locs[k].order_id ==> (#[trigger] loc_has_id(locs.remove(k), id) <==> loc_has_id(
                locs,
                id,
            )),
        forall|id: u64, p: u64, sd: Side|
            id != locs[k].order_id ==> (#[trigger] loc_tracks(locs.remove(k), id, p, sd)
                <==> loc_tracks(locs, id, p, sd)),
{
    let t = locs.remove(k);
    assert(forall|i: int|
        0 <= i < t.len() ==> #[trigger] t[i] == (if i < k {
            locs[i]
        } else {
            locs[i + 1]
        }));
    assert(!loc_has_id(t, locs[k].order_id)) by {
        if loc_has_id(t, locs[k].order_id) {
            let i = choose|i: int|
                0 <= i < t.len() && (#[trigger] t[i]).order_id == locs[k].order_id;
            if i < k {
                assert(locs[i].order_id == locs[k].order_id);
            } else {
                assert(locs[i + 1].order_id == locs[k].order_id);
            }
            assert(false);
        }
    }
    assert forall|id: u64| id != locs[k].order_id && loc_has_id(locs, id) implies loc_has_id(
        t,
        id,
    ) by {
        let i = choose|i: int| 0 <= i < locs.len() && (#[trigger] locs[i]).order_id == id;
        if i < k {
            assert(t[i].order_id == id);
        } else {
            assert(i != k);
            assert(t[i - 1].order_id == id);
        }
    }
    assert forall|id: u64| loc_has_id(t, id) implies loc_has_id(locs, id) by {
        let i = choose|i: int| 0 <= i < t.len() && (#[trigger] t[i]).order_id == id;
        if i < k {
            assert(locs[i].order_id == id);
        } else {
            assert(locs[i + 1].order_id == id);
        }
    }
    assert forall|id: u64, p: u64, sd: Side|
        id != locs[k].order_id && loc_tracks(locs, id, p, sd) implies loc_tracks(t, id, p, sd) by {
        let i = choose|i: int|
            0 <= i < locs.len() && #[trigger] locs[i] == (OrderLocation {
                order_id: id,
                price: p,
                side: sd,
            });
        if i < k {
            assert(t[i] == (OrderLocation { order_id: id, price: p, side: sd }));
        } else {
            assert(i != k);
            assert(t[i - 1] == (OrderLocation { order_id: id, price: p, side: sd }));
        }
    }
    assert forall|id: u64, p: u64, sd: Side| #[trigger] loc_tracks(t, id, p, sd) implies loc_tracks(
        locs,
        id,
        p,
        sd,
    ) by {
        let i = choose|i: int|
            0 <= i < t.len() && #[trigger] t[i] == (OrderLocation {
                order_id: id,
                price: p,
                side: sd,
            });
        if i < k {
            assert(locs[i] == (OrderLocation { order_id: id, price: p, side: sd }));
        } else {
            assert(locs[i + 1] == (OrderLocation { order_id: id, price: p, side: sd }));
        }
    }
}

/// Removes the order with `order_id` resting at `price` on one side, drops
/// the level if it empties, and returns the level's remaining visible
/// quantity. The id must rest at that price and nowhere else on the side.
pub fn side_cancel(levels: &mut Vec<PriceLevel>, price: u64, order_id: u64, side: Side) -> (r: u64)
    requires
        side_levels_wf(old(levels)@, side),
        side_has_id_at(old(levels)@, order_id, price),
        forall|i: int|
            0 <= i < old(levels)@.len() && (#[trigger] old(levels)@[i]).price != price
                ==> !seq_has_order_id(old(levels)@[i].orders@, order_id),
    ensures
        side_levels_wf(final(levels)@, side),
        !side_has_id(final(levels)@, order_id),
        forall|id2: u64, p2: u64|
            id2 != order_id ==> (#[trigger] side_has_id_at(final(levels)@, id2, p2)
                <==> side_has_id_at(old(levels)@, id2, p2)),
        r == level_visible_at(final(levels)@, price),
        forall|p: u64|
            #[trigger] level_total_at(final(levels)@, p) <= level_total_at(old(levels)@, p),
        final(levels)@.len() <= old(levels)@.len(),
        final(levels)@.len() > 0 ==> final(levels)@.first().price >= old(levels)@.first().price
            && final(levels)@.last().price <= old(levels)@.last().price,
        (exists|pos: int|
            0 <= pos < old(levels)@.len() && (#[trigger] old(levels)@[pos]).price == price
                && old(levels)@[pos].orders@.len() == 1 && final(levels)@ == old(levels)@.remove(
                pos,
            )) || (exists|pos: int, j: int|
            0 <= pos < old(levels)@.len() && (#[trigger] old(levels)@[pos]).price == price && 0 <= j
                < old(levels)@[pos].orders@.len()
                && (#[trigger] old(levels)@[pos].orders@[j]).id == order_id
                && final(levels)@.len() == old(levels)@.len()
                && final(levels)@ == old(levels)@.update(pos, final(levels)@[pos])
                && final(levels)@[pos].price == price
                && final(levels)@[pos].orders@ == old(levels)@[pos].orders@.remove(j)),
{
    let ghost levels0 = levels@;
    let pos = find_insert_point(levels, price);
    proof {
        let i0 = choose|i: int|
            0 <= i < levels0.len() && (#[trigger] levels0[i]).price == price && seq_has_order_id(
                levels0[i].orders@,
                order_id,
            );
        assert(pos < levels0.len() && levels0[pos as int].price == price) by {
            if pos as int != i0 {
                if (pos as int) < i0 {
                    assert(levels0[pos as int].price >= price);
                    assert(levels0[pos as int].price < levels0[i0].price);
                } else {
                    assert(levels0[i0].price < price);
                }
            }
        }
        assert(seq_has_order_id(levels0[pos as int].orders@, order_id)) by {
            if pos as int != i0 {
                assert(levels0[pos as int].price < levels0[i0].price || levels0[i0].price
                    < levels0[pos as int].price);
            }
        }
    }
    let mut lvl = levels.remove(pos);
    let removed = lvl.cancel_order(order_id);
    proof {
        assert(removed is Some);
    }
    if lvl.order_count() > 0 {
        proof {
            assert(levels@.insert(pos as int, lvl) =~= levels0.update(pos as int, lvl));
            lemma_side_ids_after_level_shrink(levels0, pos as int, lvl, order_id);
        }
        let vq = lvl.visible_quantity();
        levels.insert(pos, lvl);
        proof {
            reveal(level_total_at);
            reveal(level_visible_at);
            let t = levels@;
            assert(t == levels0.update(pos as int, lvl));
            assert(forall|i: int| 0 <= i < t.len() && i != pos ==> #[trigger] t[i] == levels0[i]);
            assert(t[pos as int] == lvl);
            assert(side_has_level(t, price)) by {
                assert(t[pos as int].price == price);
            }
            assert(level_index_of(t, price) == pos as int) by {
                let i2 = level_index_of(t, price);
                assert(0 <= i2 < t.len() && t[i2].price == price);
                if i2 != pos {
                    assert(t[i2].price == levels0[i2].price);
                    assert(levels0[i2].price < price || price < levels0[i2].price);
                }
            }
            let j0 = choose|j: int|
                0 <= j < levels0[pos as int].orders@.len() && levels0[pos as int].orders@[j]
                    == removed->0 && lvl.orders@ == levels0[pos as int].orders@.remove(j);
            assert(0 <= j0 < levels0[pos as int].orders@.len() && (#[trigger] levels0[
                pos as int].orders@[j0]).id == order_id && t.len() == levels0.len() && t
                == levels0.update(pos as int, t[pos as int]) && t[pos as int].price == price
                && t[pos as int].orders@ == levels0[pos as int].orders@.remove(j0));
            assert forall|p: u64| #[trigger] level_total_at(t, p) <= level_total_at(
                levels0,
                p,
            ) by {
                if side_has_level(t, p) {
                    let i2 = level_index_of(t, p);
                    assert(0 <= i2 < t.len() && t[i2].price == p);
                    assert(side_has_level(levels0, p)) by {
                        assert(levels0[i2].price == p || (i2 == pos && levels0[pos as int].price
                            == p));
                    }
                    let i3 = level_index_of(levels0, p);
                    assert(0 <= i3 < levels0.len() && levels0[i3].price == p);
                    assert(i3 == i2) by {
                        if i3 < i2 {
                            assert(t[i3].price < t[i2].price);
                            assert(t[i3].price == levels0[i3].price || i3 == pos);
                        } else if i3 > i2 {
                            assert(t[i2].price < t[i3].price);
                            assert(t[i3].price == levels0[i3].price || i3 == pos);
                        }
                    }
                }
            }
        }
        vq
    } else {
        proof {
            reveal(level_total_at);
            reveal(level_visible_at);
            assert(lvl.orders@.len() == 0);
            assert forall|id2: u64| #[trigger] seq_has_order_id(
                levels0[pos as int].orders@,
                id2,
            ) implies id2 == order_id by {
                if id2 != order_id {
                    assert(seq_has_order_id(lvl.orders@, id2));
                }
            }
            assert(levels0[pos as int].orders@.len() == 1) by {
                let j0 = choose|j: int|
                    0 <= j < levels0[pos as int].orders@.len() && levels0[pos as int].orders@[j]
                        == removed->0 && lvl.orders@ == levels0[pos as int].orders@.remove(j);
                assert(lvl.orders@.len() == levels0[pos as int].orders@.len() - 1);
            }
            lemma_side_ids_after_level_drop(levels0, pos as int, order_id);
            assert(levels@ == levels0.remove(pos as int));
            assert(!side_has_level(levels@, price));
            assert(forall|i: int|
                0 <= i < levels@.len() ==> #[trigger] levels@[i] == (if i < pos {
                    levels0[i]
                } else {
                    levels0[i + 1]
                }));
            let t = levels@;
            assert forall|p: u64| #[trigger] level_total_at(t, p) <= level_total_at(
                levels0,
                p,
            ) by {
                if side_has_level(t, p) {
                    let i2 = level_index_of(t, p);
                    assert(0 <= i2 < t.len() && t[i2].price == p);
                    let oi = if i2 < pos {
                        i2
                    } else {
                        i2 + 1
                    };
                    assert(t[i2] == levels0[oi]);
                    assert(side_has_level(levels0, p)) by {
                        assert(levels0[oi].price == p);
                    }
                    let i3 = level_index_of(levels0, p);
                    assert(0 <= i3 < levels0.len() && levels0[i3].price == p);
                    assert(i3 == oi) by {
                        if i3 < oi {
                            assert(levels0[i3].price < levels0[oi].price);
                        } else if i3 > oi {
                            assert(levels0[oi].price < levels0[i3].price);
                        }
                    }
                }
            }
        }
        0
    }
}



/// After one order leaves the book and its location entry is removed, every
/// surviving order is still tracked and every surviving entry still points
/// at a resting order.
pub proof fn lemma_book_tracking_after_cancel(b0: OrderBook, b1: OrderBook, k: int, order_id: u64)
    requires
        book_wf(b0),
        0 <= k < b0.order_locations@.len(),
        b0.order_locations@[k].order_id == order_id,
        b1.order_locations@ == b0.order_locations@.remove(k),
        !side_has_id(b1.bids@, order_id),
        !side_has_id(b1.asks@, order_id),
        forall|id2: u64, p2: u64|
            id2 != order_id ==> (#[trigger] side_has_id_at(b1.bids@, id2, p2) <==> side_has_id_at(
                b0.bids@,
                id2,
                p2,
            )),
        forall|id2: u64, p2: u64|
            id2 != order_id ==> (#[trigger] side_has_id_at(b1.asks@, id2, p2) <==> side_has_id_at(
                b0.asks@,
                id2,
                p2,
            )),
    ensures
        side_covered(b1.bids@, Side::Buy, b1.order_locations@),
        side_covered(b1.asks@, Side::Sell, b1.order_locations@),
        locs_exact(b1),
        locs_distinct(b1.order_locations@),
{
    lemma_loc_remove(b0.order_locations@, k);
    let locs1 = b1.order_locations@;
    assert forall|i: int, j: int|
        0 <= i < b1.bids@.len() && 0 <= j < b1.bids@[i].orders@.len() implies loc_tracks(
        locs1,
        (#[trigger] b1.bids@[i].orders@[j]).id,
        b1.bids@[i].price,
        Side::Buy,
    ) by {
        let id2 = b1.bids@[i].orders@[j].id;
        let p2 = b1.bids@[i].price;
        assert(seq_has_order_id(b1.bids@[i].orders@, id2));
        assert(side_has_id_at(b1.bids@, id2, p2));
        assert(id2 != order_id) by {
            assert(!side_has_id(b1.bids@, order_id));
        }
        assert(side_has_id_at(b0.bids@, id2, p2));
        let i0 = choose|i0: int|
            0 <= i0 < b0.bids@.len() && (#[trigger] b0.bids@[i0]).price == p2 && seq_has_order_id(
                b0.bids@[i0].orders@,
                id2,
            );
        let j0 = choose|j0: int|
            0 <= j0 < b0.bids@[i0].orders@.len() && (#[trigger] b0.bids@[i0].orders@[j0]).id
                == id2;
        assert(loc_tracks(b0.order_locations@, id2, p2, Side::Buy));
    }
    assert forall|i: int, j: int|
        0 <= i < b1.asks@.len() && 0 <= j < b1.asks@[i].orders@.len() implies loc_tracks(
        locs1,
        (#[trigger] b1.asks@[i].orders@[j]).id,
        b1.asks@[i].price,
        Side::Sell,
    ) by {
        let id2 = b1.asks@[i].orders@[j].id;
        let p2 = b1.asks@[i].price;
        assert(seq_has_order_id(b1.asks@[i].orders@, id2));
        assert(side_has_id_at(b1.asks@, id2, p2));
        assert(id2 != order_id) by {
            assert(!side_has_id(b1.asks@, order_id));
        }
        assert(side_has_id_at(b0.asks@, id2, p2));
        let i0 = choose|i0: int|
            0 <= i0 < b0.asks@.len() && (#[trigger] b0.asks@[i0]).price == p2 && seq_has_order_id(
                b0.asks@[i0].orders@,
                id2,
            );
        let j0 = choose|j0: int|
            0 <= j0 < b0.asks@[i0].orders@.len() && (#[trigger] b0.asks@[i0].orders@[j0]).id
                == id2;
        assert(loc_tracks(b0.order_locations@, id2, p2, Side::Sell));
    }
    assert forall|k2: int| 0 <= k2 < locs1.len() implies side_has_id_at(
        book_side_seq(b1, (#[trigger] locs1[k2]).side),
        locs1[k2].order_id,
        locs1[k2].price,
    ) by {
        let e = locs1[k2];
        let kk = if k2 < k {
            k2
        } else {
            k2 + 1
        };
        assert(b0.order_locations@[kk] == e);
        assert(e.order_id != order_id) by {
            assert(kk != k);
        }
        assert(side_has_id_at(book_side_seq(b0, e.side), e.order_id, e.price));
        if e.side == Side::Buy {
            assert(side_has_id_at(b1.bids@, e.order_id, e.price));
        } else {
            assert(side_has_id_at(b1.asks@, e.order_id, e.price));
        }
    }
}

impl OrderBook {
    /// Cancels the live order with `order_id`: removes it from its level
    /// (dropping the level if it empties), erases its location entry, and
    /// queues a change event with the level's remaining visible quantity.
    /// Fails with `OrderNotFound`, leaving the book unchanged, exactly when
    /// no live order carries the id.
    #[verifier::rlimit(100)]
    pub fn cancel_order(&mut self, order_id: u64) -> (r: Result<(), OrderBookError>)
        requires
            book_wf(*old(self)),
        ensures
            book_wf(*final(self)),
            final(self).last_trade_price == old(self).last_trade_price,
            final(self).has_traded == old(self).has_traded,
            final(self).market_close_timestamp == old(self).market_close_timestamp,
            final(self).has_market_close == old(self).has_market_close,
            final(self).next_transaction_id == old(self).next_transaction_id,
            match r {
                Ok(()) => {
                    &&& loc_has_id(old(self).order_locations@, order_id)
                    &&& !loc_has_id(final(self).order_locations@, order_id)
                    &&& !side_has_id(final(self).bids@, order_id)
                    &&& !side_has_id(final(self).asks@, order_id)
                    &&& exists|k: int|
                        0 <= k < old(self).order_locations@.len()
                            && (#[trigger] old(self).order_locations@[k]).order_id == order_id
                            && final(self).order_locations@ == old(self).order_locations@.remove(k)
                            && (if old(self).order_locations@[k].side == Side::Buy {
                            final(self).asks@ == old(self).asks@
                        } else {
                            final(self).bids@ == old(self).bids@
                        })
                            && final(self).pending_events@.last().side
                            == old(self).order_locations@[k].side
                            && final(self).pending_events@.last().price
                            == old(self).order_locations@[k].price
                            && final(self).pending_events@.last().quantity == level_visible_at(
                            book_side_seq(*final(self), old(self).order_locations@[k].side),
                            old(self).order_locations@[k].price,
                        )
                    &&& forall|p: u64|
                        #[trigger] level_total_at(final(self).bids@, p) <= level_total_at(
                            old(self).bids@,
                            p,
                        )
                    &&& forall|p: u64|
                        #[trigger] level_total_at(final(self).asks@, p) <= level_total_at(
                            old(self).asks@,
                            p,
                        )
                    &&& forall|id2: u64, p2: u64|
                        id2 != order_id ==> (#[trigger] side_has_id_at(
                            final(self).bids@,
                            id2,
                            p2,
                        ) <==> side_has_id_at(old(self).bids@, id2, p2))
                    &&& forall|id2: u64, p2: u64|
                        id2 != order_id ==> (#[trigger] side_has_id_at(
                            final(self).asks@,
                            id2,
                            p2,
                        ) <==> side_has_id_at(old(self).asks@, id2, p2))
                    &&& forall|i: int, j: int|
                        0 <= i < final(self).bids@.len()
                            && 0 <= j < final(self).bids@[i].orders@.len() ==> side_has_order(
                            old(self).bids@,
                            #[trigger] final(self).bids@[i].orders@[j],
                        )
                    &&& forall|i: int, j: int|
                        0 <= i < final(self).asks@.len()
                            && 0 <= j < final(self).asks@[i].orders@.len() ==> side_has_order(
                            old(self).asks@,
                            #[trigger] final(self).asks@[i].orders@[j],
                        )
                    &&& final(self).pending_events@.len() == old(self).pending_events@.len() + 1
                    &&& old(self).pending_events@.is_prefix_of(final(self).pending_events@)
                },
                Err(OrderBookError::OrderNotFound(id)) => {
                    &&& id == order_id
                    &&& !loc_has_id(old(self).order_locations@, order_id)
                    &&& book_unchanged(*final(self), *old(self))
                },
                _ => false,
            },
    {
        let ghost b0 = *self;
        let k = match self.find_location_index(order_id) {
            None => {
                return Err(OrderBookError::OrderNotFound(order_id));
            },
            Some(k) => k,
        };
        let loc = self.order_locations[k];
        proof {
            assert(side_has_id_at(book_side_seq(b0, loc.side), loc.order_id, loc.price));
            let i0 = choose|i: int|
                0 <= i < book_side_seq(b0, loc.side).len() && (#[trigger] book_side_seq(
                    b0,
                    loc.side,
                )[i]).price == loc.price && seq_has_order_id(
                    book_side_seq(b0, loc.side)[i].orders@,
                    loc.order_id,
                );
            lemma_book_id_localized(b0, loc.side, i0, loc.order_id);
            assert forall|i: int|
                0 <= i < book_side_seq(b0, loc.side).len() && (#[trigger] book_side_seq(
                    b0,
                    loc.side,
                )[i]).price != loc.price implies !seq_has_order_id(
                book_side_seq(b0, loc.side)[i].orders@,
                loc.order_id,
            ) by {
                if i != i0 {
                } else {
                }
            }
        }
        let vq: u64;
        if matches!(loc.side, Side::Buy) {
            vq = side_cancel(&mut self.bids, loc.price, order_id, Side::Buy);
            proof {
                lemma_side_values_after_cancel(b0.bids@, self.bids@);
                assert forall|i: int, j: int|
                    0 <= i < self.asks@.len() && 0 <= j < self.asks@[i].orders@.len() implies
                    side_has_order(b0.asks@, #[trigger] self.asks@[i].orders@[j]) by {
                    reveal(side_has_order);
                }
            }
        } else {
            vq = side_cancel(&mut self.asks, loc.price, order_id, Side::Sell);
            proof {
                lemma_side_values_after_cancel(b0.asks@, self.asks@);
                assert forall|i: int, j: int|
                    0 <= i < self.bids@.len() && 0 <= j < self.bids@[i].orders@.len() implies
                    side_has_order(b0.bids@, #[trigger] self.bids@[i].orders@[j]) by {
                    reveal(side_has_order);
                }
            }
        }
        proof {
            lemma_loc_remove(b0.order_locations@, k as int);
        }
        self.order_locations.remove(k);
        self.pending_events.push(
            PriceLevelChangedEvent { side: loc.side, price: loc.price, quantity: vq },
        );
        proof {
            let b1 = *self;
            // The book stays uncrossed: each side only lost orders, so the
            // best bid did not rise and the best ask did not fall.
            assert(book_uncrossed(b1));
            lemma_book_tracking_after_cancel(b0, b1, k as int, order_id);
            assert(book_wf(b1));
            assert(b0.pending_events@.is_prefix_of(b1.pending_events@)) by {
                assert(b1.pending_events@ == b0.pending_events@.push(
                    (PriceLevelChangedEvent { side: loc.side, price: loc.price, quantity: vq }),
                ));
                assert(forall|i: int|
                    0 <= i < b0.pending_events@.len() ==> #[trigger] b1.pending_events@[i]
                        == b0.pending_events@[i]);
                assert(b0.pending_events@.is_prefix_of(b1.pending_events@));
            }
        }
        Ok(())
    }
}


/// A request to change a live order.
pub enum OrderUpdate {
    /// Move the order to `new_price` with `new_quantity`, keeping its side,
    /// policy and variant fields; it re-enters at the tail of its new level,
    /// losing time priority.
    UpdatePriceAndQuantity { order_id: u64, new_price: u64, new_quantity: u64 },
}

/// The location entry of a live order id.
pub open spec fn loc_entry_of(locs: Seq<OrderLocation>, id: u64) -> OrderLocation {
    locs[choose|k: int| 0 <= k < locs.len() && (#[trigger] locs[k]).order_id == id]
}

/// The resting order carrying `id` on this side.
pub open spec fn resting_order_of(levels: Seq<PriceLevel>, id: u64) -> Order {
    let i = choose|i: int|
        0 <= i < levels.len() && seq_has_order_id(#[trigger] levels[i].orders@, id);
    let j = choose|j: int| 0 <= j < levels[i].orders@.len() && (#[trigger] levels[i].orders@[j]).id == id;
    levels[i].orders@[j]
}

/// The same single-tranche variant with its quantity replaced.
pub open spec fn spec_requantify(k: OrderKind, q: u64) -> OrderKind {
    match k {
        OrderKind::Standard { .. } => OrderKind::Standard { quantity: q },
        OrderKind::PostOnly { .. } => OrderKind::PostOnly { quantity: q },
        OrderKind::TrailingStop { trail_amount, last_reference_price, .. } => {
            OrderKind::TrailingStop { quantity: q, trail_amount, last_reference_price }
        },
        OrderKind::Pegged { reference_offset, reference_type, .. } => OrderKind::Pegged {
            quantity: q,
            reference_offset,
            reference_type,
        },
        OrderKind::MarketToLimit { .. } => OrderKind::MarketToLimit { quantity: q },
        _ => k,
    }
}

/// The total resting quantity at `price`, read off the sorted side.
pub fn side_level_total(levels: &Vec<PriceLevel>, price: u64) -> (r: u64)
    requires
        levels_sorted(levels@),
        forall|i: int| 0 <= i < levels@.len() ==> level_wf(#[trigger] levels@[i]),
    ensures
        r == level_total_at(levels@, price),
{
    let pos = find_insert_point(levels, price);
    if pos < levels.len() && levels[pos].price == price {
        proof {
            reveal(level_total_at);
            assert(side_has_level(levels@, price));
            let i = level_index_of(levels@, price);
            assert(0 <= i < levels@.len() && levels@[i].price == price);
            assert(i == pos) by {
                if i < pos {
                    assert(levels@[i].price < price);
                } else if i > pos {
                    assert(levels@[pos as int].price < levels@[i].price);
                }
            }
        }
        levels[pos].total_quantity()
    } else {
        proof {
            reveal(level_total_at);
            assert(!side_has_level(levels@, price)) by {
                if side_has_level(levels@, price) {
                    let i = level_index_of(levels@, price);
                    assert(0 <= i < levels@.len() && levels@[i].price == price);
                    if i < pos {
                        assert(levels@[i].price < price);
                    } else if i > pos {
                        assert(levels@[pos as int].price < levels@[i].price);
                    }
                }
            }
        }
        0
    }
}

impl OrderBook {
    /// Changes a live order's price and quantity by cancelling it and
    /// re-entering it under the same id at the tail of its new level: time
    /// priority is lost. Rejected, with the book unchanged, when the id is
    /// not live, the new price is the zero sentinel, the new quantity is
    /// zero, the order's variant carries hidden quantity, its policy has
    /// expired, the new price would cross, or the new level's accounting
    /// would overflow.
    #[verifier::rlimit(100)]
    pub fn update_order(&mut self, update: OrderUpdate, now_ms: u64) -> (r: Result<(), OrderBookError>)
        requires
            book_wf(*old(self)),
        ensures
            book_wf(*final(self)),
            final(self).last_trade_price == old(self).last_trade_price,
            final(self).has_traded == old(self).has_traded,
            final(self).market_close_timestamp == old(self).market_close_timestamp,
            final(self).has_market_close == old(self).has_market_close,
            final(self).next_transaction_id == old(self).next_transaction_id,
            ({
                let OrderUpdate::UpdatePriceAndQuantity { order_id, new_price, new_quantity } =
                    update;
                let e = loc_entry_of(old(self).order_locations@, order_id);
                let o = resting_order_of(book_side_seq(*old(self), e.side), order_id);
                match r {
                    Err(OrderBookError::OrderNotFound(id)) => {
                        &&& id == order_id
                        &&& !loc_has_id(old(self).order_locations@, order_id)
                        &&& book_unchanged(*final(self), *old(self))
                    },
                    Err(OrderBookError::InvalidPriceLevel(p)) => {
                        &&& p == 0
                        &&& new_price == 0
                        &&& loc_has_id(old(self).order_locations@, order_id)
                        &&& book_unchanged(*final(self), *old(self))
                    },
                    Err(OrderBookError::PriceLevelError(PriceLevelError::InvalidQuantity)) => {
                        &&& new_quantity == 0
                        &&& new_price > 0
                        &&& loc_has_id(old(self).order_locations@, order_id)
                        &&& book_unchanged(*final(self), *old(self))
                    },
                    Err(OrderBookError::InvalidOperation) => {
                        &&& loc_has_id(old(self).order_locations@, order_id)
                        &&& new_price > 0
                        &&& new_quantity > 0
                        &&& ((o.kind is Iceberg || o.kind is Reserve)
                            || o.time_in_force.spec_is_expired(
                            now_ms,
                            spec_market_close(*old(self)),
                        ))
                        &&& book_unchanged(*final(self), *old(self))
                    },
                    Err(OrderBookError::PriceCrossing { price, side, opposite_price }) => {
                        &&& price == new_price
                        &&& side == e.side
                        &&& loc_has_id(old(self).order_locations@, order_id)
                        &&& spec_crosses(*old(self), new_price, e.side)
                        &&& book_unchanged(*final(self), *old(self))
                    },
                    Err(OrderBookError::PriceLevelError(PriceLevelError::ArithmeticOverflow)) => {
                        &&& loc_has_id(old(self).order_locations@, order_id)
                        &&& level_total_at(book_side_seq(*old(self), e.side), new_price)
                            + new_quantity > u64::MAX
                        &&& book_unchanged(*final(self), *old(self))
                    },
                    Ok(()) => {
                        &&& loc_has_id(old(self).order_locations@, order_id)
                        &&& new_price > 0
                        &&& new_quantity > 0
                        &&& !(o.kind is Iceberg) && !(o.kind is Reserve)
                        &&& !spec_crosses(*old(self), new_price, e.side)
                        &&& loc_has_id(final(self).order_locations@, order_id)
                        &&& side_has_id_at(
                            book_side_seq(*final(self), e.side),
                            order_id,
                            new_price,
                        )
                        &&& forall|id2: u64|
                            id2 != order_id ==> (#[trigger] loc_has_id(
                                final(self).order_locations@,
                                id2,
                            ) <==> loc_has_id(old(self).order_locations@, id2))
                        &&& exists|i: int|
                            0 <= i < book_side_seq(*final(self), e.side).len() && (
                            #[trigger] book_side_seq(*final(self), e.side)[i]).price == new_price
                                && book_side_seq(*final(self), e.side)[i].orders@.len() > 0
                                && book_side_seq(*final(self), e.side)[i].orders@.last() == (Order {
                                id: order_id,
                                price: new_price,
                                side: e.side,
                                timestamp_ms: now_ms,
                                time_in_force: o.time_in_force,
                                kind: spec_requantify(o.kind, new_quantity),
                            })
                    },
                    _ => false,
                }
            }),
    {
        let OrderUpdate::UpdatePriceAndQuantity { order_id, new_price, new_quantity } = update;
        let ghost b0 = *self;
        let k = match self.find_location_index(order_id) {
            None => {
                return Err(OrderBookError::OrderNotFound(order_id));
            },
            Some(k) => k,
        };
        let loc = self.order_locations[k];
        proof {
            let kk = choose|kk: int|
                0 <= kk < b0.order_locations@.len() && (#[trigger] b0.order_locations@[kk]).order_id
                    == order_id;
            assert(kk == k as int);
            assert(loc == loc_entry_of(b0.order_locations@, order_id));
            assert(loc_has_id(b0.order_locations@, order_id)) by {
                assert(b0.order_locations@[k as int].order_id == order_id);
            }
        }
        if new_price == 0 {
            return Err(OrderBookError::InvalidPriceLevel(0));
        }
        if new_quantity == 0 {
            return Err(OrderBookError::PriceLevelError(PriceLevelError::InvalidQuantity));
        }
        proof {
            assert(side_has_id_at(book_side_seq(b0, loc.side), loc.order_id, loc.price));
            crate::matching::lemma_book_side_ids_unique(b0, loc.side);
        }
        let o: Order;
        let lpos: usize;
        let oi: usize;
        if matches!(loc.side, Side::Buy) {
            lpos = find_insert_point(&self.bids, loc.price);
            proof {
                let i0 = choose|i: int|
                    0 <= i < b0.bids@.len() && (#[trigger] b0.bids@[i]).price == loc.price
                        && seq_has_order_id(b0.bids@[i].orders@, order_id);
                assert(lpos < b0.bids@.len() && b0.bids@[lpos as int].price == loc.price) by {
                    if lpos as int != i0 {
                        if (lpos as int) < i0 {
                            assert(b0.bids@[lpos as int].price >= loc.price);
                            assert(b0.bids@[lpos as int].price < b0.bids@[i0].price);
                        } else {
                            assert(b0.bids@[i0].price < loc.price);
                        }
                    }
                }
                assert(seq_has_order_id(b0.bids@[lpos as int].orders@, order_id)) by {
                    if lpos as int != i0 {
                        assert(b0.bids@[lpos as int].price != b0.bids@[i0].price);
                    }
                }
            }
            let found = self.bids[lpos].find_order_index(order_id);
            oi = match found {
                Some(j) => j,
                None => {
                    proof {
                        assert(false);
                    }
                    0
                },
            };
            o = self.bids[lpos].orders[oi];
        } else {
            lpos = find_insert_point(&self.asks, loc.price);
            proof {
                let i0 = choose|i: int|
                    0 <= i < b0.asks@.len() && (#[trigger] b0.asks@[i]).price == loc.price
                        && seq_has_order_id(b0.asks@[i].orders@, order_id);
                assert(lpos < b0.asks@.len() && b0.asks@[lpos as int].price == loc.price) by {
                    if lpos as int != i0 {
                        if (lpos as int) < i0 {
                            assert(b0.asks@[lpos as int].price >= loc.price);
                            assert(b0.asks@[lpos as int].price < b0.asks@[i0].price);
                        } else {
                            assert(b0.asks@[i0].price < loc.price);
                        }
                    }
                }
                assert(seq_has_order_id(b0.asks@[lpos as int].orders@, order_id)) by {
                    if lpos as int != i0 {
                        assert(b0.asks@[lpos as int].price != b0.asks@[i0].price);
                    }
                }
            }
            let found = self.asks[lpos].find_order_index(order_id);
            oi = match found {
                Some(j) => j,
                None => {
                    proof {
                        assert(false);
                    }
                    0
                },
            };
            o = self.asks[lpos].orders[oi];
        }
        proof {
            let s = book_side_seq(b0, loc.side);
            let i = choose|i: int|
                0 <= i < s.len() && seq_has_order_id(#[trigger] s[i].orders@, order_id);
            assert(i == lpos as int) by {
                assert(seq_has_order_id(s[lpos as int].orders@, order_id));
            }
            let j = choose|j: int|
                0 <= j < s[i].orders@.len() && (#[trigger] s[i].orders@[j]).id == order_id;
            assert(j == oi as int) by {
                assert(s[i].orders@[oi as int].id == order_id);
            }
            assert(o == resting_order_of(s, order_id));
        }
        if matches!(o.kind, OrderKind::Iceberg { .. }) || matches!(
            o.kind,
            OrderKind::Reserve { .. },
        ) {
            return Err(OrderBookError::InvalidOperation);
        }
        if self.has_expired(&o, now_ms) {
            return Err(OrderBookError::InvalidOperation);
        }
        if self.will_cross_market(new_price, loc.side) {
            return Err(OrderBookError::PriceCrossing {
                price: new_price,
                side: loc.side,
                opposite_price: match loc.side {
                    Side::Buy => match self.best_ask() {
                        Some(p) => p,
                        None => 0,
                    },
                    Side::Sell => match self.best_bid() {
                        Some(p) => p,
                        None => 0,
                    },
                },
            });
        }
        let cur_total: u64;
        if matches!(loc.side, Side::Buy) {
            cur_total = side_level_total(&self.bids, new_price);
        } else {
            cur_total = side_level_total(&self.asks, new_price);
        }
        if cur_total as u128 + new_quantity as u128 > u64::MAX as u128 {
            return Err(OrderBookError::PriceLevelError(PriceLevelError::ArithmeticOverflow));
        }
        let c = self.cancel_order(order_id);
        match c {
            Ok(()) => {},
            Err(_) => {
                proof {
                    assert(false);
                }
                return Err(OrderBookError::InvalidOperation);
            },
        }
        let ghost b1 = *self;
        proof {
            let kk = choose|kk: int|
                0 <= kk < b0.order_locations@.len() && (#[trigger] b0.order_locations@[kk]).order_id
                    == order_id && b1.order_locations@ == b0.order_locations@.remove(kk);
            lemma_loc_remove(b0.order_locations@, kk);
        }
        let new_kind = match o.kind {
            OrderKind::Standard { .. } => OrderKind::Standard { quantity: new_quantity },
            OrderKind::PostOnly { .. } => OrderKind::PostOnly { quantity: new_quantity },
            OrderKind::TrailingStop { trail_amount, last_reference_price, .. } => {
                OrderKind::TrailingStop {
                    quantity: new_quantity,
                    trail_amount,
                    last_reference_price,
                }
            },
            OrderKind::Pegged { reference_offset, reference_type, .. } => OrderKind::Pegged {
                quantity: new_quantity,
                reference_offset,
                reference_type,
            },
            OrderKind::MarketToLimit { .. } => OrderKind::MarketToLimit {
                quantity: new_quantity,
            },
            _ => OrderKind::Standard { quantity: new_quantity },
        };
        let newo = Order {
            id: order_id,
            price: new_price,
            side: loc.side,
            timestamp_ms: now_ms,
            time_in_force: o.time_in_force,
            kind: new_kind,
        };
        proof {
            assert(newo.kind == spec_requantify(o.kind, new_quantity));
            assert(newo.spec_visible() == new_quantity);
            assert(newo.spec_hidden() == 0);
            assert(!spec_crosses(*self, new_price, loc.side));
            assert(level_total_at(book_side_seq(*self, loc.side), new_price) <= cur_total);
        }
        let p = self.place_order_in_book(newo, now_ms);
        match p {
            Ok(()) => {
                proof {
                    assert(loc_has_id(self.order_locations@, order_id)) by {
                        let n = self.order_locations@.len();
                        assert(self.order_locations@[n - 1].order_id == order_id);
                    }
                    lemma_loc_push(
                        b1.order_locations@,
                        (OrderLocation { order_id, price: new_price, side: loc.side }),
                    );
                }
                Ok(())
            },
            Err(_) => {
                proof {
                    assert(false);
                }
                Err(OrderBookError::InvalidOperation)
            },
        }
    }
}


/// Whether an order carrying `id` rests in the book with a policy already
/// expired at `now_ms` under the book's market close.
pub open spec fn book_has_expired_order(b: OrderBook, id: u64, now_ms: u64) -> bool {
    ||| exists|i: int, j: int|
        0 <= i < b.bids@.len() && 0 <= j < b.bids@[i].orders@.len() && (
        #[trigger] b.bids@[i].orders@[j]).id == id
            && b.bids@[i].orders@[j].time_in_force.spec_is_expired(now_ms, spec_market_close(b))
    ||| exists|i: int, j: int|
        0 <= i < b.asks@.len() && 0 <= j < b.asks@[i].orders@.len() && (
        #[trigger] b.asks@[i].orders@[j]).id == id
            && b.asks@[i].orders@[j].time_in_force.spec_is_expired(now_ms, spec_market_close(b))
}

impl OrderBook {
    /// Hands the queued price-level-change events to the host, leaving the
    /// queue empty. The host delivers them to its listener; they are pure
    /// observations and carry no feedback into the book.
    pub fn take_price_level_events(&mut self) -> (r: Vec<PriceLevelChangedEvent>)
        requires
            book_wf(*old(self)),
        ensures
            book_wf(*final(self)),
            r@ == old(self).pending_events@,
            final(self).pending_events@.len() == 0,
            final(self).bids@ == old(self).bids@,
            final(self).asks@ == old(self).asks@,
            final(self).order_locations@ == old(self).order_locations@,
            final(self).last_trade_price == old(self).last_trade_price,
            final(self).has_traded == old(self).has_traded,
            final(self).market_close_timestamp == old(self).market_close_timestamp,
            final(self).has_market_close == old(self).has_market_close,
            final(self).next_transaction_id == old(self).next_transaction_id,
    {
        let mut drained: Vec<PriceLevelChangedEvent> = Vec::new();
        core::mem::swap(&mut drained, &mut self.pending_events);
        drained
    }

    /// The on-access expiry sweep: removes every resting order whose policy
    /// is expired at `now_ms` under the book's market close, and returns
    /// their ids. Complete in both directions: every id resting with an
    /// expired policy is returned and no longer live, no other id is
    /// touched, and no expired order remains in the book afterwards.
    #[verifier::rlimit(100)]
    pub fn remove_expired_orders(&mut self, now_ms: u64) -> (r: Vec<u64>)
        requires
            book_wf(*old(self)),
        ensures
            book_wf(*final(self)),
            final(self).market_close_timestamp == old(self).market_close_timestamp,
            final(self).has_market_close == old(self).has_market_close,
            forall|k: int|
                0 <= k < r@.len() ==> loc_has_id(old(self).order_locations@, #[trigger] r@[k])
                    && !loc_has_id(final(self).order_locations@, r@[k]),
            forall|k: int|
                0 <= k < r@.len() ==> #[trigger] book_has_expired_order(
                    *old(self),
                    r@[k],
                    now_ms,
                ),
            forall|id: u64|
                !r@.contains(id) ==> (#[trigger] loc_has_id(final(self).order_locations@, id)
                    <==> loc_has_id(old(self).order_locations@, id)),
            forall|id: u64|
                #[trigger] book_has_expired_order(*old(self), id, now_ms) ==> r@.contains(id)
                    && !loc_has_id(final(self).order_locations@, id),
            forall|id: u64| !(#[trigger] book_has_expired_order(*final(self), id, now_ms)),
            final(self).last_trade_price == old(self).last_trade_price,
            final(self).has_traded == old(self).has_traded,
            final(self).next_transaction_id == old(self).next_transaction_id,
            old(self).pending_events@.len() <= final(self).pending_events@.len(),
            forall|i: int|
                0 <= i < old(self).pending_events@.len()
                    ==> #[trigger] final(self).pending_events@[i] == old(self).pending_events@[i],
            final(self).pending_events@.len() == old(self).pending_events@.len() + r@.len(),
            forall|id: u64, p: u64|
                !r@.contains(id) ==> (#[trigger] side_has_id_at(final(self).bids@, id, p)
                    <==> side_has_id_at(old(self).bids@, id, p)),
            forall|id: u64, p: u64|
                !r@.contains(id) ==> (#[trigger] side_has_id_at(final(self).asks@, id, p)
                    <==> side_has_id_at(old(self).asks@, id, p)),
            forall|i: int, j: int|
                0 <= i < final(self).bids@.len() && 0 <= j < final(self).bids@[i].orders@.len()
                    ==> side_has_order(old(self).bids@, #[trigger] final(self).bids@[i].orders@[j]),
            forall|i: int, j: int|
                0 <= i < final(self).asks@.len() && 0 <= j < final(self).asks@[i].orders@.len()
                    ==> side_has_order(old(self).asks@, #[trigger] final(self).asks@[i].orders@[j]),
            (forall|id: u64|
                !(#[trigger] book_has_expired_order(*old(self), id, now_ms))) ==> book_unchanged(
                *final(self),
                *old(self),
            ),
    {
        let ghost b0 = *self;
        let mut expired: Vec<u64> = Vec::new();
        let mut i: usize = 0;
        while i < self.bids.len()
            invariant
                *self == b0,
                book_wf(b0),
                0 <= i <= self.bids@.len(),
                forall|k: int|
                    0 <= k < expired@.len() ==> #[trigger] book_has_expired_order(
                        b0,
                        expired@[k],
                        now_ms,
                    ) && loc_has_id(b0.order_locations@, expired@[k]),
                forall|i2: int, j2: int|
                    0 <= i2 < i && 0 <= j2 < b0.bids@[i2].orders@.len() && (
                    #[trigger] b0.bids@[i2].orders@[j2]).time_in_force.spec_is_expired(
                        now_ms,
                        spec_market_close(b0),
                    ) ==> expired@.contains(b0.bids@[i2].orders@[j2].id),
            decreases self.bids@.len() - i,
        {
            let mut j: usize = 0;
            while j < self.bids[i].orders.len()
                invariant
                    *self == b0,
                    book_wf(b0),
                    0 <= i < self.bids@.len(),
                    0 <= j <= self.bids@[i as int].orders@.len(),
                    forall|k: int|
                        0 <= k < expired@.len() ==> #[trigger] book_has_expired_order(
                            b0,
                            expired@[k],
                            now_ms,
                        ) && loc_has_id(b0.order_locations@, expired@[k]),
                    forall|i2: int, j2: int|
                        0 <= i2 < i && 0 <= j2 < b0.bids@[i2].orders@.len() && (
                        #[trigger] b0.bids@[i2].orders@[j2]).time_in_force.spec_is_expired(
                            now_ms,
                            spec_market_close(b0),
                        ) ==> expired@.contains(b0.bids@[i2].orders@[j2].id),
                    forall|j2: int|
                        0 <= j2 < j && (#[trigger] b0.bids@[i as int].orders@[j2]).time_in_force.spec_is_expired(
                            now_ms,
                            spec_market_close(b0),
                        ) ==> expired@.contains(b0.bids@[i as int].orders@[j2].id),
                decreases self.bids@[i as int].orders@.len() - j,
            {
                let o = self.bids[i].orders[j];
                if self.has_expired(&o, now_ms) {
                    proof {
                        crate::level::lemma_u64_push_contains(expired@, o.id);
                        assert(book_has_expired_order(b0, o.id, now_ms)) by {
                            assert(b0.bids@[i as int].orders@[j as int] == o);
                        }
                        assert(loc_has_id(b0.order_locations@, o.id)) by {
                            assert(loc_tracks(
                                b0.order_locations@,
                                o.id,
                                b0.bids@[i as int].price,
                                Side::Buy,
                            ));
                            let kk = choose|kk: int|
                                0 <= kk < b0.order_locations@.len()
                                    && #[trigger] b0.order_locations@[kk] == (OrderLocation {
                                    order_id: o.id,
                                    price: b0.bids@[i as int].price,
                                    side: Side::Buy,
                                });
                            assert(b0.order_locations@[kk].order_id == o.id);
                        }
                    }
                    expired.push(o.id);
                } else {
                }
                j = j + 1;
            }
            i = i + 1;
        }
        let mut ia: usize = 0;
        while ia < self.asks.len()
            invariant
                *self == b0,
                book_wf(b0),
                0 <= ia <= self.asks@.len(),
                forall|k: int|
                    0 <= k < expired@.len() ==> #[trigger] book_has_expired_order(
                        b0,
                        expired@[k],
                        now_ms,
                    ) && loc_has_id(b0.order_locations@, expired@[k]),
                forall|i2: int, j2: int|
                    0 <= i2 < b0.bids@.len() && 0 <= j2 < b0.bids@[i2].orders@.len() && (
                    #[trigger] b0.bids@[i2].orders@[j2]).time_in_force.spec_is_expired(
                        now_ms,
                        spec_market_close(b0),
                    ) ==> expired@.contains(b0.bids@[i2].orders@[j2].id),
                forall|i2: int, j2: int|
                    0 <= i2 < ia && 0 <= j2 < b0.asks@[i2].orders@.len() && (
                    #[trigger] b0.asks@[i2].orders@[j2]).time_in_force.spec_is_expired(
                        now_ms,
                        spec_market_close(b0),
                    ) ==> expired@.contains(b0.asks@[i2].orders@[j2].id),
            decreases self.asks@.len() - ia,
        {
            let mut j: usize = 0;
            while j < self.asks[ia].orders.len()
                invariant
                    *self == b0,
                    book_wf(b0),
                    0 <= ia < self.asks@.len(),
                    0 <= j <= self.asks@[ia as int].orders@.len(),
                    forall|k: int|
                        0 <= k < expired@.len() ==> #[trigger] book_has_expired_order(
                            b0,
                            expired@[k],
                            now_ms,
                        ) && loc_has_id(b0.order_locations@, expired@[k]),
                    forall|i2: int, j2: int|
                        0 <= i2 < b0.bids@.len() && 0 <= j2 < b0.bids@[i2].orders@.len() && (
                        #[trigger] b0.bids@[i2].orders@[j2]).time_in_force.spec_is_expired(
                            now_ms,
                            spec_market_close(b0),
                        ) ==> expired@.contains(b0.bids@[i2].orders@[j2].id),
                    forall|i2: int, j2: int|
                        0 <= i2 < ia && 0 <= j2 < b0.asks@[i2].orders@.len() && (
                        #[trigger] b0.asks@[i2].orders@[j2]).time_in_force.spec_is_expired(
                            now_ms,
                            spec_market_close(b0),
                        ) ==> expired@.contains(b0.asks@[i2].orders@[j2].id),
                    forall|j2: int|
                        0 <= j2 < j && (#[trigger] b0.asks@[ia as int].orders@[j2]).time_in_force.spec_is_expired(
                            now_ms,
                            spec_market_close(b0),
                        ) ==> expired@.contains(b0.asks@[ia as int].orders@[j2].id),
                decreases self.asks@[ia as int].orders@.len() - j,
            {
                let o = self.asks[ia].orders[j];
                if self.has_expired(&o, now_ms) {
                    proof {
                        crate::level::lemma_u64_push_contains(expired@, o.id);
                        assert(book_has_expired_order(b0, o.id, now_ms)) by {
                            assert(b0.asks@[ia as int].orders@[j as int] == o);
                        }
                        assert(loc_has_id(b0.order_locations@, o.id)) by {
                            assert(loc_tracks(
                                b0.order_locations@,
                                o.id,
                                b0.asks@[ia as int].price,
                                Side::Sell,
                            ));
                            let kk = choose|kk: int|
                                0 <= kk < b0.order_locations@.len()
                                    && #[trigger] b0.order_locations@[kk] == (OrderLocation {
                                    order_id: o.id,
                                    price: b0.asks@[ia as int].price,
                                    side: Side::Sell,
                                });
                            assert(b0.order_locations@[kk].order_id == o.id);
                        }
                    }
                    expired.push(o.id);
                } else {
                }
                j = j + 1;
            }
            ia = ia + 1;
        }
        let ghost exp = expired@;
        proof {
            assert forall|i2: int, j2: int|
                0 <= i2 < self.bids@.len() && 0 <= j2 < self.bids@[i2].orders@.len() implies
                side_has_order(b0.bids@, #[trigger] self.bids@[i2].orders@[j2]) by {
                reveal(side_has_order);
            }
            assert forall|i2: int, j2: int|
                0 <= i2 < self.asks@.len() && 0 <= j2 < self.asks@[i2].orders@.len() implies
                side_has_order(b0.asks@, #[trigger] self.asks@[i2].orders@[j2]) by {
                reveal(side_has_order);
            }
        }
        let mut removed: Vec<u64> = Vec::new();
        let mut n: usize = 0;
        while n < expired.len()
            invariant
                book_wf(*self),
                book_wf(b0),
                expired@ == exp,
                0 <= n <= exp.len(),
                self.market_close_timestamp == b0.market_close_timestamp,
                self.has_market_close == b0.has_market_close,
                self.last_trade_price == b0.last_trade_price,
                self.has_traded == b0.has_traded,
                self.next_transaction_id == b0.next_transaction_id,
                b0.pending_events@.len() <= self.pending_events@.len(),
                forall|i2: int|
                    0 <= i2 < b0.pending_events@.len() ==> #[trigger] self.pending_events@[i2]
                        == b0.pending_events@[i2],
                self.pending_events@.len() == b0.pending_events@.len() + removed@.len(),
                forall|id: u64, p: u64|
                    !removed@.contains(id) ==> (#[trigger] side_has_id_at(self.bids@, id, p)
                        <==> side_has_id_at(b0.bids@, id, p)),
                forall|id: u64, p: u64|
                    !removed@.contains(id) ==> (#[trigger] side_has_id_at(self.asks@, id, p)
                        <==> side_has_id_at(b0.asks@, id, p)),
                exp.len() == 0 ==> book_unchanged(*self, b0),
                forall|k: int|
                    0 <= k < removed@.len() ==> loc_has_id(
                        b0.order_locations@,
                        #[trigger] removed@[k],
                    ) && !loc_has_id(self.order_locations@, removed@[k]),
                forall|k: int|
                    0 <= k < removed@.len() ==> #[trigger] book_has_expired_order(
                        b0,
                        removed@[k],
                        now_ms,
                    ),
                forall|k: int|
                    0 <= k < exp.len() ==> #[trigger] book_has_expired_order(
                        b0,
                        exp[k],
                        now_ms,
                    ) && loc_has_id(b0.order_locations@, exp[k]),
                forall|k: int| 0 <= k < n ==> !loc_has_id(self.order_locations@, #[trigger] exp[k]),
                forall|id: u64|
                    !removed@.contains(id) ==> (#[trigger] loc_has_id(self.order_locations@, id)
                        <==> loc_has_id(b0.order_locations@, id)),
                forall|id: u64|
                    !loc_has_id(self.order_locations@, id) && loc_has_id(
                        b0.order_locations@,
                        id,
                    ) ==> #[trigger] removed@.contains(id),
                forall|i2: int, j2: int|
                    0 <= i2 < self.bids@.len() && 0 <= j2 < self.bids@[i2].orders@.len()
                        ==> side_has_order(b0.bids@, #[trigger] self.bids@[i2].orders@[j2]),
                forall|i2: int, j2: int|
                    0 <= i2 < self.asks@.len() && 0 <= j2 < self.asks@[i2].orders@.len()
                        ==> side_has_order(b0.asks@, #[trigger] self.asks@[i2].orders@[j2]),
                forall|i2: int, j2: int|
                    0 <= i2 < b0.bids@.len() && 0 <= j2 < b0.bids@[i2].orders@.len() && (
                    #[trigger] b0.bids@[i2].orders@[j2]).time_in_force.spec_is_expired(
                        now_ms,
                        spec_market_close(b0),
                    ) ==> exp.contains(b0.bids@[i2].orders@[j2].id),
                forall|i2: int, j2: int|
                    0 <= i2 < b0.asks@.len() && 0 <= j2 < b0.asks@[i2].orders@.len() && (
                    #[trigger] b0.asks@[i2].orders@[j2]).time_in_force.spec_is_expired(
                        now_ms,
                        spec_market_close(b0),
                    ) ==> exp.contains(b0.asks@[i2].orders@[j2].id),
            decreases exp.len() - n,
        {
            let id = expired[n];
            let ghost removed0 = removed@;
            let ghost locs_pre = self.order_locations@;
            let ghost pre = *self;
            let c = self.cancel_order(id);
            match c {
                Ok(()) => {
                    proof {
                        crate::level::lemma_u64_push_contains(removed0, id);
                        let kk = choose|kk: int|
                            0 <= kk < locs_pre.len() && (#[trigger] locs_pre[kk]).order_id == id
                                && self.order_locations@ == locs_pre.remove(kk);
                        lemma_loc_remove(locs_pre, kk);
                        assert forall|i2: int|
                            0 <= i2 < b0.pending_events@.len() implies
                            #[trigger] self.pending_events@[i2] == b0.pending_events@[i2] by {
                            assert(pre.pending_events@.is_prefix_of(self.pending_events@));
                            assert(self.pending_events@.subrange(
                                0,
                                pre.pending_events@.len() as int,
                            )[i2] == self.pending_events@[i2]);
                        }
                        assert forall|i2: int, j2: int|
                            0 <= i2 < self.bids@.len() && 0 <= j2
                                < self.bids@[i2].orders@.len() implies side_has_order(
                            b0.bids@,
                            #[trigger] self.bids@[i2].orders@[j2],
                        ) by {
                            reveal(side_has_order);
                            assert(side_has_order(pre.bids@, self.bids@[i2].orders@[j2]));
                        }
                        assert forall|i2: int, j2: int|
                            0 <= i2 < self.asks@.len() && 0 <= j2
                                < self.asks@[i2].orders@.len() implies side_has_order(
                            b0.asks@,
                            #[trigger] self.asks@[i2].orders@[j2],
                        ) by {
                            reveal(side_has_order);
                            assert(side_has_order(pre.asks@, self.asks@[i2].orders@[j2]));
                        }
                    }
                    removed.push(id);
                },
                Err(_) => {},
            }
            n = n + 1;
        }
        proof {
            assert forall|id: u64| #[trigger] book_has_expired_order(
                b0,
                id,
                now_ms,
            ) implies removed@.contains(id) && !loc_has_id(self.order_locations@, id) by {
                if exists|i2: int, j2: int|
                    0 <= i2 < b0.bids@.len() && 0 <= j2 < b0.bids@[i2].orders@.len() && (
                    #[trigger] b0.bids@[i2].orders@[j2]).id == id
                        && b0.bids@[i2].orders@[j2].time_in_force.spec_is_expired(
                        now_ms,
                        spec_market_close(b0),
                    ) {
                    let (i2, j2) = choose|i2: int, j2: int|
                        0 <= i2 < b0.bids@.len() && 0 <= j2 < b0.bids@[i2].orders@.len() && (
                        #[trigger] b0.bids@[i2].orders@[j2]).id == id
                            && b0.bids@[i2].orders@[j2].time_in_force.spec_is_expired(
                            now_ms,
                            spec_market_close(b0),
                        );
                    assert(exp.contains(b0.bids@[i2].orders@[j2].id));
                } else {
                    let (i2, j2) = choose|i2: int, j2: int|
                        0 <= i2 < b0.asks@.len() && 0 <= j2 < b0.asks@[i2].orders@.len() && (
                        #[trigger] b0.asks@[i2].orders@[j2]).id == id
                            && b0.asks@[i2].orders@[j2].time_in_force.spec_is_expired(
                            now_ms,
                            spec_market_close(b0),
                        );
                    assert(exp.contains(b0.asks@[i2].orders@[j2].id));
                }
                let kk = choose|kk: int| 0 <= kk < exp.len() && exp[kk] == id;
                assert(!loc_has_id(self.order_locations@, exp[kk]));
                assert(loc_has_id(b0.order_locations@, exp[kk]));
            }
            if forall|id: u64| !(#[trigger] book_has_expired_order(b0, id, now_ms)) {
                assert(exp.len() == 0) by {
                    if exp.len() > 0 {
                        assert(book_has_expired_order(b0, exp[0], now_ms));
                    }
                }
            }
            assert forall|id: u64| !(#[trigger] book_has_expired_order(
                *self,
                id,
                now_ms,
            )) by {
                if book_has_expired_order(*self, id, now_ms) {
                    if exists|i2: int, j2: int|
                        0 <= i2 < self.bids@.len() && 0 <= j2 < self.bids@[i2].orders@.len() && (
                        #[trigger] self.bids@[i2].orders@[j2]).id == id
                            && self.bids@[i2].orders@[j2].time_in_force.spec_is_expired(
                            now_ms,
                            spec_market_close(*self),
                        ) {
                        let (i2, j2) = choose|i2: int, j2: int|
                            0 <= i2 < self.bids@.len() && 0 <= j2 < self.bids@[i2].orders@.len()
                                && (#[trigger] self.bids@[i2].orders@[j2]).id == id
                                && self.bids@[i2].orders@[j2].time_in_force.spec_is_expired(
                                now_ms,
                                spec_market_close(*self),
                            );
                        let o = self.bids@[i2].orders@[j2];
                        assert(side_has_order(b0.bids@, o));
                        assert(book_has_expired_order(b0, id, now_ms)) by {
                            reveal(side_has_order);
                            let (i0, j0) = choose|i0: int, j0: int|
                                0 <= i0 < b0.bids@.len() && 0 <= j0 < b0.bids@[i0].orders@.len()
                                    && (#[trigger] b0.bids@[i0].orders@[j0]) == o;
                        }
                        assert(!loc_has_id(self.order_locations@, id));
                        assert(loc_tracks(
                            self.order_locations@,
                            id,
                            self.bids@[i2].price,
                            Side::Buy,
                        ));
                        assert(loc_has_id(self.order_locations@, id)) by {
                            let kk = choose|kk: int|
                                0 <= kk < self.order_locations@.len()
                                    && #[trigger] self.order_locations@[kk] == (OrderLocation {
                                    order_id: id,
                                    price: self.bids@[i2].price,
                                    side: Side::Buy,
                                });
                            assert(self.order_locations@[kk].order_id == id);
                        }
                        assert(false);
                    } else {
                        let (i2, j2) = choose|i2: int, j2: int|
                            0 <= i2 < self.asks@.len() && 0 <= j2 < self.asks@[i2].orders@.len()
                                && (#[trigger] self.asks@[i2].orders@[j2]).id == id
                                && self.asks@[i2].orders@[j2].time_in_force.spec_is_expired(
                                now_ms,
                                spec_market_close(*self),
                            );
                        let o = self.asks@[i2].orders@[j2];
                        assert(side_has_order(b0.asks@, o));
                        assert(book_has_expired_order(b0, id, now_ms)) by {
                            reveal(side_has_order);
                            let (i0, j0) = choose|i0: int, j0: int|
                                0 <= i0 < b0.asks@.len() && 0 <= j0 < b0.asks@[i0].orders@.len()
                                    && (#[trigger] b0.asks@[i0].orders@[j0]) == o;
                        }
                        assert(!loc_has_id(self.order_locations@, id));
                        assert(loc_tracks(
                            self.order_locations@,
                            id,
                            self.asks@[i2].price,
                            Side::Sell,
                        ));
                        assert(loc_has_id(self.order_locations@, id)) by {
                            let kk = choose|kk: int|
                                0 <= kk < self.order_locations@.len()
                                    && #[trigger] self.order_locations@[kk] == (OrderLocation {
                                    order_id: id,
                                    price: self.asks@[i2].price,
                                    side: Side::Sell,
                                });
                            assert(self.order_locations@[kk].order_id == id);
                        }
                        assert(false);
                    }
                }
            }
        }
        removed
    }
}


/// The resting orders at `price` on a sorted side, head first; empty if no
/// such level.
pub fn side_level_orders(levels: &Vec<PriceLevel>, price: u64) -> (r: Vec<Order>)
    requires
        levels_sorted(levels@),
    ensures
        side_has_level(levels@, price) ==> r@ == levels@[level_index_of(levels@, price)].orders@,
        !side_has_level(levels@, price) ==> r@.len() == 0,
{
    let pos = find_insert_point(levels, price);
    if pos < levels.len() && levels[pos].price == price {
        proof {
            assert(side_has_level(levels@, price));
            let i = level_index_of(levels@, price);
            assert(0 <= i < levels@.len() && levels@[i].price == price);
            assert(i == pos) by {
                if i < pos {
                    assert(levels@[i].price < price);
                } else if i > pos {
                    assert(levels@[pos as int].price < levels@[i].price);
                }
            }
        }
        let src = &levels[pos].orders;
        let mut out: Vec<Order> = Vec::new();
        let mut j: usize = 0;
        while j < src.len()
            invariant
                0 <= j <= src@.len(),
                out@ == src@.take(j as int),
            decreases src@.len() - j,
        {
            proof {
                assert(src@.take(j as int).push(src@[j as int]) =~= src@.take(j + 1));
            }
            out.push(src[j]);
            j = j + 1;
        }
        proof {
            assert(src@.take(src@.len() as int) =~= src@);
        }
        out
    } else {
        proof {
            assert(!side_has_level(levels@, price)) by {
                if side_has_level(levels@, price) {
                    let i = level_index_of(levels@, price);
                    assert(0 <= i < levels@.len() && levels@[i].price == price);
                    if i < pos {
                        assert(levels@[i].price < price);
                    } else if i > pos {
                        assert(levels@[pos as int].price < levels@[i].price);
                    }
                }
            }
        }
        Vec::new()
    }
}

impl OrderBook {
    /// The resting orders at (`side`, `price`), head first; empty if the
    /// level does not exist.
    pub fn level_orders(&self, side: Side, price: u64) -> (r: Vec<Order>)
        requires
            book_wf(*self),
        ensures
            side_has_level(book_side_seq(*self, side), price) ==> r@ == book_side_seq(
                *self,
                side,
            )[level_index_of(book_side_seq(*self, side), price)].orders@,
            !side_has_level(book_side_seq(*self, side), price) ==> r@.len() == 0,
    {
        match side {
            Side::Buy => side_level_orders(&self.bids, price),
            Side::Sell => side_level_orders(&self.asks, price),
        }
    }

    /// The aggregate visible quantity at (`side`, `price`), zero if the
    /// level does not exist.
    pub fn level_visible_quantity(&self, side: Side, price: u64) -> (r: u64)
        requires
            book_wf(*self),
        ensures
            r == level_visible_at(book_side_seq(*self, side), price),
    {
        let levels = match side {
            Side::Buy => &self.bids,
            Side::Sell => &self.asks,
        };
        let pos = find_insert_point(levels, price);
        if pos < levels.len() && levels[pos].price == price {
            proof {
                reveal(level_visible_at);
                let s = book_side_seq(*self, side);
                assert(side_has_level(s, price));
                let i = level_index_of(s, price);
                assert(0 <= i < s.len() && s[i].price == price);
                assert(i == pos) by {
                    if i < pos {
                        assert(s[i].price < price);
                    } else if i > pos {
                        assert(s[pos as int].price < s[i].price);
                    }
                }
            }
            levels[pos].visible_quantity()
        } else {
            proof {
                reveal(level_visible_at);
                let s = book_side_seq(*self, side);
                assert(!side_has_level(s, price)) by {
                    if side_has_level(s, price) {
                        let i = level_index_of(s, price);
                        assert(0 <= i < s.len() && s[i].price == price);
                        if i < pos {
                            assert(s[i].price < price);
                        } else if i > pos {
                            assert(s[pos as int].price < s[i].price);
                        }
                    }
                }
            }
            0
        }
    }
}

} // verus!
