use vstd::prelude::*;
use crate::book::{
    book_has_expired_order, book_side_seq, book_unchanged, book_wf, level_total_at,
    level_visible_at, loc_entry_of, loc_has_id, resting_order_of, side_has_id, side_has_id_at,
    side_has_order, spec_crosses, spec_market_close, spec_requantify, standard_order, OrderBook,
    OrderLocation, OrderUpdate,
};
use crate::error::{OrderBookError, PriceLevelError};
use crate::level::u64s_distinct;
use crate::order::Order;
use crate::matching::{txn_prices_ascending, txn_prices_descending};
use crate::sums::txn_quantity_sum;
use crate::trade::MatchResult;
use crate::types::{
    DeleteInstrumentPayload, EngineCommand, InstrumentCreatePayload, OrderCancelPayload,
    OrderCreatePayload, OrderModifyPayload, OrderType, Side, TimeInForce,
};

verus! {

/// One instrument's book under its id.
pub struct ManagedBook {
    pub symbol: String,
    pub book: OrderBook,
}

/// The set of live order books, one per instrument id.
pub struct BookManager {
    pub books: Vec<ManagedBook>,
}

/// Every instrument id appears once, and every book is well formed.
pub open spec fn manager_wf(m: BookManager) -> bool {
    &&& forall|i: int, j: int|
        0 <= i < j < m.books@.len() ==> (#[trigger] m.books@[i]).symbol@ != (
        #[trigger] m.books@[j]).symbol@
    &&& forall|i: int| 0 <= i < m.books@.len() ==> book_wf((#[trigger] m.books@[i]).book)
}

/// Whether the manager holds a book for the instrument.
pub open spec fn mgr_has(m: BookManager, sym: Seq<char>) -> bool {
    exists|i: int| 0 <= i < m.books@.len() && (#[trigger] m.books@[i]).symbol@ == sym
}

/// The book held for the instrument, where one exists.
pub open spec fn mgr_book_of(m: BookManager, sym: Seq<char>) -> OrderBook {
    m.books@[choose|i: int| 0 <= i < m.books@.len() && (#[trigger] m.books@[i]).symbol@ == sym].book
}


/// A book as `OrderBook::new` leaves it: empty on every side, with no trade
/// or market-close state and a fresh transaction counter.
pub open spec fn fresh_book(b: OrderBook) -> bool {
    &&& book_wf(b)
    &&& b.bids@.len() == 0
    &&& b.asks@.len() == 0
    &&& b.order_locations@.len() == 0
    &&& !b.has_traded
    &&& !b.has_market_close
    &&& b.pending_events@.len() == 0
    &&& b.last_trade_price == 0
    &&& b.market_close_timestamp == 0
    &&& b.next_transaction_id == 1
}

/// Everything `OrderBook::remove_expired_orders` promises, as a relation
/// between the book before (`b0`) and after (`b1`), with the removed ids.
pub open spec fn swept_book_with(
    b0: OrderBook,
    b1: OrderBook,
    now_ms: u64,
    removed: Seq<u64>,
) -> bool {
    &&& (book_wf(b1))
    &&& (b1.market_close_timestamp == b0.market_close_timestamp)
    &&& (b1.has_market_close == b0.has_market_close)
    &&& (forall|k: int|
        0 <= k < removed.len() ==> loc_has_id(b0.order_locations@, #[trigger] removed[k])
            && !loc_has_id(b1.order_locations@, removed[k]))
    &&& (forall|k: int|
        0 <= k < removed.len() ==> #[trigger] book_has_expired_order(
            b0,
            removed[k],
            now_ms,
        ))
    &&& (forall|id: u64|
        !removed.contains(id) ==> (#[trigger] loc_has_id(b1.order_locations@, id)
            <==> loc_has_id(b0.order_locations@, id)))
    &&& (forall|id: u64|
        #[trigger] book_has_expired_order(b0, id, now_ms) ==> removed.contains(id)
            && !loc_has_id(b1.order_locations@, id))
    &&& (forall|id: u64| !(#[trigger] book_has_expired_order(b1, id, now_ms)))
    &&& (b1.last_trade_price == b0.last_trade_price)
    &&& (b1.has_traded == b0.has_traded)
    &&& (b1.next_transaction_id == b0.next_transaction_id)
    &&& (b0.pending_events@.len() <= b1.pending_events@.len())
    &&& (forall|i: int|
        0 <= i < b0.pending_events@.len()
            ==> #[trigger] b1.pending_events@[i] == b0.pending_events@[i])
    &&& (b1.pending_events@.len() == b0.pending_events@.len() + removed.len())
    &&& (forall|id: u64, p: u64|
        !removed.contains(id) ==> (#[trigger] side_has_id_at(b1.bids@, id, p)
            <==> side_has_id_at(b0.bids@, id, p)))
    &&& (forall|id: u64, p: u64|
        !removed.contains(id) ==> (#[trigger] side_has_id_at(b1.asks@, id, p)
            <==> side_has_id_at(b0.asks@, id, p)))
    &&& (forall|i: int, j: int|
        0 <= i < b1.bids@.len() && 0 <= j < b1.bids@[i].orders@.len()
            ==> side_has_order(b0.bids@, #[trigger] b1.bids@[i].orders@[j]))
    &&& (forall|i: int, j: int|
        0 <= i < b1.asks@.len() && 0 <= j < b1.asks@[i].orders@.len()
            ==> side_has_order(b0.asks@, #[trigger] b1.asks@[i].orders@[j]))
    &&& ((forall|id: u64|
        !(#[trigger] book_has_expired_order(b0, id, now_ms))) ==> book_unchanged(b1, b0))
}

/// The book has been swept of its expired orders at `now_ms`.
pub open spec fn swept_book(b0: OrderBook, b1: OrderBook, now_ms: u64) -> bool {
    exists|removed: Seq<u64>| #[trigger] swept_book_with(b0, b1, now_ms, removed)
}

/// Everything `OrderBook::cancel_order` promises, as a relation.
pub open spec fn book_cancelled(
    b0: OrderBook,
    b1: OrderBook,
    order_id: u64,
    r: Result<(), OrderBookError>,
) -> bool {
    &&& (book_wf(b1))
    &&& (b1.last_trade_price == b0.last_trade_price)
    &&& (b1.has_traded == b0.has_traded)
    &&& (b1.market_close_timestamp == b0.market_close_timestamp)
    &&& (b1.has_market_close == b0.has_market_close)
    &&& (b1.next_transaction_id == b0.next_transaction_id)
    &&& (match r {
        Ok(()) => {
            &&& loc_has_id(b0.order_locations@, order_id)
            &&& !loc_has_id(b1.order_locations@, order_id)
            &&& !side_has_id(b1.bids@, order_id)
            &&& !side_has_id(b1.asks@, order_id)
            &&& exists|k: int|
                0 <= k < b0.order_locations@.len()
                    && (#[trigger] b0.order_locations@[k]).order_id == order_id
                    && b1.order_locations@ == b0.order_locations@.remove(k)
                    && (if b0.order_locations@[k].side == Side::Buy {
                    b1.asks@ == b0.asks@
                } else {
                    b1.bids@ == b0.bids@
                })
                    && b1.pending_events@.last().side
                    == b0.order_locations@[k].side
                    && b1.pending_events@.last().price
                    == b0.order_locations@[k].price
                    && b1.pending_events@.last().quantity == level_visible_at(
                    book_side_seq(b1, b0.order_locations@[k].side),
                    b0.order_locations@[k].price,
                )
            &&& forall|p: u64|
                #[trigger] level_total_at(b1.bids@, p) <= level_total_at(
                    b0.bids@,
                    p,
                )
            &&& forall|p: u64|
                #[trigger] level_total_at(b1.asks@, p) <= level_total_at(
                    b0.asks@,
                    p,
                )
            &&& forall|id2: u64, p2: u64|
                id2 != order_id ==> (#[trigger] side_has_id_at(
                    b1.bids@,
                    id2,
                    p2,
                ) <==> side_has_id_at(b0.bids@, id2, p2))
            &&& forall|id2: u64, p2: u64|
                id2 != order_id ==> (#[trigger] side_has_id_at(
                    b1.asks@,
                    id2,
                    p2,
                ) <==> side_has_id_at(b0.asks@, id2, p2))
            &&& forall|i: int, j: int|
                0 <= i < b1.bids@.len()
                    && 0 <= j < b1.bids@[i].orders@.len() ==> side_has_order(
                    b0.bids@,
                    #[trigger] b1.bids@[i].orders@[j],
                )
            &&& forall|i: int, j: int|
                0 <= i < b1.asks@.len()
                    && 0 <= j < b1.asks@[i].orders@.len() ==> side_has_order(
                    b0.asks@,
                    #[trigger] b1.asks@[i].orders@[j],
                )
            &&& b1.pending_events@.len() == b0.pending_events@.len() + 1
            &&& b0.pending_events@.is_prefix_of(b1.pending_events@)
        },
        Err(OrderBookError::OrderNotFound(id)) => {
            &&& id == order_id
            &&& !loc_has_id(b0.order_locations@, order_id)
            &&& book_unchanged(b1, b0)
        },
        _ => false,
    })
}

/// Everything `OrderBook::update_order` promises, as a relation.
pub open spec fn book_updated(
    b0: OrderBook,
    b1: OrderBook,
    update: OrderUpdate,
    now_ms: u64,
    r: Result<(), OrderBookError>,
) -> bool {
    &&& (book_wf(b1))
    &&& (b1.last_trade_price == b0.last_trade_price)
    &&& (b1.has_traded == b0.has_traded)
    &&& (b1.market_close_timestamp == b0.market_close_timestamp)
    &&& (b1.has_market_close == b0.has_market_close)
    &&& (b1.next_transaction_id == b0.next_transaction_id)
    &&& (({
        let OrderUpdate::UpdatePriceAndQuantity { order_id, new_price, new_quantity } =
            update;
        let e = loc_entry_of(b0.order_locations@, order_id);
        let o = resting_order_of(book_side_seq(b0, e.side), order_id);
        match r {
            Err(OrderBookError::OrderNotFound(id)) => {
                &&& id == order_id
                &&& !loc_has_id(b0.order_locations@, order_id)
                &&& book_unchanged(b1, b0)
            },
            Err(OrderBookError::InvalidPriceLevel(p)) => {
                &&& p == 0
                &&& new_price == 0
                &&& loc_has_id(b0.order_locations@, order_id)
                &&& book_unchanged(b1, b0)
            },
            Err(OrderBookError::PriceLevelError(PriceLevelError::InvalidQuantity)) => {
                &&& new_quantity == 0
                &&& new_price > 0
                &&& loc_has_id(b0.order_locations@, order_id)
                &&& book_unchanged(b1, b0)
            },
            Err(OrderBookError::InvalidOperation) => {
                &&& loc_has_id(b0.order_locations@, order_id)
                &&& new_price > 0
                &&& new_quantity > 0
                &&& ((o.kind is Iceberg || o.kind is Reserve)
                    || o.time_in_force.spec_is_expired(
                    now_ms,
                    spec_market_close(b0),
                ))
                &&& book_unchanged(b1, b0)
            },
            Err(OrderBookError::PriceCrossing { price, side, opposite_price }) => {
                &&& price == new_price
                &&& side == e.side
                &&& loc_has_id(b0.order_locations@, order_id)
                &&& spec_crosses(b0, new_price, e.side)
                &&& book_unchanged(b1, b0)
            },
            Err(OrderBookError::PriceLevelError(PriceLevelError::ArithmeticOverflow)) => {
                &&& loc_has_id(b0.order_locations@, order_id)
                &&& level_total_at(book_side_seq(b0, e.side), new_price)
                    + new_quantity > u64::MAX
                &&& book_unchanged(b1, b0)
            },
            Ok(()) => {
                &&& loc_has_id(b0.order_locations@, order_id)
                &&& new_price > 0
                &&& new_quantity > 0
                &&& !(o.kind is Iceberg) && !(o.kind is Reserve)
                &&& !spec_crosses(b0, new_price, e.side)
                &&& loc_has_id(b1.order_locations@, order_id)
                &&& side_has_id_at(
                    book_side_seq(b1, e.side),
                    order_id,
                    new_price,
                )
                &&& forall|id2: u64|
                    id2 != order_id ==> (#[trigger] loc_has_id(
                        b1.order_locations@,
                        id2,
                    ) <==> loc_has_id(b0.order_locations@, id2))
                &&& exists|i: int|
                    0 <= i < book_side_seq(b1, e.side).len() && (
                    #[trigger] book_side_seq(b1, e.side)[i]).price == new_price
                        && book_side_seq(b1, e.side)[i].orders@.len() > 0
                        && book_side_seq(b1, e.side)[i].orders@.last() == (Order {
                        id: order_id,
                        price: new_price,
                        side: e.side,
                        timestamp_ms: now_ms,
                        time_in_force: o.time_in_force,
                        kind: spec_requantify(o.kind, new_quantity),
                    })
            },
            _ => false,
        }
    }))
}

/// Everything `OrderBook::add_limit_order` promises, as a relation.
pub open spec fn book_rested(
    b0: OrderBook,
    b1: OrderBook,
    order_id: u64,
    price: u64,
    quantity: u64,
    side: Side,
    time_in_force: TimeInForce,
    now_ms: u64,
    r: Result<(), OrderBookError>,
) -> bool {
    &&& (book_wf(b1))
    &&& (b1.last_trade_price == b0.last_trade_price)
    &&& (b1.has_traded == b0.has_traded)
    &&& (b1.market_close_timestamp == b0.market_close_timestamp)
    &&& (b1.has_market_close == b0.has_market_close)
    &&& (b1.next_transaction_id == b0.next_transaction_id)
    &&& (match r {
        Ok(()) => {
            &&& price > 0
            &&& quantity > 0
            &&& !loc_has_id(b0.order_locations@, order_id)
            &&& !time_in_force.spec_is_expired(now_ms, spec_market_close(b0))
            &&& !spec_crosses(b0, price, side)
            &&& b1.order_locations@ == b0.order_locations@.push(
                OrderLocation { order_id, price, side },
            )
            &&& (if side == Side::Buy {
                b1.asks@ == b0.asks@
            } else {
                b1.bids@ == b0.bids@
            })
            &&& forall|id2: u64, p2: u64|
                #[trigger] side_has_id_at(book_side_seq(b1, side), id2, p2)
                    <==> (side_has_id_at(book_side_seq(b0, side), id2, p2) || (id2
                    == order_id && p2 == price))
            &&& exists|i: int|
                0 <= i < book_side_seq(b1, side).len() && (
                #[trigger] book_side_seq(b1, side)[i]).price == price
                    && book_side_seq(b1, side)[i].orders@.len() > 0
                    && book_side_seq(b1, side)[i].orders@.last()
                    == standard_order(order_id, price, quantity, side, time_in_force, now_ms)
            &&& b1.pending_events@ == b0.pending_events@.push(
                b1.pending_events@.last(),
            )
            &&& b1.pending_events@.last().side == side
            &&& b1.pending_events@.last().price == price
            &&& b1.pending_events@.last().quantity == level_visible_at(
                book_side_seq(b0, side),
                price,
            ) + quantity
        },
        Err(OrderBookError::InvalidPriceLevel(p)) => {
            &&& p == 0
            &&& price == 0
            &&& book_unchanged(b1, b0)
        },
        Err(OrderBookError::InvalidOperation) => {
            &&& price > 0
            &&& (loc_has_id(b0.order_locations@, order_id)
                || time_in_force.spec_is_expired(now_ms, spec_market_close(b0)))
            &&& book_unchanged(b1, b0)
        },
        Err(OrderBookError::PriceCrossing { price: p, side: s, opposite_price }) => {
            &&& p == price
            &&& s == side
            &&& spec_crosses(b0, price, side)
            &&& opposite_price == (if side == Side::Buy {
                b0.asks@.first().price
            } else {
                b0.bids@.last().price
            })
            &&& book_unchanged(b1, b0)
        },
        Err(OrderBookError::PriceLevelError(e)) => {
            &&& (e == PriceLevelError::InvalidQuantity <==> quantity == 0)
            &&& (e == PriceLevelError::ArithmeticOverflow ==> level_total_at(
                book_side_seq(b0, side),
                price,
            ) + quantity > u64::MAX)
            &&& book_unchanged(b1, b0)
        },
        _ => false,
    })
}

/// Everything `OrderBook::submit_market_order` promises, as a relation.
pub open spec fn book_market_matched(
    b0: OrderBook,
    b1: OrderBook,
    order_id: u64,
    quantity: u64,
    side: Side,
    r: Result<MatchResult, OrderBookError>,
) -> bool {
    &&& (book_wf(b1))
    &&& ((r is Err) <==> (quantity == 0 || (if side == Side::Buy {
        b0.asks@.len() == 0
    } else {
        b0.bids@.len() == 0
    })))
    &&& (match r {
        Ok(res) => {
            &&& res.order_id == order_id
            &&& res.remaining_quantity <= quantity
            &&& res.is_complete == (res.remaining_quantity == 0)
            &&& txn_quantity_sum(res.transactions@) == quantity - res.remaining_quantity
            &&& res.transactions@.len() > 0
            &&& (side == Side::Buy ==> b1.bids@ == b0.bids@
                && txn_prices_ascending(res.transactions@))
            &&& (side == Side::Sell ==> b1.asks@ == b0.asks@
                && txn_prices_descending(res.transactions@))
            &&& (res.remaining_quantity > 0 && side == Side::Buy
                ==> b1.asks@.len() == 0)
            &&& (res.remaining_quantity > 0 && side == Side::Sell
                ==> b1.bids@.len() == 0)
            &&& b1.has_traded
            &&& b1.last_trade_price == res.transactions@.last().price
        },
        Err(OrderBookError::InsufficientLiquidity { side: s, requested, available }) => {
            &&& s == side
            &&& requested == quantity
            &&& available == 0
            &&& (quantity == 0 || (if side == Side::Buy {
                b0.asks@.len() == 0
            } else {
                b0.bids@.len() == 0
            }))
            &&& book_unchanged(b1, b0)
        },
        _ => false,
    })
}

/// Everything `OrderBook::match_limit_order` promises, as a relation.
pub open spec fn book_limit_matched(
    b0: OrderBook,
    b1: OrderBook,
    order_id: u64,
    quantity: u64,
    side: Side,
    price: u64,
    r: Result<MatchResult, OrderBookError>,
) -> bool {
    &&& (book_wf(b1))
    &&& (r is Ok)
    &&& (match r {
        Ok(res) => {
            &&& res.order_id == order_id
            &&& res.remaining_quantity <= quantity
            &&& res.is_complete == (res.remaining_quantity == 0)
            &&& txn_quantity_sum(res.transactions@) == quantity - res.remaining_quantity
            &&& (res.remaining_quantity > 0 && side == Side::Buy && quantity > 0 ==> (
            b1.asks@.len() == 0 || b1.asks@.first().price > price))
            &&& (res.remaining_quantity > 0 && side == Side::Sell && quantity > 0 ==> (
            b1.bids@.len() == 0 || b1.bids@.last().price < price))
            &&& (side == Side::Buy ==> b1.bids@ == b0.bids@
                && txn_prices_ascending(res.transactions@))
            &&& (side == Side::Sell ==> b1.asks@ == b0.asks@
                && txn_prices_descending(res.transactions@))
            &&& forall|k: int|
                0 <= k < res.transactions@.len() ==> (#[trigger] res.transactions@[k]).taker_order_id
                    == order_id && res.transactions@[k].quantity > 0 && (side == Side::Buy
                    ==> res.transactions@[k].price <= price) && (side == Side::Sell
                    ==> res.transactions@[k].price >= price)
            &&& forall|id: u64|
                !res.filled_order_ids@.contains(id) ==> (#[trigger] loc_has_id(
                    b1.order_locations@,
                    id,
                ) <==> loc_has_id(b0.order_locations@, id))
            &&& (res.transactions@.len() == 0 ==> book_unchanged(
                b1,
                b0,
            ) && res.remaining_quantity == quantity)
        },
        _ => false,
    })
}

/// Replacing one book in place (same instrument) keeps the symbol set, the
/// other instruments' books, and well-formedness.
pub proof fn lemma_mgr_book_of_update(m0: BookManager, m1: BookManager, i: int)
    requires
        manager_wf(m0),
        0 <= i < m0.books@.len(),
        m1.books@.len() == m0.books@.len(),
        m1.books@ == m0.books@.update(i, m1.books@[i]),
        m1.books@[i].symbol@ == m0.books@[i].symbol@,
        book_wf(m1.books@[i].book),
    ensures
        manager_wf(m1),
        forall|sym: Seq<char>| #[trigger] mgr_has(m1, sym) <==> mgr_has(m0, sym),
        mgr_book_of(m0, m0.books@[i].symbol@) == m0.books@[i].book,
        mgr_book_of(m1, m0.books@[i].symbol@) == m1.books@[i].book,
        forall|sym: Seq<char>|
            sym != m0.books@[i].symbol@ && mgr_has(m0, sym) ==> mgr_book_of(m1, sym)
                == mgr_book_of(m0, sym),
{
    assert(forall|j: int| 0 <= j < m1.books@.len() && j != i ==> #[trigger] m1.books@[j]
        == m0.books@[j]);
    assert(forall|j: int|
        0 <= j < m1.books@.len() ==> (#[trigger] m1.books@[j]).symbol@ == m0.books@[j].symbol@);
    lemma_mgr_has_pointwise(m0, m1);
    let sym0 = m0.books@[i].symbol@;
    assert(mgr_book_of(m0, sym0) == m0.books@[i].book) by {
        let j = choose|j: int| 0 <= j < m0.books@.len() && (#[trigger] m0.books@[j]).symbol@ == sym0;
        assert(m0.books@[i].symbol@ == sym0);
        assert(j == i);
    }
    assert(mgr_book_of(m1, sym0) == m1.books@[i].book) by {
        let j = choose|j: int| 0 <= j < m1.books@.len() && (#[trigger] m1.books@[j]).symbol@ == sym0;
        assert(m1.books@[i].symbol@ == sym0);
        assert(j == i);
    }
    assert forall|sym: Seq<char>| sym != sym0 && mgr_has(m0, sym) implies mgr_book_of(m1, sym)
        == mgr_book_of(m0, sym) by {
        let j0 = choose|j: int| 0 <= j < m0.books@.len() && (#[trigger] m0.books@[j]).symbol@ == sym;
        let j1 = choose|j: int| 0 <= j < m1.books@.len() && (#[trigger] m1.books@[j]).symbol@ == sym;
        assert(m1.books@[j0].symbol@ == sym);
        assert(j1 == j0);
        assert(j0 != i);
    }
}

/// Appending a book for a new instrument keeps the other instruments' books.
pub proof fn lemma_mgr_book_of_push(m0: BookManager, m1: BookManager)
    requires
        manager_wf(m0),
        m1.books@.len() == m0.books@.len() + 1,
        m1.books@ == m0.books@.push(m1.books@.last()),
        !mgr_has(m0, m1.books@.last().symbol@),
        book_wf(m1.books@.last().book),
    ensures
        manager_wf(m1),
        mgr_has(m1, m1.books@.last().symbol@),
        mgr_book_of(m1, m1.books@.last().symbol@) == m1.books@.last().book,
        forall|sym: Seq<char>|
            sym != m1.books@.last().symbol@ ==> (#[trigger] mgr_has(m1, sym) <==> mgr_has(
                m0,
                sym,
            )),
        forall|sym: Seq<char>|
            sym != m1.books@.last().symbol@ && mgr_has(m0, sym) ==> mgr_book_of(m1, sym)
                == mgr_book_of(m0, sym),
{
    let n = m0.books@.len() as int;
    let last = m1.books@.last();
    assert(forall|j: int| 0 <= j < n ==> #[trigger] m1.books@[j] == m0.books@[j]);
    assert(m1.books@[n] == last);
    assert(manager_wf(m1)) by {
        assert forall|a: int, b: int| 0 <= a < b < m1.books@.len() implies (
        #[trigger] m1.books@[a]).symbol@ != (#[trigger] m1.books@[b]).symbol@ by {
            if b == n {
                if m1.books@[a].symbol@ == last.symbol@ {
                    assert(mgr_has(m0, last.symbol@)) by {
                        assert(m0.books@[a].symbol@ == last.symbol@);
                    }
                }
            }
        }
    }
    assert(mgr_has(m1, last.symbol@)) by {
        assert(m1.books@[n].symbol@ == last.symbol@);
    }
    assert(mgr_book_of(m1, last.symbol@) == last.book) by {
        let j = choose|j: int|
            0 <= j < m1.books@.len() && (#[trigger] m1.books@[j]).symbol@ == last.symbol@;
        if j < n {
            assert(mgr_has(m0, last.symbol@)) by {
                assert(m0.books@[j].symbol@ == last.symbol@);
            }
        }
    }
    assert forall|sym: Seq<char>| sym != last.symbol@ implies (#[trigger] mgr_has(m1, sym)
        <==> mgr_has(m0, sym)) by {
        if mgr_has(m1, sym) {
            let j = choose|j: int|
                0 <= j < m1.books@.len() && (#[trigger] m1.books@[j]).symbol@ == sym;
            assert(j != n);
            assert(m0.books@[j].symbol@ == sym);
        }
        if mgr_has(m0, sym) {
            let j = choose|j: int|
                0 <= j < m0.books@.len() && (#[trigger] m0.books@[j]).symbol@ == sym;
            assert(m1.books@[j].symbol@ == sym);
        }
    }
    assert forall|sym: Seq<char>| sym != last.symbol@ && mgr_has(m0, sym) implies mgr_book_of(
        m1,
        sym,
    ) == mgr_book_of(m0, sym) by {
        let j0 = choose|j: int| 0 <= j < m0.books@.len() && (#[trigger] m0.books@[j]).symbol@ == sym;
        let j1 = choose|j: int| 0 <= j < m1.books@.len() && (#[trigger] m1.books@[j]).symbol@ == sym;
        assert(m1.books@[j0].symbol@ == sym);
        assert(j1 != n);
        assert(j1 == j0);
    }
}

impl BookManager {
    /// An empty manager with no instruments.
    pub fn new() -> (r: BookManager)
        ensures
            manager_wf(r),
            r.books@.len() == 0,
    {
        BookManager { books: Vec::new() }
    }

    /// The index of the instrument's book, if the manager holds one.
    pub fn find_book_index(&self, instrument_id: &String) -> (r: Option<usize>)
        ensures
            match r {
                Some(i) => i < self.books@.len() && self.books@[i as int].symbol@
                    == instrument_id@,
                None => !mgr_has(*self, instrument_id@),
            },
    {
        let mut i: usize = 0;
        while i < self.books.len()
            invariant
                0 <= i <= self.books@.len(),
                forall|j: int| 0 <= j < i ==> (#[trigger] self.books@[j]).symbol@ != instrument_id@,
            decreases self.books@.len() - i,
        {
            if self.books[i].symbol == *instrument_id {
                return Some(i);
            }
            i = i + 1;
        }
        None
    }

    /// Whether the manager holds a book for the instrument.
    pub fn contains_book(&self, instrument_id: &String) -> (r: bool)
        ensures
            r == mgr_has(*self, instrument_id@),
    {
        match self.find_book_index(instrument_id) {
            Some(i) => {
                proof {
                    assert(self.books@[i as int].symbol@ == instrument_id@);
                }
                true
            },
            None => false,
        }
    }

    /// How many instruments have a book.
    pub fn book_count(&self) -> (r: usize)
        ensures
            r == self.books@.len(),
    {
        self.books.len()
    }

    /// Creates an empty book for the instrument if none exists; a second
    /// creation of the same instrument is a no-op on the existing book.
    pub fn add_book(&mut self, instrument_id: &String)
        requires
            manager_wf(*old(self)),
        ensures
            manager_wf(*final(self)),
            mgr_has(*final(self), instrument_id@),
            mgr_has(*old(self), instrument_id@) ==> final(self).books@ == old(self).books@,
            !mgr_has(*old(self), instrument_id@) ==> final(self).books@.len() == old(
                self,
            ).books@.len() + 1 && final(self).books@.last().symbol@ == instrument_id@
                && fresh_book(final(self).books@.last().book) && (forall|i: int|
                0 <= i < old(self).books@.len() ==> #[trigger] final(self).books@[i] == old(
                    self,
                ).books@[i]),
            forall|sym: Seq<char>|
                sym != instrument_id@ ==> (#[trigger] mgr_has(*final(self), sym) <==> mgr_has(
                    *old(self),
                    sym,
                )),
            !mgr_has(*old(self), instrument_id@) ==> fresh_book(
                mgr_book_of(*final(self), instrument_id@),
            ),
            forall|sym: Seq<char>|
                sym != instrument_id@ && mgr_has(*old(self), sym) ==> mgr_book_of(
                    *final(self),
                    sym,
                ) == mgr_book_of(*old(self), sym),
    {
        match self.find_book_index(instrument_id) {
            Some(i) => {
                proof {
                    assert(self.books@[i as int].symbol@ == instrument_id@);
                }
            },
            None => {
                let ghost m0 = *self;
                self.books.push(ManagedBook { symbol: instrument_id.clone(), book: OrderBook::new() });
                proof {
                    lemma_mgr_book_of_push(m0, *self);
                    assert(fresh_book(self.books@.last().book));
                    let t = self.books@;
                    assert(forall|i: int| 0 <= i < m0.books@.len() ==> #[trigger] t[i]
                        == m0.books@[i]);
                    assert(t.last().symbol@ == instrument_id@);
                    assert forall|sym: Seq<char>|
                        sym != instrument_id@ implies (#[trigger] mgr_has(*self, sym) <==> mgr_has(
                        m0,
                        sym,
                    )) by {
                        if mgr_has(*self, sym) {
                            let i = choose|i: int|
                                0 <= i < t.len() && (#[trigger] t[i]).symbol@ == sym;
                            assert(i < m0.books@.len());
                            assert(mgr_has(m0, sym));
                        }
                        if mgr_has(m0, sym) {
                            let i = choose|i: int|
                                0 <= i < m0.books@.len() && (#[trigger] m0.books@[i]).symbol@
                                    == sym;
                            assert(t[i].symbol@ == sym);
                        }
                    }
                    assert(mgr_has(*self, instrument_id@)) by {
                        assert(t[t.len() - 1].symbol@ == instrument_id@);
                    }
                }
            },
        }
    }

    /// Drops the instrument's book and all its orders if one exists; a
    /// second deletion of the same instrument is a no-op.
    pub fn remove_book(&mut self, instrument_id: &String)
        requires
            manager_wf(*old(self)),
        ensures
            manager_wf(*final(self)),
            !mgr_has(*final(self), instrument_id@),
            !mgr_has(*old(self), instrument_id@) ==> final(self).books@ == old(self).books@,
            forall|sym: Seq<char>|
                sym != instrument_id@ ==> (#[trigger] mgr_has(*final(self), sym) <==> mgr_has(
                    *old(self),
                    sym,
                )),
            forall|sym: Seq<char>|
                sym != instrument_id@ && mgr_has(*old(self), sym) ==> mgr_book_of(
                    *final(self),
                    sym,
                ) == mgr_book_of(*old(self), sym),
    {
        match self.find_book_index(instrument_id) {
            None => {},
            Some(i) => {
                let ghost m0 = *self;
                self.books.remove(i);
                proof {
                    let t = self.books@;
                    assert(t == m0.books@.remove(i as int));
                    assert(forall|j: int|
                        0 <= j < t.len() ==> #[trigger] t[j] == (if j < i {
                            m0.books@[j]
                        } else {
                            m0.books@[j + 1]
                        }));
                    assert(!mgr_has(*self, instrument_id@)) by {
                        if mgr_has(*self, instrument_id@) {
                            let j = choose|j: int|
                                0 <= j < t.len() && (#[trigger] t[j]).symbol@ == instrument_id@;
                            assert(m0.books@[i as int].symbol@ == instrument_id@);
                            if j < i {
                                assert(m0.books@[j].symbol@ == instrument_id@);
                            } else {
                                assert(m0.books@[j + 1].symbol@ == instrument_id@);
                            }
                            assert(false);
                        }
                    }
                    assert forall|sym: Seq<char>|
                        sym != instrument_id@ implies (#[trigger] mgr_has(*self, sym) <==> mgr_has(
                        m0,
                        sym,
                    )) by {
                        if mgr_has(*self, sym) {
                            let j = choose|j: int|
                                0 <= j < t.len() && (#[trigger] t[j]).symbol@ == sym;
                            if j < i {
                                assert(m0.books@[j].symbol@ == sym);
                            } else {
                                assert(m0.books@[j + 1].symbol@ == sym);
                            }
                        }
                        if mgr_has(m0, sym) {
                            let j = choose|j: int|
                                0 <= j < m0.books@.len() && (#[trigger] m0.books@[j]).symbol@
                                    == sym;
                            assert(j != i);
                            if j < i {
                                assert(t[j].symbol@ == sym);
                            } else {
                                assert(t[j - 1].symbol@ == sym);
                            }
                        }
                    }
                    assert forall|sym: Seq<char>|
                        sym != instrument_id@ && mgr_has(m0, sym) implies mgr_book_of(*self, sym)
                        == mgr_book_of(m0, sym) by {
                        let j0 = choose|j: int|
                            0 <= j < m0.books@.len() && (#[trigger] m0.books@[j]).symbol@ == sym;
                        let j1 = choose|j: int|
                            0 <= j < t.len() && (#[trigger] t[j]).symbol@ == sym;
                        assert(j0 != i);
                        if j0 < i {
                            assert(t[j0].symbol@ == sym);
                        } else {
                            assert(t[j0 - 1].symbol@ == sym);
                        }
                        let m1j = if j1 < i {
                            j1
                        } else {
                            j1 + 1
                        };
                        assert(m0.books@[m1j].symbol@ == sym);
                        assert(m1j == j0);
                    }
                }
            },
        }
    }

    /// A shared view of the instrument's book, if one exists.
    pub fn get_book(&self, instrument_id: &String) -> (r: Option<&OrderBook>)
        requires
            manager_wf(*self),
        ensures
            match r {
                Some(b) => mgr_has(*self, instrument_id@) && book_wf(*b) && exists|i: int|
                    0 <= i < self.books@.len() && (#[trigger] self.books@[i]).symbol@
                        == instrument_id@ && *b == self.books@[i].book,
                None => !mgr_has(*self, instrument_id@),
            },
    {
        match self.find_book_index(instrument_id) {
            Some(i) => {
                proof {
                    assert(self.books@[i as int].symbol@ == instrument_id@);
                }
                Some(&self.books[i].book)
            },
            None => None,
        }
    }
}

/// Handles an instrument-creation command: creates an empty book unless the
/// instrument already has one; returns whether a book was created. A second
/// creation is a no-op on the existing book.
pub fn handle_instrument_create(manager: &mut BookManager, instr: InstrumentCreatePayload) -> (r:
    bool)
    requires
        manager_wf(*old(manager)),
    ensures
        mgr_instrument_created(*old(manager), *final(manager), instr, r),
{
    let token = instr.instrument_id;
    if manager.contains_book(&token) {
        return false;
    }
    manager.add_book(&token);
    true
}

/// Handles an instrument-deletion command: drops the instrument's book and
/// all its orders; returns whether a book was dropped. A second deletion is
/// a no-op.
pub fn handle_instrument_delete(manager: &mut BookManager, delete_instr: DeleteInstrumentPayload)
    -> (r: bool)
    requires
        manager_wf(*old(manager)),
    ensures
        mgr_instrument_deleted(*old(manager), *final(manager), delete_instr, r),
{
    let instrument_id = delete_instr.instrument_id;
    if !manager.contains_book(&instrument_id) {
        return false;
    }
    manager.remove_book(&instrument_id);
    true
}


/// What handling an order-creation command produced.
pub enum OrderCreateOutcome {
    /// A market order's match result.
    Market(Result<MatchResult, OrderBookError>),
    /// An aggressive limit order's match result, and the error resting its
    /// remainder produced, when a remainder was left and could not rest.
    AggressiveLimit(MatchResult, Option<OrderBookError>),
    /// A passive limit order's resting outcome.
    RestingLimit(Result<(), OrderBookError>),
}

/// Whether symbols and book well-formedness carry over pointwise when one
/// book is replaced in place.
pub proof fn lemma_mgr_has_pointwise(m0: BookManager, m1: BookManager)
    requires
        m0.books@.len() == m1.books@.len(),
        forall|i: int|
            0 <= i < m0.books@.len() ==> (#[trigger] m1.books@[i]).symbol@
                == m0.books@[i].symbol@,
    ensures
        forall|sym: Seq<char>| #[trigger] mgr_has(m1, sym) <==> mgr_has(m0, sym),
{
    assert forall|sym: Seq<char>| #[trigger] mgr_has(m1, sym) implies mgr_has(m0, sym) by {
        let i = choose|i: int| 0 <= i < m1.books@.len() && (#[trigger] m1.books@[i]).symbol@ == sym;
        assert(m0.books@[i].symbol@ == sym);
    }
    assert forall|sym: Seq<char>| mgr_has(m0, sym) implies mgr_has(m1, sym) by {
        let i = choose|i: int| 0 <= i < m0.books@.len() && (#[trigger] m0.books@[i]).symbol@ == sym;
        assert(m1.books@[i].symbol@ == sym);
    }
}

/// Everything `handle_instrument_create` promises, as a relation.
pub open spec fn mgr_instrument_created(
    m0: BookManager,
    m1: BookManager,
    instr: InstrumentCreatePayload,
    created: bool,
) -> bool {
    &&& manager_wf(m1)
    &&& mgr_has(m1, instr.instrument_id@)
    &&& created == !mgr_has(m0, instr.instrument_id@)
    &&& (!created ==> m1.books@ == m0.books@)
    &&& (created ==> fresh_book(mgr_book_of(m1, instr.instrument_id@)))
    &&& forall|sym: Seq<char>|
        sym != instr.instrument_id@ ==> (#[trigger] mgr_has(m1, sym) <==> mgr_has(m0, sym))
    &&& forall|sym: Seq<char>|
        sym != instr.instrument_id@ && mgr_has(m0, sym) ==> mgr_book_of(m1, sym) == mgr_book_of(
            m0,
            sym,
        )
}

/// Everything `handle_instrument_delete` promises, as a relation.
pub open spec fn mgr_instrument_deleted(
    m0: BookManager,
    m1: BookManager,
    instr: DeleteInstrumentPayload,
    deleted: bool,
) -> bool {
    &&& manager_wf(m1)
    &&& !mgr_has(m1, instr.instrument_id@)
    &&& deleted == mgr_has(m0, instr.instrument_id@)
    &&& (!deleted ==> m1.books@ == m0.books@)
    &&& forall|sym: Seq<char>|
        sym != instr.instrument_id@ ==> (#[trigger] mgr_has(m1, sym) <==> mgr_has(m0, sym))
    &&& forall|sym: Seq<char>|
        sym != instr.instrument_id@ && mgr_has(m0, sym) ==> mgr_book_of(m1, sym) == mgr_book_of(
            m0,
            sym,
        )
}

/// Everything `handle_order_create` promises, as a relation: the
/// instrument's book (created empty on demand) is swept of expired orders
/// and then receives the order exactly as the matching and resting
/// operations describe; the outcome variant is fixed by the order type and
/// by aggressiveness against the swept book's best opposite; every other
/// instrument's book is untouched.
pub open spec fn mgr_order_created(
    m0: BookManager,
    m1: BookManager,
    order: OrderCreatePayload,
    now_ms: u64,
    r: OrderCreateOutcome,
) -> bool {
    &&& manager_wf(m1)
    &&& mgr_has(m1, order.instrument_id@)
    &&& forall|sym: Seq<char>|
        sym != order.instrument_id@ ==> (#[trigger] mgr_has(m1, sym) <==> mgr_has(m0, sym))
    &&& forall|sym: Seq<char>|
        sym != order.instrument_id@ && mgr_has(m0, sym) ==> mgr_book_of(m1, sym) == mgr_book_of(
            m0,
            sym,
        )
    &&& (r is Market <==> order.order_type == OrderType::MARKET)
    &&& exists|b_start: OrderBook, b1: OrderBook|
        (if mgr_has(m0, order.instrument_id@) {
            b_start == mgr_book_of(m0, order.instrument_id@)
        } else {
            fresh_book(b_start)
        }) && #[trigger] swept_book(b_start, b1, now_ms) && (match r {
            OrderCreateOutcome::Market(res) => book_market_matched(
                b1,
                mgr_book_of(m1, order.instrument_id@),
                order.order_id,
                order.quantity,
                order.side,
                res,
            ),
            OrderCreateOutcome::AggressiveLimit(m, rest) => spec_crosses(
                b1,
                order.price,
                order.side,
            ) && (exists|b2: OrderBook|
                #[trigger] book_limit_matched(
                    b1,
                    b2,
                    order.order_id,
                    order.quantity,
                    order.side,
                    order.price,
                    Result::<MatchResult, OrderBookError>::Ok(m),
                ) && (if m.remaining_quantity > 0 {
                    book_rested(
                        b2,
                        mgr_book_of(m1, order.instrument_id@),
                        order.order_id,
                        order.price,
                        m.remaining_quantity,
                        order.side,
                        order.time_in_force,
                        now_ms,
                        match rest {
                            Option::None => Result::<(), OrderBookError>::Ok(()),
                            Option::Some(e) => Result::<(), OrderBookError>::Err(e),
                        },
                    )
                } else {
                    rest is None && book_unchanged(mgr_book_of(m1, order.instrument_id@), b2)
                })),
            OrderCreateOutcome::RestingLimit(res) => !spec_crosses(b1, order.price, order.side)
                && book_rested(
                b1,
                mgr_book_of(m1, order.instrument_id@),
                order.order_id,
                order.price,
                order.quantity,
                order.side,
                order.time_in_force,
                now_ms,
                res,
            ),
        })
}

/// Everything `handle_order_cancel` promises, as a relation: when the
/// instrument has a book, it is swept of expired orders and the cancel is
/// applied to it exactly as `OrderBook::cancel_order` describes.
pub open spec fn mgr_order_cancelled(
    m0: BookManager,
    m1: BookManager,
    order: OrderCancelPayload,
    now_ms: u64,
    r: Result<(), OrderBookError>,
) -> bool {
    &&& manager_wf(m1)
    &&& forall|sym: Seq<char>| #[trigger] mgr_has(m1, sym) <==> mgr_has(m0, sym)
    &&& (!mgr_has(m0, order.instrument_id@) ==> r == Result::<(), OrderBookError>::Err(
        OrderBookError::OrderNotFound(order.order_id),
    ) && m1.books@ == m0.books@)
    &&& (mgr_has(m0, order.instrument_id@) ==> exists|b1: OrderBook|
        #[trigger] swept_book(mgr_book_of(m0, order.instrument_id@), b1, now_ms)
            && book_cancelled(b1, mgr_book_of(m1, order.instrument_id@), order.order_id, r))
    &&& forall|sym: Seq<char>|
        sym != order.instrument_id@ && mgr_has(m0, sym) ==> mgr_book_of(m1, sym) == mgr_book_of(
            m0,
            sym,
        )
}

/// Everything `handle_order_modify` promises, as a relation: when the
/// instrument has a book, it is swept of expired orders and the move is
/// applied to it exactly as `OrderBook::update_order` describes.
pub open spec fn mgr_order_modified(
    m0: BookManager,
    m1: BookManager,
    order: OrderModifyPayload,
    now_ms: u64,
    r: Result<(), OrderBookError>,
) -> bool {
    &&& manager_wf(m1)
    &&& forall|sym: Seq<char>| #[trigger] mgr_has(m1, sym) <==> mgr_has(m0, sym)
    &&& (!mgr_has(m0, order.instrument_id@) ==> r == Result::<(), OrderBookError>::Err(
        OrderBookError::OrderNotFound(order.order_id),
    ) && m1.books@ == m0.books@)
    &&& (mgr_has(m0, order.instrument_id@) ==> exists|b1: OrderBook|
        #[trigger] swept_book(mgr_book_of(m0, order.instrument_id@), b1, now_ms)
            && book_updated(
            b1,
            mgr_book_of(m1, order.instrument_id@),
            OrderUpdate::UpdatePriceAndQuantity {
                order_id: order.order_id,
                new_price: order.price,
                new_quantity: order.quantity,
            },
            now_ms,
            r,
        ))
    &&& forall|sym: Seq<char>|
        sym != order.instrument_id@ && mgr_has(m0, sym) ==> mgr_book_of(m1, sym) == mgr_book_of(
            m0,
            sym,
        )
}

/// Handles an order-creation command, creating the instrument's book on
/// demand and sweeping it of expired orders first. A market order is
/// matched and never rests; a limit order that crosses the best opposite
/// matches first and rests any remainder at its price; a passive limit
/// order rests directly.
#[verifier::rlimit(100)]
pub fn handle_order_create(manager: &mut BookManager, order: OrderCreatePayload, now_ms: u64) -> (r:
    OrderCreateOutcome)
    requires
        manager_wf(*old(manager)),
    ensures
        mgr_order_created(*old(manager), *final(manager), order, now_ms, r),
{
    let ghost m0 = *manager;
    let symbol = order.instrument_id;
    let had_book = manager.contains_book(&symbol);
    if !had_book {
        manager.add_book(&symbol);
    }
    let ghost m_created = *manager;
    let i = match manager.find_book_index(&symbol) {
        Some(i) => i,
        None => {
            proof {
                assert(false);
            }
            0
        },
    };
    proof {
        if !had_book {
            assert(m_created.books@ =~= m0.books@.push(m_created.books@.last()));
            lemma_mgr_book_of_push(m0, m_created);
        }
        let ii = choose|ii: int|
            0 <= ii < m_created.books@.len() && (#[trigger] m_created.books@[ii]).symbol@
                == symbol@;
        assert(ii == i as int);
    }
    let mut entry = manager.books.remove(i);
    let ghost b_start = entry.book;
    proof {
        assert(m_created.books@[i as int].book == b_start);
        if had_book {
            let jj = choose|jj: int|
                0 <= jj < m0.books@.len() && (#[trigger] m0.books@[jj]).symbol@ == symbol@;
            assert(jj == i as int);
            assert(mgr_book_of(m0, symbol@) == b_start);
        } else {
            assert(i as int == m_created.books@.len() - 1);
            assert(fresh_book(b_start));
        }
    }
    let removed = entry.book.remove_expired_orders(now_ms);
    let ghost b1 = entry.book;
    proof {
        assert(swept_book_with(b_start, b1, now_ms, removed@));
        assert(swept_book(b_start, b1, now_ms));
    }
    let outcome: OrderCreateOutcome;
    let ghost mut b2_ghost: OrderBook = b1;
    match order.order_type {
        OrderType::MARKET => {
            let res = entry.book.submit_market_order(order.order_id, order.quantity, order.side);
            outcome = OrderCreateOutcome::Market(res);
        },
        OrderType::LIMIT => {
            let aggressive = match order.side {
                Side::Buy => match entry.book.best_ask() {
                    Some(best_ask) => order.price >= best_ask,
                    None => false,
                },
                Side::Sell => match entry.book.best_bid() {
                    Some(best_bid) => order.price <= best_bid,
                    None => false,
                },
            };
            proof {
                assert(aggressive == spec_crosses(b1, order.price, order.side));
            }
            if aggressive {
                let m = match entry.book.match_limit_order(
                    order.order_id,
                    order.quantity,
                    order.side,
                    order.price,
                ) {
                    Ok(m) => m,
                    Err(_) => {
                        proof {
                            assert(false);
                        }
                        MatchResult::new(order.order_id, order.quantity)
                    },
                };
                proof {
                    b2_ghost = entry.book;
                }
                if m.remaining_quantity > 0 {
                    let rest = entry.book.add_limit_order(
                        order.order_id,
                        order.price,
                        m.remaining_quantity,
                        order.side,
                        order.time_in_force,
                        now_ms,
                    );
                    let rest_err = match rest {
                        Ok(()) => None,
                        Err(e) => Some(e),
                    };
                    outcome = OrderCreateOutcome::AggressiveLimit(m, rest_err);
                } else {
                    outcome = OrderCreateOutcome::AggressiveLimit(m, None);
                }
            } else {
                let res = entry.book.add_limit_order(
                    order.order_id,
                    order.price,
                    order.quantity,
                    order.side,
                    order.time_in_force,
                    now_ms,
                );
                outcome = OrderCreateOutcome::RestingLimit(res);
            }
        },
    }
    proof {
        assert(manager.books@.insert(i as int, entry) =~= m_created.books@.update(i as int, entry));
    }
    manager.books.insert(i, entry);
    proof {
        lemma_mgr_book_of_update(m_created, *manager, i as int);
        let bfin = manager.books@[i as int].book;
        assert(mgr_book_of(*manager, symbol@) == bfin);
        if had_book {
            assert(b_start == mgr_book_of(m0, symbol@));
        } else {
            assert(fresh_book(b_start));
        }
        match &outcome {
            OrderCreateOutcome::Market(res) => {
                assert(book_market_matched(
                    b1,
                    bfin,
                    order.order_id,
                    order.quantity,
                    order.side,
                    *res,
                ));
            },
            OrderCreateOutcome::AggressiveLimit(m, rest) => {
                assert(book_limit_matched(
                    b1,
                    b2_ghost,
                    order.order_id,
                    order.quantity,
                    order.side,
                    order.price,
                    Result::<MatchResult, OrderBookError>::Ok(*m),
                ));
                if m.remaining_quantity > 0 {
                    assert(book_rested(
                        b2_ghost,
                        bfin,
                        order.order_id,
                        order.price,
                        m.remaining_quantity,
                        order.side,
                        order.time_in_force,
                        now_ms,
                        match *rest {
                            Option::None => Result::<(), OrderBookError>::Ok(()),
                            Option::Some(e) => Result::<(), OrderBookError>::Err(e),
                        },
                    ));
                } else {
                    assert(book_unchanged(bfin, b2_ghost));
                }
            },
            OrderCreateOutcome::RestingLimit(res) => {
                assert(!spec_crosses(b1, order.price, order.side));
                assert(book_rested(
                    b1,
                    bfin,
                    order.order_id,
                    order.price,
                    order.quantity,
                    order.side,
                    order.time_in_force,
                    now_ms,
                    *res,
                ));
            },
        }
        assert(swept_book(b_start, b1, now_ms));
    }
    outcome
}

/// Handles an order-cancellation command: sweeps the instrument's book of
/// expired orders, then cancels the order in it. Fails with `OrderNotFound`
/// when the instrument has no book or the order is not live.
pub fn handle_order_cancel(manager: &mut BookManager, order: OrderCancelPayload, now_ms: u64) -> (r:
    Result<(), OrderBookError>)
    requires
        manager_wf(*old(manager)),
    ensures
        mgr_order_cancelled(*old(manager), *final(manager), order, now_ms, r),
{
    let ghost m0 = *manager;
    let i = match manager.find_book_index(&order.instrument_id) {
        Some(i) => i,
        None => {
            return Err(OrderBookError::OrderNotFound(order.order_id));
        },
    };
    let mut entry = manager.books.remove(i);
    let ghost b_start = entry.book;
    proof {
        let ii = choose|ii: int|
            0 <= ii < m0.books@.len() && (#[trigger] m0.books@[ii]).symbol@
                == order.instrument_id@;
        assert(ii == i as int);
        assert(mgr_book_of(m0, order.instrument_id@) == b_start);
    }
    let removed = entry.book.remove_expired_orders(now_ms);
    let ghost b1 = entry.book;
    let res = entry.book.cancel_order(order.order_id);
    proof {
        assert(manager.books@.insert(i as int, entry) =~= m0.books@.update(i as int, entry));
    }
    manager.books.insert(i, entry);
    proof {
        lemma_mgr_book_of_update(m0, *manager, i as int);
        assert(swept_book_with(b_start, b1, now_ms, removed@));
        assert(swept_book(b_start, b1, now_ms));
        assert(book_cancelled(b1, mgr_book_of(*manager, order.instrument_id@), order.order_id, res));
    }
    res
}

/// Handles an order-modification command: sweeps the instrument's book of
/// expired orders, then moves the order to the new price and quantity, at
/// the tail of its new level. Fails with `OrderNotFound` when the
/// instrument has no book or the order is not live.
pub fn handle_order_modify(manager: &mut BookManager, order: OrderModifyPayload, now_ms: u64) -> (r:
    Result<(), OrderBookError>)
    requires
        manager_wf(*old(manager)),
    ensures
        mgr_order_modified(*old(manager), *final(manager), order, now_ms, r),
{
    let ghost m0 = *manager;
    let i = match manager.find_book_index(&order.instrument_id) {
        Some(i) => i,
        None => {
            return Err(OrderBookError::OrderNotFound(order.order_id));
        },
    };
    let mut entry = manager.books.remove(i);
    let ghost b_start = entry.book;
    proof {
        let ii = choose|ii: int|
            0 <= ii < m0.books@.len() && (#[trigger] m0.books@[ii]).symbol@
                == order.instrument_id@;
        assert(ii == i as int);
        assert(mgr_book_of(m0, order.instrument_id@) == b_start);
    }
    let removed = entry.book.remove_expired_orders(now_ms);
    let ghost b1 = entry.book;
    let update = OrderUpdate::UpdatePriceAndQuantity {
        order_id: order.order_id,
        new_price: order.price,
        new_quantity: order.quantity,
    };
    let res = entry.book.update_order(update, now_ms);
    proof {
        assert(manager.books@.insert(i as int, entry) =~= m0.books@.update(i as int, entry));
    }
    manager.books.insert(i, entry);
    proof {
        lemma_mgr_book_of_update(m0, *manager, i as int);
        assert(swept_book_with(b_start, b1, now_ms, removed@));
        assert(swept_book(b_start, b1, now_ms));
        assert(book_updated(
            b1,
            mgr_book_of(*manager, order.instrument_id@),
            (OrderUpdate::UpdatePriceAndQuantity {
                order_id: order.order_id,
                new_price: order.price,
                new_quantity: order.quantity,
            }),
            now_ms,
            res,
        ));
    }
    res
}

/// What applying one engine command produced, for the host to log.
pub enum CommandOutcome {
    InstrumentCreated(bool),
    InstrumentDeleted(bool),
    OrderCreated(OrderCreateOutcome),
    OrderCancelled(Result<(), OrderBookError>),
    OrderModified(Result<(), OrderBookError>),
}

/// Applies one command of the engine's input stream to the books, at
/// wall-clock time `now_ms`: the whole dispatch table of the engine loop.
/// Each command's outcome and the state it leaves are exactly its handler's;
/// failures are returned for the host to log, and none is fatal.
pub fn apply_command(manager: &mut BookManager, cmd: EngineCommand, now_ms: u64) -> (r:
    CommandOutcome)
    requires
        manager_wf(*old(manager)),
    ensures
        manager_wf(*final(manager)),
        match cmd {
            EngineCommand::InstrumentCreate(p) => match r {
                CommandOutcome::InstrumentCreated(created) => mgr_instrument_created(
                    *old(manager),
                    *final(manager),
                    p,
                    created,
                ),
                _ => false,
            },
            EngineCommand::InstrumentDelete(p) => match r {
                CommandOutcome::InstrumentDeleted(deleted) => mgr_instrument_deleted(
                    *old(manager),
                    *final(manager),
                    p,
                    deleted,
                ),
                _ => false,
            },
            EngineCommand::OrderCreate(p) => match r {
                CommandOutcome::OrderCreated(oc) => mgr_order_created(
                    *old(manager),
                    *final(manager),
                    p,
                    now_ms,
                    oc,
                ),
                _ => false,
            },
            EngineCommand::OrderCancel(p) => match r {
                CommandOutcome::OrderCancelled(res) => mgr_order_cancelled(
                    *old(manager),
                    *final(manager),
                    p,
                    now_ms,
                    res,
                ),
                _ => false,
            },
            EngineCommand::OrderModify(p) => match r {
                CommandOutcome::OrderModified(res) => mgr_order_modified(
                    *old(manager),
                    *final(manager),
                    p,
                    now_ms,
                    res,
                ),
                _ => false,
            },
        },
{
    match cmd {
        EngineCommand::InstrumentCreate(instr) => CommandOutcome::InstrumentCreated(
            handle_instrument_create(manager, instr),
        ),
        EngineCommand::InstrumentDelete(instr) => CommandOutcome::InstrumentDeleted(
            handle_instrument_delete(manager, instr),
        ),
        EngineCommand::OrderCreate(order) => CommandOutcome::OrderCreated(
            handle_order_create(manager, order, now_ms),
        ),
        EngineCommand::OrderCancel(order) => CommandOutcome::OrderCancelled(
            handle_order_cancel(manager, order, now_ms),
        ),
        EngineCommand::OrderModify(order) => CommandOutcome::OrderModified(
            handle_order_modify(manager, order, now_ms),
        ),
    }
}

} // verus!
