use vstd::prelude::*;
use crate::book::{book_uncrossed, book_wf, locs_exact, OrderBook};
use crate::order::Order;
use crate::sums::{
    lemma_txn_notional_sum_remove, lemma_txn_quantity_sum_remove, txn_notional_sum,
    txn_quantity_sum,
};
use crate::trade::TransactionInfo;

verus! {

/// A well-formed book satisfies the engine's standing invariants: the best
/// bid stays strictly below the best ask whenever both exist; the location
/// index is exactly the set of live order ids, each tracked at its true
/// price and side; and no empty price level is present on either side.
/// Every public mutating operation of `OrderBook` ensures `book_wf`, so
/// these hold after every command.
pub proof fn lemma_book_invariants(b: OrderBook)
    requires
        book_wf(b),
    ensures
        book_uncrossed(b),
        locs_exact(b),
        forall|i: int| 0 <= i < b.bids@.len() ==> (#[trigger] b.bids@[i]).orders@.len() > 0,
        forall|i: int| 0 <= i < b.asks@.len() ==> (#[trigger] b.asks@[i]).orders@.len() > 0,
{
}

/// Listeners are pure observers: the total traded value (price times
/// quantity summed over the transactions), and the total traded quantity,
/// depend only on which transactions occurred, not on the order in which
/// they are delivered. Any reordering of the same transactions carries the
/// same sums.
pub proof fn lemma_delivery_order_irrelevant(s1: Seq<TransactionInfo>, s2: Seq<TransactionInfo>)
    requires
        s1.to_multiset() == s2.to_multiset(),
    ensures
        txn_notional_sum(s1) == txn_notional_sum(s2),
        txn_quantity_sum(s1) == txn_quantity_sum(s2),
    decreases s1.len(),
{
    broadcast use vstd::seq_lib::group_to_multiset_ensures;

    if s1.len() == 0 {
        assert(s1.to_multiset().len() == 0);
        assert(s2.to_multiset().len() == 0);
        assert(s2.len() == 0);
    } else {
        let x = s1[0];
        assert(s1.remove(0).to_multiset() =~= s1.to_multiset().remove(x));
        assert(s1.to_multiset().contains(x)) by {
            assert(s1.contains(x));
        }
        assert(s2.to_multiset().contains(x));
        assert(s2.contains(x));
        let j = choose|j: int| 0 <= j < s2.len() && s2[j] == x;
        assert(s2.remove(j).to_multiset() =~= s2.to_multiset().remove(x));
        assert(s1.remove(0) =~= s1.drop_first());
        lemma_delivery_order_irrelevant(s1.drop_first(), s2.remove(j));
        lemma_txn_notional_sum_remove(s2, j);
        lemma_txn_quantity_sum_remove(s2, j);
    }
}

/// Cancel then add with the same id at the same price re-enters at the tail
/// of that level's queue: strict time priority is lost. `before` is the
/// level's queue, `after_cancel` what `PriceLevel::cancel_order` leaves (the
/// queue with the order removed, everyone else in arrival order), and
/// `after_add` what `PriceLevel::add_order` then leaves (the re-entered
/// order appended). The re-entered order stands behind every order that was
/// already resting, and all other orders keep their relative order.
pub proof fn lemma_cancel_then_add_rejoins_at_tail(
    before: Seq<Order>,
    after_cancel: Seq<Order>,
    after_add: Seq<Order>,
    i: int,
    reentry: Order,
)
    requires
        0 <= i < before.len(),
        after_cancel == before.remove(i),
        after_add == after_cancel.push(reentry),
        reentry.id == before[i].id,
    ensures
        after_add.len() == before.len(),
        after_add.last() == reentry,
        after_add.drop_last() == before.remove(i),
        forall|k: int| 0 <= k < after_add.len() - 1 ==> after_add[k] == before.remove(i)[k],
{
    assert(after_add.drop_last() =~= after_cancel);
    assert(forall|k: int|
        0 <= k < after_cancel.len() ==> #[trigger] after_add[k] == after_cancel[k]);
}

/// The read-only simulation never under-reports what matching could fill:
/// `peek_match` returns exactly the smaller of the requested quantity and
/// the eligible resting total, `match_order` ensures its executed quantity
/// is at most both, so a match never fills more than the peek promised.
pub proof fn lemma_peek_covers_execution(quantity: u64, eligible: int, executed: int)
    requires
        0 <= executed <= quantity,
        executed <= eligible,
    ensures
        executed <= (if quantity <= eligible {
            quantity as int
        } else {
            eligible
        }),
{
}

} // verus!
