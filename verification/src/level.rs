use vstd::prelude::*;
use vstd::pervasive::VecAdditionalExecFns;
use crate::error::PriceLevelError;
use crate::order::{consume_front, lemma_fill_props, order_wf, FillOutcome, Order};
use crate::sums::{
    lemma_sum_hidden_nonneg, lemma_sum_hidden_push, lemma_sum_hidden_remove,
    lemma_sum_hidden_update, lemma_sum_visible_nonneg, lemma_sum_visible_push,
    lemma_sum_visible_remove, lemma_sum_visible_update, lemma_sums_member_bound,
    lemma_sum_drawable_nonneg, lemma_sum_drawable_push, lemma_sum_drawable_remove,
    lemma_sum_drawable_update, lemma_txn_quantity_sum_push, sum_drawable, sum_hidden, sum_visible,
    txn_quantity_sum,
};
use crate::trade::TransactionInfo;

verus! {

/// No two entries of `s` are equal.
pub open spec fn u64s_distinct(s: Seq<u64>) -> bool {
    forall|i: int, j: int| 0 <= i < j < s.len() ==> s[i] != s[j]
}

/// Appending an id adds exactly that id.
pub proof fn lemma_u64_push_contains(s: Seq<u64>, x: u64)
    ensures
        forall|id: u64| #[trigger] s.push(x).contains(id) <==> (s.contains(id) || id == x),
        u64s_distinct(s) && !s.contains(x) ==> u64s_distinct(s.push(x)),
{
    let t = s.push(x);
    assert(forall|j: int| 0 <= j < s.len() ==> #[trigger] t[j] == s[j]);
    assert(t[s.len() as int] == x);
    assert forall|id: u64| #[trigger] t.contains(id) implies (s.contains(id) || id == x) by {
        let i = choose|i: int| 0 <= i < t.len() && t[i] == id;
        if i < s.len() {
            assert(s[i] == id);
        }
    }
    assert forall|id: u64| s.contains(id) implies t.contains(id) by {
        let i = choose|i: int| 0 <= i < s.len() && s[i] == id;
        assert(t[i] == id);
    }
    assert(t.contains(x)) by {
        assert(t[s.len() as int] == x);
    }
}

/// Whether some order in `s` carries the id.
pub open spec fn seq_has_order_id(s: Seq<Order>, id: u64) -> bool {
    exists|i: int| 0 <= i < s.len() && (#[trigger] s[i]).id == id
}

/// No two orders in `s` share an id.
pub open spec fn order_ids_distinct(s: Seq<Order>) -> bool {
    forall|i: int, j: int| 0 <= i < j < s.len() ==> (#[trigger] s[i]).id != (#[trigger] s[j]).id
}

/// A FIFO queue of resting orders at a single price, with visible and hidden
/// quantity accounting. Tie-break inside a level is strict arrival order:
/// orders enter at the tail and are consumed from the head.
pub struct PriceLevel {
    /// The price shared by every order resting here.
    pub price: u64,
    /// The resting orders, head first.
    pub orders: Vec<Order>,
    /// Sum of the orders' visible quantities.
    pub visible_sum: u64,
    /// Sum of the orders' hidden quantities.
    pub hidden_sum: u64,
}

/// The level's invariant: a strictly positive price shared by every resting
/// order, well-formed orders with distinct ids, accurate quantity sums, and a
/// total that fits in 64 bits.
pub open spec fn level_wf(l: PriceLevel) -> bool {
    &&& l.price > 0
    &&& forall|i: int| 0 <= i < l.orders@.len() ==> order_wf(#[trigger] l.orders@[i])
    &&& forall|i: int| 0 <= i < l.orders@.len() ==> (#[trigger] l.orders@[i]).price == l.price
    &&& order_ids_distinct(l.orders@)
    &&& l.visible_sum == sum_visible(l.orders@)
    &&& l.hidden_sum == sum_hidden(l.orders@)
    &&& sum_visible(l.orders@) + sum_hidden(l.orders@) <= u64::MAX
}

/// Dropping the head order removes exactly its id from the queue.
pub proof fn lemma_ids_after_remove_front(s: Seq<Order>)
    requires
        s.len() > 0,
        order_ids_distinct(s),
    ensures
        order_ids_distinct(s.remove(0)),
        !seq_has_order_id(s.remove(0), s[0].id),
        seq_has_order_id(s, s[0].id),
        forall|id: u64|
            id != s[0].id ==> (#[trigger] seq_has_order_id(s.remove(0), id) <==> seq_has_order_id(
                s,
                id,
            )),
        forall|id: u64| #[trigger] seq_has_order_id(s.remove(0), id) ==> seq_has_order_id(s, id),
{
    let t = s.remove(0);
    assert(forall|j: int| 0 <= j < t.len() ==> #[trigger] t[j] == s[j + 1]);
    assert forall|id: u64| id != s[0].id && seq_has_order_id(s, id) implies seq_has_order_id(
        t,
        id,
    ) by {
        let i = choose|i: int| 0 <= i < s.len() && (#[trigger] s[i]).id == id;
        assert(i != 0);
        assert(t[i - 1].id == id);
    }
    assert forall|id: u64| seq_has_order_id(t, id) implies seq_has_order_id(s, id) by {
        let i = choose|i: int| 0 <= i < t.len() && (#[trigger] t[i]).id == id;
        assert(s[i + 1].id == id);
    }
    assert(!seq_has_order_id(t, s[0].id)) by {
        if seq_has_order_id(t, s[0].id) {
            let i = choose|i: int| 0 <= i < t.len() && (#[trigger] t[i]).id == s[0].id;
            assert(s[i + 1].id == s[0].id);
            assert(false);
        }
    }
}

/// Appending an order with a fresh id adds exactly that id to the queue.
pub proof fn lemma_ids_after_push(s: Seq<Order>, o: Order)
    requires
        !seq_has_order_id(s, o.id),
        order_ids_distinct(s),
    ensures
        order_ids_distinct(s.push(o)),
        forall|id: u64|
            #[trigger] seq_has_order_id(s.push(o), id) <==> (seq_has_order_id(s, id) || id
                == o.id),
{
    let t = s.push(o);
    assert(forall|j: int| 0 <= j < s.len() ==> #[trigger] t[j] == s[j]);
    assert(t[s.len() as int] == o);
    assert forall|id: u64| #[trigger] seq_has_order_id(t, id) implies (seq_has_order_id(s, id)
        || id == o.id) by {
        let i = choose|i: int| 0 <= i < t.len() && (#[trigger] t[i]).id == id;
        if i < s.len() {
            assert(s[i].id == id);
        }
    }
    assert forall|id: u64| seq_has_order_id(s, id) implies seq_has_order_id(t, id) by {
        let i = choose|i: int| 0 <= i < s.len() && (#[trigger] s[i]).id == id;
        assert(t[i].id == id);
    }
    assert(seq_has_order_id(t, o.id)) by {
        assert(t[s.len() as int].id == o.id);
    }
}

/// Replacing the head with an order of the same id leaves the queue's id set
/// unchanged.
pub proof fn lemma_ids_after_update_front(s: Seq<Order>, o: Order)
    requires
        s.len() > 0,
        order_ids_distinct(s),
        o.id == s[0].id,
    ensures
        order_ids_distinct(s.update(0, o)),
        forall|id: u64|
            #[trigger] seq_has_order_id(s.update(0, o), id) <==> seq_has_order_id(s, id),
{
    let t = s.update(0, o);
    assert(t[0] == o);
    assert(forall|j: int| 0 < j < t.len() ==> #[trigger] t[j] == s[j]);
    assert forall|id: u64| #[trigger] seq_has_order_id(t, id) implies seq_has_order_id(s, id) by {
        let i = choose|i: int| 0 <= i < t.len() && (#[trigger] t[i]).id == id;
        if i == 0 {
            assert(s[0].id == id);
        } else {
            assert(s[i].id == id);
        }
    }
    assert forall|id: u64| seq_has_order_id(s, id) implies seq_has_order_id(t, id) by {
        let i = choose|i: int| 0 <= i < s.len() && (#[trigger] s[i]).id == id;
        if i == 0 {
            assert(t[0].id == id);
        } else {
            assert(t[i].id == id);
        }
    }
}

/// Removing an order at any index removes exactly its id.
pub proof fn lemma_ids_after_remove_at(s: Seq<Order>, k: int)
    requires
        0 <= k < s.len(),
        order_ids_distinct(s),
    ensures
        order_ids_distinct(s.remove(k)),
        !seq_has_order_id(s.remove(k), s[k].id),
        seq_has_order_id(s, s[k].id),
        forall|id: u64|
            id != s[k].id ==> (#[trigger] seq_has_order_id(s.remove(k), id) <==> seq_has_order_id(
                s,
                id,
            )),
{
    let t = s.remove(k);
    assert(forall|j: int|
        0 <= j < t.len() ==> #[trigger] t[j] == (if j < k {
            s[j]
        } else {
            s[j + 1]
        }));
    assert forall|id: u64| id != s[k].id && seq_has_order_id(s, id) implies seq_has_order_id(
        t,
        id,
    ) by {
        let i = choose|i: int| 0 <= i < s.len() && (#[trigger] s[i]).id == id;
        if i < k {
            assert(t[i].id == id);
        } else {
            assert(i != k);
            assert(t[i - 1].id == id);
        }
    }
    assert forall|id: u64| seq_has_order_id(t, id) implies seq_has_order_id(s, id) by {
        let i = choose|i: int| 0 <= i < t.len() && (#[trigger] t[i]).id == id;
        if i < k {
            assert(s[i].id == id);
        } else {
            assert(s[i + 1].id == id);
        }
    }
    assert(!seq_has_order_id(t, s[k].id)) by {
        if seq_has_order_id(t, s[k].id) {
            let i = choose|i: int| 0 <= i < t.len() && (#[trigger] t[i]).id == s[k].id;
            if i < k {
                assert(s[i].id == s[k].id);
            } else {
                assert(s[i + 1].id == s[k].id);
            }
            assert(false);
        }
    }
}

impl PriceLevel {
    /// An empty level at `price`.
    pub fn new(price: u64) -> (r: PriceLevel)
        requires
            price > 0,
        ensures
            level_wf(r),
            r.price == price,
            r.orders@ =~= Seq::<Order>::empty(),
            r.visible_sum == 0,
            r.hidden_sum == 0,
    {
        PriceLevel { price, orders: Vec::new(), visible_sum: 0, hidden_sum: 0 }
    }

    /// How many orders rest at this level.
    pub fn order_count(&self) -> (r: usize)
        ensures
            r == self.orders@.len(),
    {
        self.orders.len()
    }

    /// The price of this level.
    pub fn price(&self) -> (r: u64)
        ensures
            r == self.price,
    {
        self.price
    }

    /// The level's aggregate visible quantity.
    pub fn visible_quantity(&self) -> (r: u64)
        ensures
            r == self.visible_sum,
    {
        self.visible_sum
    }

    /// The level's aggregate hidden quantity.
    pub fn hidden_quantity(&self) -> (r: u64)
        ensures
            r == self.hidden_sum,
    {
        self.hidden_sum
    }

    /// The level's total resting quantity, visible and hidden together.
    pub fn total_quantity(&self) -> (r: u64)
        requires
            level_wf(*self),
        ensures
            r == self.visible_sum + self.hidden_sum,
    {
        proof {
            lemma_sum_visible_nonneg(self.orders@);
            lemma_sum_hidden_nonneg(self.orders@);
        }
        self.visible_sum + self.hidden_sum
    }

    /// The index of the order with `order_id`, if it rests here.
    pub fn find_order_index(&self, order_id: u64) -> (r: Option<usize>)
        ensures
            match r {
                Some(i) => i < self.orders@.len() && self.orders@[i as int].id == order_id,
                None => !seq_has_order_id(self.orders@, order_id),
            },
    {
        let mut i: usize = 0;
        while i < self.orders.len()
            invariant
                0 <= i <= self.orders@.len(),
                forall|j: int| 0 <= j < i ==> (#[trigger] self.orders@[j]).id != order_id,
            decreases self.orders@.len() - i,
        {
            if self.orders[i].id == order_id {
                return Some(i);
            }
            i = i + 1;
        }
        None
    }

    /// Appends `o` to the tail of the queue and grows the sums, rejecting an
    /// order with nothing visible or one whose quantities would overflow the
    /// level's 64-bit accounting. On rejection the level is unchanged.
    pub fn add_order(&mut self, o: Order) -> (r: Result<(), PriceLevelError>)
        requires
            level_wf(*old(self)),
            o.price == old(self).price,
            !seq_has_order_id(old(self).orders@, o.id),
        ensures
            level_wf(*final(self)),
            final(self).price == old(self).price,
            match r {
                Ok(()) => {
                    &&& o.spec_visible() > 0
                    &&& old(self).visible_sum + old(self).hidden_sum + o.spec_visible()
                        + o.spec_hidden() <= u64::MAX
                    &&& final(self).orders@ == old(self).orders@.push(o)
                    &&& final(self).visible_sum == old(self).visible_sum + o.spec_visible()
                    &&& final(self).hidden_sum == old(self).hidden_sum + o.spec_hidden()
                },
                Err(PriceLevelError::InvalidQuantity) => {
                    &&& o.spec_visible() == 0
                    &&& *final(self) == *old(self)
                },
                Err(PriceLevelError::ArithmeticOverflow) => {
                    &&& o.spec_visible() > 0
                    &&& old(self).visible_sum + old(self).hidden_sum + o.spec_visible()
                        + o.spec_hidden() > u64::MAX
                    &&& *final(self) == *old(self)
                },
            },
    {
        let ov = o.visible_quantity();
        let oh = o.hidden_quantity();
        if ov == 0 {
            return Err(PriceLevelError::InvalidQuantity);
        }
        let total: u128 = self.visible_sum as u128 + self.hidden_sum as u128 + ov as u128
            + oh as u128;
        if total > u64::MAX as u128 {
            return Err(PriceLevelError::ArithmeticOverflow);
        }
        proof {
            lemma_sum_visible_push(self.orders@, o);
            lemma_sum_hidden_push(self.orders@, o);
            lemma_sum_visible_nonneg(self.orders@);
            lemma_sum_hidden_nonneg(self.orders@);
            lemma_ids_after_push(self.orders@, o);
        }
        self.orders.push(o);
        self.visible_sum = self.visible_sum + ov;
        self.hidden_sum = self.hidden_sum + oh;
        Ok(())
    }

    /// Removes the order with `order_id` from wherever it stands in the
    /// queue, shrinking the sums; returns the removed order, or `None` (and
    /// leaves the level unchanged) exactly when no such order rests here.
    pub fn cancel_order(&mut self, order_id: u64) -> (r: Option<Order>)
        requires
            level_wf(*old(self)),
        ensures
            level_wf(*final(self)),
            final(self).price == old(self).price,
            match r {
                Some(o) => {
                    &&& seq_has_order_id(old(self).orders@, order_id)
                    &&& o.id == order_id
                    &&& !seq_has_order_id(final(self).orders@, order_id)
                    &&& exists|i: int|
                        0 <= i < old(self).orders@.len() && old(self).orders@[i] == o
                            && final(self).orders@ == old(self).orders@.remove(i)
                    &&& forall|id: u64|
                        id != order_id ==> (#[trigger] seq_has_order_id(final(self).orders@, id)
                            <==> seq_has_order_id(old(self).orders@, id))
                    &&& final(self).visible_sum == old(self).visible_sum - o.spec_visible()
                    &&& final(self).hidden_sum == old(self).hidden_sum - o.spec_hidden()
                },
                None => {
                    &&& !seq_has_order_id(old(self).orders@, order_id)
                    &&& *final(self) == *old(self)
                },
            },
    {
        let found = self.find_order_index(order_id);
        match found {
            None => None,
            Some(i) => {
                proof {
                    lemma_ids_after_remove_at(self.orders@, i as int);
                    lemma_sum_visible_remove(self.orders@, i as int);
                    lemma_sum_hidden_remove(self.orders@, i as int);
                    lemma_sums_member_bound(self.orders@, i as int);
                    lemma_sum_visible_nonneg(self.orders@.remove(i as int));
                    lemma_sum_hidden_nonneg(self.orders@.remove(i as int));
                }
                let o = self.orders.remove(i);
                self.visible_sum = self.visible_sum - o.visible_quantity();
                self.hidden_sum = self.hidden_sum - o.hidden_quantity();
                Some(o)
            },
        }
    }
}

/// What one level returned from matching an incoming order against it.
pub struct LevelMatch {
    /// The fills, head-first.
    pub transactions: Vec<TransactionInfo>,
    /// Ids of resting orders that left the level.
    pub filled_order_ids: Vec<u64>,
    /// What is left of the incoming quantity after this level.
    pub remaining_quantity: u64,
}

impl PriceLevel {
    /// Matches an incoming quantity against this level's queue, head first,
    /// until the quantity is exhausted or the queue empties. Hidden quantity
    /// never trades until promoted to visible by its order's replenishment
    /// rule; a replenished order re-enters at the tail. Transaction ids are
    /// drawn in order from `txn_counter`, which saturates at `u64::MAX`.
    #[verifier::rlimit(100)]
    pub fn match_incoming(&mut self, taker_order_id: u64, qty: u64, txn_counter: &mut u64) -> (r:
        LevelMatch)
        requires
            level_wf(*old(self)),
            qty > 0,
        ensures
            level_wf(*final(self)),
            final(self).price == old(self).price,
            r.remaining_quantity <= qty,
            txn_quantity_sum(r.transactions@) == qty - r.remaining_quantity,
            qty - r.remaining_quantity == (if qty <= sum_drawable(old(self).orders@) {
                qty as int
            } else {
                sum_drawable(old(self).orders@)
            }),
            sum_drawable(final(self).orders@) == sum_drawable(old(self).orders@) - (qty
                - r.remaining_quantity),
            r.remaining_quantity > 0 ==> final(self).orders@.len() == 0,
            forall|k: int|
                0 <= k < r.transactions@.len() ==> (#[trigger] r.transactions@[k]).transaction_id
                    as int == (if *old(txn_counter) + k <= u64::MAX {
                    *old(txn_counter) + k
                } else {
                    u64::MAX as int
                }),
            *final(txn_counter) as int == (if *old(txn_counter) + r.transactions@.len()
                <= u64::MAX {
                *old(txn_counter) + r.transactions@.len()
            } else {
                u64::MAX as int
            }),
            forall|k: int|
                0 <= k < r.transactions@.len() ==> {
                    let t = #[trigger] r.transactions@[k];
                    &&& t.price == old(self).price
                    &&& t.taker_order_id == taker_order_id
                    &&& t.quantity > 0
                    &&& seq_has_order_id(old(self).orders@, t.maker_order_id)
                },
            u64s_distinct(r.filled_order_ids@),
            forall|k: int|
                0 <= k < r.filled_order_ids@.len() ==> seq_has_order_id(
                    old(self).orders@,
                    #[trigger] r.filled_order_ids@[k],
                ) && !seq_has_order_id(final(self).orders@, r.filled_order_ids@[k]),
            forall|id: u64|
                #[trigger] seq_has_order_id(old(self).orders@, id) <==> (seq_has_order_id(
                    final(self).orders@,
                    id,
                ) || r.filled_order_ids@.contains(id)),
            forall|i: int|
                0 <= i < final(self).orders@.len() ==> exists|j: int|
                    0 <= j < old(self).orders@.len() && (#[trigger] old(self).orders@[j]).id == (
                    #[trigger] final(self).orders@[i]).id
                        && old(self).orders@[j].side == final(self).orders@[i].side,
            final(self).visible_sum + final(self).hidden_sum + (qty - r.remaining_quantity) <= old(
                self,
            ).visible_sum + old(self).hidden_sum,
            *final(txn_counter) >= *old(txn_counter),
            r.transactions@.len() == 0 <==> old(self).orders@.len() == 0,
            r.transactions@.len() == 0 ==> {
                &&& final(self).orders@ == old(self).orders@
                &&& final(self).visible_sum == old(self).visible_sum
                &&& final(self).hidden_sum == old(self).hidden_sum
                &&& r.remaining_quantity == qty
                &&& *final(txn_counter) == *old(txn_counter)
            },
    {
        let ghost orders0 = self.orders@;
        let ghost p0 = self.price;
        let ghost vs0 = self.visible_sum;
        let ghost hs0 = self.hidden_sum;
        let ghost c0 = *txn_counter;
        let mut remaining: u64 = qty;
        let mut transactions: Vec<TransactionInfo> = Vec::new();
        let mut filled: Vec<u64> = Vec::new();
        while remaining > 0 && self.orders.len() > 0
            invariant
                level_wf(*self),
                self.price == p0,
                remaining <= qty,
                txn_quantity_sum(transactions@) == qty - remaining,
                (qty - remaining) + sum_drawable(self.orders@) == sum_drawable(orders0),
                forall|k: int|
                    0 <= k < transactions@.len() ==> (#[trigger] transactions@[k]).transaction_id
                        as int == (if c0 + k <= u64::MAX {
                        c0 + k
                    } else {
                        u64::MAX as int
                    }),
                *txn_counter as int == (if c0 + transactions@.len() <= u64::MAX {
                    c0 + transactions@.len()
                } else {
                    u64::MAX as int
                }),
                forall|k: int|
                    0 <= k < transactions@.len() ==> {
                        let t = #[trigger] transactions@[k];
                        &&& t.price == p0
                        &&& t.taker_order_id == taker_order_id
                        &&& t.quantity > 0
                        &&& seq_has_order_id(orders0, t.maker_order_id)
                    },
                u64s_distinct(filled@),
                forall|k: int|
                    0 <= k < filled@.len() ==> seq_has_order_id(orders0, #[trigger] filled@[k])
                        && !seq_has_order_id(self.orders@, filled@[k]),
                forall|id: u64|
                    #[trigger] seq_has_order_id(orders0, id) <==> (seq_has_order_id(
                        self.orders@,
                        id,
                    ) || filled@.contains(id)),
                forall|i: int|
                    0 <= i < self.orders@.len() ==> exists|j: int|
                        0 <= j < orders0.len() && (#[trigger] orders0[j]).id == (
                        #[trigger] self.orders@[i]).id && orders0[j].side == self.orders@[i].side,
                self.visible_sum + self.hidden_sum + (qty - remaining) <= vs0 + hs0,
                *txn_counter >= c0,
                transactions@.len() == 0 ==> {
                    &&& self.orders@ == orders0
                    &&& self.visible_sum == vs0
                    &&& self.hidden_sum == hs0
                    &&& remaining == qty
                    &&& *txn_counter == c0
                    &&& filled@.len() == 0
                },
            decreases remaining,
        {
            let head = self.orders[0];
            proof {
                lemma_fill_props(head, remaining);
                lemma_sums_member_bound(self.orders@, 0);
            }
            let (consumed, outcome) = consume_front(&head, remaining);
            let tid = *txn_counter;
            *txn_counter = if tid < u64::MAX {
                tid + 1
            } else {
                tid
            };
            let t = TransactionInfo {
                price: self.price,
                quantity: consumed,
                transaction_id: tid,
                maker_order_id: head.id,
                taker_order_id,
            };
            proof {
                lemma_txn_quantity_sum_push(transactions@, t);
                assert(seq_has_order_id(self.orders@, head.id));
            }
            transactions.push(t);
            remaining = remaining - consumed;
            match outcome {
                FillOutcome::Resting(o2) => {
                    proof {
                        lemma_sum_visible_update(self.orders@, 0, o2);
                        lemma_sum_hidden_update(self.orders@, 0, o2);
                        lemma_sum_drawable_update(self.orders@, 0, o2);
                        lemma_ids_after_update_front(self.orders@, o2);
                        lemma_sum_hidden_nonneg(self.orders@.update(0, o2));
                        lemma_sum_visible_nonneg(self.orders@.update(0, o2));
                        assert(forall|i: int|
                            0 < i < self.orders@.len() ==> #[trigger] self.orders@.update(0, o2)[i]
                                == self.orders@[i]);
                    }
                    self.orders.set(0, o2);
                    self.visible_sum = self.visible_sum - head.visible_quantity()
                        + o2.visible_quantity();
                    self.hidden_sum = self.hidden_sum - head.hidden_quantity()
                        + o2.hidden_quantity();
                },
                FillOutcome::Requeued(o2) => {
                    proof {
                        lemma_sum_visible_remove(self.orders@, 0);
                        lemma_sum_hidden_remove(self.orders@, 0);
                        lemma_sum_drawable_remove(self.orders@, 0);
                        lemma_ids_after_remove_front(self.orders@);
                        let mid = self.orders@.remove(0);
                        lemma_sum_visible_push(mid, o2);
                        lemma_sum_hidden_push(mid, o2);
                        lemma_sum_drawable_push(mid, o2);
                        lemma_sum_visible_nonneg(mid.push(o2));
                        lemma_sum_hidden_nonneg(mid.push(o2));
                        lemma_ids_after_push(mid, o2);
                        assert(forall|i: int|
                            0 <= i < mid.len() ==> #[trigger] mid[i] == self.orders@[i + 1]);
                        assert(forall|i: int|
                            0 <= i < mid.len() ==> #[trigger] mid.push(o2)[i] == mid[i]);
                        assert(mid.push(o2)[mid.len() as int] == o2);
                    }
                    self.orders.remove(0);
                    self.orders.push(o2);
                    self.visible_sum = self.visible_sum - head.visible_quantity()
                        + o2.visible_quantity();
                    self.hidden_sum = self.hidden_sum - head.hidden_quantity()
                        + o2.hidden_quantity();
                },
                FillOutcome::Gone => {
                    proof {
                        lemma_sum_visible_remove(self.orders@, 0);
                        lemma_sum_hidden_remove(self.orders@, 0);
                        lemma_sum_drawable_remove(self.orders@, 0);
                        lemma_ids_after_remove_front(self.orders@);
                        lemma_sum_visible_nonneg(self.orders@.remove(0));
                        lemma_sum_hidden_nonneg(self.orders@.remove(0));
                        lemma_u64_push_contains(filled@, head.id);
                        assert(forall|i: int|
                            0 <= i < self.orders@.remove(0).len()
                                ==> #[trigger] self.orders@.remove(0)[i] == self.orders@[i + 1]);
                    }
                    self.orders.remove(0);
                    self.visible_sum = self.visible_sum - head.visible_quantity();
                    self.hidden_sum = self.hidden_sum - head.hidden_quantity();
                    filled.push(head.id);
                },
            }
        }
        proof {
            assert(forall|i: int|
                0 <= i < self.orders@.len() ==> (#[trigger] self.orders@[i]).spec_drawable()
                    >= 0);
            lemma_sum_drawable_nonneg(self.orders@);
        }
        LevelMatch { transactions, filled_order_ids: filled, remaining_quantity: remaining }
    }
}

} // verus!
