use vstd::prelude::*;
use crate::order::Order;
use crate::trade::TransactionInfo;

verus! {

/// Sum of the visible quantities of a run of orders.
pub open spec fn sum_visible(s: Seq<Order>) -> int
    decreases s.len(),
{
    if s.len() == 0 {
        0
    } else {
        s[0].spec_visible() + sum_visible(s.drop_first())
    }
}

/// Sum of the hidden quantities of a run of orders.
pub open spec fn sum_hidden(s: Seq<Order>) -> int
    decreases s.len(),
{
    if s.len() == 0 {
        0
    } else {
        s[0].spec_hidden() + sum_hidden(s.drop_first())
    }
}

/// Total quantity filled by a run of transactions.
pub open spec fn txn_quantity_sum(s: Seq<TransactionInfo>) -> int
    decreases s.len(),
{
    if s.len() == 0 {
        0
    } else {
        s[0].quantity + txn_quantity_sum(s.drop_first())
    }
}

/// Total price-times-quantity value moved by a run of transactions.
pub open spec fn txn_notional_sum(s: Seq<TransactionInfo>) -> int
    decreases s.len(),
{
    if s.len() == 0 {
        0
    } else {
        s[0].price * s[0].quantity + txn_notional_sum(s.drop_first())
    }
}

pub proof fn lemma_sum_visible_nonneg(s: Seq<Order>)
    ensures
        sum_visible(s) >= 0,
    decreases s.len(),
{
    if s.len() > 0 {
        lemma_sum_visible_nonneg(s.drop_first());
    }
}

pub proof fn lemma_sum_hidden_nonneg(s: Seq<Order>)
    ensures
        sum_hidden(s) >= 0,
    decreases s.len(),
{
    if s.len() > 0 {
        lemma_sum_hidden_nonneg(s.drop_first());
    }
}

pub proof fn lemma_txn_quantity_sum_nonneg(s: Seq<TransactionInfo>)
    ensures
        txn_quantity_sum(s) >= 0,
    decreases s.len(),
{
    if s.len() > 0 {
        lemma_txn_quantity_sum_nonneg(s.drop_first());
    }
}

pub proof fn lemma_sum_visible_push(s: Seq<Order>, x: Order)
    ensures
        sum_visible(s.push(x)) == sum_visible(s) + x.spec_visible(),
    decreases s.len(),
{
    assert(s.push(x).len() == s.len() + 1);
    assert(sum_visible(s.push(x)) == s.push(x)[0].spec_visible() + sum_visible(
        s.push(x).drop_first(),
    ));
    if s.len() == 0 {
        assert(s.push(x).drop_first() =~= Seq::<Order>::empty());
        assert(s.push(x)[0] == x);
    } else {
        assert(s.push(x)[0] == s[0]);
        assert(s.push(x).drop_first() =~= s.drop_first().push(x));
        lemma_sum_visible_push(s.drop_first(), x);
    }
}

pub proof fn lemma_sum_hidden_push(s: Seq<Order>, x: Order)
    ensures
        sum_hidden(s.push(x)) == sum_hidden(s) + x.spec_hidden(),
    decreases s.len(),
{
    assert(s.push(x).len() == s.len() + 1);
    assert(sum_hidden(s.push(x)) == s.push(x)[0].spec_hidden() + sum_hidden(
        s.push(x).drop_first(),
    ));
    if s.len() == 0 {
        assert(s.push(x).drop_first() =~= Seq::<Order>::empty());
        assert(s.push(x)[0] == x);
    } else {
        assert(s.push(x)[0] == s[0]);
        assert(s.push(x).drop_first() =~= s.drop_first().push(x));
        lemma_sum_hidden_push(s.drop_first(), x);
    }
}

pub proof fn lemma_txn_quantity_sum_push(s: Seq<TransactionInfo>, x: TransactionInfo)
    ensures
        txn_quantity_sum(s.push(x)) == txn_quantity_sum(s) + x.quantity,
    decreases s.len(),
{
    assert(s.push(x).len() == s.len() + 1);
    assert(txn_quantity_sum(s.push(x)) == s.push(x)[0].quantity + txn_quantity_sum(
        s.push(x).drop_first(),
    ));
    if s.len() == 0 {
        assert(s.push(x).drop_first() =~= Seq::<TransactionInfo>::empty());
        assert(s.push(x)[0] == x);
    } else {
        assert(s.push(x)[0] == s[0]);
        assert(s.push(x).drop_first() =~= s.drop_first().push(x));
        lemma_txn_quantity_sum_push(s.drop_first(), x);
    }
}

pub proof fn lemma_sum_visible_remove(s: Seq<Order>, i: int)
    requires
        0 <= i < s.len(),
    ensures
        sum_visible(s.remove(i)) == sum_visible(s) - s[i].spec_visible(),
    decreases s.len(),
{
    if i == 0 {
        assert(s.remove(0) =~= s.drop_first());
    } else {
        assert(s.remove(i).drop_first() =~= s.drop_first().remove(i - 1));
        lemma_sum_visible_remove(s.drop_first(), i - 1);
    }
}

pub proof fn lemma_sum_hidden_remove(s: Seq<Order>, i: int)
    requires
        0 <= i < s.len(),
    ensures
        sum_hidden(s.remove(i)) == sum_hidden(s) - s[i].spec_hidden(),
    decreases s.len(),
{
    if i == 0 {
        assert(s.remove(0) =~= s.drop_first());
    } else {
        assert(s.remove(i).drop_first() =~= s.drop_first().remove(i - 1));
        lemma_sum_hidden_remove(s.drop_first(), i - 1);
    }
}

pub proof fn lemma_sum_visible_update(s: Seq<Order>, i: int, x: Order)
    requires
        0 <= i < s.len(),
    ensures
        sum_visible(s.update(i, x)) == sum_visible(s) - s[i].spec_visible() + x.spec_visible(),
    decreases s.len(),
{
    if i == 0 {
        assert(s.update(0, x).drop_first() =~= s.drop_first());
        assert(s.update(0, x)[0] == x);
    } else {
        assert(s.update(i, x).drop_first() =~= s.drop_first().update(i - 1, x));
        assert(s.update(i, x)[0] == s[0]);
        lemma_sum_visible_update(s.drop_first(), i - 1, x);
    }
}

pub proof fn lemma_sum_hidden_update(s: Seq<Order>, i: int, x: Order)
    requires
        0 <= i < s.len(),
    ensures
        sum_hidden(s.update(i, x)) == sum_hidden(s) - s[i].spec_hidden() + x.spec_hidden(),
    decreases s.len(),
{
    if i == 0 {
        assert(s.update(0, x).drop_first() =~= s.drop_first());
        assert(s.update(0, x)[0] == x);
    } else {
        assert(s.update(i, x).drop_first() =~= s.drop_first().update(i - 1, x));
        assert(s.update(i, x)[0] == s[0]);
        lemma_sum_hidden_update(s.drop_first(), i - 1, x);
    }
}

/// One order's visible quantity never exceeds the whole visible sum, and the
/// same for hidden.
pub proof fn lemma_sums_member_bound(s: Seq<Order>, i: int)
    requires
        0 <= i < s.len(),
    ensures
        s[i].spec_visible() <= sum_visible(s),
        s[i].spec_hidden() <= sum_hidden(s),
{
    lemma_sum_visible_remove(s, i);
    lemma_sum_hidden_remove(s, i);
    lemma_sum_visible_nonneg(s.remove(i));
    lemma_sum_hidden_nonneg(s.remove(i));
}

pub proof fn lemma_txn_quantity_sum_remove(s: Seq<TransactionInfo>, i: int)
    requires
        0 <= i < s.len(),
    ensures
        txn_quantity_sum(s.remove(i)) == txn_quantity_sum(s) - s[i].quantity,
    decreases s.len(),
{
    if i == 0 {
        assert(s.remove(0) =~= s.drop_first());
    } else {
        assert(s.remove(i).drop_first() =~= s.drop_first().remove(i - 1));
        lemma_txn_quantity_sum_remove(s.drop_first(), i - 1);
    }
}

pub proof fn lemma_txn_notional_sum_remove(s: Seq<TransactionInfo>, i: int)
    requires
        0 <= i < s.len(),
    ensures
        txn_notional_sum(s.remove(i)) == txn_notional_sum(s) - s[i].price * s[i].quantity,
    decreases s.len(),
{
    if i == 0 {
        assert(s.remove(0) =~= s.drop_first());
    } else {
        assert(s.remove(i).drop_first() =~= s.drop_first().remove(i - 1));
        lemma_txn_notional_sum_remove(s.drop_first(), i - 1);
    }
}


/// Sum of the drawable quantities of a run of orders.
pub open spec fn sum_drawable(s: Seq<Order>) -> int
    decreases s.len(),
{
    if s.len() == 0 {
        0
    } else {
        s[0].spec_drawable() + sum_drawable(s.drop_first())
    }
}

pub proof fn lemma_sum_drawable_nonneg(s: Seq<Order>)
    requires
        forall|i: int| 0 <= i < s.len() ==> (#[trigger] s[i]).spec_drawable() >= 0,
    ensures
        sum_drawable(s) >= 0,
    decreases s.len(),
{
    if s.len() > 0 {
        assert(forall|i: int|
            0 <= i < s.drop_first().len() ==> #[trigger] s.drop_first()[i] == s[i + 1]);
        lemma_sum_drawable_nonneg(s.drop_first());
    }
}

pub proof fn lemma_sum_drawable_push(s: Seq<Order>, x: Order)
    ensures
        sum_drawable(s.push(x)) == sum_drawable(s) + x.spec_drawable(),
    decreases s.len(),
{
    assert(s.push(x).len() == s.len() + 1);
    assert(sum_drawable(s.push(x)) == s.push(x)[0].spec_drawable() + sum_drawable(
        s.push(x).drop_first(),
    ));
    if s.len() == 0 {
        assert(s.push(x).drop_first() =~= Seq::<Order>::empty());
        assert(s.push(x)[0] == x);
    } else {
        assert(s.push(x)[0] == s[0]);
        assert(s.push(x).drop_first() =~= s.drop_first().push(x));
        lemma_sum_drawable_push(s.drop_first(), x);
    }
}

pub proof fn lemma_sum_drawable_remove(s: Seq<Order>, i: int)
    requires
        0 <= i < s.len(),
    ensures
        sum_drawable(s.remove(i)) == sum_drawable(s) - s[i].spec_drawable(),
    decreases s.len(),
{
    if i == 0 {
        assert(s.remove(0) =~= s.drop_first());
    } else {
        assert(s.remove(i).drop_first() =~= s.drop_first().remove(i - 1));
        lemma_sum_drawable_remove(s.drop_first(), i - 1);
    }
}

pub proof fn lemma_sum_drawable_update(s: Seq<Order>, i: int, x: Order)
    requires
        0 <= i < s.len(),
    ensures
        sum_drawable(s.update(i, x)) == sum_drawable(s) - s[i].spec_drawable()
            + x.spec_drawable(),
    decreases s.len(),
{
    if i == 0 {
        assert(s.update(0, x).drop_first() =~= s.drop_first());
        assert(s.update(0, x)[0] == x);
    } else {
        assert(s.update(i, x).drop_first() =~= s.drop_first().update(i - 1, x));
        assert(s.update(i, x)[0] == s[0]);
        lemma_sum_drawable_update(s.drop_first(), i - 1, x);
    }
}

} // verus!
