use vstd::prelude::*;
use crate::book::{
    level_index_of, level_visible_at, levels_sorted, side_has_level,
    book_side_seq, book_uncrossed, book_unchanged, book_wf, lemma_loc_remove, loc_has_id,
    loc_tracks, locs_distinct, side_has_id, side_has_id_at, side_levels_wf, OrderBook,
    OrderLocation,
};
use crate::error::OrderBookError;
use crate::level::{level_wf, seq_has_order_id, u64s_distinct, LevelMatch, PriceLevel};
use crate::trade::{MatchResult, PriceLevelChangedEvent};
use crate::types::Side;
use crate::sums::{lemma_sum_drawable_nonneg, lemma_txn_quantity_sum_nonneg, sum_drawable, txn_quantity_sum};
use crate::trade::TransactionInfo;

verus! {

/// No order id appears at two different levels of one side.
pub open spec fn side_ids_unique(levels: Seq<PriceLevel>) -> bool {
    forall|i1: int, i2: int, id: u64|
        #![trigger seq_has_order_id(levels[i1].orders@, id), seq_has_order_id(levels[i2].orders@, id)]
        0 <= i1 < i2 < levels.len() ==> !(seq_has_order_id(levels[i1].orders@, id)
            && seq_has_order_id(levels[i2].orders@, id))
}

/// Transaction prices never fall along the run.
pub open spec fn txn_prices_ascending(s: Seq<TransactionInfo>) -> bool {
    forall|i: int, j: int|
        0 <= i < j < s.len() ==> (#[trigger] s[i]).price <= (#[trigger] s[j]).price
}

/// Transaction prices never rise along the run.
pub open spec fn txn_prices_descending(s: Seq<TransactionInfo>) -> bool {
    forall|i: int, j: int|
        0 <= i < j < s.len() ==> (#[trigger] s[i]).price >= (#[trigger] s[j]).price
}

/// In a well-formed book no order id appears at two levels of one side.
pub proof fn lemma_book_side_ids_unique(b: OrderBook, side: crate::types::Side)
    requires
        book_wf(b),
    ensures
        side_ids_unique(book_side_seq(b, side)),
{
    let s = book_side_seq(b, side);
    assert forall|i1: int, i2: int, id: u64|
        #![trigger seq_has_order_id(s[i1].orders@, id), seq_has_order_id(s[i2].orders@, id)]
        0 <= i1 < i2 < s.len() implies !(seq_has_order_id(s[i1].orders@, id) && seq_has_order_id(
        s[i2].orders@,
        id,
    )) by {
        if seq_has_order_id(s[i1].orders@, id) && seq_has_order_id(s[i2].orders@, id) {
            let j1 = choose|j: int| 0 <= j < s[i1].orders@.len() && (#[trigger] s[i1].orders@[j]).id == id;
            let j2 = choose|j: int| 0 <= j < s[i2].orders@.len() && (#[trigger] s[i2].orders@[j]).id == id;
            assert(loc_tracks(b.order_locations@, id, s[i1].price, side));
            assert(loc_tracks(b.order_locations@, id, s[i2].price, side));
            let k1 = choose|k: int|
                0 <= k < b.order_locations@.len() && #[trigger] b.order_locations@[k] == (
                OrderLocation { order_id: id, price: s[i1].price, side });
            let k2 = choose|k: int|
                0 <= k < b.order_locations@.len() && #[trigger] b.order_locations@[k] == (
                OrderLocation { order_id: id, price: s[i2].price, side });
            assert(s[i1].price != s[i2].price);
            assert(k1 != k2);
            assert(false);
        }
    }
}

/// Replacing the level at `pos` with one whose queue lost exactly the ids in
/// `fills` removes exactly those ids from the side.
pub proof fn lemma_side_fills_update(
    levels: Seq<PriceLevel>,
    pos: int,
    lvl2: PriceLevel,
    fills: Seq<u64>,
)
    requires
        0 <= pos < levels.len(),
        side_ids_unique(levels),
        lvl2.price == levels[pos].price,
        forall|id: u64|
            #[trigger] seq_has_order_id(lvl2.orders@, id) <==> (seq_has_order_id(
                levels[pos].orders@,
                id,
            ) && !fills.contains(id)),
        forall|k: int|
            0 <= k < fills.len() ==> seq_has_order_id(levels[pos].orders@, #[trigger] fills[k]),
    ensures
        side_ids_unique(levels.update(pos, lvl2)),
        forall|id: u64, p: u64|
            !fills.contains(id) ==> (#[trigger] side_has_id_at(levels.update(pos, lvl2), id, p)
                <==> side_has_id_at(levels, id, p)),
        forall|id: u64|
            !fills.contains(id) ==> (#[trigger] side_has_id(levels.update(pos, lvl2), id)
                <==> side_has_id(levels, id)),
        forall|k: int|
            0 <= k < fills.len() ==> !side_has_id(levels.update(pos, lvl2), #[trigger] fills[k])
                && side_has_id(levels, fills[k]),
{
    let t = levels.update(pos, lvl2);
    assert(forall|i: int| 0 <= i < t.len() && i != pos ==> #[trigger] t[i] == levels[i]);
    assert(t[pos] == lvl2);
    assert forall|id: u64, p: u64|
        !fills.contains(id) && #[trigger] side_has_id_at(t, id, p) implies side_has_id_at(
        levels,
        id,
        p,
    ) by {
        let i = choose|i: int|
            0 <= i < t.len() && (#[trigger] t[i]).price == p && seq_has_order_id(
                t[i].orders@,
                id,
            );
        if i == pos {
            assert(seq_has_order_id(levels[pos].orders@, id));
        }
    }
    assert forall|id: u64, p: u64|
        !fills.contains(id) && side_has_id_at(levels, id, p) implies side_has_id_at(t, id, p) by {
        let i = choose|i: int|
            0 <= i < levels.len() && (#[trigger] levels[i]).price == p && seq_has_order_id(
                levels[i].orders@,
                id,
            );
        if i == pos {
            assert(seq_has_order_id(lvl2.orders@, id));
            assert(t[pos].price == p);
        } else {
            assert(t[i].price == p && seq_has_order_id(t[i].orders@, id));
        }
    }
    assert forall|id: u64| !fills.contains(id) && #[trigger] side_has_id(t, id) implies side_has_id(
        levels,
        id,
    ) by {
        let i = choose|i: int| 0 <= i < t.len() && seq_has_order_id(#[trigger] t[i].orders@, id);
        if i == pos {
            assert(seq_has_order_id(levels[pos].orders@, id));
        }
    }
    assert forall|id: u64| !fills.contains(id) && side_has_id(levels, id) implies side_has_id(
        t,
        id,
    ) by {
        let i = choose|i: int|
            0 <= i < levels.len() && seq_has_order_id(#[trigger] levels[i].orders@, id);
        if i == pos {
            assert(seq_has_order_id(lvl2.orders@, id));
            assert(seq_has_order_id(t[pos].orders@, id));
        } else {
            assert(seq_has_order_id(t[i].orders@, id));
        }
    }
    assert forall|k: int| 0 <= k < fills.len() implies !side_has_id(t, #[trigger] fills[k])
        && side_has_id(levels, fills[k]) by {
        let id = fills[k];
        assert(fills.contains(id)) by {
            assert(fills[k] == id);
        }
        assert(side_has_id(levels, id)) by {
            assert(seq_has_order_id(levels[pos].orders@, id));
        }
        if side_has_id(t, id) {
            let i = choose|i: int|
                0 <= i < t.len() && seq_has_order_id(#[trigger] t[i].orders@, id);
            if i == pos {
                assert(!seq_has_order_id(lvl2.orders@, id));
                assert(false);
            } else {
                assert(seq_has_order_id(levels[i].orders@, id));
                assert(seq_has_order_id(levels[pos].orders@, id));
                assert(false);
            }
        }
    }
}

/// Dropping the emptied level at `pos`, all of whose ids are in `fills`,
/// removes exactly those of its ids from the side.
pub proof fn lemma_side_fills_drop(levels: Seq<PriceLevel>, pos: int, fills: Seq<u64>)
    requires
        0 <= pos < levels.len(),
        side_ids_unique(levels),
        forall|id: u64|
            #[trigger] seq_has_order_id(levels[pos].orders@, id) ==> fills.contains(id),
        forall|k: int|
            0 <= k < fills.len() ==> seq_has_order_id(levels[pos].orders@, #[trigger] fills[k]),
    ensures
        side_ids_unique(levels.remove(pos)),
        forall|id: u64, p: u64|
            !fills.contains(id) ==> (#[trigger] side_has_id_at(levels.remove(pos), id, p)
                <==> side_has_id_at(levels, id, p)),
        forall|id: u64|
            !fills.contains(id) ==> (#[trigger] side_has_id(levels.remove(pos), id)
                <==> side_has_id(levels, id)),
        forall|k: int|
            0 <= k < fills.len() ==> !side_has_id(levels.remove(pos), #[trigger] fills[k])
                && side_has_id(levels, fills[k]),
{
    let t = levels.remove(pos);
    assert(forall|i: int|
        0 <= i < t.len() ==> #[trigger] t[i] == (if i < pos {
            levels[i]
        } else {
            levels[i + 1]
        }));
    assert(side_ids_unique(t)) by {
        assert forall|i1: int, i2: int, id: u64|
            #![trigger seq_has_order_id(t[i1].orders@, id), seq_has_order_id(t[i2].orders@, id)]
            0 <= i1 < i2 < t.len() implies !(seq_has_order_id(t[i1].orders@, id)
            && seq_has_order_id(t[i2].orders@, id)) by {
            let o1 = if i1 < pos {
                i1
            } else {
                i1 + 1
            };
            let o2 = if i2 < pos {
                i2
            } else {
                i2 + 1
            };
            assert(t[i1] == levels[o1] && t[i2] == levels[o2]);
            assert(o1 < o2);
        }
    }
    assert forall|id: u64, p: u64|
        !fills.contains(id) && #[trigger] side_has_id_at(t, id, p) implies side_has_id_at(
        levels,
        id,
        p,
    ) by {
        let i = choose|i: int|
            0 <= i < t.len() && (#[trigger] t[i]).price == p && seq_has_order_id(
                t[i].orders@,
                id,
            );
        if i < pos {
            assert(levels[i].price == p && seq_has_order_id(levels[i].orders@, id));
        } else {
            assert(levels[i + 1].price == p && seq_has_order_id(levels[i + 1].orders@, id));
        }
    }
    assert forall|id: u64, p: u64|
        !fills.contains(id) && side_has_id_at(levels, id, p) implies side_has_id_at(t, id, p) by {
        let i = choose|i: int|
            0 <= i < levels.len() && (#[trigger] levels[i]).price == p && seq_has_order_id(
                levels[i].orders@,
                id,
            );
        if i < pos {
            assert(t[i].price == p && seq_has_order_id(t[i].orders@, id));
        } else if i > pos {
            assert(t[i - 1].price == p && seq_has_order_id(t[i - 1].orders@, id));
        } else {
            assert(fills.contains(id));
            assert(false);
        }
    }
    assert forall|id: u64| !fills.contains(id) && #[trigger] side_has_id(t, id) implies side_has_id(
        levels,
        id,
    ) by {
        let i = choose|i: int| 0 <= i < t.len() && seq_has_order_id(#[trigger] t[i].orders@, id);
        if i < pos {
            assert(seq_has_order_id(levels[i].orders@, id));
        } else {
            assert(seq_has_order_id(levels[i + 1].orders@, id));
        }
    }
    assert forall|id: u64| !fills.contains(id) && side_has_id(levels, id) implies side_has_id(
        t,
        id,
    ) by {
        let i = choose|i: int|
            0 <= i < levels.len() && seq_has_order_id(#[trigger] levels[i].orders@, id);
        if i < pos {
            assert(seq_has_order_id(t[i].orders@, id));
        } else if i > pos {
            assert(seq_has_order_id(t[i - 1].orders@, id));
        } else {
            assert(fills.contains(id));
            assert(false);
        }
    }
    assert forall|k: int| 0 <= k < fills.len() implies !side_has_id(t, #[trigger] fills[k])
        && side_has_id(levels, fills[k]) by {
        let id = fills[k];
        assert(side_has_id(levels, id)) by {
            assert(seq_has_order_id(levels[pos].orders@, id));
        }
        if side_has_id(t, id) {
            let i = choose|i: int|
                0 <= i < t.len() && seq_has_order_id(#[trigger] t[i].orders@, id);
            let oi = if i < pos {
                i
            } else {
                i + 1
            };
            assert(t[i] == levels[oi]);
            assert(oi != pos);
            assert(seq_has_order_id(levels[pos].orders@, id));
            assert(false);
        }
    }
}

/// Concatenating runs of u64 ids: membership distributes, and distinct
/// disjoint runs stay distinct.
pub proof fn lemma_u64_append(a: Seq<u64>, b: Seq<u64>)
    ensures
        forall|id: u64| #[trigger] (a + b).contains(id) <==> (a.contains(id) || b.contains(id)),
        (u64s_distinct(a) && u64s_distinct(b) && (forall|id: u64|
            !(#[trigger] a.contains(id) && b.contains(id)))) ==> u64s_distinct(a + b),
{
    let t = a + b;
    assert(forall|i: int| 0 <= i < a.len() ==> #[trigger] t[i] == a[i]);
    assert(forall|i: int| a.len() <= i < t.len() ==> #[trigger] t[i] == b[i - a.len()]);
    assert forall|id: u64| #[trigger] t.contains(id) implies (a.contains(id) || b.contains(
        id,
    )) by {
        let i = choose|i: int| 0 <= i < t.len() && t[i] == id;
        if i < a.len() {
            assert(a[i] == id);
        } else {
            assert(b[i - a.len()] == id);
        }
    }
    assert forall|id: u64| a.contains(id) implies t.contains(id) by {
        let i = choose|i: int| 0 <= i < a.len() && a[i] == id;
        assert(t[i] == id);
    }
    assert forall|id: u64| b.contains(id) implies t.contains(id) by {
        let i = choose|i: int| 0 <= i < b.len() && b[i] == id;
        assert(t[i + a.len()] == id);
    }
    if u64s_distinct(a) && u64s_distinct(b) && (forall|id: u64|
        !(#[trigger] a.contains(id) && b.contains(id))) {
        assert forall|i: int, j: int| 0 <= i < j < t.len() implies t[i] != t[j] by {
            if i < a.len() && j >= a.len() {
                if t[i] == t[j] {
                    assert(a.contains(t[i])) by {
                        assert(a[i] == t[i]);
                    }
                    assert(b.contains(t[j])) by {
                        assert(b[j - a.len()] == t[j]);
                    }
                    assert(false);
                }
            }
        }
    }
}

/// Quantity sums add across a concatenation of transaction runs.
pub proof fn lemma_txn_quantity_sum_concat(a: Seq<TransactionInfo>, b: Seq<TransactionInfo>)
    ensures
        txn_quantity_sum(a + b) == txn_quantity_sum(a) + txn_quantity_sum(b),
    decreases a.len(),
{
    if a.len() == 0 {
        assert(a + b =~= b);
    } else {
        assert((a + b).drop_first() =~= a.drop_first() + b);
        assert((a + b)[0] == a[0]);
        assert((a + b).len() > 0);
        assert(txn_quantity_sum(a + b) == (a + b)[0].quantity + txn_quantity_sum(
            (a + b).drop_first(),
        ));
        lemma_txn_quantity_sum_concat(a.drop_first(), b);
    }
}



/// Total drawable quantity resting on the ask side at prices the limit
/// admits: what a buy for an unlimited quantity would actually extract.
pub open spec fn asks_drawable_total(levels: Seq<PriceLevel>, limit: Option<u64>) -> int
    decreases levels.len(),
{
    if levels.len() == 0 {
        0
    } else {
        (if limit is Some && levels[0].price > limit->0 {
            0
        } else {
            sum_drawable(levels[0].orders@)
        }) + asks_drawable_total(levels.drop_first(), limit)
    }
}

/// Total drawable quantity resting on the bid side at prices the limit
/// admits.
pub open spec fn bids_drawable_total(levels: Seq<PriceLevel>, limit: Option<u64>) -> int
    decreases levels.len(),
{
    if levels.len() == 0 {
        0
    } else {
        (if limit is Some && levels[0].price < limit->0 {
            0
        } else {
            sum_drawable(levels[0].orders@)
        }) + bids_drawable_total(levels.drop_first(), limit)
    }
}

pub proof fn lemma_asks_drawable_nonneg(levels: Seq<PriceLevel>, limit: Option<u64>)
    requires
        forall|i: int| 0 <= i < levels.len() ==> level_wf(#[trigger] levels[i]),
    ensures
        asks_drawable_total(levels, limit) >= 0,
    decreases levels.len(),
{
    if levels.len() > 0 {
        assert(forall|i: int|
            0 <= i < levels.drop_first().len() ==> #[trigger] levels.drop_first()[i] == levels[i
                + 1]);
        lemma_asks_drawable_nonneg(levels.drop_first(), limit);
        assert(forall|j: int|
            0 <= j < levels[0].orders@.len() ==> (#[trigger] levels[0].orders@[j]).spec_drawable()
                >= 0);
        lemma_sum_drawable_nonneg(levels[0].orders@);
    }
}

pub proof fn lemma_bids_drawable_nonneg(levels: Seq<PriceLevel>, limit: Option<u64>)
    requires
        forall|i: int| 0 <= i < levels.len() ==> level_wf(#[trigger] levels[i]),
    ensures
        bids_drawable_total(levels, limit) >= 0,
    decreases levels.len(),
{
    if levels.len() > 0 {
        assert(forall|i: int|
            0 <= i < levels.drop_first().len() ==> #[trigger] levels.drop_first()[i] == levels[i
                + 1]);
        lemma_bids_drawable_nonneg(levels.drop_first(), limit);
        assert(forall|j: int|
            0 <= j < levels[0].orders@.len() ==> (#[trigger] levels[0].orders@[j]).spec_drawable()
                >= 0);
        lemma_sum_drawable_nonneg(levels[0].orders@);
    }
}

/// Past the limit on a sorted ask run, nothing is drawable.
pub proof fn lemma_asks_drawable_zero(levels: Seq<PriceLevel>, limit: Option<u64>)
    requires
        limit is Some,
        forall|i: int| 0 <= i < levels.len() ==> (#[trigger] levels[i]).price > limit->0,
    ensures
        asks_drawable_total(levels, limit) == 0,
    decreases levels.len(),
{
    if levels.len() > 0 {
        assert(forall|i: int|
            0 <= i < levels.drop_first().len() ==> #[trigger] levels.drop_first()[i] == levels[i
                + 1]);
        lemma_asks_drawable_zero(levels.drop_first(), limit);
    }
}

/// Below the limit on a sorted bid run, nothing is drawable.
pub proof fn lemma_bids_drawable_zero(levels: Seq<PriceLevel>, limit: Option<u64>)
    requires
        limit is Some,
        forall|i: int| 0 <= i < levels.len() ==> (#[trigger] levels[i]).price < limit->0,
    ensures
        bids_drawable_total(levels, limit) == 0,
    decreases levels.len(),
{
    if levels.len() > 0 {
        assert(forall|i: int|
            0 <= i < levels.drop_first().len() ==> #[trigger] levels.drop_first()[i] == levels[i
                + 1]);
        lemma_bids_drawable_zero(levels.drop_first(), limit);
    }
}

/// Replacing the level at `i` with one at the same price shifts the
/// drawable bid total by the change in that level's drawable sum.
pub proof fn lemma_bids_drawable_update(
    levels: Seq<PriceLevel>,
    i: int,
    lvl: PriceLevel,
    limit: Option<u64>,
)
    requires
        0 <= i < levels.len(),
        lvl.price == levels[i].price,
    ensures
        bids_drawable_total(levels.update(i, lvl), limit) == bids_drawable_total(levels, limit)
            - (if limit is Some && levels[i].price < limit->0 {
            0
        } else {
            sum_drawable(levels[i].orders@)
        }) + (if limit is Some && lvl.price < limit->0 {
            0
        } else {
            sum_drawable(lvl.orders@)
        }),
    decreases levels.len(),
{
    if i == 0 {
        assert(levels.update(0, lvl).drop_first() =~= levels.drop_first());
        assert(levels.update(0, lvl)[0] == lvl);
    } else {
        assert(levels.update(i, lvl).drop_first() =~= levels.drop_first().update(i - 1, lvl));
        assert(levels.update(i, lvl)[0] == levels[0]);
        lemma_bids_drawable_update(levels.drop_first(), i - 1, lvl, limit);
    }
}

/// Dropping the level at `i` removes its drawable contribution.
pub proof fn lemma_bids_drawable_remove(levels: Seq<PriceLevel>, i: int, limit: Option<u64>)
    requires
        0 <= i < levels.len(),
    ensures
        bids_drawable_total(levels.remove(i), limit) == bids_drawable_total(levels, limit) - (
        if limit is Some && levels[i].price < limit->0 {
            0
        } else {
            sum_drawable(levels[i].orders@)
        }),
    decreases levels.len(),
{
    if i == 0 {
        assert(levels.remove(0) =~= levels.drop_first());
    } else {
        assert(levels.remove(i).drop_first() =~= levels.drop_first().remove(i - 1));
        assert(levels.remove(i)[0] == levels[0]);
        lemma_bids_drawable_remove(levels.drop_first(), i - 1, limit);
    }
}


/// Replacing or dropping the front level leaves the visible total at every
/// other price unchanged.
pub proof fn lemma_visible_at_after_front_change(
    pre: Seq<PriceLevel>,
    t: Seq<PriceLevel>,
    p: u64,
)
    requires
        pre.len() > 0,
        levels_sorted(pre),
        (exists|lvl: PriceLevel|
            t == pre.update(0, lvl) && (#[trigger] lvl.price) == pre[0].price) || t == pre.remove(
            0,
        ),
        p != pre[0].price,
    ensures
        level_visible_at(t, p) == level_visible_at(pre, p),
{
    reveal(level_visible_at);
    if exists|lvl: PriceLevel|
        t == pre.update(0, lvl) && (#[trigger] lvl.price) == pre[0].price {
        let lvl = choose|lvl: PriceLevel|
            t == pre.update(0, lvl) && (#[trigger] lvl.price) == pre[0].price;
        assert(forall|i: int| 0 < i < t.len() ==> #[trigger] t[i] == pre[i]);
        assert(t[0] == lvl);
        if side_has_level(pre, p) {
            let i = level_index_of(pre, p);
            assert(0 <= i < pre.len() && pre[i].price == p);
            assert(i != 0);
            assert(side_has_level(t, p)) by {
                assert(t[i].price == p);
            }
            let i2 = level_index_of(t, p);
            assert(0 <= i2 < t.len() && t[i2].price == p);
            assert(i2 != 0);
            assert(i2 == i) by {
                if i2 < i {
                    assert(pre[i2].price < pre[i].price);
                } else if i2 > i {
                    assert(pre[i].price < pre[i2].price);
                }
            }
        } else {
            assert(!side_has_level(t, p)) by {
                if side_has_level(t, p) {
                    let i2 = level_index_of(t, p);
                    assert(0 <= i2 < t.len() && t[i2].price == p);
                    assert(i2 != 0);
                    assert(pre[i2].price == p);
                    assert(side_has_level(pre, p));
                }
            }
        }
    } else {
        assert(t == pre.remove(0));
        assert(forall|i: int| 0 <= i < t.len() ==> #[trigger] t[i] == pre[i + 1]);
        if side_has_level(pre, p) {
            let i = level_index_of(pre, p);
            assert(0 <= i < pre.len() && pre[i].price == p);
            assert(i != 0);
            assert(side_has_level(t, p)) by {
                assert(t[i - 1].price == p);
            }
            let i2 = level_index_of(t, p);
            assert(0 <= i2 < t.len() && t[i2].price == p);
            assert(pre[i2 + 1].price == p);
            assert(i2 + 1 == i) by {
                if i2 + 1 < i {
                    assert(pre[i2 + 1].price < pre[i].price);
                } else if i2 + 1 > i {
                    assert(pre[i].price < pre[i2 + 1].price);
                }
            }
        } else {
            assert(!side_has_level(t, p)) by {
                if side_has_level(t, p) {
                    let i2 = level_index_of(t, p);
                    assert(pre[i2 + 1].price == p);
                    assert(side_has_level(pre, p));
                }
            }
        }
    }
}

/// Replacing or dropping the back level leaves the visible total at every
/// other price unchanged.
pub proof fn lemma_visible_at_after_back_change(
    pre: Seq<PriceLevel>,
    t: Seq<PriceLevel>,
    p: u64,
)
    requires
        pre.len() > 0,
        levels_sorted(pre),
        (exists|lvl: PriceLevel|
            t == pre.update(pre.len() - 1, lvl) && (#[trigger] lvl.price) == pre.last().price)
            || t == pre.remove(pre.len() - 1),
        p != pre.last().price,
    ensures
        level_visible_at(t, p) == level_visible_at(pre, p),
{
    reveal(level_visible_at);
    let n = pre.len() - 1;
    if exists|lvl: PriceLevel|
        t == pre.update(pre.len() - 1, lvl) && (#[trigger] lvl.price) == pre.last().price {
        let lvl = choose|lvl: PriceLevel|
            t == pre.update(pre.len() - 1, lvl) && (#[trigger] lvl.price) == pre.last().price;
        assert(forall|i: int| 0 <= i < n ==> #[trigger] t[i] == pre[i]);
        assert(t[n] == lvl);
        if side_has_level(pre, p) {
            let i = level_index_of(pre, p);
            assert(0 <= i < pre.len() && pre[i].price == p);
            assert(i != n);
            assert(side_has_level(t, p)) by {
                assert(t[i].price == p);
            }
            let i2 = level_index_of(t, p);
            assert(0 <= i2 < t.len() && t[i2].price == p);
            assert(i2 != n);
            assert(i2 == i) by {
                if i2 < i {
                    assert(pre[i2].price < pre[i].price);
                } else if i2 > i {
                    assert(pre[i].price < pre[i2].price);
                }
            }
        } else {
            assert(!side_has_level(t, p)) by {
                if side_has_level(t, p) {
                    let i2 = level_index_of(t, p);
                    assert(i2 != n);
                    assert(pre[i2].price == p);
                    assert(side_has_level(pre, p));
                }
            }
        }
    } else {
        assert(t == pre.remove(n));
        assert(forall|i: int| 0 <= i < t.len() ==> #[trigger] t[i] == pre[i]);
        if side_has_level(pre, p) {
            let i = level_index_of(pre, p);
            assert(0 <= i < pre.len() && pre[i].price == p);
            assert(i != n);
            assert(side_has_level(t, p)) by {
                assert(t[i].price == p);
            }
            let i2 = level_index_of(t, p);
            assert(t[i2] == pre[i2]);
            assert(i2 == i) by {
                if i2 < i {
                    assert(pre[i2].price < pre[i].price);
                } else if i2 > i {
                    assert(pre[i].price < pre[i2].price);
                }
            }
        } else {
            assert(!side_has_level(t, p)) by {
                if side_has_level(t, p) {
                    let i2 = level_index_of(t, p);
                    assert(pre[i2].price == p);
                    assert(side_has_level(pre, p));
                }
            }
        }
    }
}

/// Sweeps an incoming buy of `qty` through the ask side, best (lowest) price
/// first, never past `limit_price` when one is set. Consumed levels are
/// dropped; a change event is queued for every level that traded.
#[verifier::rlimit(100)]
pub fn sweep_asks(
    levels: &mut Vec<PriceLevel>,
    taker_order_id: u64,
    qty: u64,
    limit_price: Option<u64>,
    txn_counter: &mut u64,
    events: &mut Vec<PriceLevelChangedEvent>,
) -> (r: LevelMatch)
    requires
        side_levels_wf(old(levels)@, Side::Sell),
        side_ids_unique(old(levels)@),
        qty > 0,
    ensures
        side_levels_wf(final(levels)@, Side::Sell),
        side_ids_unique(final(levels)@),
        r.remaining_quantity <= qty,
        txn_quantity_sum(r.transactions@) == qty - r.remaining_quantity,
        r.remaining_quantity > 0 ==> (final(levels)@.len() == 0 || (limit_price is Some
            && final(levels)@.first().price > limit_price->0)),
        qty - r.remaining_quantity <= asks_eligible_total(old(levels)@, limit_price),
        r.remaining_quantity > 0 ==> asks_eligible_total(final(levels)@, limit_price) == 0,
        qty - r.remaining_quantity == (if qty <= asks_drawable_total(old(levels)@, limit_price) {
            qty as int
        } else {
            asks_drawable_total(old(levels)@, limit_price)
        }),
        forall|i: int|
            1 <= i < final(levels)@.len() ==> #[trigger] final(levels)@[i] == old(levels)@[i + (
            old(levels)@.len() - final(levels)@.len())],
        final(levels)@.len() > 0 ==> final(levels)@[0].price == old(levels)@[(old(levels)@.len()
            - final(levels)@.len()) as int].price,
        forall|k: int|
            0 <= k < r.transactions@.len() ==> (#[trigger] r.transactions@[k]).transaction_id
                as int == (if *old(txn_counter) + k <= u64::MAX {
                *old(txn_counter) + k
            } else {
                u64::MAX as int
            }),
        *final(txn_counter) as int == (if *old(txn_counter) + r.transactions@.len() <= u64::MAX {
            *old(txn_counter) + r.transactions@.len()
        } else {
            u64::MAX as int
        }),
        forall|k: int|
            0 <= k < r.transactions@.len() ==> {
                let t = #[trigger] r.transactions@[k];
                &&& t.taker_order_id == taker_order_id
                &&& t.quantity > 0
                &&& (limit_price is Some ==> t.price <= limit_price->0)
                &&& side_has_id(old(levels)@, t.maker_order_id)
            },
        txn_prices_ascending(r.transactions@),
        u64s_distinct(r.filled_order_ids@),
        forall|k: int|
            0 <= k < r.filled_order_ids@.len() ==> side_has_id(
                old(levels)@,
                #[trigger] r.filled_order_ids@[k],
            ) && !side_has_id(final(levels)@, r.filled_order_ids@[k]),
        forall|id: u64, p: u64|
            !r.filled_order_ids@.contains(id) ==> (#[trigger] side_has_id_at(
                final(levels)@,
                id,
                p,
            ) <==> side_has_id_at(old(levels)@, id, p)),
        final(levels)@.len() <= old(levels)@.len(),
        final(levels)@.len() > 0 ==> old(levels)@.len() > 0
            && final(levels)@.first().price >= old(levels)@.first().price
            && final(levels)@.last().price == old(levels)@.last().price,
        *final(txn_counter) >= *old(txn_counter),
        r.transactions@.len() == 0 ==> final(levels)@ == old(levels)@ && r.remaining_quantity
            == qty && *final(txn_counter) == *old(txn_counter) && final(events)@ == old(events)@
            && r.filled_order_ids@.len() == 0,
        old(events)@.len() <= final(events)@.len(),
        forall|i: int| 0 <= i < old(events)@.len() ==> #[trigger] final(events)@[i] == old(events)@[i],
        forall|k: int|
            old(events)@.len() <= k < final(events)@.len()
                ==> (#[trigger] final(events)@[k]).side == Side::Sell,
        forall|k: int|
            old(events)@.len() <= k < final(events)@.len() ==> exists|j: int|
                0 <= j < r.transactions@.len() && (#[trigger] r.transactions@[j]).price == (
                #[trigger] final(events)@[k]).price,
        forall|k1: int, k2: int|
            old(events)@.len() <= k1 < k2 < final(events)@.len()
                ==> (#[trigger] final(events)@[k1]).price < (
            #[trigger] final(events)@[k2]).price,
{
    let ghost levels0 = levels@;
    let ghost c0 = *txn_counter;
    let ghost ev0 = events@;
    let mut remaining: u64 = qty;
    let mut transactions: Vec<TransactionInfo> = Vec::new();
    let mut filled: Vec<u64> = Vec::new();
    while remaining > 0 && levels.len() > 0
        invariant
            side_levels_wf(levels@, Side::Sell),
            side_ids_unique(levels@),
            remaining <= qty,
            qty > 0,
            txn_quantity_sum(transactions@) == qty - remaining,
            forall|k: int|
                0 <= k < transactions@.len() ==> {
                    let t = #[trigger] transactions@[k];
                    &&& t.taker_order_id == taker_order_id
                    &&& t.quantity > 0
                    &&& (limit_price is Some ==> t.price <= limit_price->0)
                    &&& side_has_id(levels0, t.maker_order_id)
                },
            txn_prices_ascending(transactions@),
            transactions@.len() > 0 && levels@.len() > 0 ==> transactions@.last().price
                <= levels@[0].price,
            (qty - remaining) + asks_eligible_total(levels@, limit_price) <= asks_eligible_total(
                levels0,
                limit_price,
            ),
            (qty - remaining) + asks_drawable_total(levels@, limit_price)
                == asks_drawable_total(levels0, limit_price),
            forall|i: int|
                1 <= i < levels@.len() ==> #[trigger] levels@[i] == levels0[i + (levels0.len()
                    - levels@.len())],
            levels@.len() > 0 ==> levels@[0].price == levels0[(levels0.len()
                - levels@.len()) as int].price,
            forall|k: int|
                0 <= k < transactions@.len() ==> (#[trigger] transactions@[k]).transaction_id
                    as int == (if c0 + k <= u64::MAX {
                    c0 + k
                } else {
                    u64::MAX as int
                }),
            *txn_counter as int == (if c0 + transactions@.len() <= u64::MAX {
                c0 + transactions@.len()
            } else {
                u64::MAX as int
            }),
            u64s_distinct(filled@),
            forall|k: int|
                0 <= k < filled@.len() ==> side_has_id(levels0, #[trigger] filled@[k])
                    && !side_has_id(levels@, filled@[k]),
            forall|id: u64, p: u64|
                !filled@.contains(id) ==> (#[trigger] side_has_id_at(levels@, id, p)
                    <==> side_has_id_at(levels0, id, p)),
            levels@.len() <= levels0.len(),
            levels@.len() > 0 ==> levels0.len() > 0 && levels@.first().price
                >= levels0.first().price && levels@.last().price == levels0.last().price,
            *txn_counter >= c0,
            transactions@.len() == 0 ==> levels@ == levels0 && remaining == qty && *txn_counter
                == c0 && events@ == ev0 && filled@.len() == 0,
            ev0.len() <= events@.len(),
            forall|i: int| 0 <= i < ev0.len() ==> #[trigger] events@[i] == ev0[i],
            forall|k: int|
                ev0.len() <= k < events@.len() ==> (#[trigger] events@[k]).side == Side::Sell,
            forall|k: int|
                ev0.len() <= k < events@.len() ==> exists|j: int|
                    0 <= j < transactions@.len() && (#[trigger] transactions@[j]).price == (
                    #[trigger] events@[k]).price,
            forall|k1: int, k2: int|
                ev0.len() <= k1 < k2 < events@.len() ==> (#[trigger] events@[k1]).price < (
                #[trigger] events@[k2]).price,
            remaining > 0 && levels@.len() > 0 ==> (forall|k: int|
                ev0.len() <= k < events@.len() ==> (#[trigger] events@[k]).price
                    < levels@[0].price),
        ensures
            side_levels_wf(levels@, Side::Sell),
            side_ids_unique(levels@),
            remaining <= qty,
            txn_quantity_sum(transactions@) == qty - remaining,
            forall|k: int|
                0 <= k < transactions@.len() ==> {
                    let t = #[trigger] transactions@[k];
                    &&& t.taker_order_id == taker_order_id
                    &&& t.quantity > 0
                    &&& (limit_price is Some ==> t.price <= limit_price->0)
                    &&& side_has_id(levels0, t.maker_order_id)
                },
            txn_prices_ascending(transactions@),
            u64s_distinct(filled@),
            forall|k: int|
                0 <= k < filled@.len() ==> side_has_id(levels0, #[trigger] filled@[k])
                    && !side_has_id(levels@, filled@[k]),
            forall|id: u64, p: u64|
                !filled@.contains(id) ==> (#[trigger] side_has_id_at(levels@, id, p)
                    <==> side_has_id_at(levels0, id, p)),
            levels@.len() <= levels0.len(),
            levels@.len() > 0 ==> levels0.len() > 0 && levels@.first().price
                >= levels0.first().price && levels@.last().price == levels0.last().price,
            (qty - remaining) + asks_eligible_total(levels@, limit_price) <= asks_eligible_total(
                levels0,
                limit_price,
            ),
            (qty - remaining) + asks_drawable_total(levels@, limit_price)
                == asks_drawable_total(levels0, limit_price),
            forall|i: int|
                1 <= i < levels@.len() ==> #[trigger] levels@[i] == levels0[i + (levels0.len()
                    - levels@.len())],
            levels@.len() > 0 ==> levels@[0].price == levels0[(levels0.len()
                - levels@.len()) as int].price,
            forall|k: int|
                0 <= k < transactions@.len() ==> (#[trigger] transactions@[k]).transaction_id
                    as int == (if c0 + k <= u64::MAX {
                    c0 + k
                } else {
                    u64::MAX as int
                }),
            *txn_counter as int == (if c0 + transactions@.len() <= u64::MAX {
                c0 + transactions@.len()
            } else {
                u64::MAX as int
            }),
            *txn_counter >= c0,
            transactions@.len() == 0 ==> levels@ == levels0 && remaining == qty && *txn_counter
                == c0 && events@ == ev0 && filled@.len() == 0,
            ev0.len() <= events@.len(),
            forall|i: int| 0 <= i < ev0.len() ==> #[trigger] events@[i] == ev0[i],
            forall|k: int|
                ev0.len() <= k < events@.len() ==> (#[trigger] events@[k]).side == Side::Sell,
            forall|k: int|
                ev0.len() <= k < events@.len() ==> exists|j: int|
                    0 <= j < transactions@.len() && (#[trigger] transactions@[j]).price == (
                    #[trigger] events@[k]).price,
            forall|k1: int, k2: int|
                ev0.len() <= k1 < k2 < events@.len() ==> (#[trigger] events@[k1]).price < (
                #[trigger] events@[k2]).price,
            remaining > 0 && levels@.len() > 0 ==> (forall|k: int|
                ev0.len() <= k < events@.len() ==> (#[trigger] events@[k]).price
                    < levels@[0].price),
            remaining == 0 || levels@.len() == 0 || (limit_price is Some && levels@[0].price
                > limit_price->0),
        decreases remaining,
    {
        match limit_price {
            Some(limit) => {
                if levels[0].price > limit {
                    break ;
                }
            },
            None => {},
        }
        let ghost pre = levels@;
        let ghost fills_pre = filled@;
        let ghost txns_pre = transactions@;
        let ghost rem0 = remaining;
        let mut lvl = levels.remove(0);
        let ghost lvl0 = lvl;
        let mut lm = lvl.match_incoming(taker_order_id, remaining, txn_counter);
        let had_txns = lm.transactions.len() > 0;
        let lvl_price = lvl.price;
        let lvl_vis = lvl.visible_quantity();
        let ghost lmt = lm.transactions@;
        let ghost lmf = lm.filled_order_ids@;
        proof {
            lemma_txn_quantity_sum_concat(txns_pre, lmt);
            lemma_txn_quantity_sum_nonneg(lmt);
            assert forall|id: u64| !(#[trigger] fills_pre.contains(id) && lmf.contains(id)) by {
                if fills_pre.contains(id) && lmf.contains(id) {
                    let k2 = choose|k2: int| 0 <= k2 < lmf.len() && lmf[k2] == id;
                    assert(seq_has_order_id(lvl0.orders@, id));
                    assert(side_has_id(pre, id)) by {
                        assert(seq_has_order_id(pre[0].orders@, id));
                    }
                    let k = choose|k: int| 0 <= k < fills_pre.len() && fills_pre[k] == id;
                    assert(!side_has_id(pre, id));
                    assert(false);
                }
            }
            lemma_u64_append(fills_pre, lmf);
        }
        transactions.append(&mut lm.transactions);
        filled.append(&mut lm.filled_order_ids);
        remaining = lm.remaining_quantity;
        proof {
            assert(transactions@ == txns_pre + lmt);
            assert(filled@ == fills_pre + lmf);
            assert(forall|k: int|
                0 <= k < txns_pre.len() ==> #[trigger] transactions@[k] == txns_pre[k]);
            assert(forall|k: int|
                txns_pre.len() <= k < transactions@.len() ==> #[trigger] transactions@[k] == lmt[k
                    - txns_pre.len()]);
            assert(forall|k: int|
                0 <= k < fills_pre.len() ==> #[trigger] filled@[k] == fills_pre[k]);
            assert(forall|k: int|
                fills_pre.len() <= k < filled@.len() ==> #[trigger] filled@[k] == lmf[k
                    - fills_pre.len()]);
            // every maker this level traded with rested at the level price
            assert forall|k: int| 0 <= k < lmt.len() implies side_has_id(
                levels0,
                (#[trigger] lmt[k]).maker_order_id,
            ) by {
                let m = lmt[k].maker_order_id;
                assert(seq_has_order_id(lvl0.orders@, m));
                assert(side_has_id_at(pre, m, lvl0.price)) by {
                    assert(pre[0].price == lvl0.price && seq_has_order_id(pre[0].orders@, m));
                }
                assert(!fills_pre.contains(m)) by {
                    if fills_pre.contains(m) {
                        let kk = choose|kk: int|
                            0 <= kk < fills_pre.len() && fills_pre[kk] == m;
                        assert(!side_has_id(pre, m));
                        assert(side_has_id(pre, m)) by {
                            assert(seq_has_order_id(pre[0].orders@, m));
                        }
                        assert(false);
                    }
                }
                assert(side_has_id_at(levels0, m, lvl0.price));
                let i0 = choose|i0: int|
                    0 <= i0 < levels0.len() && (#[trigger] levels0[i0]).price == lvl0.price
                        && seq_has_order_id(levels0[i0].orders@, m);
                assert(seq_has_order_id(levels0[i0].orders@, m));
            }
        }
        if lvl.order_count() > 0 {
            proof {
                assert forall|id: u64| #[trigger] seq_has_order_id(lvl.orders@, id) implies (
                seq_has_order_id(lvl0.orders@, id) && !lmf.contains(id)) by {
                }
                assert forall|id: u64|
                    seq_has_order_id(lvl0.orders@, id) && !lmf.contains(id) implies
                    seq_has_order_id(lvl.orders@, id) by {
                }
                lemma_side_fills_update(pre, 0, lvl, lmf);
                assert(levels@.insert(0, lvl) =~= pre.update(0, lvl));
            }
            levels.insert(0, lvl);
            proof {
                let t = levels@;
                assert(t == pre.update(0, lvl));
                assert(forall|i: int| 0 < i < t.len() ==> #[trigger] t[i] == pre[i]);
                assert(t[0] == lvl);
                assert(asks_eligible_total(pre, limit_price) == pre[0].visible_sum
                    + pre[0].hidden_sum + asks_eligible_total(pre.drop_first(), limit_price));
                assert(asks_eligible_total(t, limit_price) == lvl.visible_sum + lvl.hidden_sum
                    + asks_eligible_total(t.drop_first(), limit_price));
                assert(asks_drawable_total(pre, limit_price) == sum_drawable(pre[0].orders@)
                    + asks_drawable_total(pre.drop_first(), limit_price));
                assert(asks_drawable_total(t, limit_price) == sum_drawable(lvl.orders@)
                    + asks_drawable_total(t.drop_first(), limit_price));
                assert(t.drop_first() =~= pre.drop_first());
            }
        } else {
            proof {
                assert forall|id: u64| #[trigger] seq_has_order_id(lvl0.orders@, id) implies
                    lmf.contains(id) by {
                    if !lmf.contains(id) {
                        assert(seq_has_order_id(lvl.orders@, id));
                        assert(lvl.orders@.len() == 0);
                        assert(false);
                    }
                }
                lemma_side_fills_drop(pre, 0, lmf);
                assert(levels@ == pre.remove(0));
                assert(forall|i: int|
                    0 <= i < levels@.len() ==> #[trigger] levels@[i] == pre[i + 1]);
                assert(asks_eligible_total(pre, limit_price) == pre[0].visible_sum
                    + pre[0].hidden_sum + asks_eligible_total(pre.drop_first(), limit_price));
                assert(asks_drawable_total(pre, limit_price) == sum_drawable(pre[0].orders@)
                    + asks_drawable_total(pre.drop_first(), limit_price));
                assert(levels@ =~= pre.drop_first());
                assert(lvl.visible_sum == 0 && lvl.hidden_sum == 0);
                assert(sum_drawable(lvl.orders@) == 0);
            }
        }
        proof {
            assert(had_txns) by {
                assert(lvl0.orders@.len() > 0);
            }
        }
        if had_txns {
            proof {
                assert(forall|i: int| 0 <= i < ev0.len() ==> #[trigger] events@[i] == ev0[i]);
            }
            let ghost evs_pre = events@;
            events.push(
                PriceLevelChangedEvent { side: Side::Sell, price: lvl_price, quantity: lvl_vis },
            );
            proof {
                assert(forall|k: int|
                    0 <= k < evs_pre.len() ==> #[trigger] events@[k] == evs_pre[k]);
                assert(events@[events@.len() - 1] == (PriceLevelChangedEvent {
                    side: Side::Sell,
                    price: lvl_price,
                    quantity: lvl_vis,
                }));
                assert(lmt.len() > 0) by {
                    assert(lvl0.orders@.len() > 0);
                }
                assert(transactions@[transactions@.len() - 1].price == lvl_price);
                assert(forall|k: int|
                    ev0.len() <= k < evs_pre.len() ==> (#[trigger] evs_pre[k]).price
                        < pre[0].price);
                assert forall|k1: int, k2: int|
                    ev0.len() <= k1 < k2 < events@.len() implies (#[trigger] events@[k1]).price
                    < (#[trigger] events@[k2]).price by {
                    if k2 == events@.len() - 1 {
                        assert(events@[k1] == evs_pre[k1]);
                        assert(evs_pre[k1].price < pre[0].price);
                    } else {
                        assert(events@[k1] == evs_pre[k1]);
                        assert(events@[k2] == evs_pre[k2]);
                    }
                }
                assert forall|k: int| ev0.len() <= k < events@.len() implies exists|j: int|
                    0 <= j < transactions@.len() && (#[trigger] transactions@[j]).price == (
                    #[trigger] events@[k]).price by {
                    if k < events@.len() - 1 {
                        assert(events@[k] == evs_pre[k]);
                        let j0 = choose|j0: int|
                            0 <= j0 < txns_pre.len() && (#[trigger] txns_pre[j0]).price
                                == evs_pre[k].price;
                        assert(transactions@[j0].price == events@[k].price);
                    } else {
                        assert(transactions@[transactions@.len() - 1].price == events@[k].price);
                    }
                }
            }
        }
        proof {
            // the whole run keeps its id bookkeeping together
            assert forall|id: u64, p: u64| !filled@.contains(id) implies (
            #[trigger] side_has_id_at(levels@, id, p) <==> side_has_id_at(levels0, id, p)) by {
                assert(!fills_pre.contains(id) && !lmf.contains(id));
            }
            assert forall|k: int| 0 <= k < filled@.len() implies side_has_id(
                levels0,
                #[trigger] filled@[k],
            ) && !side_has_id(levels@, filled@[k]) by {
                let id = filled@[k];
                if k < fills_pre.len() {
                    assert(side_has_id(levels0, id));
                    assert(!side_has_id(pre, id));
                    assert(!lmf.contains(id)) by {
                        if lmf.contains(id) {
                            let k2 = choose|k2: int| 0 <= k2 < lmf.len() && lmf[k2] == id;
                            assert(seq_has_order_id(lvl0.orders@, id));
                            assert(side_has_id(pre, id)) by {
                                assert(seq_has_order_id(pre[0].orders@, id));
                            }
                            assert(false);
                        }
                    }
                    assert(!side_has_id(levels@, id));
                } else {
                    assert(lmf[k - fills_pre.len()] == id);
                    assert(!side_has_id(levels@, id));
                    assert(seq_has_order_id(lvl0.orders@, id));
                    assert(side_has_id_at(pre, id, lvl0.price)) by {
                        assert(pre[0].price == lvl0.price && seq_has_order_id(
                            pre[0].orders@,
                            id,
                        ));
                    }
                    assert(!fills_pre.contains(id));
                    assert(side_has_id_at(levels0, id, lvl0.price));
                    let i0 = choose|i0: int|
                        0 <= i0 < levels0.len() && (#[trigger] levels0[i0]).price == lvl0.price
                            && seq_has_order_id(levels0[i0].orders@, id);
                    assert(seq_has_order_id(levels0[i0].orders@, id));
                }
            }
            // transaction facts and ordering across the merge
            assert forall|k: int| 0 <= k < transactions@.len() implies {
                let t = #[trigger] transactions@[k];
                &&& t.taker_order_id == taker_order_id
                &&& t.quantity > 0
                &&& (limit_price is Some ==> t.price <= limit_price->0)
                &&& side_has_id(levels0, t.maker_order_id)
            } by {
                if k >= txns_pre.len() {
                    assert(transactions@[k] == lmt[k - txns_pre.len()]);
                    assert(lmt[k - txns_pre.len()].price == lvl0.price);
                }
            }
            assert(txn_prices_ascending(transactions@)) by {
                assert forall|i: int, j: int| 0 <= i < j < transactions@.len() implies (
                #[trigger] transactions@[i]).price <= (#[trigger] transactions@[j]).price by {
                    if i < txns_pre.len() && j >= txns_pre.len() {
                        assert(transactions@[i].price <= txns_pre.last().price) by {
                            if i < txns_pre.len() - 1 {
                                assert(txns_pre[i].price <= txns_pre[txns_pre.len() - 1].price);
                            }
                        }
                        assert(txns_pre.len() > 0);
                        assert(txns_pre.last().price <= pre[0].price);
                        assert(transactions@[j].price == lmt[j - txns_pre.len()].price);
                        assert(lmt[j - txns_pre.len()].price == lvl0.price);
                    } else if i >= txns_pre.len() {
                        assert(transactions@[i].price == lvl0.price);
                        assert(transactions@[j].price == lvl0.price);
                    }
                }
            }
            if transactions@.len() > 0 && levels@.len() > 0 {
                assert(transactions@.last().price <= levels@[0].price) by {
                    if lmt.len() > 0 {
                        assert(transactions@.last() == lmt.last());
                        assert(lmt.last().price == lvl0.price);
                    } else {
                        assert(lvl0.orders@.len() == 0);
                        assert(pre[0].orders@.len() > 0);
                        assert(false);
                    }
                }
            }
            assert(remaining < rem0) by {
                assert(lmt.len() > 0) by {
                    assert(lvl0.orders@.len() > 0);
                }
                assert(txn_quantity_sum(lmt) > 0) by {
                    assert(lmt[0].quantity > 0);
                    assert(lmt.drop_first().len() == lmt.len() - 1);
                    lemma_txn_quantity_sum_nonneg(lmt.drop_first());
                }
            }
        }
    }
    proof {
        lemma_asks_eligible_nonneg(levels@, limit_price);
        lemma_asks_drawable_nonneg(levels@, limit_price);
        lemma_asks_drawable_nonneg(levels0, limit_price);
        if remaining > 0 {
            if levels@.len() > 0 {
                assert forall|ii: int| 0 <= ii < levels@.len() implies (
                #[trigger] levels@[ii]).price > limit_price->0 by {
                    if ii > 0 {
                        assert(levels@[0].price < levels@[ii].price);
                    }
                }
                lemma_asks_eligible_zero(levels@, limit_price);
                lemma_asks_drawable_zero(levels@, limit_price);
            }
        }
    }
    let result = LevelMatch { transactions, filled_order_ids: filled, remaining_quantity: remaining };
    proof {
        assert forall|k: int| ev0.len() <= k < events@.len() implies exists|j: int|
            0 <= j < result.transactions@.len() && (#[trigger] result.transactions@[j]).price == (
            #[trigger] events@[k]).price by {
            let j0 = choose|j0: int|
                0 <= j0 < transactions@.len() && (#[trigger] transactions@[j0]).price
                    == events@[k].price;
            assert(result.transactions@[j0].price == events@[k].price);
        }
    }
    result
}


/// Sweeps an incoming sell of `qty` through the bid side, best (highest)
/// price first, never past `limit_price` when one is set. Consumed levels
/// are dropped; a change event is queued for every level that traded.
#[verifier::rlimit(100)]
pub fn sweep_bids(
    levels: &mut Vec<PriceLevel>,
    taker_order_id: u64,
    qty: u64,
    limit_price: Option<u64>,
    txn_counter: &mut u64,
    events: &mut Vec<PriceLevelChangedEvent>,
) -> (r: LevelMatch)
    requires
        side_levels_wf(old(levels)@, Side::Buy),
        side_ids_unique(old(levels)@),
        qty > 0,
    ensures
        side_levels_wf(final(levels)@, Side::Buy),
        side_ids_unique(final(levels)@),
        r.remaining_quantity <= qty,
        txn_quantity_sum(r.transactions@) == qty - r.remaining_quantity,
        r.remaining_quantity > 0 ==> (final(levels)@.len() == 0 || (limit_price is Some
            && final(levels)@.last().price < limit_price->0)),
        qty - r.remaining_quantity <= bids_eligible_total(old(levels)@, limit_price),
        r.remaining_quantity > 0 ==> bids_eligible_total(final(levels)@, limit_price) == 0,
        qty - r.remaining_quantity == (if qty <= bids_drawable_total(old(levels)@, limit_price) {
            qty as int
        } else {
            bids_drawable_total(old(levels)@, limit_price)
        }),
        forall|i: int|
            0 <= i < final(levels)@.len() - 1 ==> #[trigger] final(levels)@[i]
                == old(levels)@[i],
        final(levels)@.len() > 0 ==> final(levels)@.last().price == old(levels)@[(
        final(levels)@.len() - 1) as int].price,
        forall|k: int|
            0 <= k < r.transactions@.len() ==> (#[trigger] r.transactions@[k]).transaction_id
                as int == (if *old(txn_counter) + k <= u64::MAX {
                *old(txn_counter) + k
            } else {
                u64::MAX as int
            }),
        *final(txn_counter) as int == (if *old(txn_counter) + r.transactions@.len() <= u64::MAX {
            *old(txn_counter) + r.transactions@.len()
        } else {
            u64::MAX as int
        }),
        forall|k: int|
            0 <= k < r.transactions@.len() ==> {
                let t = #[trigger] r.transactions@[k];
                &&& t.taker_order_id == taker_order_id
                &&& t.quantity > 0
                &&& (limit_price is Some ==> t.price >= limit_price->0)
                &&& side_has_id(old(levels)@, t.maker_order_id)
            },
        txn_prices_descending(r.transactions@),
        u64s_distinct(r.filled_order_ids@),
        forall|k: int|
            0 <= k < r.filled_order_ids@.len() ==> side_has_id(
                old(levels)@,
                #[trigger] r.filled_order_ids@[k],
            ) && !side_has_id(final(levels)@, r.filled_order_ids@[k]),
        forall|id: u64, p: u64|
            !r.filled_order_ids@.contains(id) ==> (#[trigger] side_has_id_at(
                final(levels)@,
                id,
                p,
            ) <==> side_has_id_at(old(levels)@, id, p)),
        final(levels)@.len() <= old(levels)@.len(),
        final(levels)@.len() > 0 ==> old(levels)@.len() > 0
            && final(levels)@.last().price <= old(levels)@.last().price
            && final(levels)@.first().price == old(levels)@.first().price,
        *final(txn_counter) >= *old(txn_counter),
        r.transactions@.len() == 0 ==> final(levels)@ == old(levels)@ && r.remaining_quantity
            == qty && *final(txn_counter) == *old(txn_counter) && final(events)@ == old(events)@
            && r.filled_order_ids@.len() == 0,
        old(events)@.len() <= final(events)@.len(),
        forall|i: int| 0 <= i < old(events)@.len() ==> #[trigger] final(events)@[i] == old(events)@[i],
        forall|k: int|
            old(events)@.len() <= k < final(events)@.len()
                ==> (#[trigger] final(events)@[k]).side == Side::Buy,
        forall|k: int|
            old(events)@.len() <= k < final(events)@.len() ==> exists|j: int|
                0 <= j < r.transactions@.len() && (#[trigger] r.transactions@[j]).price == (
                #[trigger] final(events)@[k]).price,
        forall|k1: int, k2: int|
            old(events)@.len() <= k1 < k2 < final(events)@.len()
                ==> (#[trigger] final(events)@[k1]).price > (
            #[trigger] final(events)@[k2]).price,
{
    let ghost levels0 = levels@;
    let ghost c0 = *txn_counter;
    let ghost ev0 = events@;
    let mut remaining: u64 = qty;
    let mut transactions: Vec<TransactionInfo> = Vec::new();
    let mut filled: Vec<u64> = Vec::new();
    while remaining > 0 && levels.len() > 0
        invariant
            side_levels_wf(levels@, Side::Buy),
            side_ids_unique(levels@),
            remaining <= qty,
            qty > 0,
            txn_quantity_sum(transactions@) == qty - remaining,
            forall|k: int|
                0 <= k < transactions@.len() ==> {
                    let t = #[trigger] transactions@[k];
                    &&& t.taker_order_id == taker_order_id
                    &&& t.quantity > 0
                    &&& (limit_price is Some ==> t.price >= limit_price->0)
                    &&& side_has_id(levels0, t.maker_order_id)
                },
            txn_prices_descending(transactions@),
            transactions@.len() > 0 && levels@.len() > 0 ==> transactions@.last().price
                >= levels@.last().price,
            (qty - remaining) + bids_eligible_total(levels@, limit_price) <= bids_eligible_total(
                levels0,
                limit_price,
            ),
            (qty - remaining) + bids_drawable_total(levels@, limit_price)
                == bids_drawable_total(levels0, limit_price),
            forall|i: int|
                0 <= i < levels@.len() - 1 ==> #[trigger] levels@[i] == levels0[i],
            levels@.len() > 0 ==> levels@.last().price == levels0[(levels@.len() - 1) as int].price,
            forall|k: int|
                0 <= k < transactions@.len() ==> (#[trigger] transactions@[k]).transaction_id
                    as int == (if c0 + k <= u64::MAX {
                    c0 + k
                } else {
                    u64::MAX as int
                }),
            *txn_counter as int == (if c0 + transactions@.len() <= u64::MAX {
                c0 + transactions@.len()
            } else {
                u64::MAX as int
            }),
            u64s_distinct(filled@),
            forall|k: int|
                0 <= k < filled@.len() ==> side_has_id(levels0, #[trigger] filled@[k])
                    && !side_has_id(levels@, filled@[k]),
            forall|id: u64, p: u64|
                !filled@.contains(id) ==> (#[trigger] side_has_id_at(levels@, id, p)
                    <==> side_has_id_at(levels0, id, p)),
            levels@.len() <= levels0.len(),
            levels@.len() > 0 ==> levels0.len() > 0 && levels@.last().price
                <= levels0.last().price && levels@.first().price == levels0.first().price,
            *txn_counter >= c0,
            transactions@.len() == 0 ==> levels@ == levels0 && remaining == qty && *txn_counter
                == c0 && events@ == ev0 && filled@.len() == 0,
            ev0.len() <= events@.len(),
            forall|i: int| 0 <= i < ev0.len() ==> #[trigger] events@[i] == ev0[i],
            forall|k: int|
                ev0.len() <= k < events@.len() ==> (#[trigger] events@[k]).side == Side::Buy,
            forall|k: int|
                ev0.len() <= k < events@.len() ==> exists|j: int|
                    0 <= j < transactions@.len() && (#[trigger] transactions@[j]).price == (
                    #[trigger] events@[k]).price,
            forall|k1: int, k2: int|
                ev0.len() <= k1 < k2 < events@.len() ==> (#[trigger] events@[k1]).price > (
                #[trigger] events@[k2]).price,
            remaining > 0 && levels@.len() > 0 ==> (forall|k: int|
                ev0.len() <= k < events@.len() ==> (#[trigger] events@[k]).price
                    > levels@.last().price),
        ensures
            side_levels_wf(levels@, Side::Buy),
            side_ids_unique(levels@),
            remaining <= qty,
            txn_quantity_sum(transactions@) == qty - remaining,
            forall|k: int|
                0 <= k < transactions@.len() ==> {
                    let t = #[trigger] transactions@[k];
                    &&& t.taker_order_id == taker_order_id
                    &&& t.quantity > 0
                    &&& (limit_price is Some ==> t.price >= limit_price->0)
                    &&& side_has_id(levels0, t.maker_order_id)
                },
            txn_prices_descending(transactions@),
            u64s_distinct(filled@),
            forall|k: int|
                0 <= k < filled@.len() ==> side_has_id(levels0, #[trigger] filled@[k])
                    && !side_has_id(levels@, filled@[k]),
            forall|id: u64, p: u64|
                !filled@.contains(id) ==> (#[trigger] side_has_id_at(levels@, id, p)
                    <==> side_has_id_at(levels0, id, p)),
            levels@.len() <= levels0.len(),
            levels@.len() > 0 ==> levels0.len() > 0 && levels@.last().price
                <= levels0.last().price && levels@.first().price == levels0.first().price,
            (qty - remaining) + bids_eligible_total(levels@, limit_price) <= bids_eligible_total(
                levels0,
                limit_price,
            ),
            (qty - remaining) + bids_drawable_total(levels@, limit_price)
                == bids_drawable_total(levels0, limit_price),
            forall|i: int|
                0 <= i < levels@.len() - 1 ==> #[trigger] levels@[i] == levels0[i],
            levels@.len() > 0 ==> levels@.last().price == levels0[(levels@.len() - 1) as int].price,
            forall|k: int|
                0 <= k < transactions@.len() ==> (#[trigger] transactions@[k]).transaction_id
                    as int == (if c0 + k <= u64::MAX {
                    c0 + k
                } else {
                    u64::MAX as int
                }),
            *txn_counter as int == (if c0 + transactions@.len() <= u64::MAX {
                c0 + transactions@.len()
            } else {
                u64::MAX as int
            }),
            *txn_counter >= c0,
            transactions@.len() == 0 ==> levels@ == levels0 && remaining == qty && *txn_counter
                == c0 && events@ == ev0 && filled@.len() == 0,
            ev0.len() <= events@.len(),
            forall|i: int| 0 <= i < ev0.len() ==> #[trigger] events@[i] == ev0[i],
            forall|k: int|
                ev0.len() <= k < events@.len() ==> (#[trigger] events@[k]).side == Side::Buy,
            forall|k: int|
                ev0.len() <= k < events@.len() ==> exists|j: int|
                    0 <= j < transactions@.len() && (#[trigger] transactions@[j]).price == (
                    #[trigger] events@[k]).price,
            forall|k1: int, k2: int|
                ev0.len() <= k1 < k2 < events@.len() ==> (#[trigger] events@[k1]).price > (
                #[trigger] events@[k2]).price,
            remaining > 0 && levels@.len() > 0 ==> (forall|k: int|
                ev0.len() <= k < events@.len() ==> (#[trigger] events@[k]).price
                    > levels@.last().price),
            remaining == 0 || levels@.len() == 0 || (limit_price is Some && levels@.last().price
                < limit_price->0),
        decreases remaining,
    {
        let top = levels.len() - 1;
        match limit_price {
            Some(limit) => {
                if levels[top].price < limit {
                    break ;
                }
            },
            None => {},
        }
        let ghost pre = levels@;
        let ghost fills_pre = filled@;
        let ghost txns_pre = transactions@;
        let ghost rem0 = remaining;
        let ghost pos = pre.len() - 1;
        let popped = levels.pop();
        let mut lvl = match popped {
            Some(l) => l,
            None => {
                proof {
                    assert(false);
                }
                PriceLevel::new(1)
            },
        };
        proof {
            assert(lvl == pre[pos]);
            assert(levels@ =~= pre.remove(pos));
        }
        let ghost lvl0 = lvl;
        let mut lm = lvl.match_incoming(taker_order_id, remaining, txn_counter);
        let had_txns = lm.transactions.len() > 0;
        let lvl_price = lvl.price;
        let lvl_vis = lvl.visible_quantity();
        let ghost lmt = lm.transactions@;
        let ghost lmf = lm.filled_order_ids@;
        proof {
            lemma_txn_quantity_sum_concat(txns_pre, lmt);
            lemma_txn_quantity_sum_nonneg(lmt);
            assert forall|id: u64| !(#[trigger] fills_pre.contains(id) && lmf.contains(id)) by {
                if fills_pre.contains(id) && lmf.contains(id) {
                    let k2 = choose|k2: int| 0 <= k2 < lmf.len() && lmf[k2] == id;
                    assert(seq_has_order_id(lvl0.orders@, id));
                    assert(side_has_id(pre, id)) by {
                        assert(seq_has_order_id(pre[pos].orders@, id));
                    }
                    let k = choose|k: int| 0 <= k < fills_pre.len() && fills_pre[k] == id;
                    assert(!side_has_id(pre, id));
                    assert(false);
                }
            }
            lemma_u64_append(fills_pre, lmf);
        }
        transactions.append(&mut lm.transactions);
        filled.append(&mut lm.filled_order_ids);
        remaining = lm.remaining_quantity;
        proof {
            assert(transactions@ == txns_pre + lmt);
            assert(filled@ == fills_pre + lmf);
            assert(forall|k: int|
                0 <= k < txns_pre.len() ==> #[trigger] transactions@[k] == txns_pre[k]);
            assert(forall|k: int|
                txns_pre.len() <= k < transactions@.len() ==> #[trigger] transactions@[k] == lmt[k
                    - txns_pre.len()]);
            assert(forall|k: int|
                0 <= k < fills_pre.len() ==> #[trigger] filled@[k] == fills_pre[k]);
            assert(forall|k: int|
                fills_pre.len() <= k < filled@.len() ==> #[trigger] filled@[k] == lmf[k
                    - fills_pre.len()]);
            assert forall|k: int| 0 <= k < lmt.len() implies side_has_id(
                levels0,
                (#[trigger] lmt[k]).maker_order_id,
            ) by {
                let m = lmt[k].maker_order_id;
                assert(seq_has_order_id(lvl0.orders@, m));
                assert(side_has_id_at(pre, m, lvl0.price)) by {
                    assert(pre[pos].price == lvl0.price && seq_has_order_id(pre[pos].orders@, m));
                }
                assert(!fills_pre.contains(m)) by {
                    if fills_pre.contains(m) {
                        let kk = choose|kk: int|
                            0 <= kk < fills_pre.len() && fills_pre[kk] == m;
                        assert(!side_has_id(pre, m));
                        assert(side_has_id(pre, m)) by {
                            assert(seq_has_order_id(pre[pos].orders@, m));
                        }
                        assert(false);
                    }
                }
                assert(side_has_id_at(levels0, m, lvl0.price));
                let i0 = choose|i0: int|
                    0 <= i0 < levels0.len() && (#[trigger] levels0[i0]).price == lvl0.price
                        && seq_has_order_id(levels0[i0].orders@, m);
                assert(seq_has_order_id(levels0[i0].orders@, m));
            }
        }
        if lvl.order_count() > 0 {
            proof {
                assert forall|id: u64| #[trigger] seq_has_order_id(lvl.orders@, id) implies (
                seq_has_order_id(lvl0.orders@, id) && !lmf.contains(id)) by {
                }
                assert forall|id: u64|
                    seq_has_order_id(lvl0.orders@, id) && !lmf.contains(id) implies
                    seq_has_order_id(lvl.orders@, id) by {
                }
                lemma_side_fills_update(pre, pos, lvl, lmf);
                assert(levels@.push(lvl) =~= pre.update(pos, lvl));
            }
            levels.push(lvl);
            proof {
                let t = levels@;
                assert(t == pre.update(pos, lvl));
                assert(forall|i: int| 0 <= i < pos ==> #[trigger] t[i] == pre[i]);
                assert(t[pos] == lvl);
                lemma_bids_eligible_update(pre, pos, lvl, limit_price);
                lemma_bids_drawable_update(pre, pos, lvl, limit_price);
            }
        } else {
            proof {
                assert forall|id: u64| #[trigger] seq_has_order_id(lvl0.orders@, id) implies
                    lmf.contains(id) by {
                    if !lmf.contains(id) {
                        assert(seq_has_order_id(lvl.orders@, id));
                        assert(lvl.orders@.len() == 0);
                        assert(false);
                    }
                }
                lemma_side_fills_drop(pre, pos, lmf);
                assert(levels@ == pre.remove(pos));
                assert(forall|i: int|
                    0 <= i < levels@.len() ==> #[trigger] levels@[i] == pre[i]);
                lemma_bids_eligible_remove(pre, pos, limit_price);
                lemma_bids_drawable_remove(pre, pos, limit_price);
                assert(lvl.visible_sum == 0 && lvl.hidden_sum == 0);
                assert(sum_drawable(lvl.orders@) == 0);
            }
        }
        proof {
            assert(had_txns) by {
                assert(lvl0.orders@.len() > 0);
            }
        }
        if had_txns {
            proof {
                assert(forall|i: int| 0 <= i < ev0.len() ==> #[trigger] events@[i] == ev0[i]);
            }
            let ghost evs_pre = events@;
            events.push(
                PriceLevelChangedEvent { side: Side::Buy, price: lvl_price, quantity: lvl_vis },
            );
            proof {
                assert(forall|k: int|
                    0 <= k < evs_pre.len() ==> #[trigger] events@[k] == evs_pre[k]);
                assert(events@[events@.len() - 1] == (PriceLevelChangedEvent {
                    side: Side::Buy,
                    price: lvl_price,
                    quantity: lvl_vis,
                }));
                assert(lmt.len() > 0) by {
                    assert(lvl0.orders@.len() > 0);
                }
                assert(transactions@[transactions@.len() - 1].price == lvl_price);
                assert(forall|k: int|
                    ev0.len() <= k < evs_pre.len() ==> (#[trigger] evs_pre[k]).price
                        > pre[pos].price);
                assert forall|k1: int, k2: int|
                    ev0.len() <= k1 < k2 < events@.len() implies (#[trigger] events@[k1]).price
                    > (#[trigger] events@[k2]).price by {
                    if k2 == events@.len() - 1 {
                        assert(events@[k1] == evs_pre[k1]);
                        assert(evs_pre[k1].price > pre[pos].price);
                    } else {
                        assert(events@[k1] == evs_pre[k1]);
                        assert(events@[k2] == evs_pre[k2]);
                    }
                }
                assert forall|k: int| ev0.len() <= k < events@.len() implies exists|j: int|
                    0 <= j < transactions@.len() && (#[trigger] transactions@[j]).price == (
                    #[trigger] events@[k]).price by {
                    if k < events@.len() - 1 {
                        assert(events@[k] == evs_pre[k]);
                        let j0 = choose|j0: int|
                            0 <= j0 < txns_pre.len() && (#[trigger] txns_pre[j0]).price
                                == evs_pre[k].price;
                        assert(transactions@[j0].price == events@[k].price);
                    } else {
                        assert(transactions@[transactions@.len() - 1].price == events@[k].price);
                    }
                }
            }
        }
        proof {
            assert forall|id: u64, p: u64| !filled@.contains(id) implies (
            #[trigger] side_has_id_at(levels@, id, p) <==> side_has_id_at(levels0, id, p)) by {
                assert(!fills_pre.contains(id) && !lmf.contains(id));
            }
            assert forall|k: int| 0 <= k < filled@.len() implies side_has_id(
                levels0,
                #[trigger] filled@[k],
            ) && !side_has_id(levels@, filled@[k]) by {
                let id = filled@[k];
                if k < fills_pre.len() {
                    assert(side_has_id(levels0, id));
                    assert(!side_has_id(pre, id));
                    assert(!lmf.contains(id)) by {
                        if lmf.contains(id) {
                            let k2 = choose|k2: int| 0 <= k2 < lmf.len() && lmf[k2] == id;
                            assert(seq_has_order_id(lvl0.orders@, id));
                            assert(side_has_id(pre, id)) by {
                                assert(seq_has_order_id(pre[pos].orders@, id));
                            }
                            assert(false);
                        }
                    }
                    assert(!side_has_id(levels@, id));
                } else {
                    assert(lmf[k - fills_pre.len()] == id);
                    assert(!side_has_id(levels@, id));
                    assert(seq_has_order_id(lvl0.orders@, id));
                    assert(side_has_id_at(pre, id, lvl0.price)) by {
                        assert(pre[pos].price == lvl0.price && seq_has_order_id(
                            pre[pos].orders@,
                            id,
                        ));
                    }
                    assert(!fills_pre.contains(id));
                    assert(side_has_id_at(levels0, id, lvl0.price));
                    let i0 = choose|i0: int|
                        0 <= i0 < levels0.len() && (#[trigger] levels0[i0]).price == lvl0.price
                            && seq_has_order_id(levels0[i0].orders@, id);
                    assert(seq_has_order_id(levels0[i0].orders@, id));
                }
            }
            assert forall|k: int| 0 <= k < transactions@.len() implies {
                let t = #[trigger] transactions@[k];
                &&& t.taker_order_id == taker_order_id
                &&& t.quantity > 0
                &&& (limit_price is Some ==> t.price >= limit_price->0)
                &&& side_has_id(levels0, t.maker_order_id)
            } by {
                if k >= txns_pre.len() {
                    assert(transactions@[k] == lmt[k - txns_pre.len()]);
                    assert(lmt[k - txns_pre.len()].price == lvl0.price);
                }
            }
            assert(txn_prices_descending(transactions@)) by {
                assert forall|i: int, j: int| 0 <= i < j < transactions@.len() implies (
                #[trigger] transactions@[i]).price >= (#[trigger] transactions@[j]).price by {
                    if i < txns_pre.len() && j >= txns_pre.len() {
                        assert(transactions@[i].price >= txns_pre.last().price) by {
                            if i < txns_pre.len() - 1 {
                                assert(txns_pre[i].price >= txns_pre[txns_pre.len() - 1].price);
                            }
                        }
                        assert(txns_pre.len() > 0);
                        assert(txns_pre.last().price >= pre[pos].price);
                        assert(transactions@[j].price == lmt[j - txns_pre.len()].price);
                        assert(lmt[j - txns_pre.len()].price == lvl0.price);
                    } else if i >= txns_pre.len() {
                        assert(transactions@[i].price == lvl0.price);
                        assert(transactions@[j].price == lvl0.price);
                    }
                }
            }
            if transactions@.len() > 0 && levels@.len() > 0 {
                assert(transactions@.last().price >= levels@.last().price) by {
                    if lmt.len() > 0 {
                        assert(transactions@.last() == lmt.last());
                        assert(lmt.last().price == lvl0.price);
                    } else {
                        assert(lvl0.orders@.len() == 0);
                        assert(pre[pos].orders@.len() > 0);
                        assert(false);
                    }
                }
            }
            assert(remaining < rem0) by {
                assert(lmt.len() > 0) by {
                    assert(lvl0.orders@.len() > 0);
                }
                assert(txn_quantity_sum(lmt) > 0) by {
                    assert(lmt[0].quantity > 0);
                    assert(lmt.drop_first().len() == lmt.len() - 1);
                    lemma_txn_quantity_sum_nonneg(lmt.drop_first());
                }
            }
        }
    }
    proof {
        lemma_bids_eligible_nonneg(levels@, limit_price);
        lemma_bids_drawable_nonneg(levels@, limit_price);
        lemma_bids_drawable_nonneg(levels0, limit_price);
        if remaining > 0 {
            if levels@.len() > 0 {
                assert forall|ii: int| 0 <= ii < levels@.len() implies (
                #[trigger] levels@[ii]).price < limit_price->0 by {
                    if ii < levels@.len() - 1 {
                        assert(levels@[ii].price < levels@[levels@.len() - 1].price);
                    }
                }
                lemma_bids_eligible_zero(levels@, limit_price);
                lemma_bids_drawable_zero(levels@, limit_price);
            }
        }
    }
    let result = LevelMatch { transactions, filled_order_ids: filled, remaining_quantity: remaining };
    proof {
        assert forall|k: int| ev0.len() <= k < events@.len() implies exists|j: int|
            0 <= j < result.transactions@.len() && (#[trigger] result.transactions@[j]).price == (
            #[trigger] events@[k]).price by {
            let j0 = choose|j0: int|
                0 <= j0 < transactions@.len() && (#[trigger] transactions@[j0]).price
                    == events@[k].price;
            assert(result.transactions@[j0].price == events@[k].price);
        }
    }
    result
}


impl OrderBook {
    /// Matches an incoming order for `quantity` against the opposite side,
    /// best price first with strict FIFO within each level, stopping at
    /// `limit_price` when one is set. Emptied levels are removed, filled
    /// resting orders leave the location index, the last-trade state is
    /// updated, and a change event is queued per traded level. A market
    /// order (no limit price) that can match nothing at all fails with
    /// `InsufficientLiquidity` and leaves the book unchanged.
    #[verifier::rlimit(100)]
    pub fn match_order(
        &mut self,
        order_id: u64,
        side: Side,
        quantity: u64,
        limit_price: Option<u64>,
    ) -> (r: Result<MatchResult, OrderBookError>)
        requires
            book_wf(*old(self)),
        ensures
            book_wf(*final(self)),
            final(self).market_close_timestamp == old(self).market_close_timestamp,
            final(self).has_market_close == old(self).has_market_close,
            (r is Err) <==> (limit_price is None && (quantity == 0 || (if side == Side::Buy {
                old(self).asks@.len() == 0
            } else {
                old(self).bids@.len() == 0
            }))),
            match r {
                Ok(res) => {
                    &&& res.order_id == order_id
                    &&& res.remaining_quantity <= quantity
                    &&& res.is_complete == (res.remaining_quantity == 0)
                    &&& txn_quantity_sum(res.transactions@) == quantity - res.remaining_quantity
                    &&& forall|k: int|
                        0 <= k < res.transactions@.len() ==> {
                            let t = #[trigger] res.transactions@[k];
                            &&& t.taker_order_id == order_id
                            &&& t.quantity > 0
                            &&& (side == Side::Buy && limit_price is Some ==> t.price
                                <= limit_price->0)
                            &&& (side == Side::Sell && limit_price is Some ==> t.price
                                >= limit_price->0)
                        }
                    &&& (side == Side::Buy ==> txn_prices_ascending(res.transactions@))
                    &&& (side == Side::Sell ==> txn_prices_descending(res.transactions@))
                    &&& (res.remaining_quantity > 0 && side == Side::Buy && quantity > 0 ==> (
                    final(self).asks@.len() == 0 || (limit_price is Some
                        && final(self).asks@.first().price > limit_price->0)))
                    &&& (res.remaining_quantity > 0 && side == Side::Sell && quantity > 0 ==> (
                    final(self).bids@.len() == 0 || (limit_price is Some
                        && final(self).bids@.last().price < limit_price->0)))
                    &&& (side == Side::Buy ==> quantity - res.remaining_quantity
                        <= asks_eligible_total(old(self).asks@, limit_price))
                    &&& (side == Side::Sell ==> quantity - res.remaining_quantity
                        <= bids_eligible_total(old(self).bids@, limit_price))
                    &&& (side == Side::Buy ==> quantity - res.remaining_quantity == (if quantity
                        <= asks_drawable_total(old(self).asks@, limit_price) {
                        quantity as int
                    } else {
                        asks_drawable_total(old(self).asks@, limit_price)
                    }))
                    &&& (side == Side::Sell ==> quantity - res.remaining_quantity == (if quantity
                        <= bids_drawable_total(old(self).bids@, limit_price) {
                        quantity as int
                    } else {
                        bids_drawable_total(old(self).bids@, limit_price)
                    }))
                    &&& (side == Side::Buy ==> forall|i: int|
                        1 <= i < final(self).asks@.len() ==> #[trigger] final(self).asks@[i]
                            == old(self).asks@[i + (old(self).asks@.len()
                            - final(self).asks@.len())])
                    &&& (side == Side::Sell ==> forall|i: int|
                        0 <= i < final(self).bids@.len() - 1 ==> #[trigger] final(self).bids@[i]
                            == old(self).bids@[i])
                    &&& forall|k: int|
                        0 <= k < res.transactions@.len()
                            ==> (#[trigger] res.transactions@[k]).transaction_id as int == (if old(
                            self,
                        ).next_transaction_id + k <= u64::MAX {
                            old(self).next_transaction_id + k
                        } else {
                            u64::MAX as int
                        })
                    &&& final(self).next_transaction_id as int == (if old(
                        self,
                    ).next_transaction_id + res.transactions@.len() <= u64::MAX {
                        old(self).next_transaction_id + res.transactions@.len()
                    } else {
                        u64::MAX as int
                    })
                    &&& (side == Side::Buy ==> final(self).bids@ == old(self).bids@)
                    &&& (side == Side::Sell ==> final(self).asks@ == old(self).asks@)
                    &&& (side == Side::Buy ==> forall|k: int|
                        0 <= k < res.transactions@.len() ==> side_has_id(
                            old(self).asks@,
                            (#[trigger] res.transactions@[k]).maker_order_id,
                        ))
                    &&& (side == Side::Sell ==> forall|k: int|
                        0 <= k < res.transactions@.len() ==> side_has_id(
                            old(self).bids@,
                            (#[trigger] res.transactions@[k]).maker_order_id,
                        ))
                    &&& (side == Side::Buy ==> forall|id: u64, p: u64|
                        !res.filled_order_ids@.contains(id) ==> (#[trigger] side_has_id_at(
                            final(self).asks@,
                            id,
                            p,
                        ) <==> side_has_id_at(old(self).asks@, id, p)))
                    &&& (side == Side::Sell ==> forall|id: u64, p: u64|
                        !res.filled_order_ids@.contains(id) ==> (#[trigger] side_has_id_at(
                            final(self).bids@,
                            id,
                            p,
                        ) <==> side_has_id_at(old(self).bids@, id, p)))
                    &&& u64s_distinct(res.filled_order_ids@)
                    &&& forall|k: int|
                        0 <= k < res.filled_order_ids@.len() ==> loc_has_id(
                            old(self).order_locations@,
                            #[trigger] res.filled_order_ids@[k],
                        ) && !loc_has_id(
                            final(self).order_locations@,
                            res.filled_order_ids@[k],
                        )
                    &&& forall|id: u64|
                        !res.filled_order_ids@.contains(id) ==> (#[trigger] loc_has_id(
                            final(self).order_locations@,
                            id,
                        ) <==> loc_has_id(old(self).order_locations@, id))
                    &&& (res.transactions@.len() > 0 ==> final(self).has_traded
                        && final(self).last_trade_price == res.transactions@.last().price)
                    &&& (res.transactions@.len() == 0 ==> book_unchanged(
                        *final(self),
                        *old(self),
                    ) && res.remaining_quantity == quantity && res.filled_order_ids@.len() == 0)
                    &&& (limit_price is None ==> res.transactions@.len() > 0)
                    &&& old(self).pending_events@.len() <= final(self).pending_events@.len()
                    &&& forall|i: int|
                        0 <= i < old(self).pending_events@.len()
                            ==> #[trigger] final(self).pending_events@[i]
                            == old(self).pending_events@[i]
                },
                Err(OrderBookError::InsufficientLiquidity { side: s, requested, available }) => {
                    &&& s == side
                    &&& requested == quantity
                    &&& available == 0
                    &&& limit_price is None
                    &&& (quantity == 0 || (if side == Side::Buy {
                        old(self).asks@.len() == 0
                    } else {
                        old(self).bids@.len() == 0
                    }))
                    &&& book_unchanged(*final(self), *old(self))
                },
                _ => false,
            },
    {
        let ghost b0 = *self;
        let opposite_empty = match side {
            Side::Buy => self.asks.len() == 0,
            Side::Sell => self.bids.len() == 0,
        };
        if quantity == 0 || opposite_empty {
            if matches!(limit_price, None) {
                return Err(OrderBookError::InsufficientLiquidity {
                    side,
                    requested: quantity,
                    available: 0,
                });
            }
            proof {
                lemma_asks_eligible_nonneg(self.asks@, limit_price);
                lemma_bids_eligible_nonneg(self.bids@, limit_price);
                lemma_asks_drawable_nonneg(self.asks@, limit_price);
                lemma_bids_drawable_nonneg(self.bids@, limit_price);
            }
            let mut res = MatchResult::new(order_id, quantity);
            res.is_complete = quantity == 0;
            return Ok(res);
        }
        let lm: LevelMatch;
        if matches!(side, Side::Buy) {
            proof {
                lemma_book_side_ids_unique(b0, Side::Sell);
            }
            lm = sweep_asks(
                &mut self.asks,
                order_id,
                quantity,
                limit_price,
                &mut self.next_transaction_id,
                &mut self.pending_events,
            );
        } else {
            proof {
                lemma_book_side_ids_unique(b0, Side::Buy);
            }
            lm = sweep_bids(
                &mut self.bids,
                order_id,
                quantity,
                limit_price,
                &mut self.next_transaction_id,
                &mut self.pending_events,
            );
        }
        let ghost b1 = *self;
        let ghost fills = lm.filled_order_ids@;
        let ghost opp = if side == Side::Buy {
            Side::Sell
        } else {
            Side::Buy
        };
        proof {
            // a market order on a populated side always trades
            if limit_price is None && lm.transactions@.len() == 0 {
                assert(lm.remaining_quantity == quantity);
                assert(false);
            }
            // every filled id had a location entry, on the matched side
            assert forall|k: int| 0 <= k < fills.len() implies loc_has_id(
                b0.order_locations@,
                #[trigger] fills[k],
            ) by {
                let id = fills[k];
                assert(side_has_id(book_side_seq(b0, opp), id));
                let i = choose|i: int|
                    0 <= i < book_side_seq(b0, opp).len() && seq_has_order_id(
                        #[trigger] book_side_seq(b0, opp)[i].orders@,
                        id,
                    );
                let j = choose|j: int|
                    0 <= j < book_side_seq(b0, opp)[i].orders@.len() && (#[trigger] book_side_seq(
                        b0,
                        opp,
                    )[i].orders@[j]).id == id;
                assert(loc_tracks(
                    b0.order_locations@,
                    id,
                    book_side_seq(b0, opp)[i].price,
                    opp,
                ));
                let kk = choose|kk: int|
                    0 <= kk < b0.order_locations@.len() && #[trigger] b0.order_locations@[kk] == (
                    OrderLocation {
                        order_id: id,
                        price: book_side_seq(b0, opp)[i].price,
                        side: opp,
                    });
                assert(b0.order_locations@[kk].order_id == id);
            }
        }
        let mut i: usize = 0;
        while i < lm.filled_order_ids.len()
            invariant
                lm.filled_order_ids@ == fills,
                0 <= i <= fills.len(),
                u64s_distinct(fills),
                fills.len() == 0 ==> self.order_locations@ == b0.order_locations@,
                locs_distinct(self.order_locations@),
                forall|k: int|
                    0 <= k < i ==> !loc_has_id(self.order_locations@, #[trigger] fills[k]),
                forall|k: int|
                    i <= k < fills.len() ==> loc_has_id(
                        self.order_locations@,
                        #[trigger] fills[k],
                    ),
                forall|id: u64|
                    !fills.contains(id) ==> (#[trigger] loc_has_id(self.order_locations@, id)
                        <==> loc_has_id(b0.order_locations@, id)),
                forall|id: u64, p: u64, sd: Side|
                    !fills.contains(id) ==> (#[trigger] loc_tracks(
                        self.order_locations@,
                        id,
                        p,
                        sd,
                    ) <==> loc_tracks(b0.order_locations@, id, p, sd)),
                self.bids@ == b1.bids@,
                self.asks@ == b1.asks@,
                self.pending_events@ == b1.pending_events@,
                self.last_trade_price == b1.last_trade_price,
                self.has_traded == b1.has_traded,
                self.market_close_timestamp == b1.market_close_timestamp,
                self.has_market_close == b1.has_market_close,
                self.next_transaction_id == b1.next_transaction_id,
            decreases fills.len() - i,
        {
            let id = lm.filled_order_ids[i];
            proof {
                assert(loc_has_id(self.order_locations@, id)) by {
                    assert(fills[i as int] == id);
                }
            }
            match self.find_location_index(id) {
                Some(k) => {
                    proof {
                        lemma_loc_remove(self.order_locations@, k as int);
                        assert(fills.contains(id)) by {
                            assert(fills[i as int] == id);
                        }
                        assert forall|k2: int| 0 <= k2 < i implies !loc_has_id(
                            self.order_locations@.remove(k as int),
                            #[trigger] fills[k2],
                        ) by {
                            assert(fills[k2] != id);
                        }
                    }
                    self.order_locations.remove(k);
                },
                None => {
                    proof {
                        assert(false);
                    }
                },
            }
            i = i + 1;
        }
        if lm.transactions.len() > 0 {
            self.last_trade_price = lm.transactions[lm.transactions.len() - 1].price;
            self.has_traded = true;
        }
        proof {
            let b2 = *self;
            assert(book_uncrossed(b2));
            // coverage on the matched side: survivors keep their entries
            let t = book_side_seq(b2, opp);
            let s0 = book_side_seq(b0, opp);
            assert forall|i2: int, j2: int|
                0 <= i2 < t.len() && 0 <= j2 < t[i2].orders@.len() implies loc_tracks(
                b2.order_locations@,
                (#[trigger] t[i2].orders@[j2]).id,
                t[i2].price,
                opp,
            ) by {
                let id2 = t[i2].orders@[j2].id;
                let p2 = t[i2].price;
                assert(seq_has_order_id(t[i2].orders@, id2));
                assert(side_has_id_at(t, id2, p2));
                assert(!fills.contains(id2)) by {
                    if fills.contains(id2) {
                        let kf = choose|kf: int| 0 <= kf < fills.len() && fills[kf] == id2;
                        assert(!side_has_id(t, id2));
                        assert(side_has_id(t, id2)) by {
                            assert(seq_has_order_id(t[i2].orders@, id2));
                        }
                        assert(false);
                    }
                }
                assert(side_has_id_at(s0, id2, p2));
                let i0 = choose|i0: int|
                    0 <= i0 < s0.len() && (#[trigger] s0[i0]).price == p2 && seq_has_order_id(
                        s0[i0].orders@,
                        id2,
                    );
                let j0 = choose|j0: int|
                    0 <= j0 < s0[i0].orders@.len() && (#[trigger] s0[i0].orders@[j0]).id == id2;
                assert(loc_tracks(b0.order_locations@, id2, p2, opp));
            }
            // coverage on the taker side: untouched, and none of its ids
            // were filled
            let u = book_side_seq(b2, side);
            assert forall|i2: int, j2: int|
                0 <= i2 < u.len() && 0 <= j2 < u[i2].orders@.len() implies loc_tracks(
                b2.order_locations@,
                (#[trigger] u[i2].orders@[j2]).id,
                u[i2].price,
                side,
            ) by {
                let id2 = u[i2].orders@[j2].id;
                let p2 = u[i2].price;
                assert(book_side_seq(b0, side) == u);
                assert(loc_tracks(b0.order_locations@, id2, p2, side));
                assert(!fills.contains(id2)) by {
                    if fills.contains(id2) {
                        let kf = choose|kf: int| 0 <= kf < fills.len() && fills[kf] == id2;
                        assert(side_has_id(s0, id2));
                        let i3 = choose|i3: int|
                            0 <= i3 < s0.len() && seq_has_order_id(
                                #[trigger] s0[i3].orders@,
                                id2,
                            );
                        let j3 = choose|j3: int|
                            0 <= j3 < s0[i3].orders@.len() && (#[trigger] s0[i3].orders@[j3]).id
                                == id2;
                        assert(loc_tracks(b0.order_locations@, id2, s0[i3].price, opp));
                        let ka = choose|k: int|
                            0 <= k < b0.order_locations@.len() && #[trigger] b0.order_locations@[k]
                                == (OrderLocation { order_id: id2, price: p2, side });
                        let kb = choose|k: int|
                            0 <= k < b0.order_locations@.len() && #[trigger] b0.order_locations@[k]
                                == (OrderLocation { order_id: id2, price: s0[i3].price, side: opp });
                        assert(ka != kb);
                        assert(false);
                    }
                }
            }
            // exactness: every remaining entry still points at a live order
            assert forall|k2: int| 0 <= k2 < b2.order_locations@.len() implies side_has_id_at(
                book_side_seq(b2, (#[trigger] b2.order_locations@[k2]).side),
                b2.order_locations@[k2].order_id,
                b2.order_locations@[k2].price,
            ) by {
                let e = b2.order_locations@[k2];
                assert(loc_has_id(b2.order_locations@, e.order_id)) by {
                    assert(b2.order_locations@[k2].order_id == e.order_id);
                }
                assert(!fills.contains(e.order_id)) by {
                    if fills.contains(e.order_id) {
                        let kf = choose|kf: int|
                            0 <= kf < fills.len() && fills[kf] == e.order_id;
                        assert(!loc_has_id(b2.order_locations@, e.order_id));
                        assert(false);
                    }
                }
                assert(loc_tracks(b2.order_locations@, e.order_id, e.price, e.side)) by {
                    assert(b2.order_locations@[k2] == (OrderLocation {
                        order_id: e.order_id,
                        price: e.price,
                        side: e.side,
                    }));
                }
                assert(loc_tracks(b0.order_locations@, e.order_id, e.price, e.side));
                let kk = choose|kk: int|
                    0 <= kk < b0.order_locations@.len() && #[trigger] b0.order_locations@[kk] == (
                    OrderLocation { order_id: e.order_id, price: e.price, side: e.side });
                assert(side_has_id_at(
                    book_side_seq(b0, e.side),
                    e.order_id,
                    e.price,
                ));
                if e.side == opp {
                    assert(side_has_id_at(t, e.order_id, e.price));
                } else {
                    assert(book_side_seq(b2, e.side) == book_side_seq(b0, e.side));
                }
            }
            assert(book_wf(b2));
        }
        let complete = lm.remaining_quantity == 0;
        Ok(
            MatchResult {
                order_id,
                transactions: lm.transactions,
                filled_order_ids: lm.filled_order_ids,
                remaining_quantity: lm.remaining_quantity,
                is_complete: complete,
            },
        )
    }
}


/// Total quantity resting on the ask side at prices the limit admits (all
/// of it when no limit is given).
pub open spec fn asks_eligible_total(levels: Seq<PriceLevel>, limit: Option<u64>) -> int
    decreases levels.len(),
{
    if levels.len() == 0 {
        0
    } else {
        (if limit is Some && levels[0].price > limit->0 {
            0
        } else {
            levels[0].visible_sum + levels[0].hidden_sum
        }) + asks_eligible_total(levels.drop_first(), limit)
    }
}

/// Total quantity resting on the bid side at prices the limit admits.
pub open spec fn bids_eligible_total(levels: Seq<PriceLevel>, limit: Option<u64>) -> int
    decreases levels.len(),
{
    if levels.len() == 0 {
        0
    } else {
        (if limit is Some && levels[0].price < limit->0 {
            0
        } else {
            levels[0].visible_sum + levels[0].hidden_sum
        }) + bids_eligible_total(levels.drop_first(), limit)
    }
}

pub proof fn lemma_asks_eligible_nonneg(levels: Seq<PriceLevel>, limit: Option<u64>)
    ensures
        asks_eligible_total(levels, limit) >= 0,
    decreases levels.len(),
{
    if levels.len() > 0 {
        lemma_asks_eligible_nonneg(levels.drop_first(), limit);
    }
}

pub proof fn lemma_bids_eligible_nonneg(levels: Seq<PriceLevel>, limit: Option<u64>)
    ensures
        bids_eligible_total(levels, limit) >= 0,
    decreases levels.len(),
{
    if levels.len() > 0 {
        lemma_bids_eligible_nonneg(levels.drop_first(), limit);
    }
}

/// Past the limit on a sorted ask run, nothing more is eligible.
pub proof fn lemma_asks_eligible_zero(levels: Seq<PriceLevel>, limit: Option<u64>)
    requires
        limit is Some,
        forall|i: int| 0 <= i < levels.len() ==> (#[trigger] levels[i]).price > limit->0,
    ensures
        asks_eligible_total(levels, limit) == 0,
    decreases levels.len(),
{
    if levels.len() > 0 {
        assert(forall|i: int|
            0 <= i < levels.drop_first().len() ==> #[trigger] levels.drop_first()[i] == levels[i
                + 1]);
        lemma_asks_eligible_zero(levels.drop_first(), limit);
    }
}

/// Below the limit on a sorted bid run, nothing more is eligible.
pub proof fn lemma_bids_eligible_zero(levels: Seq<PriceLevel>, limit: Option<u64>)
    requires
        limit is Some,
        forall|i: int| 0 <= i < levels.len() ==> (#[trigger] levels[i]).price < limit->0,
    ensures
        bids_eligible_total(levels, limit) == 0,
    decreases levels.len(),
{
    if levels.len() > 0 {
        assert(forall|i: int|
            0 <= i < levels.drop_first().len() ==> #[trigger] levels.drop_first()[i] == levels[i
                + 1]);
        lemma_bids_eligible_zero(levels.drop_first(), limit);
    }
}

/// The eligible bid total splits at any index.
pub proof fn lemma_bids_eligible_split(levels: Seq<PriceLevel>, j: int, limit: Option<u64>)
    requires
        0 <= j <= levels.len(),
    ensures
        bids_eligible_total(levels, limit) == bids_eligible_total(levels.take(j), limit)
            + bids_eligible_total(levels.skip(j), limit),
    decreases j,
{
    if j == 0 {
        assert(levels.take(0) =~= Seq::<PriceLevel>::empty());
        assert(levels.skip(0) =~= levels);
    } else {
        assert(levels.len() > 0);
        assert(levels.take(j)[0] == levels[0]);
        assert(levels.take(j).len() == j);
        assert(levels.take(j).drop_first() =~= levels.drop_first().take(j - 1));
        assert(levels.skip(j) =~= levels.drop_first().skip(j - 1));
        lemma_bids_eligible_split(levels.drop_first(), j - 1, limit);
    }
}


/// Replacing the level at `i` with one at the same price shifts the
/// eligible bid total by the change in that level's quantities.
pub proof fn lemma_bids_eligible_update(
    levels: Seq<PriceLevel>,
    i: int,
    lvl: PriceLevel,
    limit: Option<u64>,
)
    requires
        0 <= i < levels.len(),
        lvl.price == levels[i].price,
    ensures
        bids_eligible_total(levels.update(i, lvl), limit) == bids_eligible_total(levels, limit) - (
        if limit is Some && levels[i].price < limit->0 {
            0
        } else {
            levels[i].visible_sum + levels[i].hidden_sum
        }) + (if limit is Some && lvl.price < limit->0 {
            0
        } else {
            lvl.visible_sum + lvl.hidden_sum
        }),
    decreases levels.len(),
{
    if i == 0 {
        assert(levels.update(0, lvl).drop_first() =~= levels.drop_first());
        assert(levels.update(0, lvl)[0] == lvl);
    } else {
        assert(levels.update(i, lvl).drop_first() =~= levels.drop_first().update(i - 1, lvl));
        assert(levels.update(i, lvl)[0] == levels[0]);
        lemma_bids_eligible_update(levels.drop_first(), i - 1, lvl, limit);
    }
}

/// Dropping the level at `i` removes its contribution from the eligible bid
/// total.
pub proof fn lemma_bids_eligible_remove(levels: Seq<PriceLevel>, i: int, limit: Option<u64>)
    requires
        0 <= i < levels.len(),
    ensures
        bids_eligible_total(levels.remove(i), limit) == bids_eligible_total(levels, limit) - (
        if limit is Some && levels[i].price < limit->0 {
            0
        } else {
            levels[i].visible_sum + levels[i].hidden_sum
        }),
    decreases levels.len(),
{
    if i == 0 {
        assert(levels.remove(0) =~= levels.drop_first());
    } else {
        assert(levels.remove(i).drop_first() =~= levels.drop_first().remove(i - 1));
        assert(levels.remove(i)[0] == levels[0]);
        lemma_bids_eligible_remove(levels.drop_first(), i - 1, limit);
    }
}

impl OrderBook {
    /// Matches an incoming limit order for `quantity` at `price`. With a
    /// limit price set, matching itself never fails; the caller decides
    /// whether to rest the remainder.
    pub fn match_limit_order(&mut self, order_id: u64, quantity: u64, side: Side, price: u64) -> (r:
        Result<MatchResult, OrderBookError>)
        requires
            book_wf(*old(self)),
        ensures
            book_wf(*final(self)),
            r is Ok,
            match r {
                Ok(res) => {
                    &&& res.order_id == order_id
                    &&& res.remaining_quantity <= quantity
                    &&& res.is_complete == (res.remaining_quantity == 0)
                    &&& txn_quantity_sum(res.transactions@) == quantity - res.remaining_quantity
                    &&& (res.remaining_quantity > 0 && side == Side::Buy && quantity > 0 ==> (
                    final(self).asks@.len() == 0 || final(self).asks@.first().price > price))
                    &&& (res.remaining_quantity > 0 && side == Side::Sell && quantity > 0 ==> (
                    final(self).bids@.len() == 0 || final(self).bids@.last().price < price))
                    &&& (side == Side::Buy ==> final(self).bids@ == old(self).bids@
                        && txn_prices_ascending(res.transactions@))
                    &&& (side == Side::Sell ==> final(self).asks@ == old(self).asks@
                        && txn_prices_descending(res.transactions@))
                    &&& forall|k: int|
                        0 <= k < res.transactions@.len() ==> (#[trigger] res.transactions@[k]).taker_order_id
                            == order_id && res.transactions@[k].quantity > 0 && (side == Side::Buy
                            ==> res.transactions@[k].price <= price) && (side == Side::Sell
                            ==> res.transactions@[k].price >= price)
                    &&& forall|id: u64|
                        !res.filled_order_ids@.contains(id) ==> (#[trigger] loc_has_id(
                            final(self).order_locations@,
                            id,
                        ) <==> loc_has_id(old(self).order_locations@, id))
                    &&& (res.transactions@.len() == 0 ==> book_unchanged(
                        *final(self),
                        *old(self),
                    ) && res.remaining_quantity == quantity)
                },
                _ => false,
            },
    {
        let r = self.match_order(order_id, side, quantity, Some(price));
        match r {
            Ok(res) => Ok(res),
            Err(e) => {
                proof {
                    assert(false);
                }
                Err(e)
            },
        }
    }

    /// Submits a market order: matches what it can at any price and never
    /// rests. Fails with `InsufficientLiquidity`, leaving the book
    /// unchanged, exactly when nothing at all can match.
    pub fn submit_market_order(&mut self, order_id: u64, quantity: u64, side: Side) -> (r: Result<
        MatchResult,
        OrderBookError,
    >)
        requires
            book_wf(*old(self)),
        ensures
            book_wf(*final(self)),
            (r is Err) <==> (quantity == 0 || (if side == Side::Buy {
                old(self).asks@.len() == 0
            } else {
                old(self).bids@.len() == 0
            })),
            match r {
                Ok(res) => {
                    &&& res.order_id == order_id
                    &&& res.remaining_quantity <= quantity
                    &&& res.is_complete == (res.remaining_quantity == 0)
                    &&& txn_quantity_sum(res.transactions@) == quantity - res.remaining_quantity
                    &&& res.transactions@.len() > 0
                    &&& (side == Side::Buy ==> final(self).bids@ == old(self).bids@
                        && txn_prices_ascending(res.transactions@))
                    &&& (side == Side::Sell ==> final(self).asks@ == old(self).asks@
                        && txn_prices_descending(res.transactions@))
                    &&& (res.remaining_quantity > 0 && side == Side::Buy
                        ==> final(self).asks@.len() == 0)
                    &&& (res.remaining_quantity > 0 && side == Side::Sell
                        ==> final(self).bids@.len() == 0)
                    &&& final(self).has_traded
                    &&& final(self).last_trade_price == res.transactions@.last().price
                },
                Err(OrderBookError::InsufficientLiquidity { side: s, requested, available }) => {
                    &&& s == side
                    &&& requested == quantity
                    &&& available == 0
                    &&& (quantity == 0 || (if side == Side::Buy {
                        old(self).asks@.len() == 0
                    } else {
                        old(self).bids@.len() == 0
                    }))
                    &&& book_unchanged(*final(self), *old(self))
                },
                _ => false,
            },
    {
        self.match_order(order_id, side, quantity, None)
    }

    /// A read-only simulation: how much of `quantity` could match right now
    /// against the opposite side within `price_limit`, counting hidden
    /// quantity. Exactly the smaller of the quantity and the eligible
    /// resting total.
    pub fn peek_match(&self, side: Side, quantity: u64, price_limit: Option<u64>) -> (r: u64)
        requires
            book_wf(*self),
        ensures
            side == Side::Buy ==> r == (if quantity <= asks_eligible_total(
                self.asks@,
                price_limit,
            ) {
                quantity as int
            } else {
                asks_eligible_total(self.asks@, price_limit)
            }),
            side == Side::Sell ==> r == (if quantity <= bids_eligible_total(
                self.bids@,
                price_limit,
            ) {
                quantity as int
            } else {
                bids_eligible_total(self.bids@, price_limit)
            }),
    {
        let mut matched: u64 = 0;
        match side {
            Side::Buy => {
                let ghost total = asks_eligible_total(self.asks@, price_limit);
                let mut i: usize = 0;
                proof {
                    assert(self.asks@.skip(0) =~= self.asks@);
                    assert(self.asks@.skip(self.asks@.len() as int) =~= Seq::<
                        PriceLevel,
                    >::empty());
                    lemma_asks_eligible_nonneg(self.asks@, price_limit);
                }
                while i < self.asks.len()
                    invariant
                        book_wf(*self),
                        0 <= i <= self.asks@.len(),
                        asks_eligible_total(
                            self.asks@.skip(self.asks@.len() as int),
                            price_limit,
                        ) == 0,
                        matched <= quantity,
                        matched == (if quantity <= total - asks_eligible_total(
                            self.asks@.skip(i as int),
                            price_limit,
                        ) {
                            quantity as int
                        } else {
                            total - asks_eligible_total(self.asks@.skip(i as int), price_limit)
                        }),
                        total == asks_eligible_total(self.asks@, price_limit),
                    ensures
                        matched == (if quantity <= total {
                            quantity as int
                        } else {
                            total
                        }),
                    decreases self.asks@.len() - i,
                {
                    let ghost rest = self.asks@.skip(i as int);
                    proof {
                        assert(rest[0] == self.asks@[i as int]);
                        assert(rest.drop_first() =~= self.asks@.skip(i as int + 1));
                        lemma_asks_eligible_nonneg(self.asks@.skip(i as int + 1), price_limit);
                        lemma_asks_eligible_nonneg(rest, price_limit);
                    }
                    if matched >= quantity {
                        proof {
                            assert(matched == quantity);
                        }
                        break ;
                    }
                    let lvl_price = self.asks[i].price;
                    match price_limit {
                        Some(limit) => {
                            if lvl_price > limit {
                                proof {
                                    assert forall|j: int|
                                        0 <= j < rest.len() implies (#[trigger] rest[j]).price
                                        > limit by {
                                        assert(rest[j] == self.asks@[i + j]);
                                        if j > 0 {
                                            assert(self.asks@[i as int].price < self.asks@[i
                                                + j].price);
                                        }
                                    }
                                    lemma_asks_eligible_zero(rest, price_limit);
                                }
                                break ;
                            }
                        },
                        None => {},
                    }
                    let available = self.asks[i].total_quantity();
                    let needed = quantity - matched;
                    let to_match = if needed <= available {
                        needed
                    } else {
                        available
                    };
                    matched = matched + to_match;
                    i = i + 1;
                }
                proof {
                    if i == self.asks@.len() {
                        assert(self.asks@.skip(i as int) =~= Seq::<PriceLevel>::empty());
                    }
                }
            },
            Side::Sell => {
                let ghost total = bids_eligible_total(self.bids@, price_limit);
                let mut j: usize = self.bids.len();
                proof {
                    assert(self.bids@.skip(self.bids@.len() as int) =~= Seq::<
                        PriceLevel,
                    >::empty());
                    assert(self.bids@.skip(0) =~= self.bids@);
                    lemma_bids_eligible_nonneg(self.bids@, price_limit);
                }
                while j > 0
                    invariant
                        book_wf(*self),
                        0 <= j <= self.bids@.len(),
                        bids_eligible_total(self.bids@.skip(0), price_limit) == total,
                        matched <= quantity,
                        matched == (if quantity <= bids_eligible_total(
                            self.bids@.skip(j as int),
                            price_limit,
                        ) {
                            quantity as int
                        } else {
                            bids_eligible_total(self.bids@.skip(j as int), price_limit)
                        }),
                        total == bids_eligible_total(self.bids@, price_limit),
                    ensures
                        matched == (if quantity <= total {
                            quantity as int
                        } else {
                            total
                        }),
                    decreases j,
                {
                    let ghost rest = self.bids@.skip(j as int - 1);
                    proof {
                        assert(rest[0] == self.bids@[j as int - 1]);
                        assert(rest.drop_first() =~= self.bids@.skip(j as int));
                        lemma_bids_eligible_nonneg(self.bids@.skip(j as int), price_limit);
                        lemma_bids_eligible_nonneg(rest, price_limit);
                    }
                    if matched >= quantity {
                        proof {
                            assert(matched == quantity);
                            lemma_bids_eligible_split(self.bids@, j as int, price_limit);
                            lemma_bids_eligible_nonneg(self.bids@.take(j as int), price_limit);
                        }
                        break ;
                    }
                    let lvl_price = self.bids[j - 1].price;
                    match price_limit {
                        Some(limit) => {
                            if lvl_price < limit {
                                proof {
                                    let front = self.bids@.take(j as int);
                                    assert(forall|jj: int|
                                        0 <= jj < front.len() ==> #[trigger] front[jj]
                                            == self.bids@[jj]);
                                    assert forall|jj: int|
                                        0 <= jj < front.len() implies (#[trigger] front[jj]).price
                                        < limit by {
                                        if jj < j - 1 {
                                            assert(self.bids@[jj].price < self.bids@[j as int
                                                - 1].price);
                                        }
                                    }
                                    lemma_bids_eligible_zero(front, price_limit);
                                    lemma_bids_eligible_split(self.bids@, j as int, price_limit);
                                    assert(total == bids_eligible_total(
                                        self.bids@.skip(j as int),
                                        price_limit,
                                    ));
                                }
                                break ;
                            }
                        },
                        None => {},
                    }
                    let available = self.bids[j - 1].total_quantity();
                    let needed = quantity - matched;
                    let to_match = if needed <= available {
                        needed
                    } else {
                        available
                    };
                    matched = matched + to_match;
                    j = j - 1;
                }
                proof {
                    if j == 0 {
                        assert(self.bids@.skip(0) =~= self.bids@);
                    }
                }
            },
        }
        matched
    }

    /// Matches a run of orders one after the other, in the order given;
    /// each entry's result is its own `match_order` outcome against the book
    /// as the earlier entries left it.
    pub fn match_orders_batch(&mut self, orders: &Vec<(u64, Side, u64, Option<u64>)>) -> (r: Vec<
        Result<MatchResult, OrderBookError>,
    >)
        requires
            book_wf(*old(self)),
        ensures
            book_wf(*final(self)),
            r@.len() == orders@.len(),
            forall|i: int|
                0 <= i < r@.len() ==> match (#[trigger] r@[i]) {
                    Ok(res) => {
                        &&& res.order_id == orders@[i].0
                        &&& res.remaining_quantity <= orders@[i].2
                        &&& txn_quantity_sum(res.transactions@) == orders@[i].2
                            - res.remaining_quantity
                        &&& res.is_complete == (res.remaining_quantity == 0)
                    },
                    Err(e) => e is InsufficientLiquidity && orders@[i].3 is None,
                },
    {
        let mut results: Vec<Result<MatchResult, OrderBookError>> = Vec::new();
        let mut i: usize = 0;
        while i < orders.len()
            invariant
                book_wf(*self),
                0 <= i <= orders@.len(),
                results@.len() == i,
                forall|j: int|
                    0 <= j < i ==> match (#[trigger] results@[j]) {
                        Ok(res) => {
                            &&& res.order_id == orders@[j].0
                            &&& res.remaining_quantity <= orders@[j].2
                            &&& txn_quantity_sum(res.transactions@) == orders@[j].2
                                - res.remaining_quantity
                            &&& res.is_complete == (res.remaining_quantity == 0)
                        },
                        Err(e) => e is InsufficientLiquidity && orders@[j].3 is None,
                    },
            decreases orders@.len() - i,
        {
            let (order_id, side, quantity, limit_price) = orders[i];
            let result = self.match_order(order_id, side, quantity, limit_price);
            results.push(result);
            i = i + 1;
        }
        results
    }
}

} // verus!
