use vstd::prelude::*;
use crate::types::{Side, TimeInForce};

verus! {

/// What a pegged order's price is tied to.
#[derive(Clone, Copy, Debug, PartialEq, Eq, Structural)]
pub enum PegReferenceType {
    BestBid,
    BestAsk,
    MidPrice,
    LastTrade,
}

/// The variant-specific part of an order.
#[derive(Clone, Copy, Debug, PartialEq, Eq, Structural)]
pub enum OrderKind {
    /// Plain limit order.
    Standard { quantity: u64 },
    /// Shows a visible tranche and refreshes it from a hidden reserve when the
    /// visible part is fully consumed; each tranche mirrors the current
    /// visible size.
    Iceberg { visible_quantity: u64, hidden_quantity: u64 },
    /// Must not cross on entry.
    PostOnly { quantity: u64 },
    /// Stop order trailing a reference price; rests like a standard order.
    TrailingStop { quantity: u64, trail_amount: u64, last_reference_price: u64 },
    /// Order pegged to a reference price; rests like a standard order.
    Pegged { quantity: u64, reference_offset: i64, reference_type: PegReferenceType },
    /// Market on entry, resting remainder at the execution price.
    MarketToLimit { quantity: u64 },
    /// Shows a visible tranche and, when the visible part falls to or below
    /// `replenish_threshold` and `auto_replenish` is set, tops it up by
    /// `min(replenish_amount, hidden_quantity)`.
    Reserve {
        visible_quantity: u64,
        hidden_quantity: u64,
        replenish_threshold: u64,
        replenish_amount: u64,
        auto_replenish: bool,
    },
}

/// One order, resting or incoming. Every variant carries the common fields;
/// the variant-specific quantities live in `kind`.
#[derive(Clone, Copy, Debug, PartialEq, Eq, Structural)]
pub struct Order {
    pub id: u64,
    pub price: u64,
    pub side: Side,
    pub timestamp_ms: u64,
    pub time_in_force: TimeInForce,
    pub kind: OrderKind,
}

impl Order {
    /// The quantity this order currently exposes to matching.
    pub open spec fn spec_visible(self) -> u64 {
        match self.kind {
            OrderKind::Standard { quantity } => quantity,
            OrderKind::Iceberg { visible_quantity, .. } => visible_quantity,
            OrderKind::PostOnly { quantity } => quantity,
            OrderKind::TrailingStop { quantity, .. } => quantity,
            OrderKind::Pegged { quantity, .. } => quantity,
            OrderKind::MarketToLimit { quantity } => quantity,
            OrderKind::Reserve { visible_quantity, .. } => visible_quantity,
        }
    }

    /// The quantity this order holds back from matching until promoted.
    pub open spec fn spec_hidden(self) -> u64 {
        match self.kind {
            OrderKind::Iceberg { hidden_quantity, .. } => hidden_quantity,
            OrderKind::Reserve { hidden_quantity, .. } => hidden_quantity,
            _ => 0,
        }
    }

    #[verifier::when_used_as_spec(spec_visible)]
    pub fn visible_quantity(self) -> (r: u64)
        ensures
            r == self.spec_visible(),
    {
        match self.kind {
            OrderKind::Standard { quantity } => quantity,
            OrderKind::Iceberg { visible_quantity, .. } => visible_quantity,
            OrderKind::PostOnly { quantity } => quantity,
            OrderKind::TrailingStop { quantity, .. } => quantity,
            OrderKind::Pegged { quantity, .. } => quantity,
            OrderKind::MarketToLimit { quantity } => quantity,
            OrderKind::Reserve { visible_quantity, .. } => visible_quantity,
        }
    }

    #[verifier::when_used_as_spec(spec_hidden)]
    pub fn hidden_quantity(self) -> (r: u64)
        ensures
            r == self.spec_hidden(),
    {
        match self.kind {
            OrderKind::Iceberg { hidden_quantity, .. } => hidden_quantity,
            OrderKind::Reserve { hidden_quantity, .. } => hidden_quantity,
            _ => 0,
        }
    }

    /// Whether this order may never cross on entry.
    pub open spec fn spec_is_post_only(self) -> bool {
        self.kind is PostOnly
    }

    #[verifier::when_used_as_spec(spec_is_post_only)]
    pub fn is_post_only(self) -> (r: bool)
        ensures
            r == self.spec_is_post_only(),
    {
        matches!(self.kind, OrderKind::PostOnly { .. })
    }
}

impl Order {
    /// The quantity matching can ever extract from this order: its visible
    /// part, plus its hidden part when the variant's replenishment rule will
    /// keep promoting it (an iceberg always does; a reserve only with
    /// `auto_replenish` set and a positive `replenish_amount`). Hidden
    /// quantity of a non-replenishing order is forfeited when its visible
    /// part is consumed.
    pub open spec fn spec_drawable(self) -> int {
        self.spec_visible() + (match self.kind {
            OrderKind::Iceberg { hidden_quantity, .. } => hidden_quantity as int,
            OrderKind::Reserve { hidden_quantity, replenish_amount, auto_replenish, .. } => {
                if auto_replenish && replenish_amount > 0 {
                    hidden_quantity as int
                } else {
                    0
                }
            },
            _ => 0,
        })
    }
}

/// What the book requires of any resting order: a strictly positive price,
/// something visible to match, and a total quantity that fits in 64 bits.
pub open spec fn order_wf(o: Order) -> bool {
    &&& o.price > 0
    &&& o.spec_visible() > 0
    &&& o.spec_visible() + o.spec_hidden() <= u64::MAX
}

/// What becomes of the order at the front of a level after it is hit.
#[derive(Clone, Copy, Debug, PartialEq, Eq, Structural)]
pub enum FillOutcome {
    /// Partially filled without drawing hidden quantity: keeps its place.
    Resting(Order),
    /// Replenished from its hidden reserve: re-enters at the level's tail,
    /// losing time priority.
    Requeued(Order),
    /// Fully consumed, or removed with its undrawn hidden quantity.
    Gone,
}

pub open spec fn min_u64(a: u64, b: u64) -> u64 {
    if a <= b { a } else { b }
}

/// The variant-specific reduction of the visible part by `take`, for a
/// partial fill that draws no hidden quantity. `take` must be below the
/// current visible quantity.
pub open spec fn spec_reduce_visible(k: OrderKind, take: u64) -> OrderKind {
    match k {
        OrderKind::Standard { quantity } => OrderKind::Standard {
            quantity: (quantity - take) as u64,
        },
        OrderKind::Iceberg { visible_quantity, hidden_quantity } => OrderKind::Iceberg {
            visible_quantity: (visible_quantity - take) as u64,
            hidden_quantity,
        },
        OrderKind::PostOnly { quantity } => OrderKind::PostOnly {
            quantity: (quantity - take) as u64,
        },
        OrderKind::TrailingStop { quantity, trail_amount, last_reference_price } => {
            OrderKind::TrailingStop {
                quantity: (quantity - take) as u64,
                trail_amount,
                last_reference_price,
            }
        },
        OrderKind::Pegged { quantity, reference_offset, reference_type } => OrderKind::Pegged {
            quantity: (quantity - take) as u64,
            reference_offset,
            reference_type,
        },
        OrderKind::MarketToLimit { quantity } => OrderKind::MarketToLimit {
            quantity: (quantity - take) as u64,
        },
        OrderKind::Reserve {
            visible_quantity,
            hidden_quantity,
            replenish_threshold,
            replenish_amount,
            auto_replenish,
        } => OrderKind::Reserve {
            visible_quantity: (visible_quantity - take) as u64,
            hidden_quantity,
            replenish_threshold,
            replenish_amount,
            auto_replenish,
        },
    }
}

/// The fill step at the front of a level: how much of `qty` the order at the
/// front absorbs, and what becomes of that order. This is the definitional
/// semantics of one match step, per variant:
///
/// - every variant first gives up `min(visible, qty)`;
/// - a partial fill reduces the visible part in place, except that a reserve
///   order whose visible part falls to or below its threshold (with
///   `auto_replenish` set) tops up from hidden and re-queues at the tail;
/// - a fully consumed iceberg with hidden quantity left refreshes a tranche of
///   its prior visible size and re-queues at the tail;
/// - a fully consumed reserve with `auto_replenish` and hidden quantity left
///   refreshes `min(replenish_amount, hidden)` and re-queues at the tail;
/// - anything else fully consumed leaves the level, taking any undrawn hidden
///   quantity with it.
pub open spec fn spec_fill(o: Order, qty: u64) -> (u64, FillOutcome) {
    let v = o.spec_visible();
    if qty < v {
        // Partial fill of the visible tranche.
        match o.kind {
            OrderKind::Reserve {
                visible_quantity,
                hidden_quantity,
                replenish_threshold,
                replenish_amount,
                auto_replenish,
            } => {
                let reduced = (visible_quantity - qty) as u64;
                let top_up = min_u64(replenish_amount, hidden_quantity);
                if auto_replenish && reduced <= replenish_threshold && top_up > 0 {
                    (
                        qty,
                        FillOutcome::Requeued(
                            Order {
                                kind: OrderKind::Reserve {
                                    visible_quantity: (reduced + top_up) as u64,
                                    hidden_quantity: (hidden_quantity - top_up) as u64,
                                    replenish_threshold,
                                    replenish_amount,
                                    auto_replenish,
                                },
                                ..o
                            },
                        ),
                    )
                } else {
                    (qty, FillOutcome::Resting(Order { kind: spec_reduce_visible(o.kind, qty), ..o }))
                }
            },
            _ => (qty, FillOutcome::Resting(Order { kind: spec_reduce_visible(o.kind, qty), ..o })),
        }
    } else {
        // The whole visible tranche is consumed.
        match o.kind {
            OrderKind::Iceberg { visible_quantity, hidden_quantity } => {
                if hidden_quantity > 0 {
                    let tranche = min_u64(hidden_quantity, visible_quantity);
                    (
                        v,
                        FillOutcome::Requeued(
                            Order {
                                kind: OrderKind::Iceberg {
                                    visible_quantity: tranche,
                                    hidden_quantity: (hidden_quantity - tranche) as u64,
                                },
                                ..o
                            },
                        ),
                    )
                } else {
                    (v, FillOutcome::Gone)
                }
            },
            OrderKind::Reserve {
                visible_quantity,
                hidden_quantity,
                replenish_threshold,
                replenish_amount,
                auto_replenish,
            } => {
                let top_up = min_u64(replenish_amount, hidden_quantity);
                if auto_replenish && top_up > 0 {
                    (
                        v,
                        FillOutcome::Requeued(
                            Order {
                                kind: OrderKind::Reserve {
                                    visible_quantity: top_up,
                                    hidden_quantity: (hidden_quantity - top_up) as u64,
                                    replenish_threshold,
                                    replenish_amount,
                                    auto_replenish,
                                },
                                ..o
                            },
                        ),
                    )
                } else {
                    (v, FillOutcome::Gone)
                }
            },
            _ => (v, FillOutcome::Gone),
        }
    }
}

/// Executable mirror of `spec_fill`.
pub fn consume_front(o: &Order, qty: u64) -> (r: (u64, FillOutcome))
    requires
        order_wf(*o),
        qty > 0,
    ensures
        r == spec_fill(*o, qty),
{
    let v = o.visible_quantity();
    if qty < v {
        match o.kind {
            OrderKind::Reserve {
                visible_quantity,
                hidden_quantity,
                replenish_threshold,
                replenish_amount,
                auto_replenish,
            } => {
                let reduced = visible_quantity - qty;
                let top_up = if replenish_amount <= hidden_quantity {
                    replenish_amount
                } else {
                    hidden_quantity
                };
                if auto_replenish && reduced <= replenish_threshold && top_up > 0 {
                    (
                        qty,
                        FillOutcome::Requeued(
                            Order {
                                kind: OrderKind::Reserve {
                                    visible_quantity: reduced + top_up,
                                    hidden_quantity: hidden_quantity - top_up,
                                    replenish_threshold,
                                    replenish_amount,
                                    auto_replenish,
                                },
                                ..*o
                            },
                        ),
                    )
                } else {
                    (
                        qty,
                        FillOutcome::Resting(
                            Order {
                                kind: OrderKind::Reserve {
                                    visible_quantity: reduced,
                                    hidden_quantity,
                                    replenish_threshold,
                                    replenish_amount,
                                    auto_replenish,
                                },
                                ..*o
                            },
                        ),
                    )
                }
            },
            OrderKind::Standard { quantity } => (
                qty,
                FillOutcome::Resting(
                    Order { kind: (OrderKind::Standard { quantity: quantity - qty }), ..*o },
                ),
            ),
            OrderKind::Iceberg { visible_quantity, hidden_quantity } => (
                qty,
                FillOutcome::Resting(
                    Order {
                        kind: (OrderKind::Iceberg {
                            visible_quantity: visible_quantity - qty,
                            hidden_quantity,
                        }),
                        ..*o
                    },
                ),
            ),
            OrderKind::PostOnly { quantity } => (
                qty,
                FillOutcome::Resting(
                    Order { kind: (OrderKind::PostOnly { quantity: quantity - qty }), ..*o },
                ),
            ),
            OrderKind::TrailingStop { quantity, trail_amount, last_reference_price } => (
                qty,
                FillOutcome::Resting(
                    Order {
                        kind: (OrderKind::TrailingStop {
                            quantity: quantity - qty,
                            trail_amount,
                            last_reference_price,
                        }),
                        ..*o
                    },
                ),
            ),
            OrderKind::Pegged { quantity, reference_offset, reference_type } => (
                qty,
                FillOutcome::Resting(
                    Order {
                        kind: (OrderKind::Pegged {
                            quantity: quantity - qty,
                            reference_offset,
                            reference_type,
                        }),
                        ..*o
                    },
                ),
            ),
            OrderKind::MarketToLimit { quantity } => (
                qty,
                FillOutcome::Resting(
                    Order { kind: (OrderKind::MarketToLimit { quantity: quantity - qty }), ..*o },
                ),
            ),
        }
    } else {
        match o.kind {
            OrderKind::Iceberg { visible_quantity, hidden_quantity } => {
                if hidden_quantity > 0 {
                    let tranche = if hidden_quantity <= visible_quantity {
                        hidden_quantity
                    } else {
                        visible_quantity
                    };
                    (
                        v,
                        FillOutcome::Requeued(
                            Order {
                                kind: OrderKind::Iceberg {
                                    visible_quantity: tranche,
                                    hidden_quantity: hidden_quantity - tranche,
                                },
                                ..*o
                            },
                        ),
                    )
                } else {
                    (v, FillOutcome::Gone)
                }
            },
            OrderKind::Reserve {
                visible_quantity: _,
                hidden_quantity,
                replenish_threshold,
                replenish_amount,
                auto_replenish,
            } => {
                let top_up = if replenish_amount <= hidden_quantity {
                    replenish_amount
                } else {
                    hidden_quantity
                };
                if auto_replenish && top_up > 0 {
                    (
                        v,
                        FillOutcome::Requeued(
                            Order {
                                kind: OrderKind::Reserve {
                                    visible_quantity: top_up,
                                    hidden_quantity: hidden_quantity - top_up,
                                    replenish_threshold,
                                    replenish_amount,
                                    auto_replenish,
                                },
                                ..*o
                            },
                        ),
                    )
                } else {
                    (v, FillOutcome::Gone)
                }
            },
            _ => (v, FillOutcome::Gone),
        }
    }
}

/// The facts about one fill step that the level's matching loop rests on:
/// the step absorbs exactly `min(visible, qty)` and absorbs something; a
/// surviving order keeps its identity, price, side and policy, stays
/// well-formed, and its total quantity drops by exactly what was absorbed; an
/// order only leaves once its whole visible tranche is consumed.
pub proof fn lemma_fill_props(o: Order, qty: u64)
    requires
        order_wf(o),
        qty > 0,
    ensures
        spec_fill(o, qty).0 == min_u64(o.spec_visible(), qty),
        spec_fill(o, qty).0 > 0,
        match spec_fill(o, qty).1 {
            FillOutcome::Resting(o2) => {
                &&& o2.id == o.id
                &&& o2.price == o.price
                &&& o2.side == o.side
                &&& o2.time_in_force == o.time_in_force
                &&& o2.timestamp_ms == o.timestamp_ms
                &&& order_wf(o2)
                &&& o2.spec_visible() + o2.spec_hidden() == o.spec_visible() + o.spec_hidden()
                    - spec_fill(o, qty).0
                &&& o2.spec_drawable() == o.spec_drawable() - spec_fill(o, qty).0
                &&& qty < o.spec_visible()
            },
            FillOutcome::Requeued(o2) => {
                &&& o2.id == o.id
                &&& o2.price == o.price
                &&& o2.side == o.side
                &&& o2.time_in_force == o.time_in_force
                &&& o2.timestamp_ms == o.timestamp_ms
                &&& order_wf(o2)
                &&& o2.spec_visible() + o2.spec_hidden() == o.spec_visible() + o.spec_hidden()
                    - spec_fill(o, qty).0
                &&& o2.spec_drawable() == o.spec_drawable() - spec_fill(o, qty).0
            },
            FillOutcome::Gone => spec_fill(o, qty).0 == o.spec_visible() && spec_fill(o, qty).0
                == o.spec_drawable(),
        },
{
}

} // verus!
