use vstd::prelude::*;
use crate::sums::{lemma_txn_quantity_sum_nonneg, txn_quantity_sum};
use crate::types::Side;

verus! {

/// One fill between a resting maker and an incoming taker.
#[derive(Clone, Copy, Debug, PartialEq, Eq, Structural)]
pub struct TransactionInfo {
    /// The price at which the transaction occurred.
    pub price: u64,
    /// The quantity traded in this transaction.
    pub quantity: u64,
    /// Identifier drawn from the book's per-book counter.
    pub transaction_id: u64,
    /// Order id of the maker (resting) side.
    pub maker_order_id: u64,
    /// Order id of the taker (incoming) side.
    pub taker_order_id: u64,
}

/// The outcome of matching one incoming order against the book.
pub struct MatchResult {
    /// The incoming (taker) order's id.
    pub order_id: u64,
    /// Every fill, in the order it occurred.
    pub transactions: Vec<TransactionInfo>,
    /// Ids of resting orders that left the book during this match.
    pub filled_order_ids: Vec<u64>,
    /// What is left of the incoming quantity.
    pub remaining_quantity: u64,
    /// Whether the incoming quantity was fully matched.
    pub is_complete: bool,
}

impl MatchResult {
    /// An empty result for an incoming order of `quantity`, before matching.
    pub fn new(order_id: u64, quantity: u64) -> (r: MatchResult)
        ensures
            r.order_id == order_id,
            r.transactions@ =~= Seq::<TransactionInfo>::empty(),
            r.filled_order_ids@ =~= Seq::<u64>::empty(),
            r.remaining_quantity == quantity,
            !r.is_complete,
    {
        MatchResult {
            order_id,
            transactions: Vec::new(),
            filled_order_ids: Vec::new(),
            remaining_quantity: quantity,
            is_complete: false,
        }
    }

    /// The total quantity the taker traded, summed over the transactions.
    pub fn executed_quantity(&self) -> (r: u64)
        requires
            txn_quantity_sum(self.transactions@) <= u64::MAX,
        ensures
            r as int == txn_quantity_sum(self.transactions@),
    {
        let mut total: u64 = 0;
        let mut i: usize = 0;
        proof {
            assert(self.transactions@.skip(0) =~= self.transactions@);
            lemma_txn_quantity_sum_nonneg(self.transactions@);
        }
        while i < self.transactions.len()
            invariant
                0 <= i <= self.transactions.len(),
                total as int + txn_quantity_sum(self.transactions@.skip(i as int))
                    == txn_quantity_sum(self.transactions@),
                txn_quantity_sum(self.transactions@) <= u64::MAX,
                total as int <= txn_quantity_sum(self.transactions@),
            decreases self.transactions.len() - i,
        {
            proof {
                let rest = self.transactions@.skip(i as int);
                assert(rest[0] == self.transactions@[i as int]);
                assert(rest.drop_first() =~= self.transactions@.skip(i as int + 1));
                lemma_txn_quantity_sum_nonneg(self.transactions@.skip(i as int + 1));
            }
            total = total + self.transactions[i].quantity;
            i = i + 1;
        }
        proof {
            assert(self.transactions@.skip(self.transactions@.len() as int)
                =~= Seq::<TransactionInfo>::empty());
        }
        total
    }
}

/// A match result tagged with the instrument it belongs to, as handed to the
/// trade listener.
pub struct TradeResult {
    /// The instrument this trade result belongs to.
    pub symbol: String,
    /// The underlying match result.
    pub match_result: MatchResult,
}

impl TradeResult {
    /// Create a new TradeResult.
    pub fn new(symbol: String, match_result: MatchResult) -> (r: TradeResult)
        ensures
            r.symbol == symbol,
            r.match_result == match_result,
    {
        TradeResult { symbol, match_result }
    }
}

/// A trade event with delivery metadata.
pub struct TradeEvent {
    /// The instrument for this event.
    pub symbol: String,
    /// The trade result containing match details.
    pub trade_result: TradeResult,
    /// Wall-clock milliseconds when the trade occurred.
    pub timestamp: u64,
}

/// A digest of one trade, kept for later display.
pub struct TradeInfo {
    /// The instrument.
    pub symbol: String,
    /// The taker order's id.
    pub order_id: u64,
    /// Total quantity executed in this trade.
    pub executed_quantity: u64,
    /// Remaining quantity not yet filled.
    pub remaining_quantity: u64,
    /// Whether the order was completely filled.
    pub is_complete: bool,
    /// Number of individual transactions that occurred.
    pub transaction_count: usize,
    /// The transactions themselves.
    pub transactions: Vec<TransactionInfo>,
}

/// Event data for a change of one side's aggregate visible quantity at a
/// price, sent after every mutation that affects it; `quantity` is the
/// post-mutation visible total at that price.
#[derive(Clone, Copy, Debug, PartialEq, Eq, Structural)]
pub struct PriceLevelChangedEvent {
    /// The side of the changed price level.
    pub side: Side,
    /// The price of the changed level.
    pub price: u64,
    /// The latest visible quantity at this price level.
    pub quantity: u64,
}

} // verus!
