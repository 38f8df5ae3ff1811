use vstd::prelude::*;
use crate::types::Side;

verus! {

/// Failures of a single price level's own operations.
#[derive(Clone, Copy, Debug, PartialEq, Eq, Structural)]
pub enum PriceLevelError {
    /// A quantity sum would not fit in 64 bits.
    ArithmeticOverflow,
    /// The order's visible quantity is zero, so it could never match.
    InvalidQuantity,
}

/// Errors that can occur within the order book.
#[derive(Clone, Copy, Debug, PartialEq, Eq, Structural)]
pub enum OrderBookError {
    /// Error from an underlying price-level operation.
    PriceLevelError(PriceLevelError),
    /// Order not found in the book.
    OrderNotFound(u64),
    /// Invalid price level (zero is the reserved sentinel).
    InvalidPriceLevel(u64),
    /// The entry would cross the opposite side of the book.
    PriceCrossing {
        /// Price that would cause the crossing.
        price: u64,
        /// Side of the entering order.
        side: Side,
        /// Best opposite price it would cross.
        opposite_price: u64,
    },
    /// A market order found nothing at all to match against.
    InsufficientLiquidity {
        /// Side of the market order.
        side: Side,
        /// Quantity requested.
        requested: u64,
        /// Quantity available.
        available: u64,
    },
    /// The operation is not permitted for the order's variant.
    InvalidOperation,
    /// A snapshot could not be decoded back into a book.
    DeserializationError,
    /// A snapshot's integrity check failed.
    ChecksumMismatch {
        /// Checksum stored in the snapshot.
        expected: u128,
        /// Checksum computed over the snapshot's bytes.
        actual: u128,
    },
}

} // verus!
