use vstd::prelude::*;

verus! {

/// One bin of a depth-distribution analysis: a price range and the volume
/// resting within it.
#[derive(Clone, Copy, Debug, PartialEq, Eq, Structural)]
pub struct DistributionBin {
    /// Minimum price of this bin (inclusive, in price units).
    pub min_price: u64,
    /// Maximum price of this bin (exclusive, in price units).
    pub max_price: u64,
    /// Total volume in this price range (in units).
    pub volume: u64,
    /// Number of price levels in this bin.
    pub level_count: usize,
}

impl DistributionBin {
    /// The midpoint price of this bin, rounded down.
    pub fn midpoint(&self) -> (r: u64)
        ensures
            r == (self.min_price + self.max_price) / 2,
    {
        let half_min = self.min_price / 2;
        let half_max = self.max_price / 2;
        let carry = (self.min_price % 2 + self.max_price % 2) / 2;
        half_min + half_max + carry
    }

    /// The width of this bin in price units; zero for an inverted range.
    pub fn width(&self) -> (r: u64)
        ensures
            r == (if self.max_price >= self.min_price {
                self.max_price - self.min_price
            } else {
                0
            }),
    {
        if self.max_price >= self.min_price {
            self.max_price - self.min_price
        } else {
            0
        }
    }
}

} // verus!
