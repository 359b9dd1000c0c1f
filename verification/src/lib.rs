//! Bounded-memory approximate histograms over a stream of weighted integer
//! observations.
//!
//! A histogram keeps at most a fixed number of bins. Each bin covers an
//! interval of values and carries the total weight and the weighted sum of the
//! observations it has absorbed. When an observation opens a bin beyond the
//! budget, the two neighbouring bins with the smallest gap between them are
//! merged, one pair at a time, until the budget is met again. Of two gaps of
//! the same size the one further to the left is closed first. A histogram
//! with a budget of zero bins retains nothing.
//!
//! Two histograms are merged by bringing all bins of both into ascending
//! order and enforcing the budget on the result.
//!
//! Values are `i32`, weights are `u64` and weighted sums are `i128`; callers
//! with fractional data scale it to fixed point first.
//!
//! Two strategies implement the same behaviour: [`SimpleVecHistogram`] rescans
//! all gaps for every merge, [`Histogram`] keeps the gaps in an ordered index.

pub mod adjacency;
mod arena;
pub mod bin;
pub mod bin_distance;
pub mod bin_sequence;
pub mod d2tree_v2;
pub mod distance_index;
pub mod median;
pub mod merging;
mod order;
pub mod simple_vec_histogram;
pub mod traits;

pub use bin::Bin;
pub use bin_distance::BinDistance;
pub use d2tree_v2::Histogram;
pub use simple_vec_histogram::SimpleVecHistogram;
