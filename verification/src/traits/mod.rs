//! The interfaces that the histograms of this crate share.

pub mod dynamic_histogram;
pub mod histogram_bin;
pub mod operations;

pub use self::dynamic_histogram::DynamicHistogram;
pub use self::histogram_bin::HistogramBin;
pub use self::operations::EmptyClone;
pub use self::operations::Median;
pub use self::operations::Merge;
pub use self::operations::MergeIter;
pub use self::operations::MergeRef;
