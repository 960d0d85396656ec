//! Two small comparison sorts for slices: a stable merge sort and an in-place heap sort.
//!
//! Both run in O(n log n) comparisons whatever the input holds and never look for order that is
//! already there.
pub mod order;
pub mod stable;
pub mod unstable;
