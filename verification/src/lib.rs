//! An ordered set-of-ranges algebra over `i64`.
//!
//! A [`RangeSet`] is a sorted, disjoint, maximally coalesced sequence of
//! [`Range`]s, each delimited by a lower and an upper [`Bound`] that may be
//! inclusive, exclusive or unbounded.  Every set operation is derived from two
//! primitives — merge-insert and complement — and each operation carries a
//! contract stated over a mathematical model of boundary positions.

pub mod bound;
pub mod internal;
pub mod laws;
pub mod model;
pub mod range;
pub mod set;

pub use bound::Bound;
pub use bound::BoundExt;
pub use bound::PositionalBound;
pub use range::Range;
pub use internal::LinearRangeAdder;
pub use set::RangeSet;
