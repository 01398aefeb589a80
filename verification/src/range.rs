//! Bounds, ranges and sets of ranges over byte-string keys.

pub mod bound;
pub mod join_laws;
pub mod order;
pub mod range_set;
pub mod span;

pub use self::bound::{Bound, HasPrefix, KeyOrBound};
pub use self::range_set::RangeSet;
pub use self::span::Range;
