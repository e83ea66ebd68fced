//! Lazy enumeration of the `k`-element combinations of a borrowed sequence,
//! in ascending lexicographic order of their position tuples.

pub mod tuples;
pub mod combinator;
pub mod ranking;

pub use combinator::combinations;
pub use combinator::CombinationIter;
pub use combinator::Combinator;
