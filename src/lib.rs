//! Addressing, traversal, merging and sorting over JSON-like trees.
pub mod index;
pub mod iter;
pub mod laws;
pub mod merge;
pub mod number;
pub mod order;
pub mod sort;
pub mod value;

pub use index::{JsonIndex, Kind, Path, Path as IndexPath};
pub use iter::{Dfs, Iter, KeyValueIter, ParallelTraverser, Traverser, VisitWith, Visitor};
pub use merge::{MergeRule, NodeRule, RuleWith, UnionRule};
pub use order::{deep_equal, Ord as ValueOrd, PartialEqOrdered};
pub use sort::{DefaultOrder, KeyOrder, KeysBy, PathOrder, ValueOrder, ValuesBy};
pub use value::{Number, Value};
