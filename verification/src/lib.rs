//! A generic n-ary tree kept in an arena.
//!
//! Records live in a [`Forest`]; a [`Node`] is a handle to one record.  Within one
//! tree no two records hold equal values, and a record never becomes its own
//! ancestor.  Every operation states its effect over [`Shape`], the mathematical
//! picture of the forest.

pub mod attach;
pub mod base;
pub mod cascade;
pub mod distinct;
pub mod forest;
pub mod graft;
pub mod laws;
pub mod lookup;
pub mod node;
pub mod ops;
pub mod reclaim;
pub mod release;
pub mod search;
pub mod sever;
pub mod shape;
pub mod walk;

pub use base::RawNode;
pub use forest::Forest;
pub use node::Node;
pub use shape::Record;
pub use shape::Shape;
