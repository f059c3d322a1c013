//! A fixed-capacity, open-addressed hash table from strings to integers that
//! keeps its entries in the order in which their keys first arrived.
//!
//! The order is an intrusive doubly-linked chain threaded through the table's
//! own slots; probing is linear, and removed slots leave tombstones so that
//! displaced keys stay reachable.

pub mod hashing;
pub mod laws;
pub mod model;
pub mod probing;
pub mod table;
pub mod words;

pub use crate::table::HashMap;
pub use crate::table::MapItem;
pub use crate::table::TableError;
