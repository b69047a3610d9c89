//! An in-memory associative container in which several distinct keys
//! ("aliases") resolve to one shared stored value, of which exactly one
//! physical copy is kept.
//!
//! The container keeps a key-to-slot index table together with a dense,
//! gap-free array of values; removing a value compacts the array by a
//! swap-remove and repairs the index table. Every public operation carries a
//! contract that pins down the resulting index table and value array, and the
//! well-formedness invariant relating the two is proved to be preserved by
//! every operation.

mod store;

pub use store::well_behaved_key;
pub use store::MultiKeyMap;
