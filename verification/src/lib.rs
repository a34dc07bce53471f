//! A price-keyed store of sized entries, with greedy consumption of the
//! cheapest entries under a combined price ceiling and size budget.
//!
//! The store maps an unsigned price to the sequence of entries resting
//! at that price, in insertion order.  `Container::process` walks the
//! levels strictly below a price ceiling in ascending price order and
//! removes every entry that still fits into a running size budget,
//! returning the removed entries as a new store of the same shape.

pub mod ext_map;
pub mod laws;
pub mod model;
pub mod store;

pub use store::Container;
pub use store::ContainerData;
pub use store::Meta;
pub use store::Price;
pub use store::Size;
