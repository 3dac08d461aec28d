//! A price-level order ladder.
//!
//! The ladder keeps price levels strictly sorted by price, descending, with
//! at most one level per price. Each level holds a queue of entries; an entry
//! is a quantity together with an opaque payload that is carried through
//! untouched. Two operations mutate the ladder: `add` inserts an entry at its
//! price, creating the level when absent, and `split` consumes a requested
//! quantity from the low-price end, up to a price ceiling, returning the
//! consumed entries as a ladder of their own.

pub mod model;
pub mod ladder;
pub mod laws;

pub use ladder::List;
pub use ladder::Price;
pub use ladder::Size;
pub use ladder::Meta;
pub use ladder::Order;
pub use ladder::Orders;
