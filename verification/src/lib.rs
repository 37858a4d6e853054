//! Ordered associative containers backed by a single contiguous, sorted array.
//!
//! The crate offers three variants that share one algorithmic core (sorted
//! construction with last-duplicate-wins, binary-search lookup, and ordered
//! range extraction):
//!
//! - [`FlatMap`]: a mutable ordered map with an O(1) fast path for inserting
//!   or removing the current maximum key and an O(n) general path.
//! - [`FrozenFlatMap`]: an immutable ordered map built once, offering only the
//!   read side of the map contract.
//! - [`FlatSet`]: an ordered set, a thin wrapper over a map with a zero-size
//!   marker value.
//!
//! Keys must carry a strict total order, supplied through the [`TotalOrder`]
//! trait. Every container maintains the invariant that its backing sequence is
//! strictly ascending by key, and every operation is specified against a
//! mathematical `Map` view of that sequence.

pub mod entries;
pub mod flat_map;
pub mod flat_set;
pub mod frozen_flat_map;
pub mod order;

pub use entries::Bound;
pub use flat_map::FlatMap;
pub use flat_set::FlatSet;
pub use frozen_flat_map::FrozenFlatMap;
pub use order::KeyOrder;
pub use order::TotalOrder;
