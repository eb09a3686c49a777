//! An in-memory key-value store with optional per-key time-to-live
//! expiration.
//!
//! Writers stage insertions and deletions behind an exclusive handle; a
//! reclamation pass drains the staged operations into an expiration index,
//! evicts the keys whose expiry has passed, and only then publishes the
//! accumulated changes to readers. Readers observe published state alone.

mod clock;
pub mod model;
pub mod store;
pub mod ttl_index;

pub use store::KeyType;
pub use store::ModelError;
pub use store::Op;
pub use store::Store;
pub use store::StoredValue;
