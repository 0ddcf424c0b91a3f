//! A verified note store: a collection of short text notes with stable
//! integer identifiers, first-in first-out reuse of freed identifiers,
//! tagging, case-insensitive keyword search, and stable sorting.
//!
//! The store itself lives here with full contracts; reading and writing
//! the backing file, the clock, and table rendering are left to callers.

pub mod note;
pub mod order;
pub mod search;
pub mod sort;
pub mod store;
