//! Range-based set reconciliation: two parties holding sets of timestamped
//! identifiers find out, in a few rounds of messages, which identifiers each
//! one is missing.

mod bytes;
pub mod encoding;
mod engine;
mod error;
pub mod hex;
mod types;

pub use bytes::Bytes;
pub use engine::{binary_search_upper_bound, Negentropy};
pub use error::Error;
pub use types::{get_minimal_bound, item_less, Bound, Fingerprint, Item, Mode};
