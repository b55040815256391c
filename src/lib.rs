//! Picks the fastest known wireless network among those in range.
//!
//! The library holds the decisions: reading the network manager's two
//! listings, choosing the candidates that are both visible and known, and the
//! per-candidate benchmark state machine that keeps the best measurement.
//! Running the external tools is left to the caller.
pub mod bench;
pub mod listing;
pub mod select;
pub mod text;

pub use bench::{progress_bar, Benchmark, Step};
pub use listing::{parse_known_listing, parse_scan_listing, ListError};
pub use select::intersection;
