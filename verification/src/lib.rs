//! Keyset pagination over a filtered, ordered record table.
//!
//! The crate models the read side of a record listing endpoint: a table of
//! records with strictly increasing integer keys, caller-supplied filter
//! predicates, and a cursor-driven pagination engine that slices the filtered
//! set into pages and computes `first`/`last`/`next`/`prev` navigation links.

pub mod engine;
pub mod laws;
pub mod record;
pub mod select;
pub mod table;

pub use engine::{handle_request, page, page_at, restrict_to_visible, validate};
pub use engine::{Page, PageConfig, PaginationError};
pub use record::{Filter, Record, RecordStatus};
pub use select::Bound;
pub use table::Table;
