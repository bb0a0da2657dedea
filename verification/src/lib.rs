//! Depth-limited recursive listing over a flat, slash-delimited object
//! namespace.
//!
//! An object store exposes a one-level listing primitive: for a prefix it
//! returns the immediate child objects and the immediate child "directories"
//! (common prefixes), never anything deeper. This crate expands such listings
//! to a chosen depth: `expand::list_with_depth` descends `depth` levels of
//! common prefixes and returns exactly the objects and common prefixes found
//! at that terminal level, discarding everything discovered at intermediate
//! levels.
//!
//! The backend is anything implementing `lister::OneLevelLister`; the crate
//! ships a verified in-memory one in `memory`. The laws the expansion obeys
//! are stated and proved in `laws`.

pub mod path;
pub mod model;
pub mod listing;
pub mod lister;
pub mod memory;
pub mod expand;
pub mod laws;

pub use path::Path;
pub use listing::{ObjectEntry, ListingResult, ListError, ExpandError};
pub use lister::OneLevelLister;
pub use memory::InMemoryNamespace;
pub use expand::list_with_depth;
