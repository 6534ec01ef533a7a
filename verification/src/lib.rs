//! Command-resolution and fuzzy-search core of a chat assistant that answers
//! lookup requests against an external add-on catalog.
//!
//! The pipeline normalizes an incoming per-context command, canonicalizes the
//! heterogeneous records of a catalog search, and selects by fuzzy string
//! matching which record(s) to present. A per-context prefix store, persisted
//! as a flat JSON document, is consulted by every command resolution.

pub mod distance;
pub mod listing;
pub mod normalizer;
pub mod numeric;
pub mod orchestrator;
pub mod prefix_doc;
pub mod prefix_store;
pub mod records;
pub mod selector;
pub mod text;
pub mod version;
