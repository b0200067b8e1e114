//! A library behind a desktop search provider for JetBrains IDEs.
//!
//! It exposes recently used projects of a family of JetBrains products as
//! searchable items: a resolver that picks the configuration directory of the
//! newest installed product version, a reader for the product's recent
//! projects record, a matching engine that filters items by free-text terms,
//! and the provider state machine behind the five-call search protocol.

pub mod matching;
pub mod provider;
pub mod record;
pub mod registry;
pub mod text;
pub mod version;
pub mod xml;

pub use matching::find_matching_projects;
pub use matching::RecentItem;
