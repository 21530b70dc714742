//! The fluent face of the engine: a builder that accumulates families and
//! single-condition rules call by call, and a catalog value that carries
//! its own selection history.

pub mod catalog;
pub mod catalog_builder;

pub use catalog::Catalog;
pub use catalog::CatalogError;
pub use catalog_builder::CatalogBuilder;
pub use catalog_builder::violates_exclusion_rule;
pub use catalog_builder::violates_inclusion_rule;
