//! A configurator engine: a catalog of items partitioned into families,
//! narrowed by exclusion and inclusion rules, answering combination and
//! option queries over the set of valid outfits.

pub mod catalog;
pub mod catalog_builder;
pub mod forest;
pub mod inner;
pub mod order;
pub mod types;
pub mod validation;
