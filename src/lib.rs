//! Normalisation of import declarations: insertion, grouping into shared-prefix
//! trees, canonical ordering, and collection of suggested imports.
pub mod collect;
pub mod group;
pub mod module;
pub mod order;
pub mod sort;
pub mod text;
pub mod tree;
