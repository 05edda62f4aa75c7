//! Curation of public-transport datasets: consolidation of reference
//! entities under regroup rules, and import of a fare bundle with
//! validation of its cross-references.

pub mod apply_rules;
pub mod collection;
pub mod enrich_ntfs_with_farev2;
pub mod model;
pub mod objects;
pub mod report;
