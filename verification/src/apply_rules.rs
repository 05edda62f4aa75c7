//! Consolidation of reference entities under regroup rules.

pub mod json;
pub mod reference_index;
pub mod pass_model;
pub mod object_rule;
pub mod laws;
