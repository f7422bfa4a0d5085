//! Reducing a kernel configuration by what was observed of its use.
pub mod dotconfig;
pub mod dotconfig_laws;
pub mod reduce;
pub mod reduce_laws;
pub mod report;
pub mod report_laws;
pub mod variants;
pub mod variants_laws;
pub mod plan;
pub mod compare;
pub mod selftest;
pub mod snapshots;
