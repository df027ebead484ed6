//! Selecting parts of YAML documents by dotted key paths.

pub mod branch_selection;
pub mod config;
pub mod filter_laws;
pub mod numerals;
pub mod output;
pub mod yaml_parsing;
