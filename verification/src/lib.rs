//! Structural editing of TOML-shaped documents addressed by slash-delimited
//! paths: adding, removing and reading values driven by JSON-encoded
//! operation descriptions.
//!
//! The document is modelled as a tree of the five TOML node shapes (block
//! table, inline table, array, array of tables, scalar value) plus an
//! explicit absent marker. All path resolution and mutation logic operates
//! on this model and is verified; parsing and printing of concrete TOML
//! text is left to the surrounding application.

#![verifier::loop_isolation(false)]

pub mod adder;
pub mod batch;
pub mod converter;
pub mod field_finder;
pub mod json;
pub mod laws;
pub mod model;
pub mod paths;
pub mod remover;
pub mod table_header_adder;
pub mod traversal;
