//! Build-time flattener and checker for WGSL shader sources.
//!
//! The library expands textual inclusion directives found in a shader file
//! into one flattened text, detects cyclic inclusion graphs, reports the
//! full set of contributing files, and hands the flattened text to the WGSL
//! front end and validator of the `naga` crate.
pub mod bytes;
pub mod laws;
pub mod model;
pub mod resolve;
pub mod tree;
pub mod validate;
