//! Typed settings values and a bidirectional migration engine for a
//! versioned, path-addressed settings document.

pub mod address;
pub mod bounded;
pub mod catalogue;
pub mod document;
pub mod engine;
pub mod error;
pub mod migration;
pub mod oci_defaults;
pub mod text;
pub mod values;
