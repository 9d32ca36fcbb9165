//! A canonicalizer for TOML-style configuration trees: sorts table and
//! inline-table keys under configured priority lists without crossing
//! blank-line-delimited sections, normalizes scalar quoting and spacing,
//! and lays out arrays, while carrying every comment along.
//!
//! The document tree, the configuration and the formatting engine live in
//! this crate and are verified: every formatting function is proved to
//! return exactly the value of the spec-level transformation, and the
//! stated properties of that transformation — idempotence, section
//! isolation, comment anchoring, the quote-normalization rules — are
//! proved in `laws`.

pub mod config;
pub mod format;
pub mod laws;
pub mod model;
pub mod sorting;
pub mod text;
