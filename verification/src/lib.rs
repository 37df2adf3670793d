//! A statically validated translation schema, resolved from per-locale
//! documents.
//!
//! The pipeline ingests one raw value tree per locale — optionally grouped
//! into namespaces — and produces, for every translation key, the shape of
//! its value: plain text, parameterized text with typed arguments,
//! pluralized text, numeric-range dispatch, or a nested group of keys.
//! Along the way it inlines cross-key references (with cycle detection),
//! validates plural categories against per-locale rules and numeric range
//! bounds, and merges every locale against the default locale's
//! authoritative shape, collecting warnings for missing and surplus keys.
//! The resulting schema and the merged per-locale trees are what a code
//! generator consumes; reading documents from storage and generating code
//! stay outside this crate.

pub mod cfg_file;
pub mod error;
pub mod foreign_key;
pub mod key;
pub mod locale;
pub mod parse;
pub mod parsed_value;
pub mod pipeline;
pub mod plurals;
pub mod ranges;
pub mod raw;
pub mod render;
pub mod text;
