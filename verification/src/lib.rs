//! Pick an SSH host alias from a client configuration file.
//!
//! The crate has two verified components, used in sequence:
//! a resolver that scans the configuration grammar and collects the
//! literal (non-wildcard) host aliases in first-seen order, and a
//! fuzzy selector that scores, ranks and steps through those aliases
//! under an interactive query.

pub mod alias;
pub mod config;
pub mod fuzzy;
pub mod glob;
pub mod select;
pub mod text;
