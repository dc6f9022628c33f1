//! A rule-driven text rewriter.
//!
//! An ordered set of regular-expression rules is compiled once; each input
//! unit (a line or a token) is matched against all rules, first match wins,
//! and the matching rule's template is emitted with its `{}` placeholders
//! filled from the following input units.

pub mod config;
pub mod engine;
pub mod rules;
pub mod template;
