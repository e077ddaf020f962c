//! Procedural text generation from a grammar of tagged, weighted rules.
//!
//! A [`Scribe`] owns named [`cognate::Cognate`]s. Each cognate holds groups of
//! rules; a rule is a template string whose placeholders are expanded
//! recursively under a [`Context`] of tags and scoped bindings.

pub mod cognate;
pub mod context;
pub mod dict;
pub mod error;
pub mod group;
pub mod laws;
pub mod outside;
pub mod parse;
pub mod rule;
pub mod scribe;
pub mod semantics;
pub mod text;

pub use crate::context::Context;
pub use crate::scribe::Scribe;
