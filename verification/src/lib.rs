//! Compile-time passes over a parsed script.
//!
//! The crate holds two independent passes. The first, in [`rewrite`], is a
//! global-define substitution engine: a set of dotted paths, each paired with
//! a replacement expression, is compiled into an index, and every access
//! chain of a program that the index matches is replaced by a copy of the
//! replacement. The second, in [`imports`], reports modules that a program
//! imports or re-exports more than once.
//!
//! Both passes work on plain values. The syntax tree of [`syntax`] keeps the
//! node kinds that the engine interprets and carries every other construct
//! as a labelled node with children.

pub mod chain;
pub mod config;
pub mod imports;
pub mod index;
pub mod json;
pub mod path;
pub mod prune;
pub mod rewrite;
pub mod semantic;
pub mod span;
pub mod syntax;

pub use chain::{AccessChain, ChainRoot};
pub use config::{ConfigError, Define, DefineRule, ReplaceGlobalDefinesConfig};
pub use imports::{Diagnostic, NoDuplicateImports};
pub use index::{DefineIndex, Match};
pub use path::DefinePath;
pub use rewrite::ReplaceGlobalDefines;
pub use semantic::{Resolution, SemanticModel};
pub use span::Span;
pub use syntax::{BoundaryKind, Node, NodeKind, Property};
