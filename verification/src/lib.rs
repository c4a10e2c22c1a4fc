//! Mercurial history as a command stream for `git fast-import`.
//!
//! The library holds the rules of the conversion: how names are made valid
//! Git refs, how authors are normalised, how marks are numbered, which bytes a
//! changeset becomes, how an import is resumed, and how several sources are
//! interleaved. Each rule is stated as a specification function and each
//! executable function is proved against it.
pub mod author;
pub mod changeset;
pub mod cli;
pub mod collections;
pub mod config;
pub mod env;
pub mod error;
pub mod export;
pub mod git;
pub mod interleave;
pub mod mark_table;
pub mod marks;
pub mod multi;
pub mod names;
pub mod sanitize;
pub mod single;
pub mod text;
pub mod tools;
