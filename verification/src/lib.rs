//! The core of a template scaffolder: names in every casing, the rewriting of
//! contents and file names that follows from them, and the merge of a rewritten
//! tree into a directory that already holds files.

pub mod text;
pub mod variants;
pub mod tokens;
pub mod rewrite;
pub mod names;
pub mod rename;
pub mod merge;
pub mod templates;
pub mod config;
