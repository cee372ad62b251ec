//! Incremental extraction of Django route names from `urls.py` files.
//!
//! The library parses a URL-configuration source file with tree-sitter,
//! walks the syntax tree for calls to the routing constructors `path` and
//! `re_path`, and recovers the string literal bound to each call's `name`
//! keyword argument.  Around the extractor it keeps an incremental cache,
//! keyed by file path and modification time, with a canonical JSON
//! serialization whose shape is fixed by this crate.

use vstd::prelude::*;

pub mod text;
pub mod tree;
pub mod extract;
pub mod cache;
pub mod json;

verus! {

} // verus!
