//! A source-rewriting engine: from a program's written types and the per-pointer decisions
//! of an ownership inference, it builds edits (rewrite trees anchored at source ranges) and
//! splices them into the source text in a single pass, with parentheses exactly where the
//! precedence of the rendered operators needs them.
//!
//! - `rewrite`: the rewrite trees and their rendering.
//! - `types`, `hir`: resolved types labelled with decisions, and written types.
//! - `ty`: the edits that rewrite written types.
//! - `apply`: the application of a file's edits to its text.
//! - `span_index`: from source ranges to instruction locations.
//! - `info`: flow information of the nodes of a pointer dependence graph.
use vstd::prelude::*;

pub mod rewrite;
pub mod types;
pub mod ty;
pub mod hir;
pub mod info;
pub mod apply;
pub mod span_index;

verus! {

} // verus!
