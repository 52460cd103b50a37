//! Control-flow analysis for lazily evaluated blocks.
//!
//! A function body destined to become a lazily evaluated value must be
//! rewritten so that it can be spliced inline as a value-producing statement
//! sequence.  The library models such a body as a statement tree, classifies
//! the jump statements inside each control structure, and composes
//! per-statement flow facts into a verdict — the body may be inlined, or
//! it must be wrapped in a labeled block.

pub mod analyzer;
pub mod ast;
pub mod context;
pub mod flow_analyzer;
pub mod stmt_context;

use vstd::prelude::*;

verus! {

} // verus!
