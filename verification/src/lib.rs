//! An interpreter for programs stored as commit graphs: each commit message is
//! one instruction, parent edges form the control-flow graph, and tags mark
//! branch targets. The interpreter keeps a hierarchical key/value store as its
//! only data state.

pub mod engine;
pub mod errors;
pub mod graph;
pub mod machine;
pub mod num;
pub mod parse;
pub mod store;
pub mod value;

use vstd::prelude::*;

verus! {

} // verus!
