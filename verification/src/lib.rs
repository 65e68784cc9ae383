//! Whole-program maximum-stack-usage analysis.
//!
//! Given the linked program's symbols, per-symbol local stack usage, typed
//! items recovered from the compiler's intermediate representation, and the
//! findings of a machine-code analyzer, this library builds a call graph,
//! bounds the stack usage of every function, and renders the result as table
//! rows or as a graph description.
use vstd::prelude::*;

pub mod builder;
pub mod demangle;
pub mod filter;
pub mod graph;
pub mod ir;
pub mod pipeline;
pub mod present;
pub mod scc;
pub mod solver;
pub mod strings;
pub mod symbols;
pub mod usage;

verus! {

/// Paths and per-symbol stack usage collected by the build orchestrator
/// before analysis starts.
pub struct CallStack {
    pub compiler_builtins_ll: String,
    pub compiler_builtins_rlib: String,
    pub ll_files: Vec<String>,
    pub rlib_files: Vec<String>,
    pub exec_ll: String,
    pub exec_o: String,
    pub stack_sizes: Vec<(String, u64)>,
}

/// Invocation options chosen by the caller.
pub struct Args {
    pub target: Option<String>,
    pub example: Option<String>,
    pub bin: Option<String>,
    pub features: Option<String>,
    pub all_features: Option<bool>,
    pub debug: Option<bool>,
    pub list: bool,
    pub start: Option<String>,
}

} // verus!
