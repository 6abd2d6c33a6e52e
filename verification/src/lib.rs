//! Verified core of a language-neutral code index: the symbol graph, the
//! queries over it, symbol extraction from source text, fuzzy search and the
//! per-language metadata used by the command-line front end.
use vstd::prelude::*;

pub mod assoc;
pub mod cached_storage;
pub mod cli_commands;
pub mod common_adapter;
pub mod dead_code;
pub mod differential_indexer;
pub mod enhanced_graph;
pub mod fallback_indexer;
pub mod fuzzy_search;
pub mod git_diff;
pub mod go_adapter;
pub mod graph;
pub mod graph_builder;
pub mod graph_serde;
pub mod incremental_storage;
pub mod indexer;
pub mod lsif_queries;
pub mod lsif_tool;
pub mod lsp_adapter;
pub mod lsp_framing;
pub mod lsp_indexer;
pub mod lsp_integration;
pub mod minimal_language_adapter;
pub mod parallel_optimized;
pub mod python_adapter;
pub mod reference_finder;
pub mod simple_cli;
pub mod stable_graph;
pub mod storage;
pub mod symbol_extraction;
pub mod test_utils;
pub mod text;

verus! {

} // verus!
