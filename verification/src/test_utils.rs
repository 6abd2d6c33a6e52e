//! Small fixtures: a symbol and a two-node graph used to exercise the
//! library.
use vstd::prelude::*;

use crate::graph::{CodeGraph, EdgeKind, Position, Range, Symbol, SymbolKind};
use crate::stable_graph::node_index_value;
use crate::text::str_to_string;

verus! {

/// A symbol with the given id, name and kind in `test.rs`, spanning line 0
/// from character 0 to 10, without documentation.
pub fn create_test_symbol(id: &str, name: &str, kind: SymbolKind) -> (s: Symbol)
    ensures
        s.id@ == id@,
        s.name@ == name@,
        s.kind == kind,
        s.file_path@ == "test.rs"@,
        s.range == (Range { start: Position { line: 0, character: 0 }, end: Position { line: 0, character: 10 } }),
        s.documentation is None,
{
    Symbol {
        id: str_to_string(id),
        kind,
        name: str_to_string(name),
        file_path: str_to_string("test.rs"),
        range: Range { start: Position { line: 0, character: 0 }, end: Position { line: 0, character: 10 } },
        documentation: None,
    }
}

/// A graph of a function `func1` and a variable `var1`, with a `Reference`
/// edge from the variable to the function.
pub fn create_test_graph() -> (g: CodeGraph)
    ensures
        g.wf(),
        g.nodes().len() == 2,
        g.nodes()[0].id@ == "func1"@ && g.nodes()[0].name@ == "test_function"@ && g.nodes()[0].kind == SymbolKind::Function,
        g.nodes()[1].id@ == "var1"@ && g.nodes()[1].name@ == "test_variable"@ && g.nodes()[1].kind == SymbolKind::Variable,
        g.edges() == seq![(1nat, 0nat, EdgeKind::Reference)],
{
    let mut graph = CodeGraph::new();
    let func = create_test_symbol("func1", "test_function", SymbolKind::Function);
    let func_idx = graph.add_symbol(func);
    let var = create_test_symbol("var1", "test_variable", SymbolKind::Variable);
    let var_idx = graph.add_symbol(var);
    graph.add_edge(var_idx, func_idx, EdgeKind::Reference);
    proof {
        assert(node_index_value(func_idx) == 0);
        assert(node_index_value(var_idx) == 1);
        assert(graph.edges() =~= seq![(1nat, 0nat, EdgeKind::Reference)]);
    }
    graph
}

} // verus!
