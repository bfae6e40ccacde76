use slopgraph::call_graph::{CallGraph, ExprShape, FnNode, TypedEdge, Wrapper};
use slopgraph::finding::{Evidence, Shape};
use slopgraph::tramp_data::{detect, inspect_param, is_direct_reference, ParamUsage};

fn func(name: &str, line: u32, span_start: u32) -> FnNode {
    FnNode { module: 0, display: "test.ts".to_string(), name: name.to_string(), line, span_start, exported: false, forward: None }
}

fn graph(functions: Vec<FnNode>, edges: Vec<TypedEdge>) -> CallGraph {
    CallGraph { functions, edges, calls: 1, resolved: 1 }
}

fn usage(function: usize, name: &str, span_start: u32, refs: usize, forward_calls: Vec<u32>) -> ParamUsage {
    ParamUsage { function, name: name.to_string(), span_start, line: 2, refs, forward_calls }
}

#[test]
fn one_finding_per_distinct_target() {
    let calls = graph(
        vec![func("mid", 2, 10), func("a", 10, 100), func("b", 20, 200)],
        vec![
            TypedEdge { from: 0, to: 1, call_start: 40 },
            TypedEdge { from: 0, to: 2, call_start: 60 },
            TypedEdge { from: 0, to: 1, call_start: 80 },
        ],
    );
    let findings = inspect_param(&calls, &usage(0, "p", 14, 3, vec![40, 60, 80]));
    let targets: Vec<_> = findings
        .iter()
        .map(|f| {
            let Evidence::Path { nodes } = &f.evidence;
            nodes[1].label.clone()
        })
        .collect();
    assert_eq!(targets, vec!["a", "b"]);
    // One untyped forward spoils the parameter.
    assert_eq!(inspect_param(&calls, &usage(0, "p", 14, 2, vec![40, 99])).len(), 0);
}

#[test]
fn direct_references_look_through_wrappers() {
    let ident = |n: &str| ExprShape::Identifier(n.to_string());
    let wrap = |w: Wrapper, e: ExprShape| ExprShape::Wrapped(w, Box::new(e));
    assert!(is_direct_reference(&ident("ctx"), "ctx"));
    assert!(is_direct_reference(&wrap(Wrapper::NonNull, wrap(Wrapper::Satisfies, ident("ctx"))), "ctx"));
    assert!(!is_direct_reference(&ident("other"), "ctx"));
    assert!(!is_direct_reference(&ExprShape::Call(4), "ctx"));
    assert!(!is_direct_reference(&wrap(Wrapper::Parenthesized, ExprShape::Other), "ctx"));
}
