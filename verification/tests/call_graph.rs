use slopgraph::call_graph::{
    call_handle, canonical_path, forward_of, paths_match, resolve_target, CallGraph, ExprShape, FnNode, Forward, ParsedCall, SourceFile,
    StatementShape, TypedEdge, Wrapper,
};
use slopgraph::tsgo::{Signature, TsNode};

fn func(module: usize, name: &str, span_start: u32) -> FnNode {
    FnNode { module, display: String::new(), name: name.to_string(), line: 1, span_start, exported: false, forward: None }
}

#[test]
fn paths_match_by_components_slashes_and_case() {
    assert!(paths_match("/p//a.ts", "/p/a.ts", true));
    assert!(paths_match("C:\\p\\a.ts", "C:/p/a.ts", true));
    assert!(!paths_match("/p/A.ts", "/p/a.ts", true));
    assert!(paths_match("/p/A.ts", "/p/a.ts", false));
    assert!(!paths_match("/p/a.ts", "/p/b.ts", false));
}

#[test]
fn call_handles_name_the_tightest_call_node() {
    let file = SourceFile {
        abs: "/p/a.ts".to_string(),
        source: "f(g(x));".to_string(),
        nodes: vec![TsNode { index: 3, kind: 214, pos: 0, end: 7 }, TsNode { index: 5, kind: 214, pos: 2, end: 6 }],
    };
    assert_eq!(call_handle(&file, "/p/a.ts", 2), Some("5.214./p/a.ts".to_string()));
    assert_eq!(call_handle(&file, "/p/a.ts", 0), Some("3.214./p/a.ts".to_string()));
    assert_eq!(call_handle(&file, "/p/a.ts", 7), None);
}

#[test]
fn signatures_resolve_to_declared_functions() {
    let files = vec![
        SourceFile { abs: "/p/a.ts".to_string(), source: "call();".to_string(), nodes: vec![] },
        SourceFile {
            abs: "/p/b.ts".to_string(),
            source: "function one() {}\nfunction two() {}".to_string(),
            nodes: vec![TsNode { index: 7, kind: 262, pos: 0, end: 17 }, TsNode { index: 9, kind: 262, pos: 18, end: 35 }],
        },
    ];
    let functions = vec![func(0, "caller", 0), func(1, "one", 9), func(1, "two", 27)];
    let sig = |d: &str| Signature { declaration: Some(d.to_string()) };
    assert_eq!(resolve_target(&files, &functions, &sig("9.262./p/b.ts"), true), Some(2));
    assert_eq!(resolve_target(&files, &functions, &sig("7.262./p/b.ts"), true), Some(1));
    assert_eq!(resolve_target(&files, &functions, &sig("8.262./p/b.ts"), true), None);
    assert_eq!(resolve_target(&files, &functions, &sig("7.262./p/b.js"), true), None);
    assert_eq!(resolve_target(&files, &functions, &sig("7.262./p/c.ts"), true), None);
    assert_eq!(resolve_target(&files, &functions, &Signature { declaration: None }, true), None);
}

#[test]
fn recording_calls() {
    let mut g = CallGraph { functions: vec![func(0, "a", 0), func(0, "b", 20)], edges: vec![], calls: 0, resolved: 0 };
    g.record_call(0, ParsedCall { start: 25, enclosing: Some(20) }, Some(0));
    g.record_call(0, ParsedCall { start: 5, enclosing: None }, Some(1));
    g.record_call(0, ParsedCall { start: 6, enclosing: Some(0) }, None);
    assert_eq!(g.calls, 3);
    assert_eq!(g.resolved, 2);
    assert_eq!(g.edges, vec![TypedEdge { from: 1, to: 0, call_start: 25 }]);
}

#[test]
fn forwarding_bodies() {
    let wrapped = |e: ExprShape| ExprShape::Wrapped(Wrapper::As, Box::new(e));
    assert_eq!(
        forward_of(&vec![StatementShape::Return(Some(wrapped(wrapped(ExprShape::Call(7)))))]),
        Some(Forward { call_start: 7, return_only: true })
    );
    assert_eq!(
        forward_of(&vec![StatementShape::Expression(ExprShape::Call(3))]),
        Some(Forward { call_start: 3, return_only: false })
    );
    assert_eq!(forward_of(&vec![StatementShape::Return(None)]), None);
    // A non-null assertion is not looked through.
    assert_eq!(
        forward_of(&vec![StatementShape::Expression(ExprShape::Wrapped(Wrapper::NonNull, Box::new(ExprShape::Call(3))))]),
        None
    );
    assert_eq!(forward_of(&vec![StatementShape::Expression(wrapped(ExprShape::Other))]), None);
    assert_eq!(
        forward_of(&vec![StatementShape::Other, StatementShape::Expression(ExprShape::Call(3))]),
        None
    );
    assert_eq!(forward_of(&vec![]), None);
}

#[test]
fn canonical_paths_use_forward_slashes_and_fold_case() {
    assert_eq!(canonical_path("C:\\Src\\App.ts", true), "C:/Src/App.ts");
    assert_eq!(canonical_path("C:\\Src\\App.ts", false), "c:/src/app.ts");
    assert_eq!(canonical_path("/Ünï/Ä.ts", false), "/ünï/ä.ts");
}
