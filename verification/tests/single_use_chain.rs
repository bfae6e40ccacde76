use slopgraph::call_graph::{CallGraph, FnNode, Forward, TypedEdge};
use slopgraph::finding::{Evidence, Shape};
use slopgraph::graph::ModuleGraph;
use slopgraph::single_use_chain::detect;
use slopgraph::Options;

fn make_test_graph(fns: Vec<(&str, bool, Option<Forward>)>, edges: Vec<(usize, usize)>) -> (ModuleGraph, CallGraph) {
    let functions: Vec<FnNode> = fns
        .into_iter()
        .enumerate()
        .map(|(i, (name, exported, forward))| FnNode {
            module: 0,
            display: "src/test.ts".to_string(),
            name: name.to_string(),
            line: (i as u32) + 1,
            span_start: (i as u32) * 20,
            exported,
            forward,
        })
        .collect();
    let edges_len = edges.len();
    let typed_edges: Vec<TypedEdge> =
        edges.into_iter().map(|(from, to)| TypedEdge { from, to, call_start: (from as u32) * 20 + 5 }).collect();
    let calls = CallGraph { functions, edges: typed_edges, calls: edges_len, resolved: edges_len };
    let modules = ModuleGraph {
        root: "/project".to_string(),
        modules: Vec::new(),
        consumers: Vec::new(),
        file_dependencies: Vec::new(),
        entry_points: Vec::new(),
        test_files: Vec::new(),
    };
    (modules, calls)
}

#[test]
fn test_two_node_chain_detection() {
    let (modules, calls) = make_test_graph(
        vec![("handleOrder", true, None), ("prepareOrder", false, None), ("validateAndSave", false, None)],
        vec![(0, 1), (1, 2)],
    );
    let (findings, suppressed) = detect(&modules, &calls, &Options::default());
    assert_eq!(findings.len(), 1);
    assert_eq!(findings[0].shape, Shape::SingleUseChain);
    assert_eq!(findings[0].subject, "prepareOrder");
    let Evidence::Path { nodes } = &findings[0].evidence;
    assert_eq!(nodes.len(), 3);
    assert_eq!(nodes[0].label, "handleOrder   (exported, not in chain)");
    assert!(!nodes[0].is_subject);
    assert_eq!(nodes[1].label, "prepareOrder");
    assert!(nodes[1].is_subject);
    assert_eq!(nodes[2].label, "validateAndSave");
    assert!(!nodes[2].is_subject);
    assert!(suppressed[1]);
    assert!(suppressed[2]);
}

#[test]
fn test_single_eligible_node_is_not_chain() {
    let (modules, calls) = make_test_graph(
        vec![
            ("handleOrder", true, None),
            ("prepareOrder", false, None),
            ("multiCalled", false, None),
            ("anotherCaller", true, None),
        ],
        vec![(0, 1), (1, 2), (3, 2)],
    );
    let (findings, suppressed) = detect(&modules, &calls, &Options::default());
    assert_eq!(findings.len(), 0);
    assert!(suppressed.iter().all(|s| !s));
}

#[test]
fn test_include_exported_flag() {
    let (modules, calls) = make_test_graph(
        vec![("entryRoot", true, None), ("exportedMiddle", true, None), ("finalLeaf", false, None)],
        vec![(0, 1), (1, 2)],
    );
    let (findings_default, _) = detect(&modules, &calls, &Options::default());
    assert_eq!(findings_default.len(), 0);
    let options = Options { include_exported: true, production: false };
    let (findings_included, _) = detect(&modules, &calls, &options);
    assert_eq!(findings_included.len(), 1);
    assert_eq!(findings_included[0].subject, "exportedMiddle");
    let Evidence::Path { nodes } = &findings_included[0].evidence;
    assert_eq!(nodes[0].label, "entryRoot");
    assert_eq!(nodes[1].label, "exportedMiddle");
    assert_eq!(nodes[2].label, "finalLeaf");
}

#[test]
fn test_forwarder_suppression() {
    let (modules, calls) = make_test_graph(
        vec![
            ("startPipeline", true, Some(Forward { call_start: 5, return_only: true })),
            ("forwardStep", false, Some(Forward { call_start: 25, return_only: true })),
            ("computeStep", false, None),
        ],
        vec![(0, 1), (1, 2)],
    );
    let (findings, suppressed) = detect(&modules, &calls, &Options::default());
    assert_eq!(findings.len(), 1);
    assert!(suppressed[0]);
    assert!(suppressed[1]);
    assert!(suppressed[2]);
}

#[test]
fn chain_findings_have_at_least_three_nodes() {
    let (modules, calls) = make_test_graph(
        vec![("a", true, None), ("b", false, None), ("c", false, None), ("d", false, None)],
        vec![(0, 1), (1, 2), (2, 3)],
    );
    let (findings, _) = detect(&modules, &calls, &Options::default());
    assert_eq!(findings.len(), 1);
    let Evidence::Path { nodes } = &findings[0].evidence;
    assert_eq!(nodes.len(), 4);
    assert_eq!(nodes[3].label, "d");
}

#[test]
fn a_function_with_two_callers_ends_the_chain() {
    // main -> a -> b -> shared, other -> shared: `shared` has two callers.
    let (modules, calls) = make_test_graph(
        vec![("main", true, None), ("a", false, None), ("b", false, None), ("shared", false, None), ("other", true, None)],
        vec![(0, 1), (1, 2), (2, 3), (4, 3)],
    );
    let (findings, _) = detect(&modules, &calls, &Options::default());
    assert_eq!(findings.len(), 1);
    let Evidence::Path { nodes } = &findings[0].evidence;
    let labels: Vec<_> = nodes.iter().map(|n| n.label.as_str()).collect();
    assert_eq!(labels, vec!["main   (exported, not in chain)", "a", "b"]);
}
