use slopgraph::call_graph::{CallGraph, FnNode, TypedEdge};
use slopgraph::graph::{Module, ModuleGraph};
use slopgraph::parse::ParsedExport;
use slopgraph::unreachable::detect;
use slopgraph::Options;

fn make_export(name: &str) -> ParsedExport {
    ParsedExport { name: name.to_string(), display: name.to_string(), line: 1, span_start: 0 }
}

fn func(module: usize, display: &str, name: &str, line: u32, span_start: u32, exported: bool) -> FnNode {
    FnNode { module, display: display.to_string(), name: name.to_string(), line, span_start, exported, forward: None }
}

fn fixture() -> (ModuleGraph, CallGraph) {
    // 0: src/index.ts (entry), 1: src/helper.ts, 2: src/orphan.ts, 3: tests/unit.test.ts (test)
    let graph = ModuleGraph {
        root: "/project".to_string(),
        modules: vec![
            Module { abs: "/project/src/index.ts".to_string(), display: "src/index.ts".to_string(), exports: vec![make_export("main")] },
            Module {
                abs: "/project/src/helper.ts".to_string(),
                display: "src/helper.ts".to_string(),
                exports: vec![make_export("used"), make_export("dead"), make_export("test_used")],
            },
            Module { abs: "/project/src/orphan.ts".to_string(), display: "src/orphan.ts".to_string(), exports: vec![make_export("orphan_fn")] },
            Module {
                abs: "/project/tests/unit.test.ts".to_string(),
                display: "tests/unit.test.ts".to_string(),
                exports: vec![make_export("test_case")],
            },
        ],
        consumers: Vec::new(),
        file_dependencies: vec![vec![1], vec![], vec![], vec![1]],
        entry_points: vec![true, false, false, false],
        test_files: vec![false, false, false, true],
    };
    let functions = vec![
        func(0, "src/index.ts", "main", 1, 10, true),
        func(0, "src/index.ts", "unused_local", 5, 50, false),
        func(1, "src/helper.ts", "used", 1, 10, true),
        func(1, "src/helper.ts", "dead", 5, 50, true),
        func(1, "src/helper.ts", "test_used", 9, 90, true),
        func(2, "src/orphan.ts", "orphan_fn", 1, 10, true),
        func(3, "tests/unit.test.ts", "test_case", 1, 10, true),
    ];
    let edges = vec![TypedEdge { from: 0, to: 2, call_start: 15 }, TypedEdge { from: 6, to: 4, call_start: 15 }];
    (graph, CallGraph { functions, edges, calls: 2, resolved: 2 })
}

#[test]
fn test_unreachable_function_suppression_and_production_mode() {
    let (graph, call_graph) = fixture();
    let findings_default = detect(&graph, &call_graph, &Options { production: false, ..Default::default() });
    let subjects: Vec<_> = findings_default.iter().map(|f| (f.location.file.as_str(), f.subject.as_str())).collect();
    assert_eq!(
        subjects,
        vec![("src/orphan.ts", "src/orphan.ts"), ("src/index.ts", "unused_local"), ("src/helper.ts", "dead")]
    );

    let findings_prod = detect(&graph, &call_graph, &Options { production: true, ..Default::default() });
    let subjects_prod: Vec<_> = findings_prod.iter().map(|f| (f.location.file.as_str(), f.subject.as_str())).collect();
    assert_eq!(
        subjects_prod,
        vec![
            ("src/orphan.ts", "src/orphan.ts"),
            ("src/index.ts", "unused_local"),
            ("src/helper.ts", "dead"),
            ("src/helper.ts", "test_used"),
        ]
    );
}

#[test]
fn entry_and_test_modules_are_never_unreachable_files() {
    let (graph, call_graph) = fixture();
    for production in [false, true] {
        let findings = detect(&graph, &call_graph, &Options { production, include_exported: false });
        assert!(!findings.iter().any(|f| f.subject == "src/index.ts"));
        assert!(!findings.iter().any(|f| f.subject == "tests/unit.test.ts"));
    }
}

#[test]
fn production_mode_reports_a_superset() {
    let (graph, call_graph) = fixture();
    let default = detect(&graph, &call_graph, &Options { production: false, include_exported: false });
    let prod = detect(&graph, &call_graph, &Options { production: true, include_exported: false });
    for f in &default {
        assert!(prod.iter().any(|g| g.subject == f.subject && g.location.file == f.location.file));
    }
}
