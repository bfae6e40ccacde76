use slopgraph::call_graph::{CallGraph, FnNode, Forward, TypedEdge};
use slopgraph::detect::{run, Extracted};
use slopgraph::finding::{Evidence, Shape};
use slopgraph::graph::{Consumers, Module, ModuleGraph};
use slopgraph::parse::ParsedExport;
use slopgraph::{analyze, resolved_call_counts, Options, ResolvedCallCounts};

fn export(name: &str, line: u32, span_start: u32) -> ParsedExport {
    ParsedExport { name: name.to_string(), display: name.to_string(), line, span_start }
}

fn module(abs: &str, display: &str, exports: Vec<ParsedExport>) -> Module {
    Module { abs: abs.to_string(), display: display.to_string(), exports }
}

fn sharing_graph() -> ModuleGraph {
    ModuleGraph {
        root: "/p".to_string(),
        modules: vec![
            module("/p/src/util.ts", "src/util.ts", vec![export("shared", 3, 30), export("wide", 1, 10)]),
            module("/p/src/feature/a.ts", "src/feature/a.ts", vec![]),
            module("/p/src/feature/b.ts", "src/feature/b.ts", vec![]),
            module("/p/src/other/c.ts", "src/other/c.ts", vec![]),
        ],
        consumers: vec![
            Consumers { exporter: 0, name: "shared".to_string(), importers: vec![2, 1] },
            Consumers { exporter: 0, name: "wide".to_string(), importers: vec![1, 3] },
        ],
        file_dependencies: vec![vec![], vec![0], vec![0], vec![0]],
        entry_points: vec![false; 4],
        test_files: vec![false; 4],
    }
}

#[test]
fn false_sharing_one_consumer_group() {
    let findings = slopgraph::false_sharing::detect(&sharing_graph());
    assert_eq!(findings.len(), 1);
    assert_eq!(findings[0].shape, Shape::FalseSharing);
    assert_eq!(findings[0].subject, "shared");
    assert_eq!(findings[0].location.file, "src/util.ts");
    assert_eq!(findings[0].location.line, 3);
    let Evidence::Path { nodes } = &findings[0].evidence;
    let labels: Vec<_> = nodes.iter().map(|n| n.label.as_str()).collect();
    assert_eq!(labels, vec!["src/feature/a.ts", "src/feature/b.ts", "shared"]);
    assert_eq!(nodes[0].annotation.as_deref(), Some("one consumer group"));
    assert!(nodes[2].is_subject);
}

fn func(name: &str, span_start: u32, forward: Option<Forward>) -> FnNode {
    FnNode { module: 0, display: "src/a.ts".to_string(), name: name.to_string(), line: 1, span_start, exported: false, forward }
}

#[test]
fn empty_wrapper_forwards() {
    let calls = CallGraph {
        functions: vec![
            func("wrap", 0, Some(Forward { call_start: 5, return_only: true })),
            func("target", 20, None),
            func("untyped", 40, Some(Forward { call_start: 45, return_only: false })),
        ],
        edges: vec![TypedEdge { from: 0, to: 1, call_start: 5 }],
        calls: 2,
        resolved: 1,
    };
    let findings = slopgraph::empty_wrapper::detect(&calls);
    assert_eq!(findings.len(), 1);
    assert_eq!(findings[0].subject, "wrap");
    let Evidence::Path { nodes } = &findings[0].evidence;
    assert_eq!(nodes[0].annotation.as_deref(), Some("return only"));
    assert_eq!(nodes[1].label, "target");
    let none = slopgraph::empty_wrapper::detect_with_suppression(&calls, &vec![true, false, false]);
    assert!(none.is_empty());
}

fn empty_extracted() -> Extracted {
    Extracted { functions: vec![], types: vec![], params: vec![], test_imports: vec![] }
}

#[test]
fn run_merges_detectors_in_report_order() {
    let g = sharing_graph();
    let calls = CallGraph { functions: vec![], edges: vec![], calls: 0, resolved: 0 };
    let findings = run(&g, &calls, &Options::default(), &empty_extracted());
    let keys: Vec<_> = findings.iter().map(|f| (f.shape, f.location.file.as_str(), f.subject.as_str())).collect();
    // No entry points: every module is unreachable; the export shared within one group is reported.
    assert_eq!(
        keys,
        vec![
            (Shape::Unreachable, "src/feature/a.ts", "src/feature/a.ts"),
            (Shape::Unreachable, "src/feature/b.ts", "src/feature/b.ts"),
            (Shape::Unreachable, "src/other/c.ts", "src/other/c.ts"),
            (Shape::Unreachable, "src/util.ts", "src/util.ts"),
            (Shape::FalseSharing, "src/util.ts", "shared"),
        ]
    );
    let report = analyze(&g, &calls, &Options::default(), &empty_extracted());
    assert!(report.starts_with("src/feature/a.ts\n\nUNREACHABLE\n"));
    assert!(report.contains("src/util.ts\n\nUNREACHABLE\nsubject: src/util.ts  (line 1)\n"));
    assert!(report.ends_with("src/feature/b.ts\n     │\n     ▼\nshared  ←── finding\n"));
}

#[test]
fn chain_members_are_not_empty_wrappers() {
    let g = ModuleGraph {
        root: "/p".to_string(),
        modules: vec![module("/p/src/index.ts", "src/index.ts", vec![export("start", 1, 0)])],
        consumers: vec![],
        file_dependencies: vec![vec![]],
        entry_points: vec![true],
        test_files: vec![false],
    };
    let mut start = func("start", 0, None);
    start.exported = true;
    let calls = CallGraph {
        functions: vec![start, func("mid", 20, Some(Forward { call_start: 25, return_only: true })), func("leaf", 40, None)],
        edges: vec![TypedEdge { from: 0, to: 1, call_start: 5 }, TypedEdge { from: 1, to: 2, call_start: 25 }],
        calls: 2,
        resolved: 2,
    };
    let findings = run(&g, &calls, &Options::default(), &empty_extracted());
    assert!(findings.iter().any(|f| f.shape == Shape::SingleUseChain));
    assert!(!findings.iter().any(|f| f.shape == Shape::EmptyWrapper));
}

#[test]
fn counts_of_resolved_calls() {
    let calls = CallGraph { functions: vec![], edges: vec![], calls: 7, resolved: 3 };
    assert_eq!(resolved_call_counts(&calls), ResolvedCallCounts { calls: 7, resolved: 3 });
}
