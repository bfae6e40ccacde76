use slopgraph::call_graph::{CallGraph, FnNode, TypedEdge};
use slopgraph::finding::{Evidence, Shape};
use slopgraph::graph::{Module, ModuleGraph};
use slopgraph::unreaching_test::{detect, import_locations, ImportLocation, ImportStatement};
use slopgraph::Options;

/// A module graph with the given (abs, display) modules, test flags and dependencies.
fn make_test_graph(root: &str, modules: Vec<(&str, &str)>, tests: Vec<usize>, deps: Vec<(usize, Vec<usize>)>) -> ModuleGraph {
    let n = modules.len();
    let mut file_dependencies = vec![Vec::new(); n];
    for (from, to) in deps {
        file_dependencies[from] = to;
    }
    let mut test_files = vec![false; n];
    for t in tests {
        test_files[t] = true;
    }
    ModuleGraph {
        root: root.to_string(),
        modules: modules
            .into_iter()
            .map(|(abs, display)| Module { abs: abs.to_string(), display: display.to_string(), exports: Vec::new() })
            .collect(),
        consumers: Vec::new(),
        file_dependencies,
        entry_points: vec![false; n],
        test_files,
    }
}

fn func(module: usize, display: &str, name: &str) -> FnNode {
    FnNode {
        module,
        display: display.to_string(),
        name: name.to_string(),
        line: 1,
        span_start: 10,
        exported: true,
        forward: None,
    }
}

#[test]
fn test_unreaching_test_detected() {
    let modules = make_test_graph(
        "/project",
        vec![("/project/src/service.ts", "src/service.ts"), ("/project/tests/service.test.ts", "tests/service.test.ts")],
        vec![1],
        vec![(1, vec![0])],
    );
    let calls = CallGraph {
        functions: vec![func(0, "src/service.ts", "doService"), func(1, "tests/service.test.ts", "testService")],
        edges: vec![],
        calls: 0,
        resolved: 0,
    };
    let findings = detect(&modules, &calls, &Options::default(), &Vec::new());
    assert_eq!(findings.len(), 1);
    assert_eq!(findings[0].shape, Shape::UnreachingTest);
    assert_eq!(findings[0].location.file, "tests/service.test.ts");
    assert_eq!(findings[0].subject, "src/service.ts");
    let Evidence::Path { nodes } = &findings[0].evidence;
    assert_eq!(nodes.len(), 2);
    assert_eq!(nodes[0].label, "tests/service.test.ts");
    assert!(!nodes[0].is_subject);
    assert_eq!(nodes[1].label, "src/service.ts");
    assert!(nodes[1].is_subject);
}

#[test]
fn test_reached_test_not_emitted() {
    let modules = make_test_graph(
        "/project",
        vec![("/project/src/service.ts", "src/service.ts"), ("/project/tests/service.test.ts", "tests/service.test.ts")],
        vec![1],
        vec![(1, vec![0])],
    );
    let calls = CallGraph {
        functions: vec![func(0, "src/service.ts", "doService"), func(1, "tests/service.test.ts", "testService")],
        edges: vec![TypedEdge { from: 1, to: 0, call_start: 25 }],
        calls: 1,
        resolved: 1,
    };
    let findings = detect(&modules, &calls, &Options::default(), &Vec::new());
    assert_eq!(findings.len(), 0);
}

#[test]
fn test_test_to_test_import_ignored() {
    let modules = make_test_graph(
        "/project",
        vec![("/project/tests/helper.ts", "tests/helper.ts"), ("/project/tests/unit.test.ts", "tests/unit.test.ts")],
        vec![0, 1],
        vec![(1, vec![0])],
    );
    let calls = CallGraph {
        functions: vec![func(0, "tests/helper.ts", "setup"), func(1, "tests/unit.test.ts", "runTest")],
        edges: vec![],
        calls: 0,
        resolved: 0,
    };
    let findings = detect(&modules, &calls, &Options::default(), &Vec::new());
    assert_eq!(findings.len(), 0);
}

#[test]
fn test_prod_to_prod_import_ignored() {
    let modules = make_test_graph(
        "/project",
        vec![("/project/src/repo.ts", "src/repo.ts"), ("/project/src/service.ts", "src/service.ts")],
        vec![],
        vec![(1, vec![0])],
    );
    let calls = CallGraph {
        functions: vec![func(0, "src/repo.ts", "query"), func(1, "src/service.ts", "action")],
        edges: vec![],
        calls: 0,
        resolved: 0,
    };
    let findings = detect(&modules, &calls, &Options::default(), &Vec::new());
    assert_eq!(findings.len(), 0);
}

#[test]
fn test_transitive_call_reachability() {
    let modules = make_test_graph(
        "/project",
        vec![
            ("/project/src/service.ts", "src/service.ts"),
            ("/project/tests/helper.ts", "tests/helper.ts"),
            ("/project/tests/unit.test.ts", "tests/unit.test.ts"),
        ],
        vec![1, 2],
        vec![(2, vec![0, 1]), (1, vec![0])],
    );
    let calls = CallGraph {
        functions: vec![
            func(0, "src/service.ts", "prod_fn"),
            func(1, "tests/helper.ts", "helper_fn"),
            func(2, "tests/unit.test.ts", "test_fn"),
        ],
        edges: vec![TypedEdge { from: 2, to: 1, call_start: 20 }, TypedEdge { from: 1, to: 0, call_start: 30 }],
        calls: 2,
        resolved: 2,
    };
    let findings = detect(&modules, &calls, &Options::default(), &Vec::new());
    assert_eq!(findings.len(), 0);
}

#[test]
fn test_multiple_imports_one_reached_one_unreached() {
    let modules = make_test_graph(
        "/project",
        vec![
            ("/project/src/a.ts", "src/a.ts"),
            ("/project/src/b.ts", "src/b.ts"),
            ("/project/tests/multi.test.ts", "tests/multi.test.ts"),
        ],
        vec![2],
        vec![(2, vec![0, 1])],
    );
    let calls = CallGraph {
        functions: vec![func(0, "src/a.ts", "fnA"), func(1, "src/b.ts", "fnB"), func(2, "tests/multi.test.ts", "testFn")],
        edges: vec![TypedEdge { from: 2, to: 0, call_start: 20 }],
        calls: 1,
        resolved: 1,
    };
    let findings = detect(&modules, &calls, &Options::default(), &Vec::new());
    assert_eq!(findings.len(), 1);
    assert_eq!(findings[0].shape, Shape::UnreachingTest);
    assert_eq!(findings[0].subject, "src/b.ts");
}

#[test]
fn test_module_with_no_functions_is_reported_when_imported_by_test() {
    let modules = make_test_graph(
        "/project",
        vec![("/project/src/types.ts", "src/types.ts"), ("/project/tests/types.test.ts", "tests/types.test.ts")],
        vec![1],
        vec![(1, vec![0])],
    );
    let calls = CallGraph {
        functions: vec![func(1, "tests/types.test.ts", "testTypes")],
        edges: vec![],
        calls: 0,
        resolved: 0,
    };
    let findings = detect(&modules, &calls, &Options::default(), &Vec::new());
    assert_eq!(findings.len(), 1);
    assert_eq!(findings[0].subject, "src/types.ts");
}

#[test]
fn test_multiple_test_files_deterministic_ordering() {
    let modules = make_test_graph(
        "/project",
        vec![
            ("/project/src/a.ts", "src/a.ts"),
            ("/project/src/b.ts", "src/b.ts"),
            ("/project/tests/1.test.ts", "tests/1.test.ts"),
            ("/project/tests/2.test.ts", "tests/2.test.ts"),
        ],
        vec![2, 3],
        vec![(2, vec![0]), (3, vec![1])],
    );
    let calls = CallGraph { functions: vec![], edges: vec![], calls: 0, resolved: 0 };
    let findings = detect(&modules, &calls, &Options::default(), &Vec::new());
    assert_eq!(findings.len(), 2);
    assert_eq!(findings[0].location.file, "tests/1.test.ts");
    assert_eq!(findings[0].subject, "src/a.ts");
    assert_eq!(findings[1].location.file, "tests/2.test.ts");
    assert_eq!(findings[1].subject, "src/b.ts");
}

#[test]
fn unreaching_test_uses_the_recorded_import_location() {
    let modules = make_test_graph(
        "/project",
        vec![("/project/src/service.ts", "src/service.ts"), ("/project/tests/service.test.ts", "tests/service.test.ts")],
        vec![1],
        vec![(1, vec![0])],
    );
    let calls = CallGraph { functions: vec![], edges: vec![], calls: 0, resolved: 0 };
    let locs = vec![ImportLocation { test: 1, module: 0, line: 3, span_start: 42 }];
    let findings = detect(&modules, &calls, &Options::default(), &locs);
    assert_eq!(findings.len(), 1);
    assert_eq!(findings[0].location.line, 3);
    assert_eq!(findings[0].location.span_start, 42);
    let without = detect(&modules, &calls, &Options::default(), &Vec::new());
    assert_eq!(without[0].location.line, 1);
    assert_eq!(without[0].location.span_start, 0);
}

#[test]
fn import_locations_prefer_resolved_then_text() {
    let modules = make_test_graph(
        "/project",
        vec![
            ("/project/src/service.ts", "src/service.ts"),
            ("/project/src/util.ts", "src/util.ts"),
            ("/project/tests/service.test.ts", "tests/service.test.ts"),
        ],
        vec![2],
        vec![(2, vec![0, 1])],
    );
    let statements = vec![
        ImportStatement {
            specifier: "../src/service".to_string(),
            span_start: 0,
            line: 1,
            resolved: Some("/project/src/service.ts".to_string()),
        },
        ImportStatement { specifier: "../src/util.js".to_string(), span_start: 40, line: 2, resolved: None },
        ImportStatement {
            specifier: "./service".to_string(),
            span_start: 80,
            line: 3,
            resolved: Some("/project/src/service.ts".to_string()),
        },
    ];
    let locs = import_locations(&modules, 2, &statements);
    assert_eq!(
        locs,
        vec![
            ImportLocation { test: 2, module: 0, line: 1, span_start: 0 },
            ImportLocation { test: 2, module: 1, line: 2, span_start: 40 },
        ]
    );
}
