use slopgraph::graph::ModuleGraph;
use slopgraph::parse::{ImportedName, ParsedExport, ParsedImport, ParsedModule};

fn export(name: &str) -> ParsedExport {
    ParsedExport { name: name.to_string(), display: name.to_string(), line: 1, span_start: 0 }
}

fn import(spec: &str, names: Vec<ImportedName>) -> ParsedImport {
    ParsedImport { specifier: spec.to_string(), names }
}

fn module(abs: &str, exports: Vec<ParsedExport>, imports: Vec<ParsedImport>) -> ParsedModule {
    ParsedModule { abs: abs.to_string(), exports, imports }
}

fn consumers(g: &ModuleGraph, exporter: usize, name: &str) -> Option<Vec<usize>> {
    g.consumers.iter().find(|c| c.exporter == exporter && c.name == name).map(|c| c.importers.clone())
}

#[test]
fn builds_dependencies_and_consumers() {
    let parsed = vec![
        module("/p/src/index.ts", vec![export("main")], vec![import("./util", vec![ImportedName::Named("helper".to_string())]), import("./lib", vec![ImportedName::Namespace])]),
        module("/p/src/util.ts", vec![export("helper"), export("other")], vec![]),
        module("/p/src/lib.ts", vec![export("a"), export("default")], vec![import("./util", vec![ImportedName::Default])]),
        module("/p/tests/lib.test.ts", vec![], vec![import("../src/lib", vec![ImportedName::Named("a".to_string())])]),
    ];
    let targets = vec![
        vec![Some("/p/src/util.ts".to_string()), Some("/p/src/lib.ts".to_string())],
        vec![],
        vec![Some("/p/src/util.ts".to_string())],
        vec![Some("/p/src/lib.ts".to_string())],
    ];
    let entries = vec!["/p/src/index.ts".to_string()];
    let g = ModuleGraph::build("/p", &parsed, &targets, &entries);
    assert_eq!(g.modules.len(), 4);
    assert_eq!(g.modules[1].display, "src/util.ts");
    assert_eq!(g.file_dependencies[0], vec![2, 1]);
    assert_eq!(g.file_dependencies[2], vec![1]);
    assert_eq!(g.entry_points, vec![true, false, false, false]);
    assert_eq!(g.test_files, vec![false, false, false, true]);
    assert_eq!(consumers(&g, 1, "helper"), Some(vec![0]));
    assert_eq!(consumers(&g, 1, "default"), Some(vec![2]));
    assert_eq!(consumers(&g, 2, "a"), Some(vec![0, 3]));
    assert_eq!(consumers(&g, 2, "default"), Some(vec![0]));
    assert_eq!(consumers(&g, 1, "other"), None);
}

#[test]
fn unresolved_and_javascript_imports_are_dropped() {
    let parsed = vec![
        module("/p/a.ts", vec![], vec![import("x", vec![ImportedName::Default]), import("./b.js", vec![ImportedName::Default]), import("./c", vec![ImportedName::Default])]),
        module("/p/c.ts", vec![], vec![]),
    ];
    let targets = vec![vec![None, Some("/p/b.js".to_string()), Some("/p/other.ts".to_string())], vec![]];
    let g = ModuleGraph::build("/p", &parsed, &targets, &vec![]);
    assert!(g.file_dependencies[0].is_empty());
    assert!(g.consumers.is_empty());
}

#[test]
fn star_reexports_forward_exports() {
    let parsed = vec![
        module("/p/index.ts", vec![], vec![import("./barrel", vec![ImportedName::Named("x".to_string())])]),
        module("/p/barrel.ts", vec![export("own")], vec![import("./impl", vec![ImportedName::StarReexport])]),
        module("/p/impl.ts", vec![export("x"), export("default"), export("own")], vec![]),
    ];
    let targets = vec![vec![Some("/p/barrel.ts".to_string())], vec![Some("/p/impl.ts".to_string())], vec![]];
    let g = ModuleGraph::build("/p", &parsed, &targets, &vec![]);
    let names: Vec<_> = g.modules[1].exports.iter().map(|e| e.name.as_str()).collect();
    assert_eq!(names, vec!["own", "x"]);
    assert_eq!(consumers(&g, 2, "x"), Some(vec![1]));
    assert_eq!(consumers(&g, 2, "own"), Some(vec![1]));
    assert_eq!(consumers(&g, 2, "default"), None);
    assert_eq!(g.file_dependencies[1], vec![2]);
}

#[test]
fn consumer_group_dir_is_parent_of_display_path() {
    let g = ModuleGraph::build("/p", &vec![], &vec![], &vec![]);
    assert_eq!(g.consumer_group_dir("/p/src/a/b.ts"), "src/a");
    // A file at the root has an empty parent; only a path with no parent at all gives `.`.
    assert_eq!(g.consumer_group_dir("/p/b.ts"), "");
    assert_eq!(g.consumer_group_dir("/p"), ".");
}

#[test]
fn side_effect_imports_are_dependencies() {
    let files = vec!["/p/src/index.ts".to_string(), "/p/src/a_file.ts".to_string()];
    let sources = vec!["import \"./a_file\";\n".to_string(), "function aDead1() {}\n".to_string()];
    let parsed = slopgraph::parse::parse_program(&files, &sources);
    assert_eq!(parsed[0].imports.len(), 1);
    assert!(parsed[0].imports[0].names.is_empty());
    let targets = vec![vec![Some("/p/src/a_file.ts".to_string())], vec![]];
    let entries = vec!["/p/src/index.ts".to_string()];
    let g = ModuleGraph::build("/p", &parsed, &targets, &entries);
    assert_eq!(g.file_dependencies[0], vec![1]);
    // The imported file is reached from the entry point, so it is not unreachable.
    let files_found = slopgraph::unreachable::detect_files(&g, &slopgraph::Options::default());
    assert!(files_found.is_empty());
}
