use slopgraph::call_graph::CallGraph;
use slopgraph::detect::Extracted;
use slopgraph::extract::collect;
use slopgraph::graph::ModuleGraph;
use slopgraph::parse::parse_program;
use slopgraph::program::display_path;
use slopgraph::{analyze, Options};

/// The report for files under `/ordering_test`, each import resolved by
/// `resolve` (relative specifiers only; the sources make no calls, so the
/// call graph has no typed edges).
fn report_of(files: &[(&str, &str)], resolve: &dyn Fn(&str) -> Option<String>, entry: &str, options: Options) -> String {
    let root = "/ordering_test";
    let paths: Vec<String> = files.iter().map(|(p, _)| format!("{root}/{p}")).collect();
    let sources: Vec<String> = files.iter().map(|(_, s)| s.to_string()).collect();
    let parsed = parse_program(&paths, &sources);
    let targets: Vec<Vec<Option<String>>> =
        parsed.iter().map(|m| m.imports.iter().map(|i| resolve(&i.specifier)).collect()).collect();
    let modules = ModuleGraph::build(root, &parsed, &targets, &vec![format!("{root}/{entry}")]);
    let mut functions = Vec::new();
    for (module, abs) in paths.iter().enumerate() {
        let (fns, _calls) = collect(module, abs, &display_path(root, abs), &sources[module]);
        functions.extend(fns);
    }
    let calls = CallGraph { functions, edges: Vec::new(), calls: 0, resolved: 0 };
    let extracted = Extracted { functions: Vec::new(), types: Vec::new(), params: Vec::new(), test_imports: Vec::new() };
    analyze(&modules, &calls, &options, &extracted)
}

#[test]
fn test_finding_order_determinism() {
    let files = [
        ("src/z_file.ts", "\nexport function zDead1(): void {}\nexport function zDead2(): void {}\n"),
        ("src/a_file.ts", "\nexport function aDead1(): void {}\nexport function aDead2(): void {}\n"),
        ("src/index.ts", "\nimport \"./a_file\";\nimport \"./z_file\";\nexport function main(): void {}\n"),
    ];
    let resolve = |s: &str| s.strip_prefix("./").map(|rest| format!("/ordering_test/src/{rest}.ts"));
    let options = Options { production: false, ..Default::default() };
    let report1 = report_of(&files, &resolve, "src/index.ts", options);
    let report2 = report_of(&files, &resolve, "src/index.ts", options);

    assert_eq!(report1, report2);

    let pos_a = report1.find("src/a_file.ts").unwrap();
    let pos_z = report1.find("src/z_file.ts").unwrap();
    assert!(pos_a < pos_z, "Findings must be sorted alphabetically by file path");

    let pos_a1 = report1.find("subject: aDead1").unwrap();
    let pos_a2 = report1.find("subject: aDead2").unwrap();
    assert!(pos_a1 < pos_a2, "Findings in same file must be sorted by line / span");
}
