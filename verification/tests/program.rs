use slopgraph::program::{
    display_path, glob_prefix, include_patterns, is_js_file, is_program_file, is_test_file, matches_include, paths_equal,
    strip_verbatim, tidy_files,
};

#[test]
fn test_file_predicate_identifies_tests() {
    let root = "/workspace/project";
    assert!(is_test_file(root, "/workspace/project/src/app.test.ts"));
    assert!(is_test_file(root, "/workspace/project/src/app.spec.ts"));
    assert!(is_test_file(root, "/workspace/project/src/app.test.tsx"));
    assert!(is_test_file(root, "/workspace/project/src/app.spec.tsx"));
    assert!(is_test_file(root, "/workspace/project/src/app.test.mts"));
    assert!(is_test_file(root, "/workspace/project/src/app.test.cts"));
    assert!(is_test_file(root, "/workspace/project/src/test.ts"));
    assert!(is_test_file(root, "/workspace/project/src/spec.ts"));

    assert!(is_test_file(root, "/workspace/project/tests/helper.ts"));
    assert!(is_test_file(root, "/workspace/project/test/unit.ts"));
    assert!(is_test_file(root, "/workspace/project/src/__tests__/runner.ts"));

    assert!(!is_test_file(root, "/workspace/project/src/index.ts"));
    assert!(!is_test_file(root, "/workspace/project/src/main.ts"));
    assert!(!is_test_file(root, "/workspace/project/src/testing_utils.ts"));
    assert!(!is_test_file(root, "/workspace/project/src/contest.ts"));
}

#[test]
fn program_and_js_files() {
    assert!(is_program_file("/p/a.ts"));
    assert!(is_program_file("/p/a.tsx"));
    assert!(!is_program_file("/p/a.d.ts"));
    assert!(!is_program_file("/p/a.js"));
    assert!(is_js_file("/p/a.js"));
    assert!(is_js_file("/p/a.mjs"));
    assert!(!is_js_file("/p/a.ts"));
}

#[test]
fn display_paths_are_relative_to_root() {
    assert_eq!(display_path("/p", "/p/src/a.ts"), "src/a.ts");
    // Outside the root the components are joined as they are, the root one included.
    assert_eq!(display_path("/p", "/q/a.ts"), "//q/a.ts");
}

#[test]
fn verbatim_prefix_is_stripped() {
    assert_eq!(strip_verbatim("\\\\?\\C:\\p\\a.ts"), "C:\\p\\a.ts");
    assert_eq!(strip_verbatim("/p/a.ts"), "/p/a.ts");
}

#[test]
fn equal_paths() {
    assert!(paths_equal("/p//a.ts", "/p/a.ts"));
    assert!(paths_equal("/p/a.ts", "/p/a.ts"));
    assert!(!paths_equal("/p/a.ts", "/p/b.ts"));
}

#[test]
fn files_sorted_and_unique() {
    let files = vec!["/p/b.ts".to_string(), "/p/a.ts".to_string(), "/p//b.ts".to_string(), "/p/a/z.ts".to_string()];
    // Paths compare by components: `a` sorts before `a.ts`.
    assert_eq!(tidy_files(files), vec!["/p/a/z.ts", "/p/a.ts", "/p/b.ts"]);
}

#[test]
fn default_patterns() {
    assert_eq!(include_patterns(&None, false), vec!["**/*"]);
    assert!(include_patterns(&None, true).is_empty());
    assert!(include_patterns(&Some(vec![]), false).is_empty());
    assert_eq!(include_patterns(&Some(vec!["src".to_string()]), true), vec!["src"]);
}

#[test]
fn glob_patterns() {
    assert_eq!(glob_prefix("/p", "src/**/*.ts"), "/p/src");
    assert!(matches_include("/p/src/a.ts", "/p", "src"));
    assert!(!matches_include("/p/lib/a.ts", "/p", "src"));
}
