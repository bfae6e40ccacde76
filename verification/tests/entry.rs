use slopgraph::entry::{entry_search, EntryAction, EntryEvent};
use slopgraph::entry::{
    collect_export_strings, entry_candidate_paths, is_named_entry, package_entry_candidates, replace_js_extension,
    specifier_for, JsonValue,
};

fn s(v: &str) -> JsonValue {
    JsonValue::String(v.to_string())
}

fn obj(entries: Vec<(&str, JsonValue)>) -> JsonValue {
    JsonValue::Object(entries.into_iter().map(|(k, v)| (k.to_string(), v)).collect())
}

#[test]
fn collects_nested_export_strings() {
    // Objects list their keys in sorted order, as serde_json's map does.
    let val = obj(vec![
        (".", obj(vec![("import", s("./src/index.ts")), ("require", s("./src/index.cjs"))])),
        ("./feature", JsonValue::Array(vec![s("./src/feature1.ts"), obj(vec![("default", s("./src/feature2.ts"))])])),
    ]);
    let mut out = Vec::new();
    collect_export_strings(&val, &mut out);
    out.sort();
    assert_eq!(out, vec!["./src/feature1.ts", "./src/feature2.ts", "./src/index.cjs", "./src/index.ts"]);
}

#[test]
fn replaces_js_extension_correctly() {
    assert_eq!(replace_js_extension("./dist/app.js", ".ts"), "./dist/app.ts");
    assert_eq!(replace_js_extension("./dist/app.mjs", ".mts"), "./dist/app.mts");
    assert_eq!(replace_js_extension("./dist/app.cjs", ".cts"), "./dist/app.cts");
    assert_eq!(replace_js_extension("./src/index", ".ts"), "./src/index.ts");
}

#[test]
fn replace_js_extension_keeps_other_extensions() {
    assert_eq!(replace_js_extension("./dist/app.jsx", ".tsx"), "./dist/app.tsx");
    assert_eq!(replace_js_extension("./dist/app.json", ".ts"), "./dist/app.json");
    assert_eq!(replace_js_extension("./v1.2/index", ".ts"), "./v1.2/index.ts");
}

#[test]
fn named_entries_are_index_main_cli_at_root_or_src() {
    let root = "/p";
    assert!(is_named_entry(root, "/p/index.ts"));
    assert!(is_named_entry(root, "/p/src/main.tsx"));
    assert!(is_named_entry(root, "/p/src/cli.mts"));
    assert!(!is_named_entry(root, "/p/src/lib/index.ts"));
    assert!(!is_named_entry(root, "/p/lib/index.ts"));
    assert!(!is_named_entry(root, "/p/src/app.ts"));
    assert!(!is_named_entry(root, "/p/src/index.test.ts"));
}

#[test]
fn candidate_paths_in_order() {
    let paths = entry_candidate_paths("/p", "./dist/app.js");
    assert_eq!(paths[0], "/p/./dist/app.js");
    assert_eq!(paths[1], "/p/./dist/app.ts");
    assert_eq!(paths[4], "/p/./dist/app.cts");
    assert_eq!(paths[5], "/p/src/app.js");
    assert_eq!(paths[6], "/p/src/app.ts");
    assert_eq!(paths[7], "/p/app.ts");
    assert_eq!(paths.len(), 1 + 4 + 9);
    let plain = entry_candidate_paths("/p", "main.js");
    assert_eq!(plain.len(), 5);
}

#[test]
fn resolver_specifiers_are_relative() {
    assert_eq!(specifier_for("dist/app.js"), "./dist/app.js");
    assert_eq!(specifier_for("./dist/app.js"), "./dist/app.js");
    assert_eq!(specifier_for("/abs/app.js"), "/abs/app.js");
}

#[test]
fn package_candidates_main_bin_exports() {
    let json = obj(vec![
        ("bin", obj(vec![("a", s("./bin/a.js")), ("b", JsonValue::Number), ("c", s("./bin/c.js"))])),
        ("exports", obj(vec![(".", s("./dist/index.js"))])),
        ("main", s("./dist/main.js")),
        ("name", s("pkg")),
    ]);
    let c = package_entry_candidates(&json);
    assert_eq!(c, vec!["./dist/main.js", "./bin/a.js", "./bin/c.js", "./dist/index.js"]);
    let none = package_entry_candidates(&JsonValue::Array(vec![s("x")]));
    assert!(none.is_empty());
    let bin_string = package_entry_candidates(&obj(vec![("bin", s("cli.js")), ("main", JsonValue::Null)]));
    assert_eq!(bin_string, vec!["cli.js"]);
}

#[test]
fn entry_search_tries_paths_then_the_resolver() {
    let mut search = entry_search("/p", "dist/cli.js");
    let mut tried = Vec::new();
    let mut action = search.advance();
    loop {
        action = match action {
            EntryAction::Try(path) => {
                tried.push(path);
                search.step(EntryEvent::Tried(false))
            }
            EntryAction::Resolve(specifier) => {
                assert_eq!(specifier, "./dist/cli.js");
                search.step(EntryEvent::Resolved(Some("/p/out/cli.js".to_string())))
            }
            EntryAction::Finish => break,
        };
    }
    assert_eq!(tried[0], "/p/dist/cli.js");
    assert!(tried.contains(&"/p/src/cli.ts".to_string()));
    let n = tried.len();
    assert_eq!(
        &tried[n - 5..],
        &["/p/out/cli.js", "/p/out/cli.ts", "/p/out/cli.tsx", "/p/out/cli.mts", "/p/out/cli.cts"].map(String::from)
    );
    // An admitted path ends the search.
    let mut again = entry_search("/p", "index.ts");
    assert!(matches!(again.advance(), EntryAction::Try(_)));
    assert!(matches!(again.step(EntryEvent::Tried(true)), EntryAction::Finish));
}

#[test]
fn package_json_text_names_candidates() {
    let text = r#"{ "main": "./dist/index.js", "bin": { "tool": "./bin/tool.js" }, "exports": { ".": "./src/index.ts" } }"#;
    assert_eq!(
        slopgraph::entry::package_json_candidates(text),
        vec!["./dist/index.js".to_string(), "./bin/tool.js".to_string(), "./src/index.ts".to_string()]
    );
    assert!(slopgraph::entry::package_json_candidates("{ not json").is_empty());
    assert!(matches!(slopgraph::entry::parse_json("[1, true]"), Some(JsonValue::Array(v)) if v.len() == 2));
}

#[test]
fn named_entries_keep_file_order() {
    let files = vec![
        "/p/src/main.ts".to_string(),
        "/p/src/lib/index.ts".to_string(),
        "/p/index.ts".to_string(),
        "/p/tests/main.test.ts".to_string(),
    ];
    assert_eq!(slopgraph::entry::named_entries("/p", &files), vec!["/p/src/main.ts".to_string(), "/p/index.ts".to_string()]);
}
