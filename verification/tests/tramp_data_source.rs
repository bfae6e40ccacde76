use std::path::PathBuf;

use slopgraph::call_graph::{CallGraph, FnNode, TypedEdge};
use slopgraph::extract::param_usages;
use slopgraph::finding::{Evidence, Finding, Shape};
use slopgraph::tramp_data::detect;

/// The tramp-data findings of one file `test.ts`, read from its text, on the given call graph.
fn analyze_code(source: &str, edges: Vec<TypedEdge>, functions: Vec<FnNode>) -> Vec<Finding> {
    let calls = CallGraph { functions, edges, calls: 1, resolved: 1 };
    let usages = param_usages(&calls, 0, "test.ts", source);
    detect(&calls, &usages)
}

#[test]
fn test_clean_forward_detected() {
    let source = r#"
function intermediate(param: string) {
target(param);
}
"#;
    let file_path = PathBuf::from("test.ts");
    let intermediate_span = source.find("intermediate").unwrap() as u32;
    let target_call_start = source.find("target(param)").unwrap() as u32;

    let functions = vec![
        FnNode {
            module: 0,
            display: "test.ts".to_string(),
            name: "intermediate".to_string(),
            line: 2,
            span_start: intermediate_span,
            exported: false,
            forward: None,
        },
        FnNode {
            module: 0,
            display: "test.ts".to_string(),
            name: "target".to_string(),
            line: 10,
            span_start: 100,
            exported: false,
            forward: None,
        },
    ];

    let edges = vec![TypedEdge {
        from: 0,
        to: 1,
        call_start: target_call_start,
    }];

    let findings = analyze_code(source, edges, functions);
    assert_eq!(findings.len(), 1);
    assert_eq!(findings[0].shape, Shape::TrampData);
    assert_eq!(findings[0].subject, "param");
    assert_eq!(findings[0].location.line, 2);

    let Evidence::Path { nodes } = &findings[0].evidence;
    assert_eq!(nodes.len(), 2);
    assert_eq!(nodes[0].label, "intermediate");
    assert_eq!(nodes[0].annotation.as_deref(), Some("passes param"));
    assert!(nodes[0].is_subject);
    assert_eq!(nodes[1].label, "target");
    assert_eq!(nodes[1].annotation, None);
    assert!(!nodes[1].is_subject);
}

#[test]
fn test_forward_with_type_assertions_detected() {
    let source = r#"
function intermediate(param: any) {
target(((param as string)!));
}
"#;
    let file_path = PathBuf::from("test.ts");
    let intermediate_span = source.find("intermediate").unwrap() as u32;
    let target_call_start = source.find("target").unwrap() as u32;

    let functions = vec![
        FnNode {
            module: 0,
            display: "test.ts".to_string(),
            name: "intermediate".to_string(),
            line: 2,
            span_start: intermediate_span,
            exported: false,
            forward: None,
        },
        FnNode {
            module: 0,
            display: "test.ts".to_string(),
            name: "target".to_string(),
            line: 10,
            span_start: 100,
            exported: false,
            forward: None,
        },
    ];

    let edges = vec![TypedEdge {
        from: 0,
        to: 1,
        call_start: target_call_start,
    }];

    let findings = analyze_code(source, edges, functions);
    assert_eq!(findings.len(), 1);
    assert_eq!(findings[0].subject, "param");
}

#[test]
fn test_property_read_rejected() {
    let source = r#"
function intermediate(param: { id: string }) {
console.log(param.id);
target(param);
}
"#;
    let file_path = PathBuf::from("test.ts");
    let intermediate_span = source.find("intermediate").unwrap() as u32;
    let target_call_start = source.find("target(param)").unwrap() as u32;

    let functions = vec![
        FnNode {
            module: 0,
            display: "test.ts".to_string(),
            name: "intermediate".to_string(),
            line: 2,
            span_start: intermediate_span,
            exported: false,
            forward: None,
        },
        FnNode {
            module: 0,
            display: "test.ts".to_string(),
            name: "target".to_string(),
            line: 10,
            span_start: 100,
            exported: false,
            forward: None,
        },
    ];

    let edges = vec![TypedEdge {
        from: 0,
        to: 1,
        call_start: target_call_start,
    }];

    let findings = analyze_code(source, edges, functions);
    assert_eq!(findings.len(), 0);
}

#[test]
fn test_condition_read_rejected() {
    let source = r#"
function intermediate(param: string | null) {
if (param) {
    target(param);
}
}
"#;
    let file_path = PathBuf::from("test.ts");
    let intermediate_span = source.find("intermediate").unwrap() as u32;
    let target_call_start = source.find("target(param)").unwrap() as u32;

    let functions = vec![
        FnNode {
            module: 0,
            display: "test.ts".to_string(),
            name: "intermediate".to_string(),
            line: 2,
            span_start: intermediate_span,
            exported: false,
            forward: None,
        },
        FnNode {
            module: 0,
            display: "test.ts".to_string(),
            name: "target".to_string(),
            line: 10,
            span_start: 100,
            exported: false,
            forward: None,
        },
    ];

    let edges = vec![TypedEdge {
        from: 0,
        to: 1,
        call_start: target_call_start,
    }];

    let findings = analyze_code(source, edges, functions);
    assert_eq!(findings.len(), 0);
}

#[test]
fn test_untyped_call_rejected() {
    let source = r#"
function intermediate(param: string) {
console.log(param);
}
"#;
    let file_path = PathBuf::from("test.ts");
    let intermediate_span = source.find("intermediate").unwrap() as u32;

    let functions = vec![FnNode {
        module: 0,
        display: "test.ts".to_string(),
        name: "intermediate".to_string(),
        line: 2,
        span_start: intermediate_span,
        exported: false,
        forward: None,
    }];

    // No typed edges in CallGraph for console.log
    let edges = vec![];

    let findings = analyze_code(source, edges, functions);
    assert_eq!(findings.len(), 0);
}

#[test]
fn test_unused_parameter_rejected() {
    let source = r#"
function intermediate(param: string) {
target();
}
"#;
    let file_path = PathBuf::from("test.ts");
    let intermediate_span = source.find("intermediate").unwrap() as u32;
    let target_call_start = source.find("target()").unwrap() as u32;

    let functions = vec![
        FnNode {
            module: 0,
            display: "test.ts".to_string(),
            name: "intermediate".to_string(),
            line: 2,
            span_start: intermediate_span,
            exported: false,
            forward: None,
        },
        FnNode {
            module: 0,
            display: "test.ts".to_string(),
            name: "target".to_string(),
            line: 10,
            span_start: 100,
            exported: false,
            forward: None,
        },
    ];

    let edges = vec![TypedEdge {
        from: 0,
        to: 1,
        call_start: target_call_start,
    }];

    let findings = analyze_code(source, edges, functions);
    assert_eq!(findings.len(), 0);
}

#[test]
fn test_callee_use_rejected() {
    let source = r#"
function intermediate(param: () => void) {
param();
}
"#;
    let file_path = PathBuf::from("test.ts");
    let intermediate_span = source.find("intermediate").unwrap() as u32;

    let functions = vec![FnNode {
        module: 0,
        display: "test.ts".to_string(),
        name: "intermediate".to_string(),
        line: 2,
        span_start: intermediate_span,
        exported: false,
        forward: None,
    }];

    let edges = vec![];

    let findings = analyze_code(source, edges, functions);
    assert_eq!(findings.len(), 0);
}

#[test]
fn test_multiple_params_selective() {
    let source = r#"
function process(readParam: string, passParam: number, unusedParam: boolean) {
if (readParam.length > 0) {
    target(passParam);
}
}
"#;
    let file_path = PathBuf::from("test.ts");
    let process_span = source.find("process").unwrap() as u32;
    let target_call_start = source.find("target(passParam)").unwrap() as u32;

    let functions = vec![
        FnNode {
            module: 0,
            display: "test.ts".to_string(),
            name: "process".to_string(),
            line: 2,
            span_start: process_span,
            exported: false,
            forward: None,
        },
        FnNode {
            module: 0,
            display: "test.ts".to_string(),
            name: "target".to_string(),
            line: 10,
            span_start: 100,
            exported: false,
            forward: None,
        },
    ];

    let edges = vec![TypedEdge {
        from: 0,
        to: 1,
        call_start: target_call_start,
    }];

    let findings = analyze_code(source, edges, functions);
    assert_eq!(findings.len(), 1);
    assert_eq!(findings[0].subject, "passParam");
}

#[test]
fn test_arrow_function_forward_detected() {
    let source = r#"
const intermediate = (param: string) => {
target(param);
};
"#;
    let file_path = PathBuf::from("test.ts");
    let arrow_span = source.find("(param: string)").unwrap() as u32;
    let target_call_start = source.find("target(param)").unwrap() as u32;

    let functions = vec![
        FnNode {
            module: 0,
            display: "test.ts".to_string(),
            name: "default".to_string(),
            line: 2,
            span_start: arrow_span,
            exported: false,
            forward: None,
        },
        FnNode {
            module: 0,
            display: "test.ts".to_string(),
            name: "target".to_string(),
            line: 10,
            span_start: 100,
            exported: false,
            forward: None,
        },
    ];

    let edges = vec![TypedEdge {
        from: 0,
        to: 1,
        call_start: target_call_start,
    }];

    let findings = analyze_code(source, edges, functions);
    assert_eq!(findings.len(), 1);
    assert_eq!(findings[0].subject, "param");
}

