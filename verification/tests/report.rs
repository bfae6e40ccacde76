use slopgraph::finding::{sort_findings, Evidence, Finding, Location, PathNode, Shape};
use slopgraph::report::{finding_summary, render, render_evidence};

fn node(label: &str, annotation: Option<&str>, is_subject: bool) -> PathNode {
    PathNode { label: label.to_string(), annotation: annotation.map(|a| a.to_string()), is_subject }
}

fn finding(shape: Shape, file: &str, line: u32, span_start: u32, subject: &str, nodes: Vec<PathNode>) -> Finding {
    Finding {
        shape,
        location: Location { file: file.to_string(), line, span_start },
        subject: subject.to_string(),
        evidence: Evidence::Path { nodes },
    }
}

#[test]
fn empty_report_is_empty() {
    assert_eq!(render(&[]), "");
}

#[test]
fn unreaching_test_card() {
    let f = finding(
        Shape::UnreachingTest,
        "tests/unreached.test.ts",
        1,
        0,
        "src/unreached.ts",
        vec![node("tests/unreached.test.ts", None, false), node("src/unreached.ts", None, true)],
    );
    assert_eq!(
        render(&[f]),
        "tests/unreached.test.ts\n\nUNREACHING TEST\nsubject: src/unreached.ts  (line 1)\nTest 'tests/unreached.test.ts' imports 'src/unreached.ts' but makes zero typed calls to it.\ntests/unreached.test.ts\n     │\n     ▼\nsrc/unreached.ts  ←── finding\n"
    );
}

#[test]
fn findings_grouped_by_file() {
    let findings = vec![
        finding(Shape::Unreachable, "src/a.ts", 3, 10, "dead", vec![node("dead", None, true)]),
        finding(Shape::Unreachable, "src/a.ts", 7, 50, "gone", vec![node("gone", None, true)]),
        finding(Shape::Unreachable, "src/b.ts", 1, 0, "src/b.ts", vec![node("src/b.ts", None, true)]),
    ];
    assert_eq!(
        render(&findings),
        "src/a.ts\n\nUNREACHABLE\nsubject: dead  (line 3)\nFunction 'dead' is not reachable from any entry point.\ndead  ←── finding\n\nUNREACHABLE\nsubject: gone  (line 7)\nFunction 'gone' is not reachable from any entry point.\ngone  ←── finding\n\nsrc/b.ts\n\nUNREACHABLE\nsubject: src/b.ts  (line 1)\nFile 'src/b.ts' is not reachable from any entry point.\nsrc/b.ts  ←── finding\n"
    );
}

#[test]
fn annotated_evidence() {
    let f = finding(
        Shape::TrampData,
        "src/a.ts",
        2,
        5,
        "p",
        vec![node("mid", Some("passes p"), true), node("target", None, false)],
    );
    let mut out = String::new();
    render_evidence(&mut out, &f);
    assert_eq!(out, "mid  ←── finding\n     │  passes p\n     ▼\ntarget\n");
    assert_eq!(finding_summary(&f), "Parameter 'p' in 'mid' is forwarded to 'target' without local use.");
}

#[test]
fn summaries_per_shape() {
    let two = |a: &str, b: &str| vec![node(a, None, true), node(b, None, false)];
    assert_eq!(
        finding_summary(&finding(Shape::SingleUseChain, "f", 1, 0, "b", vec![node("a", None, false), node("b", None, true), node("c", None, false)])),
        "Chain of 3 functions with exactly one caller per function."
    );
    assert_eq!(finding_summary(&finding(Shape::EmptyWrapper, "f", 1, 0, "w", two("w", "t"))), "Function 'w' only forwards calls to 't'.");
    assert_eq!(
        finding_summary(&finding(Shape::EmptyWrapper, "f", 1, 0, "w", vec![node("w", None, true)])),
        "Function 'w' only forwards calls to another function."
    );
    assert_eq!(
        finding_summary(&finding(Shape::FalseSharing, "f", 1, 0, "e", two("e", "g"))),
        "Export 'e' is imported only within a single consumer group."
    );
    assert_eq!(
        finding_summary(&finding(Shape::NearDuplicate, "f", 1, 0, "a", two("a", "b"))),
        "Function 'a' has nearly identical implementation to 'b'."
    );
    assert_eq!(
        finding_summary(&finding(Shape::TypeClone, "f", 1, 0, "A", two("A", "B"))),
        "Type 'A' has identical fields and types to 'B' without inheritance."
    );
    assert_eq!(
        finding_summary(&finding(Shape::Unreachable, "src/x.ts", 1, 0, "x.tsx", vec![node("x.tsx", None, true)])),
        "File 'x.tsx' is not reachable from any entry point."
    );
}

#[test]
fn report_order_is_file_span_subject() {
    let v = vec![
        finding(Shape::Unreachable, "src/b.ts", 1, 0, "z", vec![]),
        finding(Shape::Unreachable, "src/a.ts", 1, 9, "y", vec![]),
        finding(Shape::Unreachable, "src/a.ts", 1, 9, "x", vec![]),
        finding(Shape::Unreachable, "src/a/c.ts", 1, 0, "w", vec![]),
    ];
    let sorted = sort_findings(v);
    let keys: Vec<_> = sorted.iter().map(|f| (f.location.file.as_str(), f.subject.as_str())).collect();
    assert_eq!(keys, vec![("src/a/c.ts", "w"), ("src/a.ts", "x"), ("src/a.ts", "y"), ("src/b.ts", "z")]);
}
