use slopgraph::style::{paint_for, Colour, Paint};
use slopgraph::finding::{Evidence, Finding, Location, PathNode, Shape};
use slopgraph::report::render;
use slopgraph::style::{report_pieces, Role};

fn node(label: &str, annotation: Option<&str>, is_subject: bool) -> PathNode {
    PathNode { label: label.to_string(), annotation: annotation.map(|a| a.to_string()), is_subject }
}

fn finding(shape: Shape, file: &str, line: u32, subject: &str, nodes: Vec<PathNode>) -> Finding {
    Finding {
        shape,
        location: Location { file: file.to_string(), line, span_start: 0 },
        subject: subject.to_string(),
        evidence: Evidence::Path { nodes },
    }
}

fn sample() -> Vec<Finding> {
    vec![
        finding(
            Shape::SingleUseChain,
            "src/a.ts",
            4,
            "first",
            vec![node("first (src/a.ts:4)", Some("only caller"), true), node("second (src/a.ts:9)", None, false)],
        ),
        finding(Shape::Unreachable, "src/b.ts", 1, "src/b.ts", vec![node("src/b.ts", None, true)]),
    ]
}

#[test]
fn pieces_spell_the_plain_report() {
    let findings = sample();
    let spelled: String = report_pieces(&findings).iter().map(|p| p.text.as_str()).collect();
    assert_eq!(spelled, render(&findings));
}

#[test]
fn pieces_carry_their_roles() {
    let findings = sample();
    let pieces = report_pieces(&findings);
    let of = |role: Role| -> Vec<&str> { pieces.iter().filter(|p| p.role == role).map(|p| p.text.as_str()).collect() };
    assert_eq!(of(Role::FileHeader), vec!["src/a.ts", "src/b.ts"]);
    assert_eq!(of(Role::Heading(Shape::SingleUseChain)), vec!["SINGLE-USE CHAIN"]);
    assert_eq!(of(Role::Heading(Shape::Unreachable)), vec!["UNREACHABLE"]);
    assert_eq!(of(Role::Subject), vec!["first", "src/b.ts"]);
    assert_eq!(of(Role::LineNote), vec!["(line 4)", "(line 1)"]);
    assert_eq!(of(Role::SubjectNode), vec!["first (src/a.ts:4)", "src/b.ts"]);
    assert_eq!(of(Role::Paren), vec!["(src/a.ts:9)"]);
    assert_eq!(of(Role::Annotation), vec!["only caller"]);
    assert_eq!(of(Role::Marker).len(), 2);
    assert_eq!(of(Role::Arrow), vec!["▼"]);
}

#[test]
fn no_findings_no_pieces() {
    assert!(report_pieces(&[]).is_empty());
}

#[test]
fn roles_are_painted_by_their_table() {
    assert_eq!(paint_for(Role::Plain), None);
    assert_eq!(
        paint_for(Role::Heading(Shape::TypeClone)),
        Some(Paint { colour: Some(Colour::BrightMagenta), bold: true, italic: false, underline: false, dimmed: false })
    );
    assert_eq!(
        paint_for(Role::FileHeader),
        Some(Paint { colour: Some(Colour::Cyan), bold: true, italic: false, underline: true, dimmed: false })
    );
    assert_eq!(paint_for(Role::Bar).map(|p| (p.colour, p.dimmed)), Some((None, true)));
    assert_eq!(paint_for(Role::Annotation).map(|p| (p.colour, p.italic)), Some((Some(Colour::BrightCyan), true)));
}
