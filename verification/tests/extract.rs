use slopgraph::canonical::{Keyword, Member, TypeExpr, TypeName};
use slopgraph::extract::{reference_names_of, requests_in_nodes, types_in_nodes};
use slopgraph::parse::SpannedName;
use slopgraph::syntax::{NodeData, SyntaxNode, TypeBody};

fn n(parent: usize, start: u32, data: NodeData) -> SyntaxNode {
    SyntaxNode { kind: 0, parent, start, end: start + 1, data }
}

fn prop(name: &str, ty: TypeExpr) -> Member {
    Member::Property(Some(name.to_string()), false, false, Some(ty))
}

#[test]
fn reference_names_are_spelled_by_child_nodes() {
    // type T = A.B.C; then a reference to `this.x`, a bare `D`, and a reference with no child.
    let ns = vec![
        n(0, 0, NodeData::Other),
        n(0, 10, NodeData::TypeReference),
        n(1, 10, NodeData::Qualified("C".to_string())),
        n(2, 10, NodeData::Qualified("B".to_string())),
        n(3, 10, NodeData::Identifier("A".to_string())),
        n(0, 20, NodeData::TypeReference),
        n(5, 20, NodeData::Qualified("x".to_string())),
        n(6, 20, NodeData::This),
        n(0, 30, NodeData::TypeReference),
        n(8, 30, NodeData::Identifier("D".to_string())),
        n(0, 40, NodeData::TypeReference),
    ];
    let names = reference_names_of(&ns);
    assert_eq!(names, vec!["", "A.B.C", "", "", "", "this.x", "", "", "D", "", ""]);
}

#[test]
fn type_candidates_take_the_body_of_their_node() {
    let source = "interface I {}\ntype O = {}\ntype U = {}\n";
    let ns = vec![
        n(0, 0, NodeData::Other),
        n(0, 10, NodeData::Interface(SpannedName { name: "I".to_string(), span_start: 10 }, false)),
        n(0, 22, NodeData::Alias(SpannedName { name: "O".to_string(), span_start: 22 })),
        n(0, 34, NodeData::Alias(SpannedName { name: "U".to_string(), span_start: 34 })),
    ];
    let bodies = vec![
        TypeBody::Nothing,
        TypeBody::Members(vec![prop("a", TypeExpr::Keyword(Keyword::String))]),
        TypeBody::Alias(TypeExpr::Object(vec![prop("b", TypeExpr::Reference(TypeName::Ident("X.Y".to_string()), None))])),
        TypeBody::Alias(TypeExpr::Keyword(Keyword::Number)),
    ];
    let types = types_in_nodes("/p/t.ts", "t.ts", source, &ns, &bodies);
    let seen: Vec<(&str, u32, usize, &str)> =
        types.iter().map(|t| (t.name.as_str(), t.line, t.fields.len(), t.fields[0].canonical_type.as_str())).collect();
    assert_eq!(seen, vec![("I", 1, 1, "string"), ("O", 2, 1, "X.Y")]);
}

#[test]
fn requests_are_the_top_level_imports() {
    let source = "import a from './a';\nexport * from './b';\n";
    let ns = vec![
        n(0, 0, NodeData::Other),
        n(0, 0, NodeData::Request("./a".to_string())),
        n(0, 21, NodeData::Request("./b".to_string())),
        n(2, 30, NodeData::Request("./nested".to_string())),
    ];
    let rs: Vec<(String, u32, u32)> =
        requests_in_nodes(source, &ns).into_iter().map(|q| (q.specifier, q.span_start, q.line)).collect();
    assert_eq!(rs, vec![("./a".to_string(), 0, 1), ("./b".to_string(), 21, 2)]);
}
