use slopgraph::canonical::{canonicalize_type, Keyword, LiteralType, Member, Param, TupleElement, TypeExpr, TypeName};
use slopgraph::finding::{Evidence, Shape};
use slopgraph::type_clone::{alias_candidate, detect, interface_candidate, TypeCandidate};

fn kw(k: Keyword) -> TypeExpr {
    TypeExpr::Keyword(k)
}

fn named(n: &str) -> TypeExpr {
    TypeExpr::Reference(TypeName::Ident(n.to_string()), None)
}

fn prop(name: &str, ty: TypeExpr) -> Member {
    Member::Property(Some(name.to_string()), false, false, Some(ty))
}

fn opt_prop(name: &str, ty: TypeExpr) -> Member {
    Member::Property(Some(name.to_string()), true, false, Some(ty))
}

fn ro_prop(name: &str, ty: TypeExpr) -> Member {
    Member::Property(Some(name.to_string()), false, true, Some(ty))
}

fn method(name: &str, params: Vec<(&str, TypeExpr)>, ret: TypeExpr) -> Member {
    Member::Method(
        Some(name.to_string()),
        false,
        params.into_iter().map(|(n, t)| Param { name: Some(n.to_string()), optional: false, annotation: Some(t) }).collect(),
        Some(ret),
    )
}

fn iface(file: &str, name: &str, span: u32, extends: bool, members: Vec<Member>) -> TypeCandidate {
    interface_candidate(file.to_string(), file.to_string(), name.to_string(), 1, span, extends, &members)
}

fn alias(file: &str, name: &str, span: u32, ty: TypeExpr) -> Option<TypeCandidate> {
    alias_candidate(file.to_string(), file.to_string(), name.to_string(), 1, span, &ty)
}

fn string_number_boolean(a: &str, b: &str, c: &str) -> Vec<Member> {
    vec![prop(a, kw(Keyword::String)), prop(b, kw(Keyword::Number)), prop(c, kw(Keyword::Boolean))]
}

#[test]
fn same_name_in_same_file_is_not_a_clone() {
    let cands = vec![
        iface("a.ts", "Same", 10, false, string_number_boolean("a", "b", "c")),
        iface("a.ts", "Same", 90, false, string_number_boolean("a", "b", "c")),
    ];
    assert_eq!(detect(&cands).len(), 0);
    let other_file = vec![
        iface("a.ts", "Same", 10, false, string_number_boolean("a", "b", "c")),
        iface("b.ts", "Same", 10, false, string_number_boolean("a", "b", "c")),
    ];
    assert_eq!(detect(&other_file).len(), 1);
}

#[test]
fn canonical_texts() {
    let union = TypeExpr::Union(vec![
        kw(Keyword::String),
        TypeExpr::Parenthesized(Box::new(TypeExpr::Union(vec![kw(Keyword::Number), kw(Keyword::String)]))),
    ]);
    assert_eq!(canonicalize_type(&union), "number | string");
    let arr = TypeExpr::Array(Box::new(TypeExpr::Reference(TypeName::Ident("Map".to_string()), Some(vec![kw(Keyword::String), kw(Keyword::Any)]))));
    assert_eq!(canonicalize_type(&arr), "Map<string, any>[]");
    let obj = TypeExpr::Object(vec![opt_prop("b", kw(Keyword::Null)), ro_prop("a", kw(Keyword::Never)), Member::Other]);
    assert_eq!(canonicalize_type(&obj), "{ readonly a: never; b?: null }");
    let func = TypeExpr::Function(
        vec![Param { name: None, optional: true, annotation: None }, Param { name: Some("x".to_string()), optional: false, annotation: Some(kw(Keyword::Symbol)) }],
        Box::new(kw(Keyword::Void)),
    );
    assert_eq!(canonicalize_type(&func), "(_?: any, x: symbol) => void");
    let tuple = TypeExpr::Tuple(vec![
        TupleElement::Plain(kw(Keyword::BigInt)),
        TupleElement::Optional(kw(Keyword::Undefined)),
        TupleElement::Rest(kw(Keyword::Unknown)),
        TupleElement::Named("n".to_string(), true, Box::new(TupleElement::Plain(kw(Keyword::Object)))),
    ]);
    assert_eq!(canonicalize_type(&tuple), "[bigint, undefined?, ...unknown, n?: object]");
    let lit = TypeExpr::Union(vec![
        TypeExpr::Literal(LiteralType::Str("x".to_string())),
        TypeExpr::Literal(LiteralType::Bool(true)),
        TypeExpr::Literal(LiteralType::BigInt(None)),
        TypeExpr::Literal(LiteralType::Template(vec!["a".to_string(), "b".to_string()])),
    ]);
    assert_eq!(canonicalize_type(&lit), "\"x\" | 0n | `ab` | true");
    let qualified = TypeExpr::Reference(TypeName::Qualified(Box::new(TypeName::Ident("A".to_string())), "B".to_string()), None);
    assert_eq!(canonicalize_type(&qualified), "A.B");
    assert_eq!(canonicalize_type(&TypeExpr::Other), "unknown");
}

#[test]
fn clone_pairs_do_not_depend_on_input_order() {
    let a = || iface("src/a.ts", "A", 10, false, string_number_boolean("x", "y", "z"));
    let b = || {
        iface(
            "src/b.ts",
            "B",
            20,
            false,
            vec![prop("z", kw(Keyword::Boolean)), prop("x", kw(Keyword::String)), prop("y", kw(Keyword::Number))],
        )
    };
    let forward = detect(&vec![a(), b()]);
    let backward = detect(&vec![b(), a()]);
    assert_eq!(forward.len(), 1);
    assert_eq!(forward, backward);
    assert_eq!(forward[0].subject, "A");
}
