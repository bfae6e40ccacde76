use std::path::PathBuf;

use slopgraph::extract::collect_types_in_file as types_of;
use slopgraph::finding::{Evidence, Finding, Shape};
use slopgraph::type_clone::{detect, TypeCandidate};

/// The type candidates of one file, read from its text.
fn collect_types_in_file(abs: &PathBuf, display: &PathBuf, source: &str) -> Vec<TypeCandidate> {
    types_of(abs.to_str().unwrap(), display.to_str().unwrap(), source)
}

/// The type-clone findings of the files, read from their text.
fn analyze_types(files: &[(&str, &str)]) -> Vec<Finding> {
    let mut candidates = Vec::new();
    for (rel_path, source) in files {
        let path = PathBuf::from(rel_path);
        candidates.extend(collect_types_in_file(&path, &path, source));
    }
    detect(&candidates)
}
#[test]
fn test_interface_pair_positive() {
    let code = r#"
    interface UserA {
        id: string;
        name: string;
        age: number;
    }
    interface UserB {
        id: string;
        name: string;
        age: number;
    }
    "#;
    let findings = analyze_types(&[("types.ts", code)]);
    assert_eq!(findings.len(), 1);
    assert_eq!(findings[0].shape, Shape::TypeClone);
    assert_eq!(findings[0].subject, "UserA");

    let Evidence::Path { nodes } = &findings[0].evidence;
    assert_eq!(nodes.len(), 2);
    assert_eq!(nodes[0].label, "UserA");
    assert!(nodes[0].is_subject);
    assert_eq!(nodes[1].label, "UserB");
    assert!(!nodes[1].is_subject);
}

#[test]
fn test_type_alias_and_interface_positive() {
    let code = r#"
    interface ProductInfo {
        sku: string;
        price: number;
        inStock: boolean;
    }
    type ProductData = {
        sku: string;
        price: number;
        inStock: boolean;
    };
    "#;
    let findings = analyze_types(&[("products.ts", code)]);
    assert_eq!(findings.len(), 1);
    assert_eq!(findings[0].subject, "ProductInfo");

    let Evidence::Path { nodes } = &findings[0].evidence;
    assert_eq!(nodes[0].label, "ProductInfo");
    assert_eq!(nodes[1].label, "ProductData");
}

#[test]
fn test_type_alias_pair_positive() {
    let code = r#"
    type ConfigA = {
        host: string;
        port: number;
        ssl: boolean;
    };
    type ConfigB = {
        host: string;
        port: number;
        ssl: boolean;
    };
    "#;
    let findings = analyze_types(&[("config.ts", code)]);
    assert_eq!(findings.len(), 1);
    assert_eq!(findings[0].subject, "ConfigA");
}

#[test]
fn test_field_permutation_order_independent() {
    let code = r#"
    interface CoordinateXYZ {
        x: number;
        y: number;
        z: number;
    }
    interface CoordinateZYX {
        z: number;
        y: number;
        x: number;
    }
    "#;
    let findings = analyze_types(&[("coords.ts", code)]);
    assert_eq!(findings.len(), 1);
    assert_eq!(findings[0].subject, "CoordinateXYZ");
}

#[test]
fn test_union_order_independent() {
    let code = r#"
    interface UnionTypeA {
        id: string;
        value: string | number;
        active: boolean;
    }
    interface UnionTypeB {
        id: string;
        value: number | string;
        active: boolean;
    }
    "#;
    let findings = analyze_types(&[("union.ts", code)]);
    assert_eq!(findings.len(), 1);
    assert_eq!(findings[0].subject, "UnionTypeA");
}

#[test]
fn test_intersection_order_independent() {
    let code = r#"
    interface Foo {}
    interface Bar {}
    interface InterA {
        id: string;
        mix: Foo & Bar;
        flag: boolean;
    }
    interface InterB {
        id: string;
        mix: Bar & Foo;
        flag: boolean;
    }
    "#;
    let findings = analyze_types(&[("inter.ts", code)]);
    assert_eq!(findings.len(), 1);
    assert_eq!(findings[0].subject, "InterA");
}

#[test]
fn test_fewer_than_3_fields_rejected() {
    let code = r#"
    interface PairA {
        a: string;
        b: number;
    }
    interface PairB {
        a: string;
        b: number;
    }
    interface SingleA {
        value: string;
    }
    interface SingleB {
        value: string;
    }
    "#;
    let findings = analyze_types(&[("pairs.ts", code)]);
    assert_eq!(findings.len(), 0);
}

#[test]
fn test_extends_interface_rejected() {
    let code = r#"
    interface Base {
        id: string;
        name: string;
        email: string;
    }
    interface Sub extends Base {
        id: string;
        name: string;
        email: string;
    }
    "#;
    let findings = analyze_types(&[("extends.ts", code)]);
    assert_eq!(findings.len(), 0);
}

#[test]
fn test_intersection_type_alias_rejected() {
    let code = r#"
    type Base = {
        id: string;
    };
    type Sub = Base & {
        name: string;
        email: string;
        role: string;
    };
    "#;
    let path = PathBuf::from("inter_alias.ts");
    let candidates = collect_types_in_file(&path, &path, code);
    let sub_candidate = candidates.iter().find(|c| c.name == "Sub").unwrap();
    assert!(sub_candidate.has_extends);
}

#[test]
fn test_optionality_mismatch_rejected() {
    let code = r#"
    interface Req {
        a: string;
        b: number;
        c: boolean;
    }
    interface Opt {
        a?: string;
        b: number;
        c: boolean;
    }
    "#;
    let findings = analyze_types(&[("opt.ts", code)]);
    assert_eq!(findings.len(), 0);
}

#[test]
fn test_readonly_mismatch_rejected() {
    let code = r#"
    interface Mutable {
        a: string;
        b: number;
        c: boolean;
    }
    interface Immutable {
        readonly a: string;
        b: number;
        c: boolean;
    }
    "#;
    let findings = analyze_types(&[("ro.ts", code)]);
    assert_eq!(findings.len(), 0);
}

#[test]
fn test_field_type_mismatch_rejected() {
    let code = r#"
    interface NumType {
        a: number;
        b: string;
        c: boolean;
    }
    interface StrType {
        a: string;
        b: string;
        c: boolean;
    }
    "#;
    let findings = analyze_types(&[("types.ts", code)]);
    assert_eq!(findings.len(), 0);
}

#[test]
fn test_field_name_mismatch_rejected() {
    let code = r#"
    interface XYZ {
        x: number;
        y: number;
        z: number;
    }
    interface UVW {
        u: number;
        v: number;
        w: number;
    }
    "#;
    let findings = analyze_types(&[("coords.ts", code)]);
    assert_eq!(findings.len(), 0);
}

#[test]
fn test_nested_type_literal_order_independence() {
    let code = r#"
    interface NestedA {
        id: string;
        meta: { a: number; b: string };
        valid: boolean;
    }
    interface NestedB {
        id: string;
        meta: { b: string; a: number };
        valid: boolean;
    }
    "#;
    let findings = analyze_types(&[("nested.ts", code)]);
    assert_eq!(findings.len(), 1);
    assert_eq!(findings[0].subject, "NestedA");
}

#[test]
fn test_method_signatures_matching() {
    let code = r#"
    interface ServiceA {
        init(config: string): void;
        run(timeout: number): boolean;
        stop(): void;
    }
    interface ServiceB {
        init(config: string): void;
        run(timeout: number): boolean;
        stop(): void;
    }
    "#;
    let findings = analyze_types(&[("service.ts", code)]);
    assert_eq!(findings.len(), 1);
    assert_eq!(findings[0].subject, "ServiceA");
}

#[test]
fn test_cross_file_type_clones() {
    let file1 = r#"
    export interface ConfigDTO {
        host: string;
        port: number;
        tls: boolean;
    }
    "#;
    let file2 = r#"
    export interface ServerConfig {
        host: string;
        port: number;
        tls: boolean;
    }
    "#;
    let findings = analyze_types(&[("src/a.ts", file1), ("src/b.ts", file2)]);
    assert_eq!(findings.len(), 1);
    assert_eq!(findings[0].subject, "ConfigDTO");

    let Evidence::Path { nodes } = &findings[0].evidence;
    assert_eq!(nodes[0].label, "ConfigDTO");
    assert_eq!(nodes[1].label, "ServerConfig");
}


#[test]
fn qualified_type_names_are_read_from_their_parts() {
    let code = r#"
    interface A {
        x: NS.Inner<string>;
        y: NS . /* note */ Other;
        w: number;
    }
    type B = {
        x: NS.Inner<string>;
        y: NS.Other;
        w: number;
    };
    "#;
    let types = collect_types_in_file(&PathBuf::from("t.ts"), &PathBuf::from("t.ts"), code);
    assert_eq!(types.len(), 2);
    let texts: Vec<&str> = types[0].fields.iter().map(|f| f.canonical_type.as_str()).collect();
    assert_eq!(texts, vec!["number", "NS.Inner<string>", "NS.Other"]);
    let findings = analyze_types(&[("t.ts", code)]);
    assert_eq!(findings.len(), 1);
    assert_eq!(findings[0].subject, "A");
}
