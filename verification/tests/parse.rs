use slopgraph::parse::{
    line_at, module_facts, parse_module, parse_program, DefaultExported, Declared, ImportSpec, ImportedName,
    ModuleStatement, SpannedName,
};

fn sn(name: &str, span_start: u32) -> SpannedName {
    SpannedName { name: name.to_string(), span_start }
}

#[test]
fn lines_of_offsets() {
    let src = "a\nbé\nc";
    assert_eq!(line_at(src, 0), 1);
    assert_eq!(line_at(src, 2), 2);
    assert_eq!(line_at(src, 4), 2);
    assert_eq!(line_at(src, 6), 3);
    assert_eq!(line_at(src, 100), 3);
}

#[test]
fn module_exports_and_imports() {
    let source = "import a from './a';\nexport function f() {}\nexport default class {}\nexport * from './b';\n";
    let statements = vec![
        ModuleStatement::Import("./a".to_string(), Some(vec![ImportSpec::Default, ImportSpec::Named("x".to_string())])),
        ModuleStatement::Import("./side".to_string(), None),
        ModuleStatement::ExportDeclaration(Declared::FunctionOrClass(Some(sn("f", 37)))),
        ModuleStatement::ExportDeclaration(Declared::Variables(vec![Some(sn("v", 40)), None])),
        ModuleStatement::ExportDefault(DefaultExported::FunctionOrClass(None), 44),
        ModuleStatement::ExportFrom("./c".to_string(), vec![(sn("y", 50), "z".to_string())]),
        ModuleStatement::ExportAll("./b".to_string(), None),
        ModuleStatement::ExportAll("./d".to_string(), Some(sn("ns", 60))),
        ModuleStatement::Other,
    ];
    let p = module_facts("/p/m.ts", source, &statements);
    assert_eq!(p.abs, "/p/m.ts");
    let exports: Vec<_> = p.exports.iter().map(|e| (e.name.as_str(), e.display.as_str(), e.line, e.span_start)).collect();
    assert_eq!(
        exports,
        vec![("f", "f", 2, 37), ("v", "v", 2, 40), ("default", "default", 3, 44), ("y", "y", 3, 50), ("ns", "ns", 3, 60)]
    );
    assert_eq!(p.imports.len(), 5);
    assert_eq!(p.imports[0].specifier, "./a");
    assert!(matches!(p.imports[0].names[0], ImportedName::Default));
    assert!(matches!(&p.imports[0].names[1], ImportedName::Named(n) if n == "x"));
    // A side-effect import still imports its module, with no names.
    assert_eq!(p.imports[1].specifier, "./side");
    assert!(p.imports[1].names.is_empty());
    assert!(matches!(&p.imports[2].names[0], ImportedName::Named(n) if n == "z"));
    assert!(matches!(p.imports[3].names[0], ImportedName::StarReexport));
    assert!(matches!(p.imports[4].names[0], ImportedName::Namespace));
}

#[test]
fn default_interface_is_named() {
    let statements = vec![ModuleStatement::ExportDefault(DefaultExported::Interface(sn("Shape", 25)), 0)];
    let p = module_facts("/p/i.ts", "export default interface Shape {}", &statements);
    assert_eq!(p.exports[0].name, "default");
    assert_eq!(p.exports[0].display, "Shape");
    assert_eq!(p.exports[0].span_start, 25);
}

#[test]
fn parses_module_text() {
    let source = "import \"./a_file\";\nimport { x as y } from './x';\nexport const v = 1, { w } = o;\nexport { y as z };\nexport default function main() {}\n";
    let p = parse_module("/p/index.ts", source);
    let imports: Vec<_> = p.imports.iter().map(|i| (i.specifier.as_str(), i.names.len())).collect();
    assert_eq!(imports, vec![("./a_file", 0), ("./x", 1)]);
    assert!(matches!(&p.imports[1].names[0], ImportedName::Named(n) if n == "x"));
    let exports: Vec<_> = p.exports.iter().map(|e| (e.name.as_str(), e.display.as_str(), e.line)).collect();
    assert_eq!(exports, vec![("v", "v", 3), ("z", "z", 4), ("default", "main", 5)]);
}

#[test]
fn parses_every_module_in_order() {
    let files = vec!["/p/a.ts".to_string(), "/p/b.ts".to_string()];
    let sources = vec!["export * from './b';".to_string(), "export interface T {}".to_string()];
    let all = parse_program(&files, &sources);
    assert_eq!(all.len(), 2);
    assert_eq!(all[0].abs, "/p/a.ts");
    assert!(matches!(all[0].imports[0].names[0], ImportedName::StarReexport));
    assert_eq!(all[1].exports[0].name, "T");
}

#[test]
fn empty_import_lists_import_nothing() {
    let p = parse_module("/p/index.ts", "import {} from './x';\nimport './y';\n");
    let imports: Vec<_> = p.imports.iter().map(|i| (i.specifier.as_str(), i.names.len())).collect();
    assert_eq!(imports, vec![("./y", 0)]);
}
