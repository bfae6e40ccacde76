//! The parser: oxc reads a file's text, and its syntax is handed to the
//! library as plain values.

use vstd::prelude::*;

use oxc::allocator::Allocator;
use oxc::ast::ast::{
    Argument, BindingPattern, Declaration, ExportDefaultDeclarationKind, Expression, FormalParameters,
    ImportDeclarationSpecifier, ModuleExportName, PropertyKey, Statement, TSLiteral, TSSignature, TSTupleElement,
    TSType, TSTypeAnnotation, TSTypeName, TSTypeQueryExprName,
};
use oxc::ast::AstKind;
use oxc::parser::config::TokensParserConfig;
use oxc::parser::{Kind, Parser, Token};
use oxc::semantic::SemanticBuilder;
use oxc::span::{GetSpan, SourceType};

use crate::call_graph::{ExprShape, StatementShape, Wrapper};
use crate::canonical::{Keyword, LiteralType, Member, Param, QueryName, TupleElement, TypeExpr, TypeName};
use crate::near_duplicate::{LexKind, LexedToken};
use crate::parse::{DefaultExported, Declared, ImportSpec, ModuleStatement, SpannedName};

verus! {

#[verifier::external_type_specification]
#[verifier::external_body]
pub struct ExStatement<'a>(Statement<'a>);

#[verifier::external_type_specification]
#[verifier::external_body]
pub struct ExDeclaration<'a>(Declaration<'a>);

#[verifier::external_type_specification]
#[verifier::external_body]
pub struct ExExportDefaultDeclarationKind<'a>(ExportDefaultDeclarationKind<'a>);

#[verifier::external_type_specification]
#[verifier::external_body]
pub struct ExModuleExportName<'a>(ModuleExportName<'a>);

#[verifier::external_type_specification]
#[verifier::external_body]
pub struct ExImportDeclarationSpecifier<'a>(ImportDeclarationSpecifier<'a>);

#[verifier::external_type_specification]
#[verifier::external_body]
pub struct ExAstKind<'a>(AstKind<'a>);

#[verifier::external_type_specification]
#[verifier::external_body]
pub struct ExExpression<'a>(Expression<'a>);

#[verifier::external_type_specification]
#[verifier::external_body]
pub struct ExArgument<'a>(Argument<'a>);

#[verifier::external_type_specification]
#[verifier::external_body]
pub struct ExBindingPattern<'a>(BindingPattern<'a>);

#[verifier::external_type_specification]
#[verifier::external_body]
#[verifier::reject_recursive_types(T)]
pub struct ExArenaBox<'a, T: ?Sized>(oxc::allocator::Box<'a, T>);

#[verifier::external_type_specification]
#[verifier::external_body]
pub struct ExTSTypeAnnotation<'a>(TSTypeAnnotation<'a>);

#[verifier::external_type_specification]
#[verifier::external_body]
pub struct ExFormalParameters<'a>(FormalParameters<'a>);

#[verifier::external_type_specification]
#[verifier::external_body]
pub struct ExPropertyKey<'a>(PropertyKey<'a>);

#[verifier::external_type_specification]
#[verifier::external_body]
pub struct ExTSLiteral<'a>(TSLiteral<'a>);

#[verifier::external_type_specification]
#[verifier::external_body]
pub struct ExTSSignature<'a>(TSSignature<'a>);

#[verifier::external_type_specification]
#[verifier::external_body]
pub struct ExTSTupleElement<'a>(TSTupleElement<'a>);

#[verifier::external_type_specification]
#[verifier::external_body]
pub struct ExTSType<'a>(TSType<'a>);

#[verifier::external_type_specification]
#[verifier::external_body]
pub struct ExTSTypeName<'a>(TSTypeName<'a>);

#[verifier::external_type_specification]
#[verifier::external_body]
pub struct ExTSTypeQueryExprName<'a>(TSTypeQueryExprName<'a>);

#[verifier::external_type_specification]
#[verifier::external_body]
pub struct ExToken(Token);

/// The top-level statements that oxc's parser finds in `source`, read as a
/// TypeScript module of the kind that `path`'s extension names.
pub uninterp spec fn parsed_statements(path: Seq<char>, source: Seq<char>) -> Seq<ModuleStatement>;

/// Parses `source` with `oxc::parser::Parser` (as a module; TypeScript when
/// `path` has no known extension) and hands over each top-level statement as
/// far as imports and exports go. Trusted: that the result is what the name
/// `parsed_statements` gives for the path and the text, that is, a function
/// of the two alone; nothing is stated of what oxc's grammar makes of them.
#[verifier::external_body]
pub fn parse_statements(path: &str, source: &str) -> (r: Vec<ModuleStatement>)
    ensures
        r@ == parsed_statements(path@, source@),
{
    let allocator = Allocator::new();
    let source_type = SourceType::from_path(path).unwrap_or_else(|_| SourceType::ts()).with_module(true);
    let parsed = Parser::new(&allocator, source, source_type).parse();
    parsed.program.body.iter().map(module_statement).collect()
}

/// Converts one oxc statement to the library's statement model, variant by
/// variant, moving names, sources and span starts across unchanged.
#[verifier::external_body]
fn module_statement(stmt: &Statement<'_>) -> ModuleStatement {
    match stmt {
        Statement::ImportDeclaration(d) => ModuleStatement::Import(
            d.source.value.to_string(),
            d.specifiers.as_ref().map(|specs| specs.iter().map(import_spec).collect()),
        ),
        Statement::ExportDeclaration(d) => ModuleStatement::ExportDeclaration(declared(&d.declaration)),
        Statement::ExportDefaultDeclaration(d) => {
            ModuleStatement::ExportDefault(default_exported(&d.declaration), d.span.start)
        },
        _ => reexport_statement(stmt),
    }
}

/// Converts the export statements that name other exports: `export { .. }`,
/// `export { .. } from`, `export * from`.
#[verifier::external_body]
fn reexport_statement(stmt: &Statement<'_>) -> ModuleStatement {
    match stmt {
        Statement::ExportNamedDeclaration(d) => {
            ModuleStatement::ExportNamed(d.specifiers.iter().map(|s| spanned_export(&s.exported)).collect())
        },
        Statement::ExportFromDeclaration(d) => ModuleStatement::ExportFrom(
            d.source.value.to_string(),
            d.specifiers.iter().map(|s| (spanned_export(&s.exported), export_name(&s.local))).collect(),
        ),
        Statement::ExportAllDeclaration(d) => {
            ModuleStatement::ExportAll(d.source.value.to_string(), d.exported.as_ref().map(spanned_export))
        },
        _ => ModuleStatement::Other,
    }
}

/// Converts an import specifier, keeping the imported name.
#[verifier::external_body]
fn import_spec(spec: &ImportDeclarationSpecifier<'_>) -> ImportSpec {
    match spec {
        ImportDeclarationSpecifier::ImportSpecifier(s) => ImportSpec::Named(export_name(&s.imported)),
        ImportDeclarationSpecifier::ImportDefaultSpecifier(_) => ImportSpec::Default,
        ImportDeclarationSpecifier::ImportNamespaceSpecifier(_) => ImportSpec::Namespace,
    }
}

/// The text of a module export name.
#[verifier::external_body]
fn export_name(name: &ModuleExportName<'_>) -> String {
    match name {
        ModuleExportName::IdentifierName(id) => id.name.to_string(),
        ModuleExportName::IdentifierReference(id) => id.name.to_string(),
        ModuleExportName::StringLiteral(s) => s.value.to_string(),
    }
}

/// A module export name with where it starts.
#[verifier::external_body]
fn spanned_export(name: &ModuleExportName<'_>) -> SpannedName {
    let span_start = match name {
        ModuleExportName::IdentifierName(id) => id.span.start,
        ModuleExportName::IdentifierReference(id) => id.span.start,
        ModuleExportName::StringLiteral(s) => s.span.start,
    };
    SpannedName { name: export_name(name), span_start }
}

/// Converts what an `export` declaration declares: function and class
/// names, directly bound variable names; type names in `declared_type`.
#[verifier::external_body]
fn declared(decl: &Declaration<'_>) -> Declared {
    match decl {
        Declaration::FunctionDeclaration(f) => {
            Declared::FunctionOrClass(f.id.as_ref().map(|id| spanned(id.name.as_str(), id.span.start)))
        },
        Declaration::ClassDeclaration(c) => {
            Declared::FunctionOrClass(c.id.as_ref().map(|id| spanned(id.name.as_str(), id.span.start)))
        },
        Declaration::VariableDeclaration(v) => {
            Declared::Variables(v.declarations.iter().map(|d| binding_name(&d.id)).collect())
        },
        _ => declared_type(decl),
    }
}

/// Converts a type alias, interface or enum declaration to its name.
#[verifier::external_body]
fn declared_type(decl: &Declaration<'_>) -> Declared {
    match decl {
        Declaration::TSTypeAliasDeclaration(t) => Declared::Type(spanned(t.id.name.as_str(), t.id.span.start)),
        Declaration::TSInterfaceDeclaration(i) => Declared::Type(spanned(i.id.name.as_str(), i.id.span.start)),
        Declaration::TSEnumDeclaration(e) => Declared::Type(spanned(e.id.name.as_str(), e.id.span.start)),
        _ => Declared::Other,
    }
}

/// A name and where it starts.
#[verifier::external_body]
fn spanned(name: &str, span_start: u32) -> SpannedName {
    SpannedName { name: name.to_string(), span_start }
}

/// The name a binding pattern binds directly, with its start.
#[verifier::external_body]
fn binding_name(pattern: &BindingPattern<'_>) -> Option<SpannedName> {
    match pattern {
        BindingPattern::BindingIdentifier(id) => Some(spanned(id.name.as_str(), id.span.start)),
        _ => None,
    }
}

/// Converts what `export default` exports.
#[verifier::external_body]
fn default_exported(kind: &ExportDefaultDeclarationKind<'_>) -> DefaultExported {
    match kind {
        ExportDefaultDeclarationKind::FunctionDeclaration(f) => {
            DefaultExported::FunctionOrClass(f.id.as_ref().map(|id| spanned(id.name.as_str(), id.span.start)))
        },
        ExportDefaultDeclarationKind::ClassDeclaration(c) => {
            DefaultExported::FunctionOrClass(c.id.as_ref().map(|id| spanned(id.name.as_str(), id.span.start)))
        },
        ExportDefaultDeclarationKind::TSInterfaceDeclaration(i) => {
            DefaultExported::Interface(spanned(i.id.name.as_str(), i.id.span.start))
        },
        _ => DefaultExported::Other,
    }
}

/// A function-like node: whether it is an arrow, whether it is only a
/// declaration (no body to run), its name, the span of its body, the
/// statements of a block body, and its parameters (named ones with their
/// start, `None` for patterns).
#[derive(Debug)]
pub struct Callable {
    pub arrow: bool,
    pub declare_only: bool,
    pub id: Option<SpannedName>,
    pub body: Option<(u32, u32)>,
    pub statements: Option<Vec<StatementShape>>,
    pub params: Vec<Option<SpannedName>>,
}

/// What the detectors read of a syntax node.
#[derive(Debug)]
pub enum NodeData {
    Callable(Callable),
    /// A call: where it starts, and its arguments.
    Call(u32, Vec<ExprShape>),
    /// A variable declarator, with its name when it binds one directly.
    Declarator(Option<String>),
    /// A reference to an identifier.
    Identifier(String),
    /// An `export` of a declaration.
    ExportDeclaration,
    /// A local `export { .. }` list.
    ExportNamed,
    /// An `export default` declaration.
    ExportDefault,
    /// A block body of a function-like.
    Body,
    /// A directive such as `"use strict"`.
    Directive,
    /// An import or re-export statement, with the module it names.
    Request(String),
    /// An interface: its name and whether it extends anything.
    Interface(SpannedName, bool),
    /// A type alias: its name.
    Alias(SpannedName),
    /// A type reference; its first child is the name it refers by.
    TypeReference,
    /// A qualified type name: its right-hand part; its first child is the left-hand part.
    Qualified(String),
    /// `this`.
    This,
    Other,
}

/// A syntax node: its kind number, its parent's index, its span and what
/// the detectors read of it. Nodes come in the order a walk of the tree
/// enters them.
#[derive(Debug)]
pub struct SyntaxNode {
    pub kind: u32,
    pub parent: usize,
    pub start: u32,
    pub end: u32,
    pub data: NodeData,
}

/// The nodes of the syntax tree that oxc's parser and semantic builder make
/// of `source`, read as the module at `path`.
pub uninterp spec fn parsed_nodes(path: Seq<char>, source: Seq<char>) -> Seq<SyntaxNode>;

/// Parses `source` with `oxc::parser::Parser` and walks the tree with
/// `oxc::semantic::SemanticBuilder`, handing over every node in the order the
/// walk enters it, with its parent's index. Trusted: that the result is what
/// the name `parsed_nodes` gives for the path and the text; nothing is
/// stated of the tree's shape.
#[verifier::external_body]
pub fn parse_nodes(path: &str, source: &str) -> (r: Vec<SyntaxNode>)
    ensures
        r@ == parsed_nodes(path@, source@),
{
    let allocator = Allocator::new();
    let source_type = SourceType::from_path(path).unwrap_or_else(|_| SourceType::ts()).with_module(true);
    let parsed = Parser::new(&allocator, source, source_type).parse();
    let built = SemanticBuilder::new().with_build_nodes(true).build(&parsed.program);
    let nodes = built.semantic.nodes();
    nodes.iter().map(|n| syntax_node(n.kind(), nodes.parent_id(n.id()).index())).collect()
}

/// The tokens that oxc's lexer makes of `source`, read as the module at `path`.
pub uninterp spec fn lexed_tokens(path: Seq<char>, source: Seq<char>) -> Seq<LexedToken>;

/// Parses `source` with `oxc::parser::Parser`, collecting its tokens, and
/// hands each over with its span, its kind, oxc's own identifier and literal
/// tests of that kind, and its text. Trusted: that the result is what the
/// name `lexed_tokens` gives for the path and the text.
#[verifier::external_body]
pub fn lex_tokens(path: &str, source: &str) -> (r: Vec<LexedToken>)
    ensures
        r@ == lexed_tokens(path@, source@),
{
    let allocator = Allocator::new();
    let source_type = SourceType::from_path(path).unwrap_or_else(|_| SourceType::ts()).with_module(true);
    let parsed = Parser::new(&allocator, source, source_type).with_config(TokensParserConfig).parse();
    parsed.tokens.iter().map(|t| lexed_token(source, t)).collect()
}

/// Converts one token: its span, its kind, `Kind::is_identifier` and
/// `Kind::is_literal` of that kind, and its text.
#[verifier::external_body]
fn lexed_token(source: &str, token: &Token) -> LexedToken {
    let k = token.kind();
    let kind = match k {
        Kind::Eof => LexKind::Eof,
        Kind::NoSubstitutionTemplate => LexKind::NoSubstitutionTemplate,
        Kind::TemplateHead => LexKind::TemplateHead,
        Kind::TemplateMiddle => LexKind::TemplateMiddle,
        Kind::TemplateTail => LexKind::TemplateTail,
        _ => LexKind::Other,
    };
    let text = source.get(token.start() as usize..token.end() as usize).unwrap_or("").to_string();
    LexedToken { start: token.start(), end: token.end(), kind, identifier: k.is_identifier(), literal: k.is_literal(), text }
}

/// Converts one node of the walk: its kind number, parent, span and data.
#[verifier::external_body]
fn syntax_node(kind: AstKind<'_>, parent: usize) -> SyntaxNode {
    let span = kind.span();
    SyntaxNode { kind: kind.ty() as u32, parent, start: span.start, end: span.end, data: node_data(kind) }
}

/// Converts what the detectors read of a node, variant by variant.
#[verifier::external_body]
fn node_data(kind: AstKind<'_>) -> NodeData {
    match kind {
        AstKind::Function(_) => function_data(kind),
        AstKind::ArrowFunctionExpression(_) => arrow_data(kind),
        AstKind::CallExpression(c) => NodeData::Call(c.span.start, c.arguments.iter().map(argument_shape).collect()),
        AstKind::VariableDeclarator(d) => NodeData::Declarator(binding_name(&d.id).map(|n| n.name)),
        AstKind::IdentifierReference(i) => NodeData::Identifier(i.name.to_string()),
        AstKind::ExportDeclaration(_) => NodeData::ExportDeclaration,
        AstKind::ExportNamedDeclaration(_) => NodeData::ExportNamed,
        AstKind::ExportDefaultDeclaration(_) => NodeData::ExportDefault,
        AstKind::FunctionBody(_) => NodeData::Body,
        AstKind::Directive(_) => NodeData::Directive,
        _ => declaration_data(kind),
    }
}

/// Converts a function node.
#[verifier::external_body]
fn function_data(kind: AstKind<'_>) -> NodeData {
    match kind {
        AstKind::Function(f) => NodeData::Callable(Callable {
            arrow: false,
            declare_only: f.is_typescript_syntax(),
            id: f.id.as_ref().map(|id| spanned(id.name.as_str(), id.span.start)),
            body: f.body.as_ref().map(|b| (b.span.start, b.span.end)),
            statements: f.body.as_ref().map(|b| b.statements.iter().map(statement_shape).collect()),
            params: f.params.items.iter().map(|p| binding_name(&p.pattern)).collect(),
        }),
        _ => NodeData::Other,
    }
}

/// Converts an arrow function node.
#[verifier::external_body]
fn arrow_data(kind: AstKind<'_>) -> NodeData {
    match kind {
        AstKind::ArrowFunctionExpression(a) => NodeData::Callable(Callable {
            arrow: true,
            declare_only: false,
            id: None,
            body: Some((a.body.span().start, a.body.span().end)),
            statements: a.body.as_function_body().map(|b| b.statements.iter().map(statement_shape).collect()),
            params: a.params.items.iter().map(|p| binding_name(&p.pattern)).collect(),
        }),
        _ => NodeData::Other,
    }
}

/// Converts an import or re-export statement and the type declarations.
#[verifier::external_body]
fn declaration_data(kind: AstKind<'_>) -> NodeData {
    match kind {
        AstKind::ImportDeclaration(d) => NodeData::Request(d.source.value.to_string()),
        AstKind::ExportFromDeclaration(d) => NodeData::Request(d.source.value.to_string()),
        AstKind::ExportAllDeclaration(d) => NodeData::Request(d.source.value.to_string()),
        AstKind::TSInterfaceDeclaration(d) => {
            NodeData::Interface(spanned(d.id.name.as_str(), d.id.span.start), !d.extends.is_empty())
        },
        AstKind::TSTypeAliasDeclaration(d) => NodeData::Alias(spanned(d.id.name.as_str(), d.id.span.start)),
        _ => type_name_data(kind),
    }
}

/// Converts the nodes that spell a type name.
#[verifier::external_body]
fn type_name_data(kind: AstKind<'_>) -> NodeData {
    match kind {
        AstKind::TSTypeReference(_) => NodeData::TypeReference,
        AstKind::TSQualifiedName(q) => NodeData::Qualified(q.right.name.to_string()),
        AstKind::ThisExpression(_) => NodeData::This,
        _ => NodeData::Other,
    }
}

/// What a declaration node holds of types: an interface's members, a type
/// alias's type, nothing for other nodes.
#[derive(Debug)]
pub enum TypeBody {
    Members(Vec<Member>),
    Alias(TypeExpr),
    Nothing,
}

/// The type bodies of the nodes of `source` (one per node, in the walk's
/// order) when each type reference takes the name that `names` holds at its
/// node's index.
pub uninterp spec fn parsed_type_bodies(path: Seq<char>, source: Seq<char>, names: Seq<Seq<char>>) -> Seq<TypeBody>;

/// Parses `source` with `oxc::parser::Parser`, walks the tree with
/// `oxc::semantic::SemanticBuilder` as `parse_nodes` does, and hands over the
/// members of each interface and the type of each type alias; a type
/// reference takes `names` at its node's index (`TSTypeReference::node_id`).
/// `names` has an entry for every node of the walk, so the index is in
/// range. Trusted: that the result is what the name `parsed_type_bodies`
/// gives for the path, the text and the names.
#[verifier::external_body]
pub fn parse_type_bodies(path: &str, source: &str, names: &Vec<String>) -> (r: Vec<TypeBody>)
    requires
        names.len() == parsed_nodes(path@, source@).len(),
    ensures
        r@ == parsed_type_bodies(path@, source@, names@.map_values(|n: String| n@)),
{
    let allocator = Allocator::new();
    let source_type = SourceType::from_path(path).unwrap_or_else(|_| SourceType::ts()).with_module(true);
    let parsed = Parser::new(&allocator, source, source_type).parse();
    let built = SemanticBuilder::new().with_build_nodes(true).build(&parsed.program);
    built.semantic.nodes().iter().map(|n| type_body(names, n.kind())).collect()
}

/// Converts what a declaration node holds of types.
#[verifier::external_body]
fn type_body(names: &[String], kind: AstKind<'_>) -> TypeBody {
    match kind {
        AstKind::TSInterfaceDeclaration(d) => TypeBody::Members(d.body.body.iter().map(|m| member(names, m)).collect()),
        AstKind::TSTypeAliasDeclaration(d) => TypeBody::Alias(type_expr(names, &d.type_annotation)),
        _ => TypeBody::Nothing,
    }
}

/// Converts a call argument; a spread is `Other`.
#[verifier::external_body]
fn argument_shape(arg: &Argument<'_>) -> ExprShape {
    match arg.as_expression() {
        Some(e) => expr_shape(e),
        None => ExprShape::Other,
    }
}

/// Converts a statement as far as forwarding goes.
#[verifier::external_body]
fn statement_shape(stmt: &Statement<'_>) -> StatementShape {
    match stmt {
        Statement::ReturnStatement(ret) => StatementShape::Return(ret.argument.as_ref().map(expr_shape)),
        Statement::ExpressionStatement(e) => StatementShape::Expression(expr_shape(&e.expression)),
        _ => StatementShape::Other,
    }
}

/// Converts an expression as far as forwarding and tramp data go.
#[verifier::external_body]
fn expr_shape(expr: &Expression<'_>) -> ExprShape {
    match expr {
        Expression::CallExpression(call) => ExprShape::Call(call.span.start),
        Expression::Identifier(ident) => ExprShape::Identifier(ident.name.to_string()),
        Expression::ParenthesizedExpression(p) => wrapped(Wrapper::Parenthesized, &p.expression),
        Expression::TSAsExpression(a) => wrapped(Wrapper::As, &a.expression),
        Expression::TSTypeAssertion(t) => wrapped(Wrapper::TypeAssertion, &t.expression),
        Expression::TSNonNullExpression(n) => wrapped(Wrapper::NonNull, &n.expression),
        Expression::TSInstantiationExpression(i) => wrapped(Wrapper::Instantiation, &i.expression),
        Expression::TSSatisfiesExpression(s) => wrapped(Wrapper::Satisfies, &s.expression),
        _ => ExprShape::Other,
    }
}

/// An expression inside a wrapper.
#[verifier::external_body]
fn wrapped(w: Wrapper, inner: &Expression<'_>) -> ExprShape {
    ExprShape::Wrapped(w, Box::new(expr_shape(inner)))
}

/// Converts a qualified type name.
#[verifier::external_body]
fn ts_name(name: &TSTypeName<'_>) -> TypeName {
    match name {
        TSTypeName::IdentifierReference(id) => TypeName::Ident(id.name.to_string()),
        TSTypeName::QualifiedName(q) => TypeName::Qualified(Box::new(ts_name(&q.left)), q.right.name.to_string()),
        TSTypeName::ThisExpression(_) => TypeName::This,
    }
}

/// Converts the name a `typeof` type queries.
#[verifier::external_body]
fn query_name(name: &TSTypeQueryExprName<'_>) -> QueryName {
    match name {
        TSTypeQueryExprName::IdentifierReference(id) => QueryName::Name(TypeName::Ident(id.name.to_string())),
        TSTypeQueryExprName::QualifiedName(q) => {
            QueryName::Name(TypeName::Qualified(Box::new(ts_name(&q.left)), q.right.name.to_string()))
        },
        TSTypeQueryExprName::ThisExpression(_) => QueryName::Name(TypeName::This),
        TSTypeQueryExprName::TSImportType(i) => QueryName::Import(i.source.value.to_string()),
    }
}

/// Converts a literal type; numbers and big integers keep their source text.
#[verifier::external_body]
fn literal(lit: &TSLiteral<'_>) -> LiteralType {
    match lit {
        TSLiteral::BooleanLiteral(b) => LiteralType::Bool(b.value),
        TSLiteral::NumericLiteral(n) => LiteralType::Number(n.raw.map(|r| r.to_string()).unwrap_or_default()),
        TSLiteral::BigIntLiteral(b) => LiteralType::BigInt(b.raw.map(|r| r.to_string())),
        TSLiteral::StringLiteral(s) => LiteralType::Str(s.value.to_string()),
        TSLiteral::TemplateLiteral(t) => LiteralType::Template(t.quasis.iter().map(|q| q.value.raw.to_string()).collect()),
        TSLiteral::UnaryExpression(u) => LiteralType::Unary(format!("{:?}", u.operator)),
    }
}

/// Converts the parameters of a function type or method signature.
#[verifier::external_body]
fn params(names: &[String], params: &FormalParameters<'_>) -> Vec<Param> {
    params
        .items
        .iter()
        .map(|p| Param {
            name: binding_name(&p.pattern).map(|n| n.name),
            optional: p.optional,
            annotation: p.type_annotation.as_ref().map(|t| type_expr(names, &t.type_annotation)),
        })
        .collect()
}

/// The static name of a property key, when it has one; numbers keep their
/// source text.
#[verifier::external_body]
fn key_name(key: &PropertyKey<'_>) -> Option<String> {
    match key {
        PropertyKey::StaticIdentifier(id) => Some(id.name.to_string()),
        PropertyKey::Identifier(id) => Some(id.name.to_string()),
        PropertyKey::StringLiteral(s) => Some(s.value.to_string()),
        PropertyKey::NumericLiteral(n) => n.raw.map(|r| r.to_string()),
        PropertyKey::PrivateIdentifier(id) => Some(id.name.to_string()),
        _ => None,
    }
}

/// Converts a member of an object type or interface.
#[verifier::external_body]
fn member(names: &[String], sig: &TSSignature<'_>) -> Member {
    match sig {
        TSSignature::TSPropertySignature(p) => {
            Member::Property(key_name(&p.key), p.optional, p.readonly, annotation(names, &p.type_annotation))
        },
        TSSignature::TSMethodSignature(m) => {
            Member::Method(key_name(&m.key), m.optional, params(names, &m.params), annotation(names, &m.return_type))
        },
        _ => Member::Other,
    }
}

/// Converts an optional type annotation.
#[verifier::external_body]
fn annotation(names: &[String], t: &Option<oxc::allocator::Box<'_, TSTypeAnnotation<'_>>>) -> Option<TypeExpr> {
    t.as_ref().map(|t| type_expr(names, &t.type_annotation))
}

/// Converts an element of a tuple type.
#[verifier::external_body]
fn tuple_element(names: &[String], elem: &TSTupleElement<'_>) -> TupleElement {
    match elem {
        TSTupleElement::TSOptionalType(o) => TupleElement::Optional(type_expr(names, &o.type_annotation)),
        TSTupleElement::TSRestType(r) => TupleElement::Rest(type_expr(names, &r.type_annotation)),
        TSTupleElement::TSNamedTupleMember(m) => {
            TupleElement::Named(m.label.name.to_string(), m.optional, Box::new(tuple_element(names, &m.element_type)))
        },
        _ => match elem.as_ts_type() {
            Some(ty) => TupleElement::Plain(type_expr(names, ty)),
            None => TupleElement::Other,
        },
    }
}

/// Converts a type annotation, form by form.
#[verifier::external_body]
fn type_expr(names: &[String], ty: &TSType<'_>) -> TypeExpr {
    match keyword(ty) {
        Some(k) => TypeExpr::Keyword(k),
        None => compound_type(names, ty),
    }
}

/// The keyword a keyword type names.
#[verifier::external_body]
fn keyword(ty: &TSType<'_>) -> Option<Keyword> {
    match ty {
        TSType::TSAnyKeyword(_) => Some(Keyword::Any),
        TSType::TSBigIntKeyword(_) => Some(Keyword::BigInt),
        TSType::TSBooleanKeyword(_) => Some(Keyword::Boolean),
        TSType::TSNeverKeyword(_) => Some(Keyword::Never),
        TSType::TSNullKeyword(_) => Some(Keyword::Null),
        TSType::TSNumberKeyword(_) => Some(Keyword::Number),
        TSType::TSObjectKeyword(_) => Some(Keyword::Object),
        TSType::TSStringKeyword(_) => Some(Keyword::String),
        TSType::TSSymbolKeyword(_) => Some(Keyword::Symbol),
        TSType::TSUndefinedKeyword(_) => Some(Keyword::Undefined),
        TSType::TSUnknownKeyword(_) => Some(Keyword::Unknown),
        TSType::TSVoidKeyword(_) => Some(Keyword::Void),
        _ => None,
    }
}

/// Converts arrays, unions, intersections and parenthesized types.
#[verifier::external_body]
fn compound_type(names: &[String], ty: &TSType<'_>) -> TypeExpr {
    match ty {
        TSType::TSArrayType(a) => TypeExpr::Array(Box::new(type_expr(names, &a.element_type))),
        TSType::TSUnionType(u) => TypeExpr::Union(u.types.iter().map(|t| type_expr(names, t)).collect()),
        TSType::TSIntersectionType(i) => TypeExpr::Intersection(i.types.iter().map(|t| type_expr(names, t)).collect()),
        TSType::TSParenthesizedType(p) => TypeExpr::Parenthesized(Box::new(type_expr(names, &p.type_annotation))),
        _ => structural_type(names, ty),
    }
}

/// Converts literal, object, tuple and `typeof` types.
#[verifier::external_body]
fn structural_type(names: &[String], ty: &TSType<'_>) -> TypeExpr {
    match ty {
        TSType::TSLiteralType(l) => TypeExpr::Literal(literal(&l.literal)),
        TSType::TSTypeLiteral(l) => TypeExpr::Object(l.members.iter().map(|m| member(names, m)).collect()),
        TSType::TSTupleType(t) => TypeExpr::Tuple(t.element_types.iter().map(|e| tuple_element(names, e)).collect()),
        TSType::TSTypeQuery(q) => TypeExpr::Query(query_name(&q.expr_name)),
        _ => named_type(names, ty),
    }
}

/// Converts type references (the name that `names` holds at the
/// reference's node index, then any type arguments) and function types.
#[verifier::external_body]
fn named_type(names: &[String], ty: &TSType<'_>) -> TypeExpr {
    match ty {
        TSType::TSTypeReference(r) => TypeExpr::Reference(
            TypeName::Ident(names[r.node_id().index()].clone()),
            r.type_arguments.as_ref().map(|args| args.params.iter().map(|t| type_expr(names, t)).collect()),
        ),
        TSType::TSFunctionType(f) => {
            TypeExpr::Function(params(names, &f.params), Box::new(type_expr(names, &f.return_type.type_annotation)))
        },
        _ => TypeExpr::Other,
    }
}

} // verus!
