//! What one module declares: its exports and its imports, and the line of a
//! byte offset in its source.

use vstd::prelude::*;

use crate::syntax::{parse_statements, parsed_statements};
use crate::text::{append_str, chars_of};

verus! {

/// A module of the program with its exports and imports.
#[derive(Debug)]
pub struct ParsedModule {
    pub abs: String,
    pub exports: Vec<ParsedExport>,
    pub imports: Vec<ParsedImport>,
}

/// One exported name, where it is declared.
#[derive(Debug)]
pub struct ParsedExport {
    pub name: String,
    pub display: String,
    pub line: u32,
    pub span_start: u32,
}

/// One import or re-export statement: its specifier and the names it binds.
#[derive(Debug)]
pub struct ParsedImport {
    pub specifier: String,
    pub names: Vec<ImportedName>,
}

/// A name an import statement binds.
#[derive(Debug)]
pub enum ImportedName {
    Named(String),
    Default,
    Namespace,
    StarReexport,
}

/// Bytes that one character takes in UTF-8.
pub open spec fn utf8_width(c: char) -> int {
    if (c as u32) < 0x80 {
        1
    } else if (c as u32) < 0x800 {
        2
    } else if (c as u32) < 0x10000 {
        3
    } else {
        4
    }
}

/// Code units that one character takes in UTF-16.
pub open spec fn utf16_width(c: char) -> int {
    if (c as u32) < 0x10000 {
        1
    } else {
        2
    }
}

/// How many leading characters of `s` fit entirely within `off` bytes: the
/// characters before the last character boundary at or below `off`.
pub open spec fn chars_within(s: Seq<char>, off: int) -> int
    decreases s.len(),
{
    if s.len() == 0 {
        0
    } else if utf8_width(s[0]) <= off {
        1 + chars_within(s.drop_first(), off - utf8_width(s[0]))
    } else {
        0
    }
}

/// Number of newlines in `s`.
pub open spec fn newlines(s: Seq<char>) -> int
    decreases s.len(),
{
    if s.len() == 0 {
        0
    } else {
        newlines(s.drop_last()) + if s.last() == '\n' {
            1int
        } else {
            0int
        }
    }
}

/// UTF-16 length of `s`.
pub open spec fn utf16_len(s: Seq<char>) -> int
    decreases s.len(),
{
    if s.len() == 0 {
        0
    } else {
        utf16_len(s.drop_last()) + utf16_width(s.last())
    }
}

pub proof fn lemma_chars_within_range(s: Seq<char>, off: int)
    ensures
        0 <= chars_within(s, off) <= s.len(),
    decreases s.len(),
{
    if s.len() > 0 && utf8_width(s[0]) <= off {
        lemma_chars_within_range(s.drop_first(), off - utf8_width(s[0]));
    }
}

proof fn lemma_newlines_bound(s: Seq<char>)
    ensures
        0 <= newlines(s) <= s.len(),
    decreases s.len(),
{
    if s.len() > 0 {
        lemma_newlines_bound(s.drop_last());
    }
}

pub fn char_utf8_width(c: char) -> (w: usize)
    ensures
        w == utf8_width(c),
{
    let u = c as u32;
    if u < 0x80 {
        1
    } else if u < 0x800 {
        2
    } else if u < 0x10000 {
        3
    } else {
        4
    }
}

/// Number of characters of `cs` before the last character boundary at or below `off` bytes.
pub fn count_within(cs: &Vec<char>, off: usize) -> (k: usize)
    ensures
        k == chars_within(cs@, off as int),
{
    let mut i: usize = 0;
    let mut used: usize = 0;
    assert(cs@.skip(0) =~= cs@);
    while i < cs.len()
        invariant
            i <= cs.len(),
            used <= off,
            chars_within(cs@, off as int) == i + chars_within(cs@.skip(i as int), off - used),
        decreases cs.len() - i,
    {
        let w = char_utf8_width(cs[i]);
        assert(cs@.skip(i as int)[0] == cs@[i as int]);
        assert(cs@.skip(i as int).drop_first() =~= cs@.skip(i + 1));
        if w > off - used {
            return i;
        }
        used = used + w;
        i += 1;
    }
    i
}

/// The 1-based line of byte offset `offset` in `source` (an offset inside a
/// character counts as that character's start).
pub fn line_at(source: &str, offset: u32) -> (r: u32)
    requires
        source@.len() < u32::MAX,
    ensures
        r == newlines(source@.take(chars_within(source@, offset as int))) + 1,
{
    let cs = chars_of(source);
    let k = count_within(&cs, offset as usize);
    proof {
        lemma_chars_within_range(cs@, offset as int);
    }
    let mut count: u32 = 0;
    let mut i: usize = 0;
    assert(cs@.take(0) =~= Seq::<char>::empty());
    while i < k
        invariant
            k <= cs.len(),
            cs.len() < u32::MAX,
            i <= k,
            count == newlines(cs@.take(i as int)),
        decreases k - i,
    {
        proof {
            lemma_newlines_bound(cs@.take(i as int));
            assert(cs@.take(i + 1).drop_last() =~= cs@.take(i as int));
        }
        if cs[i] == '\n' {
            count = count + 1;
        }
        i += 1;
    }
    proof {
        lemma_newlines_bound(cs@.take(k as int));
    }
    count + 1
}

/// An export of the given name, declared at `span_start` in `source`.
pub fn named_export(name: &str, span_start: u32, source: &str) -> (r: ParsedExport)
    requires
        source@.len() < u32::MAX,
    ensures
        r.name@ == name@,
        r.display@ == name@,
        r.span_start == span_start,
        r.line == newlines(source@.take(chars_within(source@, span_start as int))) + 1,
{
    let n = crate::text::string_from(&chars_of(name));
    let d = crate::text::string_from(&chars_of(name));
    ParsedExport { name: n, display: d, line: line_at(source, span_start), span_start }
}

/// A name a module statement exports or binds, with where it starts.
#[derive(Debug)]
pub struct SpannedName {
    pub name: String,
    pub span_start: u32,
}

/// One specifier of an import declaration.
#[derive(Debug)]
pub enum ImportSpec {
    /// `{ a }` or `{ a as b }`: the imported name.
    Named(String),
    Default,
    Namespace,
}

/// What an `export` declaration declares.
#[derive(Debug)]
pub enum Declared {
    /// A function or class, with its name when it has one.
    FunctionOrClass(Option<SpannedName>),
    /// Variables: the names bound directly (not through patterns).
    Variables(Vec<Option<SpannedName>>),
    /// A type alias, interface or enum.
    Type(SpannedName),
    Other,
}

/// What `export default` exports.
#[derive(Debug)]
pub enum DefaultExported {
    FunctionOrClass(Option<SpannedName>),
    Interface(SpannedName),
    Other,
}

/// A top-level statement of a module, as far as imports and exports go.
#[derive(Debug)]
pub enum ModuleStatement {
    /// `import ... from source`; `None` specifiers for a side-effect import.
    Import(String, Option<Vec<ImportSpec>>),
    /// `export <declaration>`.
    ExportDeclaration(Declared),
    /// `export { a, b as c }`: the exported names.
    ExportNamed(Vec<SpannedName>),
    /// `export default ...`, and where the statement starts.
    ExportDefault(DefaultExported, u32),
    /// `export { a as b } from source`: each (exported name, local name).
    ExportFrom(String, Vec<(SpannedName, String)>),
    /// `export * from source` or `export * as n from source`.
    ExportAll(String, Option<SpannedName>),
    Other,
}

/// The contents of an export.
pub struct ExportView {
    pub name: Seq<char>,
    pub display: Seq<char>,
    pub line: u32,
    pub span_start: u32,
}

impl View for ParsedExport {
    type V = ExportView;

    open spec fn view(&self) -> ExportView {
        ExportView { name: self.name@, display: self.display@, line: self.line, span_start: self.span_start }
    }
}

/// The contents of an imported name.
pub enum NameView {
    Named(Seq<char>),
    Default,
    Namespace,
    StarReexport,
}

impl View for ImportedName {
    type V = NameView;

    open spec fn view(&self) -> NameView {
        match self {
            ImportedName::Named(s) => NameView::Named(s@),
            ImportedName::Default => NameView::Default,
            ImportedName::Namespace => NameView::Namespace,
            ImportedName::StarReexport => NameView::StarReexport,
        }
    }
}

/// The contents of an import.
pub struct ImportView {
    pub specifier: Seq<char>,
    pub names: Seq<NameView>,
}

impl View for ParsedImport {
    type V = ImportView;

    open spec fn view(&self) -> ImportView {
        ImportView { specifier: self.specifier@, names: self.names@.map_values(|n: ImportedName| n@) }
    }
}

/// The line of byte offset `span` in `source`.
pub open spec fn line_of(source: Seq<char>, span: u32) -> u32 {
    (newlines(source.take(chars_within(source, span as int))) + 1) as u32
}

/// An export whose name and display are `name`, declared at `span`.
pub open spec fn export_view(name: Seq<char>, display: Seq<char>, span: u32, source: Seq<char>) -> ExportView {
    ExportView { name, display, line: line_of(source, span), span_start: span }
}

/// The export of a declared name.
pub open spec fn named_view(n: SpannedName, source: Seq<char>) -> ExportView {
    export_view(n.name@, n.name@, n.span_start, source)
}

/// The exports of the variables an `export` declaration binds directly.
pub open spec fn variable_exports(vs: Seq<Option<SpannedName>>, source: Seq<char>) -> Seq<ExportView>
    decreases vs.len(),
{
    if vs.len() == 0 {
        Seq::empty()
    } else {
        let p = variable_exports(vs.drop_last(), source);
        match vs.last() {
            Some(n) => p.push(named_view(n, source)),
            None => p,
        }
    }
}

/// What one statement exports.
pub open spec fn statement_exports(st: ModuleStatement, source: Seq<char>) -> Seq<ExportView> {
    match st {
        ModuleStatement::ExportDeclaration(d) => match d {
            Declared::FunctionOrClass(Some(n)) => seq![named_view(n, source)],
            Declared::Variables(vs) => variable_exports(vs@, source),
            Declared::Type(n) => seq![named_view(n, source)],
            _ => Seq::empty(),
        },
        ModuleStatement::ExportNamed(ns) => ns@.map_values(|n: SpannedName| named_view(n, source)),
        ModuleStatement::ExportDefault(kind, at) => {
            let (display, span) = match kind {
                DefaultExported::FunctionOrClass(Some(n)) => (n.name@, n.span_start),
                DefaultExported::Interface(n) => (n.name@, n.span_start),
                _ => ("default"@, at),
            };
            seq![export_view("default"@, display, span, source)]
        },
        ModuleStatement::ExportFrom(_, specs) => specs@.map_values(|p: (SpannedName, String)| named_view(p.0, source)),
        ModuleStatement::ExportAll(_, Some(n)) => seq![named_view(n, source)],
        _ => Seq::empty(),
    }
}

/// The name an import specifier binds.
pub open spec fn spec_name(sp: ImportSpec) -> NameView {
    match sp {
        ImportSpec::Named(s) => NameView::Named(s@),
        ImportSpec::Default => NameView::Default,
        ImportSpec::Namespace => NameView::Namespace,
    }
}

/// What one statement imports (at most one import); a side-effect import
/// `import "m"` imports the module with no names, while `import {} from "m"`
/// imports nothing.
pub open spec fn statement_imports(st: ModuleStatement) -> Seq<ImportView> {
    match st {
        ModuleStatement::Import(src, Some(specs)) => if specs@.len() > 0 {
            seq![ImportView { specifier: src@, names: specs@.map_values(|sp: ImportSpec| spec_name(sp)) }]
        } else {
            Seq::empty()
        },
        ModuleStatement::Import(src, None) => seq![ImportView { specifier: src@, names: Seq::empty() }],
        ModuleStatement::ExportFrom(src, specs) => if specs@.len() > 0 {
            seq![
                ImportView {
                    specifier: src@,
                    names: specs@.map_values(|p: (SpannedName, String)| NameView::Named(p.1@)),
                },
            ]
        } else {
            Seq::empty()
        },
        ModuleStatement::ExportAll(src, exported) => seq![
            ImportView {
                specifier: src@,
                names: seq![
                    if exported is Some {
                        NameView::Namespace
                    } else {
                        NameView::StarReexport
                    },
                ],
            },
        ],
        _ => Seq::empty(),
    }
}

/// The exports of the first `k` statements.
pub open spec fn module_exports(sts: Seq<ModuleStatement>, source: Seq<char>, k: int) -> Seq<ExportView>
    decreases k,
{
    if k <= 0 {
        Seq::empty()
    } else {
        module_exports(sts, source, k - 1) + statement_exports(sts[k - 1], source)
    }
}

/// The imports of the first `k` statements.
pub open spec fn module_imports(sts: Seq<ModuleStatement>, k: int) -> Seq<ImportView>
    decreases k,
{
    if k <= 0 {
        Seq::empty()
    } else {
        module_imports(sts, k - 1) + statement_imports(sts[k - 1])
    }
}

fn export_named(n: &SpannedName, source: &str) -> (r: ParsedExport)
    requires
        source@.len() < u32::MAX,
    ensures
        r@ == named_view(*n, source@),
{
    named_export(n.name.as_str(), n.span_start, source)
}

fn push_named(out: &mut Vec<ParsedExport>, ns: &Vec<SpannedName>, source: &str)
    requires
        source@.len() < u32::MAX,
    ensures
        final(out)@.map_values(|e: ParsedExport| e@) == old(out)@.map_values(|e: ParsedExport| e@) + ns@.map_values(
            |n: SpannedName| named_view(n, source@),
        ),
{
    let ghost o = out@.map_values(|e: ParsedExport| e@);
    let mut i: usize = 0;
    while i < ns.len()
        invariant
            source@.len() < u32::MAX,
            i <= ns.len(),
            out@.map_values(|e: ParsedExport| e@) == o + ns@.take(i as int).map_values(|n: SpannedName| named_view(n, source@)),
        decreases ns.len() - i,
    {
        let e = export_named(&ns[i], source);
        let ghost before = out@.map_values(|e: ParsedExport| e@);
        out.push(e);
        assert(out@.map_values(|e: ParsedExport| e@) =~= before.push(named_view(ns@[i as int], source@)));
        assert(ns@.take(i + 1).map_values(|n: SpannedName| named_view(n, source@)) =~= ns@.take(i as int).map_values(
            |n: SpannedName| named_view(n, source@),
        ).push(named_view(ns@[i as int], source@)));
        assert(out@.map_values(|e: ParsedExport| e@) =~= o + ns@.take(i + 1).map_values(|n: SpannedName| named_view(n, source@)));
        i += 1;
    }
    assert(ns@.take(ns.len() as int) =~= ns@);
}

fn default_export(kind: &DefaultExported, at: u32, source: &str) -> (r: ParsedExport)
    requires
        source@.len() < u32::MAX,
    ensures
        seq![r@] == statement_exports(ModuleStatement::ExportDefault(*kind, at), source@),
{
    proof {
        reveal_strlit("default");
    }
    let (display, span) = match kind {
        DefaultExported::FunctionOrClass(Some(n)) => (n.name.clone(), n.span_start),
        DefaultExported::Interface(n) => (n.name.clone(), n.span_start),
        _ => {
            let mut d = String::new();
            crate::text::append_str(&mut d, "default");
            (d, at)
        },
    };
    let mut name = String::new();
    crate::text::append_str(&mut name, "default");
    let e = named_export(name.as_str(), span, source);
    ParsedExport { name, display, line: e.line, span_start: span }
}

fn import_of_specs(src: &String, specs: &Vec<ImportSpec>) -> (r: ParsedImport)
    ensures
        r@ == (ImportView { specifier: src@, names: specs@.map_values(|sp: ImportSpec| spec_name(sp)) }),
{
    let mut names: Vec<ImportedName> = Vec::new();
    let mut i: usize = 0;
    while i < specs.len()
        invariant
            i <= specs.len(),
            names@.map_values(|n: ImportedName| n@) == specs@.take(i as int).map_values(|sp: ImportSpec| spec_name(sp)),
        decreases specs.len() - i,
    {
        let n = match &specs[i] {
            ImportSpec::Named(s) => ImportedName::Named(s.clone()),
            ImportSpec::Default => ImportedName::Default,
            ImportSpec::Namespace => ImportedName::Namespace,
        };
        let ghost before = names@.map_values(|n: ImportedName| n@);
        names.push(n);
        assert(names@.map_values(|n: ImportedName| n@) =~= before.push(spec_name(specs@[i as int])));
        assert(specs@.take(i + 1).map_values(|sp: ImportSpec| spec_name(sp)) =~= specs@.take(i as int).map_values(
            |sp: ImportSpec| spec_name(sp),
        ).push(spec_name(specs@[i as int])));
        i += 1;
    }
    assert(specs@.take(specs.len() as int) =~= specs@);
    ParsedImport { specifier: src.clone(), names }
}

fn apply_statement(st: &ModuleStatement, source: &str, exports: &mut Vec<ParsedExport>, imports: &mut Vec<ParsedImport>)
    requires
        source@.len() < u32::MAX,
    ensures
        final(exports)@.map_values(|e: ParsedExport| e@) == old(exports)@.map_values(|e: ParsedExport| e@)
            + statement_exports(*st, source@),
        final(imports)@.map_values(|i: ParsedImport| i@) == old(imports)@.map_values(|i: ParsedImport| i@)
            + statement_imports(*st),
{
    let ghost e0 = exports@.map_values(|e: ParsedExport| e@);
    let ghost i0 = imports@.map_values(|i: ParsedImport| i@);
    match st {
        ModuleStatement::Import(src, specs) => {
            match specs {
                Some(sp) => {
                    if sp.len() > 0 {
                        imports.push(import_of_specs(src, sp));
                    }
                },
                None => {
                    let imp = ParsedImport { specifier: src.clone(), names: Vec::new() };
                    assert(imp@.names =~= Seq::<NameView>::empty());
                    imports.push(imp);
                },
            }
        },
        ModuleStatement::ExportDeclaration(d) => {
            match d {
                Declared::FunctionOrClass(Some(n)) => {
                    exports.push(export_named(n, source));
                },
                Declared::Variables(vs) => {
                    let mut i: usize = 0;
                    assert(vs@.take(0) =~= Seq::<Option<SpannedName>>::empty());
                    while i < vs.len()
                        invariant
                            source@.len() < u32::MAX,
                            i <= vs.len(),
                            exports@.map_values(|e: ParsedExport| e@) == e0 + variable_exports(vs@.take(i as int), source@),
                        decreases vs.len() - i,
                    {
                        assert(vs@.take(i + 1).drop_last() =~= vs@.take(i as int));
                        assert(vs@.take(i + 1).last() == vs@[i as int]);
                        let ghost before = exports@.map_values(|e: ParsedExport| e@);
                        if let Some(n) = &vs[i] {
                            exports.push(export_named(n, source));
                            assert(exports@.map_values(|e: ParsedExport| e@) =~= before.push(named_view(*n, source@)));
                        }
                        i += 1;
                    }
                    assert(vs@.take(vs.len() as int) =~= vs@);
                },
                Declared::Type(n) => {
                    exports.push(export_named(n, source));
                },
                _ => {},
            }
        },
        ModuleStatement::ExportNamed(ns) => {
            push_named(exports, ns, source);
        },
        ModuleStatement::ExportDefault(kind, at) => {
            exports.push(default_export(kind, *at, source));
        },
        ModuleStatement::ExportFrom(src, specs) => {
            let mut names: Vec<ImportedName> = Vec::new();
            let mut i: usize = 0;
            while i < specs.len()
                invariant
                    source@.len() < u32::MAX,
                    i <= specs.len(),
                    exports@.map_values(|e: ParsedExport| e@) == e0 + specs@.take(i as int).map_values(
                        |p: (SpannedName, String)| named_view(p.0, source@),
                    ),
                    names@.map_values(|n: ImportedName| n@) == specs@.take(i as int).map_values(
                        |p: (SpannedName, String)| NameView::Named(p.1@),
                    ),
                decreases specs.len() - i,
            {
                let ghost eb = exports@.map_values(|e: ParsedExport| e@);
                let ghost nb = names@.map_values(|n: ImportedName| n@);
                exports.push(export_named(&specs[i].0, source));
                names.push(ImportedName::Named(specs[i].1.clone()));
                assert(exports@.map_values(|e: ParsedExport| e@) =~= eb.push(named_view(specs@[i as int].0, source@)));
                assert(names@.map_values(|n: ImportedName| n@) =~= nb.push(NameView::Named(specs@[i as int].1@)));
                assert(specs@.take(i + 1).map_values(|p: (SpannedName, String)| named_view(p.0, source@)) =~= specs@.take(
                    i as int,
                ).map_values(|p: (SpannedName, String)| named_view(p.0, source@)).push(named_view(specs@[i as int].0, source@)));
                assert(specs@.take(i + 1).map_values(|p: (SpannedName, String)| NameView::Named(p.1@)) =~= specs@.take(
                    i as int,
                ).map_values(|p: (SpannedName, String)| NameView::Named(p.1@)).push(NameView::Named(specs@[i as int].1@)));
                i += 1;
            }
            assert(specs@.take(specs.len() as int) =~= specs@);
            if names.len() > 0 {
                imports.push(ParsedImport { specifier: src.clone(), names });
            }
        },
        ModuleStatement::ExportAll(src, exported) => {
            let name = match exported {
                Some(n) => {
                    exports.push(export_named(n, source));
                    ImportedName::Namespace
                },
                None => ImportedName::StarReexport,
            };
            let ghost nv = name@;
            let names = vec![name];
            assert(names@.map_values(|n: ImportedName| n@) =~= seq![nv]);
            let imp = ParsedImport { specifier: src.clone(), names };
            assert(imp@ == statement_imports(*st)[0]);
            imports.push(imp);
            assert(imports@.map_values(|i: ParsedImport| i@) =~= i0 + statement_imports(*st));
        },
        ModuleStatement::Other => {},
    }
    assert(exports@.map_values(|e: ParsedExport| e@) =~= e0 + statement_exports(*st, source@));
    assert(imports@.map_values(|i: ParsedImport| i@) =~= i0 + statement_imports(*st));
}

/// The exports and imports that a module's top-level statements declare, in order.
pub fn module_facts(abs: &str, source: &str, statements: &Vec<ModuleStatement>) -> (r: ParsedModule)
    requires
        source@.len() < u32::MAX,
    ensures
        r.abs@ == abs@,
        r.exports@.map_values(|e: ParsedExport| e@) == module_exports(statements@, source@, statements@.len() as int),
        r.imports@.map_values(|i: ParsedImport| i@) == module_imports(statements@, statements@.len() as int),
{
    let mut exports: Vec<ParsedExport> = Vec::new();
    let mut imports: Vec<ParsedImport> = Vec::new();
    let mut k: usize = 0;
    while k < statements.len()
        invariant
            source@.len() < u32::MAX,
            k <= statements.len(),
            exports@.map_values(|e: ParsedExport| e@) == module_exports(statements@, source@, k as int),
            imports@.map_values(|i: ParsedImport| i@) == module_imports(statements@, k as int),
        decreases statements.len() - k,
    {
        apply_statement(&statements[k], source, &mut exports, &mut imports);
        k += 1;
    }
    let mut path = String::new();
    append_str(&mut path, abs);
    ParsedModule { abs: path, exports, imports }
}

/// Parses one module's text and gives the exports and imports that its
/// top-level statements declare, in order.
pub fn parse_module(abs: &str, source: &str) -> (r: ParsedModule)
    requires
        source@.len() < u32::MAX,
    ensures
        r.abs@ == abs@,
        r.exports@.map_values(|e: ParsedExport| e@) == module_exports(
            parsed_statements(abs@, source@),
            source@,
            parsed_statements(abs@, source@).len() as int,
        ),
        r.imports@.map_values(|i: ParsedImport| i@) == module_imports(
            parsed_statements(abs@, source@),
            parsed_statements(abs@, source@).len() as int,
        ),
{
    let statements = parse_statements(abs, source);
    module_facts(abs, source, &statements)
}

/// Every module of a program, parsed in order: `files[i]` is the path of the
/// module whose text is `sources[i]`.
pub fn parse_program(files: &Vec<String>, sources: &Vec<String>) -> (r: Vec<ParsedModule>)
    requires
        files.len() == sources.len(),
        forall|i: int| 0 <= i < sources.len() ==> (#[trigger] sources@[i])@.len() < u32::MAX,
    ensures
        r.len() == files.len(),
        forall|i: int| 0 <= i < files.len() ==> {
            let st = parsed_statements(files@[i]@, sources@[i]@);
            &&& (#[trigger] r@[i]).abs@ == files@[i]@
            &&& r@[i].exports@.map_values(|e: ParsedExport| e@) == module_exports(st, sources@[i]@, st.len() as int)
            &&& r@[i].imports@.map_values(|i: ParsedImport| i@) == module_imports(st, st.len() as int)
        },
{
    let mut out: Vec<ParsedModule> = Vec::new();
    let mut i: usize = 0;
    while i < files.len()
        invariant
            files.len() == sources.len(),
            forall|q: int| 0 <= q < sources.len() ==> (#[trigger] sources@[q])@.len() < u32::MAX,
            i <= files.len(),
            out.len() == i,
            forall|q: int| 0 <= q < i ==> {
                let st = parsed_statements(files@[q]@, sources@[q]@);
                &&& (#[trigger] out@[q]).abs@ == files@[q]@
                &&& out@[q].exports@.map_values(|e: ParsedExport| e@) == module_exports(st, sources@[q]@, st.len() as int)
                &&& out@[q].imports@.map_values(|i: ParsedImport| i@) == module_imports(st, st.len() as int)
            },
        decreases files.len() - i,
    {
        let p = parse_module(files[i].as_str(), sources[i].as_str());
        out.push(p);
        i += 1;
    }
    out
}

} // verus!
