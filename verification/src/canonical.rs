//! Canonical text of TypeScript type annotations, so that types that differ
//! only in the order of union members, intersection members or object
//! fields compare equal.

use vstd::prelude::*;

use crate::order::{antisymmetric, dedup_adjacent, stable_sort, stable_sorted, total_preorder, KeyOrder};
use crate::text::{append_str, compare_strings, lemma_lex_order_equal, lemma_lex_order_flip, lemma_lex_order_trans, lex_order, str_eq, Rel};
use crate::false_sharing::{chars_leq, text_leq, ByText};
use crate::type_clone::{Field, FieldView};

verus! {

/// A keyword type.
#[derive(Debug, Clone, Copy, PartialEq, Eq)]
pub enum Keyword {
    Any,
    BigInt,
    Boolean,
    Never,
    Null,
    Number,
    Object,
    String,
    Symbol,
    Undefined,
    Unknown,
    Void,
}

/// A type name: an identifier (or a qualified name spelled out with its
/// parts joined by dots, as the parser's nodes give it), a qualified name,
/// or `this`.
#[derive(Debug)]
pub enum TypeName {
    Ident(String),
    Qualified(Box<TypeName>, String),
    This,
}

/// What `typeof` names: a type name or an `import(...)`.
#[derive(Debug)]
pub enum QueryName {
    Name(TypeName),
    Import(String),
}

/// A literal type; numbers and unary expressions come as their source text.
#[derive(Debug)]
pub enum LiteralType {
    Bool(bool),
    Number(String),
    BigInt(Option<String>),
    Str(String),
    Template(Vec<String>),
    Unary(String),
}

/// A type annotation.
#[derive(Debug)]
pub enum TypeExpr {
    Keyword(Keyword),
    Reference(TypeName, Option<Vec<TypeExpr>>),
    Array(Box<TypeExpr>),
    Union(Vec<TypeExpr>),
    Intersection(Vec<TypeExpr>),
    Parenthesized(Box<TypeExpr>),
    Literal(LiteralType),
    Object(Vec<Member>),
    Function(Vec<Param>, Box<TypeExpr>),
    Tuple(Vec<TupleElement>),
    Query(QueryName),
    /// Any other type form.
    Other,
}

/// A parameter of a function type or method: its name (`None` for a
/// pattern), whether it is optional, its annotation.
#[derive(Debug)]
pub struct Param {
    pub name: Option<String>,
    pub optional: bool,
    pub annotation: Option<TypeExpr>,
}

/// An element of a tuple type.
#[derive(Debug)]
pub enum TupleElement {
    Optional(TypeExpr),
    Rest(TypeExpr),
    /// Label, optional, element.
    Named(String, bool, Box<TupleElement>),
    Plain(TypeExpr),
    Other,
}

/// A member of an object type or interface.
#[derive(Debug)]
pub enum Member {
    /// Key (when it has a static name), optional, readonly, annotation.
    Property(Option<String>, bool, bool, Option<TypeExpr>),
    /// Key (when it has a static name), optional, parameters, return annotation.
    Method(Option<String>, bool, Vec<Param>, Option<TypeExpr>),
    Other,
}

/// The text of a keyword.
pub open spec fn keyword_text(k: Keyword) -> Seq<char> {
    match k {
        Keyword::Any => "any"@,
        Keyword::BigInt => "bigint"@,
        Keyword::Boolean => "boolean"@,
        Keyword::Never => "never"@,
        Keyword::Null => "null"@,
        Keyword::Number => "number"@,
        Keyword::Object => "object"@,
        Keyword::String => "string"@,
        Keyword::Symbol => "symbol"@,
        Keyword::Undefined => "undefined"@,
        Keyword::Unknown => "unknown"@,
        Keyword::Void => "void"@,
    }
}

/// The text of a type name.
pub open spec fn name_text(n: TypeName) -> Seq<char>
    decreases n,
{
    match n {
        TypeName::Ident(s) => s@,
        TypeName::Qualified(left, right) => name_text(*left) + "."@ + right@,
        TypeName::This => "this"@,
    }
}

/// The text of what `typeof` names.
pub open spec fn query_text(q: QueryName) -> Seq<char> {
    match q {
        QueryName::Name(n) => name_text(n),
        QueryName::Import(s) => "import(\""@ + s@ + "\")"@,
    }
}

/// The concatenation of some texts.
pub open spec fn concat(parts: Seq<Seq<char>>) -> Seq<char>
    decreases parts.len(),
{
    if parts.len() == 0 {
        Seq::empty()
    } else {
        concat(parts.drop_last()) + parts.last()
    }
}

/// Texts joined by a separator.
pub open spec fn join(parts: Seq<Seq<char>>, sep: Seq<char>) -> Seq<char>
    decreases parts.len(),
{
    if parts.len() == 0 {
        Seq::empty()
    } else if parts.len() == 1 {
        parts[0]
    } else {
        join(parts.drop_last(), sep) + sep + parts.last()
    }
}

/// The text of a literal type.
pub open spec fn literal_text(l: LiteralType) -> Seq<char> {
    match l {
        LiteralType::Bool(b) => if b {
            "true"@
        } else {
            "false"@
        },
        LiteralType::Number(s) => s@,
        LiteralType::BigInt(raw) => match raw {
            Some(r) => r@ + "n"@,
            None => "0n"@,
        },
        LiteralType::Str(s) => "\""@ + s@ + "\""@,
        LiteralType::Template(quasis) => "`"@ + concat(quasis@.map_values(|q: String| q@)) + "`"@,
        LiteralType::Unary(s) => s@,
    }
}

/// Members sorted, repeats dropped, joined by `sep`.
pub open spec fn set_text(parts: Seq<Seq<char>>, sep: Seq<char>) -> Seq<char> {
    join(dedup_adjacent(stable_sorted(parts, chars_leq())), sep)
}

/// Field order: by name, then optional, then readonly, then type.
pub open spec fn field_rel(a: FieldView, b: FieldView) -> Rel {
    match lex_order(a.name, b.name) {
        Rel::Equal => if a.optional != b.optional {
            if !a.optional {
                Rel::Less
            } else {
                Rel::Greater
            }
        } else if a.readonly != b.readonly {
            if !a.readonly {
                Rel::Less
            } else {
                Rel::Greater
            }
        } else {
            lex_order(a.canonical_type, b.canonical_type)
        },
        r => r,
    }
}

/// Field order as a relation.
pub open spec fn field_leq() -> spec_fn(FieldView, FieldView) -> bool {
    |a: FieldView, b: FieldView| field_rel(a, b) != Rel::Greater
}

/// The text of a field in an object type.
pub open spec fn field_text(f: FieldView) -> Seq<char> {
    (if f.readonly {
        "readonly "@
    } else {
        Seq::empty()
    }) + f.name + (if f.optional {
        "?"@
    } else {
        Seq::empty()
    }) + ": "@ + f.canonical_type
}

/// The canonical text of a type.
pub open spec fn canon(t: TypeExpr) -> Seq<char>
    decreases t, 0int,
{
    match t {
        TypeExpr::Keyword(k) => keyword_text(k),
        TypeExpr::Reference(n, args) => match args {
            Some(a) => name_text(n) + "<"@ + join(canon_list(a@), ", "@) + ">"@,
            None => name_text(n),
        },
        TypeExpr::Array(e) => canon(*e) + "[]"@,
        TypeExpr::Union(us) => set_text(union_list(us@), " | "@),
        TypeExpr::Intersection(us) => set_text(inter_list(us@), " & "@),
        TypeExpr::Parenthesized(p) => canon(*p),
        TypeExpr::Literal(l) => literal_text(l),
        TypeExpr::Object(members) => "{ "@ + join(
            stable_sorted(fields_of(members@), field_leq()).map_values(|f: FieldView| field_text(f)),
            "; "@,
        ) + " }"@,
        TypeExpr::Function(params, ret) => "("@ + join(params_text(params@), ", "@) + ") => "@ + canon(*ret),
        TypeExpr::Tuple(elems) => "["@ + join(tuple_text(elems@), ", "@) + "]"@,
        TypeExpr::Query(q) => "typeof "@ + query_text(q),
        TypeExpr::Other => "unknown"@,
    }
}

/// The canonical texts of a list of types.
pub open spec fn canon_list(ts: Seq<TypeExpr>) -> Seq<Seq<char>>
    decreases ts, 0int,
{
    if ts.len() == 0 {
        Seq::empty()
    } else {
        canon_list(ts.drop_last()).push(canon(ts.last()))
    }
}

/// The members of a union, nested unions and parentheses flattened.
pub open spec fn union_parts(t: TypeExpr) -> Seq<Seq<char>>
    decreases t, 1int,
{
    match t {
        TypeExpr::Union(vs) => union_list(vs@),
        TypeExpr::Parenthesized(p) => union_parts(*p),
        _ => seq![canon(t)],
    }
}

/// The flattened members of a list of union members.
pub open spec fn union_list(ts: Seq<TypeExpr>) -> Seq<Seq<char>>
    decreases ts, 0int,
{
    if ts.len() == 0 {
        Seq::empty()
    } else {
        union_list(ts.drop_last()) + union_parts(ts.last())
    }
}

/// The members of an intersection, nested intersections and parentheses flattened.
pub open spec fn inter_parts(t: TypeExpr) -> Seq<Seq<char>>
    decreases t, 1int,
{
    match t {
        TypeExpr::Intersection(vs) => inter_list(vs@),
        TypeExpr::Parenthesized(p) => inter_parts(*p),
        _ => seq![canon(t)],
    }
}

/// The flattened members of a list of intersection members.
pub open spec fn inter_list(ts: Seq<TypeExpr>) -> Seq<Seq<char>>
    decreases ts, 0int,
{
    if ts.len() == 0 {
        Seq::empty()
    } else {
        inter_list(ts.drop_last()) + inter_parts(ts.last())
    }
}

/// The canonical text of an annotation, `any` when there is none.
pub open spec fn annotation_text(a: Option<TypeExpr>) -> Seq<char>
    decreases a, 0int,
{
    match a {
        Some(t) => canon(t),
        None => "any"@,
    }
}

/// The text of a parameter: name (`_` for a pattern), `?` when optional, annotation.
pub open spec fn param_text(p: Param) -> Seq<char>
    decreases p, 0int,
{
    (match p.name {
        Some(n) => n@,
        None => "_"@,
    }) + (if p.optional {
        "?"@
    } else {
        Seq::empty()
    }) + ": "@ + annotation_text(p.annotation)
}

/// The texts of a list of parameters.
pub open spec fn params_text(ps: Seq<Param>) -> Seq<Seq<char>>
    decreases ps, 0int,
{
    if ps.len() == 0 {
        Seq::empty()
    } else {
        params_text(ps.drop_last()).push(param_text(ps.last()))
    }
}

/// The text of a tuple element.
pub open spec fn element_text(e: TupleElement) -> Seq<char>
    decreases e, 0int,
{
    match e {
        TupleElement::Optional(t) => canon(t) + "?"@,
        TupleElement::Rest(t) => "..."@ + canon(t),
        TupleElement::Named(label, optional, el) => label@ + (if optional {
            "?"@
        } else {
            Seq::empty()
        }) + ": "@ + element_text(*el),
        TupleElement::Plain(t) => canon(t),
        TupleElement::Other => "unknown"@,
    }
}

/// The texts of a list of tuple elements.
pub open spec fn tuple_text(es: Seq<TupleElement>) -> Seq<Seq<char>>
    decreases es, 0int,
{
    if es.len() == 0 {
        Seq::empty()
    } else {
        tuple_text(es.drop_last()).push(element_text(es.last()))
    }
}

/// The field a member declares, when it has a static name.
pub open spec fn member_field(m: Member) -> Option<FieldView>
    decreases m, 0int,
{
    match m {
        Member::Property(key, optional, readonly, ann) => match key {
            Some(k) => Some(FieldView { name: k@, optional, readonly, canonical_type: annotation_text(ann) }),
            None => None,
        },
        Member::Method(key, optional, params, ret) => match key {
            Some(k) => Some(
                FieldView {
                    name: k@,
                    optional,
                    readonly: false,
                    canonical_type: "("@ + join(params_text(params@), ", "@) + ") => "@ + annotation_text(ret),
                },
            ),
            None => None,
        },
        Member::Other => None,
    }
}

/// The fields the members declare, in order.
pub open spec fn fields_of(ms: Seq<Member>) -> Seq<FieldView>
    decreases ms, 0int,
{
    if ms.len() == 0 {
        Seq::empty()
    } else {
        let p = fields_of(ms.drop_last());
        match member_field(ms.last()) {
            Some(f) => p.push(f),
            None => p,
        }
    }
}

/// The contents of a list of strings.
pub open spec fn texts(v: Seq<String>) -> Seq<Seq<char>> {
    v.map_values(|s: String| s@)
}

/// Joins strings with a separator.
pub fn join_strings(parts: &Vec<String>, sep: &str) -> (r: String)
    ensures
        r@ == join(texts(parts@), sep@),
{
    let ghost ps = texts(parts@);
    let mut out = String::new();
    let mut i: usize = 0;
    assert(ps.take(0) =~= Seq::<Seq<char>>::empty());
    while i < parts.len()
        invariant
            ps == texts(parts@),
            i <= parts.len(),
            out@ == join(ps.take(i as int), sep@),
        decreases parts.len() - i,
    {
        assert(ps.take(i + 1).drop_last() =~= ps.take(i as int));
        assert(ps.take(i + 1).last() == parts@[i as int]@);
        if i > 0 {
            append_str(&mut out, sep);
        } else {
            assert(ps.take(1)[0] == parts@[0]@);
        }
        append_str(&mut out, parts[i].as_str());
        i += 1;
    }
    assert(ps.take(parts.len() as int) =~= ps);
    out
}

fn keyword_str(k: Keyword) -> (r: &'static str)
    ensures
        r@ == keyword_text(k),
{
    proof {
        reveal_strlit("any");
        reveal_strlit("bigint");
        reveal_strlit("boolean");
        reveal_strlit("never");
        reveal_strlit("null");
        reveal_strlit("number");
        reveal_strlit("object");
        reveal_strlit("string");
        reveal_strlit("symbol");
        reveal_strlit("undefined");
        reveal_strlit("unknown");
        reveal_strlit("void");
    }
    match k {
        Keyword::Any => "any",
        Keyword::BigInt => "bigint",
        Keyword::Boolean => "boolean",
        Keyword::Never => "never",
        Keyword::Null => "null",
        Keyword::Number => "number",
        Keyword::Object => "object",
        Keyword::String => "string",
        Keyword::Symbol => "symbol",
        Keyword::Undefined => "undefined",
        Keyword::Unknown => "unknown",
        Keyword::Void => "void",
    }
}

/// The text of a type name.
pub fn type_name_string(n: &TypeName) -> (r: String)
    ensures
        r@ == name_text(*n),
    decreases n,
{
    match n {
        TypeName::Ident(s) => s.clone(),
        TypeName::Qualified(left, right) => {
            let mut out = type_name_string(left);
            append_str(&mut out, ".");
            append_str(&mut out, right.as_str());
            proof {
                reveal_strlit(".");
            }
            out
        },
        TypeName::This => {
            let mut out = String::new();
            append_str(&mut out, "this");
            proof {
                reveal_strlit("this");
            }
            out
        },
    }
}

fn query_string(q: &QueryName) -> (r: String)
    ensures
        r@ == query_text(*q),
{
    match q {
        QueryName::Name(n) => type_name_string(n),
        QueryName::Import(s) => {
            let mut out = String::new();
            append_str(&mut out, "import(\"");
            append_str(&mut out, s.as_str());
            append_str(&mut out, "\")");
            proof {
                reveal_strlit("import(\"");
                reveal_strlit("\")");
            }
            out
        },
    }
}

fn literal_string(l: &LiteralType) -> (r: String)
    ensures
        r@ == literal_text(*l),
{
    let mut out = String::new();
    proof {
        reveal_strlit("true");
        reveal_strlit("false");
        reveal_strlit("n");
        reveal_strlit("0n");
        reveal_strlit("\"");
        reveal_strlit("`");
    }
    match l {
        LiteralType::Bool(b) => {
            if *b {
                append_str(&mut out, "true");
            } else {
                append_str(&mut out, "false");
            }
        },
        LiteralType::Number(s) => {
            append_str(&mut out, s.as_str());
        },
        LiteralType::BigInt(raw) => {
            match raw {
                Some(r) => {
                    append_str(&mut out, r.as_str());
                    append_str(&mut out, "n");
                },
                None => {
                    append_str(&mut out, "0n");
                },
            }
        },
        LiteralType::Str(s) => {
            append_str(&mut out, "\"");
            append_str(&mut out, s.as_str());
            append_str(&mut out, "\"");
        },
        LiteralType::Template(quasis) => {
            append_str(&mut out, "`");
            let ghost qs = quasis@.map_values(|q: String| q@);
            let ghost start = out@;
            let mut i: usize = 0;
            assert(qs.take(0) =~= Seq::<Seq<char>>::empty());
            while i < quasis.len()
                invariant
                    qs == quasis@.map_values(|q: String| q@),
                    i <= quasis.len(),
                    out@ == start + concat(qs.take(i as int)),
                decreases quasis.len() - i,
            {
                assert(qs.take(i + 1).drop_last() =~= qs.take(i as int));
                assert(qs.take(i + 1).last() == quasis@[i as int]@);
                append_str(&mut out, quasis[i].as_str());
                i += 1;
            }
            assert(qs.take(quasis.len() as int) =~= qs);
            append_str(&mut out, "`");
        },
        LiteralType::Unary(s) => {
            append_str(&mut out, s.as_str());
        },
    }
    assert(out@ =~= literal_text(*l));
    out
}

/// Sorts texts, drops repeats next to each other and joins them with `sep`.
fn set_string(parts: Vec<String>, sep: &str) -> (r: String)
    ensures
        r@ == set_text(texts(parts@), sep@),
{
    let ghost p0 = parts@;
    let sorted = stable_sort(&ByText, parts);
    proof {
        crate::order::lemma_stable_sorted_map(p0, text_leq(), |s: String| s@, chars_leq());
    }
    let ghost sv = texts(sorted@);
    assert(sv == stable_sorted(texts(p0), chars_leq()));
    let mut uniq: Vec<String> = Vec::new();
    let mut i: usize = 0;
    assert(sv.take(0) =~= Seq::<Seq<char>>::empty());
    while i < sorted.len()
        invariant
            sv == texts(sorted@),
            i <= sorted.len(),
            texts(uniq@) == dedup_adjacent(sv.take(i as int)),
        decreases sorted.len() - i,
    {
        let ghost t = sv.take(i + 1);
        assert(t.drop_last() =~= sv.take(i as int));
        assert(t.last() == sorted@[i as int]@);
        let ghost before = texts(uniq@);
        if i == 0 || !str_eq(sorted[i - 1].as_str(), sorted[i].as_str()) {
            uniq.push(sorted[i].clone());
            assert(texts(uniq@) =~= before.push(sorted@[i as int]@));
            if i > 0 {
                assert(t[t.len() - 2] == sorted@[i - 1]@);
            } else {
                assert(dedup_adjacent(t) =~= t);
            }
        } else {
            assert(t[t.len() - 2] == sorted@[i - 1]@);
        }
        i += 1;
    }
    assert(sv.take(sorted.len() as int) =~= sv);
    join_strings(&uniq, sep)
}

/// Field order on fields.
pub struct FieldOrder;

impl KeyOrder<Field> for FieldOrder {
    open spec fn admits(&self, x: Field) -> bool {
        true
    }

    open spec fn leq(&self) -> spec_fn(Field, Field) -> bool {
        |a: Field, b: Field| field_rel(a@, b@) != Rel::Greater
    }

    fn le(&self, a: &Field, b: &Field) -> (r: bool) {
        let rel = match compare_strings(a.name.as_str(), b.name.as_str()) {
            Rel::Equal => {
                if a.optional != b.optional {
                    if !a.optional {
                        Rel::Less
                    } else {
                        Rel::Greater
                    }
                } else if a.readonly != b.readonly {
                    if !a.readonly {
                        Rel::Less
                    } else {
                        Rel::Greater
                    }
                } else {
                    compare_strings(a.canonical_type.as_str(), b.canonical_type.as_str())
                }
            },
            r => r,
        };
        match rel {
            Rel::Greater => false,
            _ => true,
        }
    }
}

/// Sorts fields by name, then optional, then readonly, then type.
pub fn sort_fields(fields: Vec<Field>) -> (r: Vec<Field>)
    ensures
        r@.map_values(|f: Field| f@) == stable_sorted(fields@.map_values(|f: Field| f@), field_leq()),
{
    let ghost f0 = fields@;
    let r = stable_sort(&FieldOrder, fields);
    proof {
        crate::order::lemma_stable_sorted_map(f0, FieldOrder.leq(), |f: Field| f@, field_leq());
    }
    r
}

fn field_string(f: &Field) -> (r: String)
    ensures
        r@ == field_text(f@),
{
    let mut out = String::new();
    if f.readonly {
        append_str(&mut out, "readonly ");
    }
    append_str(&mut out, f.name.as_str());
    if f.optional {
        append_str(&mut out, "?");
    }
    append_str(&mut out, ": ");
    append_str(&mut out, f.canonical_type.as_str());
    proof {
        reveal_strlit("readonly ");
        reveal_strlit("?");
        reveal_strlit(": ");
    }
    assert(out@ =~= field_text(f@));
    out
}

/// The canonical text of a type annotation.
pub fn canonicalize_type(t: &TypeExpr) -> (r: String)
    ensures
        r@ == canon(*t),
    decreases t, 0int,
{
    proof {
        reveal_strlit("<");
        reveal_strlit(", ");
        reveal_strlit(">");
        reveal_strlit("[]");
        reveal_strlit(" | ");
        reveal_strlit(" & ");
        reveal_strlit("{ ");
        reveal_strlit("; ");
        reveal_strlit(" }");
        reveal_strlit("(");
        reveal_strlit(") => ");
        reveal_strlit("[");
        reveal_strlit("]");
        reveal_strlit("typeof ");
        reveal_strlit("unknown");
    }
    match t {
        TypeExpr::Keyword(k) => {
            let mut out = String::new();
            append_str(&mut out, keyword_str(*k));
            out
        },
        TypeExpr::Reference(n, args) => {
            let mut out = type_name_string(n);
            match args {
                Some(a) => {
                    proof {
                        assert(decreases_to!(*t => (*t)->Reference_1));
                        assert(decreases_to!((*t)->Reference_1 => (*t)->Reference_1->0));
                    }
                    let parts = canon_list_exec(a);
                    append_str(&mut out, "<");
                    let joined = join_strings(&parts, ", ");
                    append_str(&mut out, joined.as_str());
                    append_str(&mut out, ">");
                },
                None => {},
            }
            out
        },
        TypeExpr::Array(e) => {
            let mut out = canonicalize_type(e);
            append_str(&mut out, "[]");
            out
        },
        TypeExpr::Union(us) => {
            proof {
                assert(decreases_to!(*t => (*t)->Union_0));
            }
            let mut parts: Vec<String> = Vec::new();
            union_list_exec(us, &mut parts);
            set_string(parts, " | ")
        },
        TypeExpr::Intersection(us) => {
            proof {
                assert(decreases_to!(*t => (*t)->Intersection_0));
            }
            let mut parts: Vec<String> = Vec::new();
            inter_list_exec(us, &mut parts);
            set_string(parts, " & ")
        },
        TypeExpr::Parenthesized(p) => canonicalize_type(p),
        TypeExpr::Literal(l) => literal_string(l),
        TypeExpr::Object(members) => {
            proof {
                assert(decreases_to!(*t => (*t)->Object_0));
            }
            let fields = fields_of_exec(members);
            let sorted = sort_fields(fields);
            let mut strs: Vec<String> = Vec::new();
            let ghost fv = sorted@.map_values(|f: Field| f@);
            let mut i: usize = 0;
            while i < sorted.len()
                invariant
                    fv == sorted@.map_values(|f: Field| f@),
                    i <= sorted.len(),
                    texts(strs@) == fv.take(i as int).map_values(|f: FieldView| field_text(f)),
                decreases sorted.len() - i,
            {
                let ghost before = texts(strs@);
                strs.push(field_string(&sorted[i]));
                assert(texts(strs@) =~= before.push(field_text(fv[i as int])));
                assert(fv.take(i + 1).map_values(|f: FieldView| field_text(f)) =~= fv.take(i as int).map_values(
                    |f: FieldView| field_text(f),
                ).push(field_text(fv[i as int])));
                i += 1;
            }
            assert(fv.take(sorted.len() as int) =~= fv);
            let mut out = String::new();
            append_str(&mut out, "{ ");
            let joined = join_strings(&strs, "; ");
            append_str(&mut out, joined.as_str());
            append_str(&mut out, " }");
            out
        },
        TypeExpr::Function(params, ret) => {
            proof {
                assert(decreases_to!(*t => (*t)->Function_0));
            }
            let ps = params_exec(params);
            let mut out = String::new();
            append_str(&mut out, "(");
            let joined = join_strings(&ps, ", ");
            append_str(&mut out, joined.as_str());
            append_str(&mut out, ") => ");
            let r = canonicalize_type(ret);
            append_str(&mut out, r.as_str());
            out
        },
        TypeExpr::Tuple(elems) => {
            proof {
                assert(decreases_to!(*t => (*t)->Tuple_0));
            }
            let es = tuple_exec(elems);
            let mut out = String::new();
            append_str(&mut out, "[");
            let joined = join_strings(&es, ", ");
            append_str(&mut out, joined.as_str());
            append_str(&mut out, "]");
            out
        },
        TypeExpr::Query(q) => {
            let mut out = String::new();
            append_str(&mut out, "typeof ");
            let qs = query_string(q);
            append_str(&mut out, qs.as_str());
            out
        },
        TypeExpr::Other => {
            let mut out = String::new();
            append_str(&mut out, "unknown");
            out
        },
    }
}

fn canon_list_exec(ts: &Vec<TypeExpr>) -> (r: Vec<String>)
    ensures
        texts(r@) == canon_list(ts@),
    decreases ts@, 0int,
{
    let mut out: Vec<String> = Vec::new();
    let mut i: usize = 0;
    assert(ts@.take(0) =~= Seq::<TypeExpr>::empty());
    while i < ts.len()
        invariant
            i <= ts.len(),
            texts(out@) == canon_list(ts@.take(i as int)),
        decreases ts.len() - i,
    {
        assert(ts@.take(i + 1).drop_last() =~= ts@.take(i as int));
        assert(ts@.take(i + 1).last() == ts@[i as int]);
        proof {
            assert(decreases_to!(ts@ => ts@[i as int]));
        }
        let ghost before = texts(out@);
        out.push(canonicalize_type(&ts[i]));
        assert(texts(out@) =~= before.push(canon(ts@[i as int])));
        i += 1;
    }
    assert(ts@.take(ts.len() as int) =~= ts@);
    out
}

fn union_parts_exec(t: &TypeExpr, out: &mut Vec<String>)
    ensures
        texts(final(out)@) == texts(old(out)@) + union_parts(*t),
    decreases t, 1int,
{
    match t {
        TypeExpr::Union(vs) => {
            proof {
                assert(decreases_to!(*t => (*t)->Union_0));
            }
            union_list_exec(vs, out);
        },
        TypeExpr::Parenthesized(p) => {
            union_parts_exec(p, out);
        },
        _ => {
            let ghost before = texts(out@);
            out.push(canonicalize_type(t));
            assert(texts(out@) =~= before + seq![canon(*t)]);
        },
    }
}

fn union_list_exec(ts: &Vec<TypeExpr>, out: &mut Vec<String>)
    ensures
        texts(final(out)@) == texts(old(out)@) + union_list(ts@),
    decreases ts@, 0int,
{
    let ghost o = texts(out@);
    let mut i: usize = 0;
    assert(ts@.take(0) =~= Seq::<TypeExpr>::empty());
    assert(o + union_list(Seq::empty()) =~= o);
    while i < ts.len()
        invariant
            i <= ts.len(),
            texts(out@) == o + union_list(ts@.take(i as int)),
        decreases ts.len() - i,
    {
        assert(ts@.take(i + 1).drop_last() =~= ts@.take(i as int));
        assert(ts@.take(i + 1).last() == ts@[i as int]);
        proof {
            assert(decreases_to!(ts@ => ts@[i as int]));
        }
        union_parts_exec(&ts[i], out);
        assert(texts(out@) =~= o + union_list(ts@.take(i + 1)));
        i += 1;
    }
    assert(ts@.take(ts.len() as int) =~= ts@);
}

fn inter_parts_exec(t: &TypeExpr, out: &mut Vec<String>)
    ensures
        texts(final(out)@) == texts(old(out)@) + inter_parts(*t),
    decreases t, 1int,
{
    match t {
        TypeExpr::Intersection(vs) => {
            proof {
                assert(decreases_to!(*t => (*t)->Intersection_0));
            }
            inter_list_exec(vs, out);
        },
        TypeExpr::Parenthesized(p) => {
            inter_parts_exec(p, out);
        },
        _ => {
            let ghost before = texts(out@);
            out.push(canonicalize_type(t));
            assert(texts(out@) =~= before + seq![canon(*t)]);
        },
    }
}

fn inter_list_exec(ts: &Vec<TypeExpr>, out: &mut Vec<String>)
    ensures
        texts(final(out)@) == texts(old(out)@) + inter_list(ts@),
    decreases ts@, 0int,
{
    let ghost o = texts(out@);
    let mut i: usize = 0;
    assert(ts@.take(0) =~= Seq::<TypeExpr>::empty());
    assert(o + inter_list(Seq::empty()) =~= o);
    while i < ts.len()
        invariant
            i <= ts.len(),
            texts(out@) == o + inter_list(ts@.take(i as int)),
        decreases ts.len() - i,
    {
        assert(ts@.take(i + 1).drop_last() =~= ts@.take(i as int));
        assert(ts@.take(i + 1).last() == ts@[i as int]);
        proof {
            assert(decreases_to!(ts@ => ts@[i as int]));
        }
        inter_parts_exec(&ts[i], out);
        assert(texts(out@) =~= o + inter_list(ts@.take(i + 1)));
        i += 1;
    }
    assert(ts@.take(ts.len() as int) =~= ts@);
}

fn annotation_string(a: &Option<TypeExpr>) -> (r: String)
    ensures
        r@ == annotation_text(*a),
    decreases a, 0int,
{
    match a {
        Some(t) => {
            proof {
                assert(decreases_to!(*a => (*a)->0));
            }
            canonicalize_type(t)
        },
        None => {
            let mut out = String::new();
            append_str(&mut out, "any");
            proof {
                reveal_strlit("any");
            }
            out
        },
    }
}

fn param_string(p: &Param) -> (r: String)
    ensures
        r@ == param_text(*p),
    decreases p, 0int,
{
    let mut out = String::new();
    match &p.name {
        Some(n) => append_str(&mut out, n.as_str()),
        None => append_str(&mut out, "_"),
    }
    if p.optional {
        append_str(&mut out, "?");
    }
    append_str(&mut out, ": ");
    proof {
        assert(decreases_to!(*p => p.annotation));
    }
    let a = annotation_string(&p.annotation);
    append_str(&mut out, a.as_str());
    proof {
        reveal_strlit("_");
        reveal_strlit("?");
        reveal_strlit(": ");
    }
    assert(out@ =~= param_text(*p));
    out
}

fn params_exec(ps: &Vec<Param>) -> (r: Vec<String>)
    ensures
        texts(r@) == params_text(ps@),
    decreases ps@, 0int,
{
    let mut out: Vec<String> = Vec::new();
    let mut i: usize = 0;
    assert(ps@.take(0) =~= Seq::<Param>::empty());
    while i < ps.len()
        invariant
            i <= ps.len(),
            texts(out@) == params_text(ps@.take(i as int)),
        decreases ps.len() - i,
    {
        assert(ps@.take(i + 1).drop_last() =~= ps@.take(i as int));
        assert(ps@.take(i + 1).last() == ps@[i as int]);
        proof {
            assert(decreases_to!(ps@ => ps@[i as int]));
        }
        let ghost before = texts(out@);
        out.push(param_string(&ps[i]));
        assert(texts(out@) =~= before.push(param_text(ps@[i as int])));
        i += 1;
    }
    assert(ps@.take(ps.len() as int) =~= ps@);
    out
}

fn element_string(e: &TupleElement) -> (r: String)
    ensures
        r@ == element_text(*e),
    decreases e, 0int,
{
    proof {
        reveal_strlit("?");
        reveal_strlit("...");
        reveal_strlit(": ");
        reveal_strlit("unknown");
    }
    match e {
        TupleElement::Optional(t) => {
            let mut out = canonicalize_type(t);
            append_str(&mut out, "?");
            out
        },
        TupleElement::Rest(t) => {
            let mut out = String::new();
            append_str(&mut out, "...");
            let c = canonicalize_type(t);
            append_str(&mut out, c.as_str());
            out
        },
        TupleElement::Named(label, optional, el) => {
            let mut out = String::new();
            append_str(&mut out, label.as_str());
            if *optional {
                append_str(&mut out, "?");
            }
            append_str(&mut out, ": ");
            let inner = element_string(el);
            append_str(&mut out, inner.as_str());
            assert(out@ =~= element_text(*e));
            out
        },
        TupleElement::Plain(t) => canonicalize_type(t),
        TupleElement::Other => {
            let mut out = String::new();
            append_str(&mut out, "unknown");
            out
        },
    }
}

fn tuple_exec(es: &Vec<TupleElement>) -> (r: Vec<String>)
    ensures
        texts(r@) == tuple_text(es@),
    decreases es@, 0int,
{
    let mut out: Vec<String> = Vec::new();
    let mut i: usize = 0;
    assert(es@.take(0) =~= Seq::<TupleElement>::empty());
    while i < es.len()
        invariant
            i <= es.len(),
            texts(out@) == tuple_text(es@.take(i as int)),
        decreases es.len() - i,
    {
        assert(es@.take(i + 1).drop_last() =~= es@.take(i as int));
        assert(es@.take(i + 1).last() == es@[i as int]);
        proof {
            assert(decreases_to!(es@ => es@[i as int]));
        }
        let ghost before = texts(out@);
        out.push(element_string(&es[i]));
        assert(texts(out@) =~= before.push(element_text(es@[i as int])));
        i += 1;
    }
    assert(es@.take(es.len() as int) =~= es@);
    out
}

/// The field a member declares, when it has a static name.
pub fn member_field_exec(m: &Member) -> (r: Option<Field>)
    ensures
        match member_field(*m) {
            Some(f) => r matches Some(g) && g@ == f,
            None => r is None,
        },
    decreases m, 0int,
{
    match m {
        Member::Property(key, optional, readonly, ann) => match key {
            Some(k) => {
                proof {
                    assert(decreases_to!(*m => (*m)->Property_3));
                }
                let ty = annotation_string(ann);
                Some(Field { name: k.clone(), optional: *optional, readonly: *readonly, canonical_type: ty })
            },
            None => None,
        },
        Member::Method(key, optional, params, ret) => match key {
            Some(k) => {
                proof {
                    assert(decreases_to!(*m => (*m)->Method_2));
                    assert(decreases_to!(*m => (*m)->Method_3));
                    reveal_strlit("(");
                    reveal_strlit(", ");
                    reveal_strlit(") => ");
                }
                let ps = params_exec(params);
                let mut ty = String::new();
                append_str(&mut ty, "(");
                let joined = join_strings(&ps, ", ");
                append_str(&mut ty, joined.as_str());
                append_str(&mut ty, ") => ");
                let r = annotation_string(ret);
                append_str(&mut ty, r.as_str());
                Some(Field { name: k.clone(), optional: *optional, readonly: false, canonical_type: ty })
            },
            None => None,
        },
        Member::Other => None,
    }
}

/// The fields the members declare, in order.
pub fn fields_of_exec(ms: &Vec<Member>) -> (r: Vec<Field>)
    ensures
        r@.map_values(|f: Field| f@) == fields_of(ms@),
    decreases ms@, 0int,
{
    let mut out: Vec<Field> = Vec::new();
    let mut i: usize = 0;
    assert(ms@.take(0) =~= Seq::<Member>::empty());
    while i < ms.len()
        invariant
            i <= ms.len(),
            out@.map_values(|f: Field| f@) == fields_of(ms@.take(i as int)),
        decreases ms.len() - i,
    {
        assert(ms@.take(i + 1).drop_last() =~= ms@.take(i as int));
        assert(ms@.take(i + 1).last() == ms@[i as int]);
        proof {
            assert(decreases_to!(ms@ => ms@[i as int]));
        }
        let ghost before = out@.map_values(|f: Field| f@);
        if let Some(f) = member_field_exec(&ms[i]) {
            let ghost fv = f@;
            out.push(f);
            assert(out@.map_values(|f: Field| f@) =~= before.push(fv));
        }
        i += 1;
    }
    assert(ms@.take(ms.len() as int) =~= ms@);
    out
}

proof fn lemma_lex_props(a: Seq<char>, b: Seq<char>, c: Seq<char>)
    ensures
        lex_order(a, b) == Rel::Less <==> lex_order(b, a) == Rel::Greater,
        lex_order(a, b) == Rel::Equal <==> a == b,
        lex_order(a, b) != Rel::Greater && lex_order(b, c) != Rel::Greater ==> lex_order(a, c) != Rel::Greater,
{
    lemma_lex_order_flip(a, b);
    lemma_lex_order_flip(b, a);
    lemma_lex_order_flip(a, c);
    lemma_lex_order_flip(c, a);
    lemma_lex_order_flip(b, c);
    lemma_lex_order_flip(c, b);
    lemma_lex_order_equal(a, b);
    lemma_lex_order_equal(b, c);
    lemma_lex_order_equal(a, c);
    if lex_order(a, b) == Rel::Less && lex_order(b, c) == Rel::Less {
        lemma_lex_order_trans(a, b, c);
    }
}

proof fn lemma_chars_leq_order()
    ensures
        total_preorder(chars_leq()),
        antisymmetric(chars_leq()),
{
    assert forall|a: Seq<char>, b: Seq<char>| #[trigger] chars_leq()(a, b) || #[trigger] chars_leq()(b, a) by {
        lemma_lex_props(a, b, b);
    }
    assert forall|a: Seq<char>, b: Seq<char>, c: Seq<char>| #[trigger] chars_leq()(a, b) && #[trigger] chars_leq()(b, c) implies chars_leq()(a, c) by {
        lemma_lex_props(a, b, c);
    }
    assert forall|a: Seq<char>, b: Seq<char>| #[trigger] chars_leq()(a, b) && #[trigger] chars_leq()(b, a) implies a == b by {
        lemma_lex_props(a, b, b);
    }
}

proof fn lemma_field_props(a: FieldView, b: FieldView, c: FieldView)
    ensures
        field_rel(a, b) != Rel::Greater || field_rel(b, a) != Rel::Greater,
        field_rel(a, b) != Rel::Greater && field_rel(b, c) != Rel::Greater ==> field_rel(a, c) != Rel::Greater,
        field_rel(a, b) != Rel::Greater && field_rel(b, a) != Rel::Greater ==> a == b,
{
    lemma_lex_props(a.name, b.name, c.name);
    lemma_lex_props(b.name, a.name, c.name);
    lemma_lex_props(a.name, c.name, b.name);
    lemma_lex_props(a.canonical_type, b.canonical_type, c.canonical_type);
    lemma_lex_props(b.canonical_type, a.canonical_type, c.canonical_type);
    lemma_lex_props(a.canonical_type, c.canonical_type, b.canonical_type);
    lemma_lex_props(b.name, c.name, a.name);
    lemma_lex_props(c.name, a.name, b.name);
    lemma_lex_props(b.canonical_type, c.canonical_type, a.canonical_type);
    lemma_lex_props(c.canonical_type, a.canonical_type, b.canonical_type);
}

proof fn lemma_field_leq_order()
    ensures
        total_preorder(field_leq()),
        antisymmetric(field_leq()),
{
    assert forall|a: FieldView, b: FieldView| #[trigger] field_leq()(a, b) || #[trigger] field_leq()(b, a) by {
        lemma_field_props(a, b, b);
    }
    assert forall|a: FieldView, b: FieldView, c: FieldView| #[trigger] field_leq()(a, b) && #[trigger] field_leq()(b, c) implies field_leq()(a, c) by {
        lemma_field_props(a, b, c);
    }
    assert forall|a: FieldView, b: FieldView| #[trigger] field_leq()(a, b) && #[trigger] field_leq()(b, a) implies a == b by {
        lemma_field_props(a, b, b);
    }
}

/// The order in which fields are declared does not matter: the same fields
/// in any order sort to the same list.
pub proof fn law_fields_order_independent(a: Seq<FieldView>, b: Seq<FieldView>)
    requires
        a.to_multiset() == b.to_multiset(),
    ensures
        stable_sorted(a, field_leq()) == stable_sorted(b, field_leq()),
{
    lemma_field_leq_order();
    crate::order::lemma_stable_sorted_is_sorted(a, field_leq());
    crate::order::lemma_stable_sorted_is_sorted(b, field_leq());
    crate::order::lemma_stable_sorted_multiset(a, field_leq());
    crate::order::lemma_stable_sorted_multiset(b, field_leq());
    crate::order::lemma_sorted_unique(stable_sorted(a, field_leq()), stable_sorted(b, field_leq()), field_leq());
}

/// The order of the members of a union or intersection does not matter:
/// the same member texts in any order give the same canonical text.
pub proof fn law_members_order_independent(a: Seq<Seq<char>>, b: Seq<Seq<char>>, sep: Seq<char>)
    requires
        a.to_multiset() == b.to_multiset(),
    ensures
        set_text(a, sep) == set_text(b, sep),
{
    lemma_chars_leq_order();
    crate::order::lemma_stable_sorted_is_sorted(a, chars_leq());
    crate::order::lemma_stable_sorted_is_sorted(b, chars_leq());
    crate::order::lemma_stable_sorted_multiset(a, chars_leq());
    crate::order::lemma_stable_sorted_multiset(b, chars_leq());
    crate::order::lemma_sorted_unique(stable_sorted(a, chars_leq()), stable_sorted(b, chars_leq()), chars_leq());
}

} // verus!
