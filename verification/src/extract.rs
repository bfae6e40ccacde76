//! What the detectors take from a file's syntax: its function-likes and
//! calls, the bodies that near-duplicate detection compares, how parameters
//! are used, and its type declarations. The rules here read the node list of
//! `syntax::parse_nodes`: nodes come in walk order, each with its parent.

use vstd::prelude::*;

use crate::call_graph::{find_function, forward_of, forward_spec, function_at, CallGraph, FnNode, Forward, ParsedCall};
use crate::canonical::{field_leq, fields_of};
use crate::near_duplicate::{
    compute_window_hashes, normalize_tokens, normalized, raw_of, raw_tokens, window_hashes, FunctionCandidate, LexedToken, RawToken,
};
use crate::order::stable_sorted;
use crate::parse::{chars_within, line_at, newlines, SpannedName};
use crate::syntax::{
    lex_tokens, lexed_tokens, parse_nodes, parse_type_bodies, parsed_nodes, parsed_type_bodies, Callable, NodeData, SyntaxNode, TypeBody,
};
use crate::text::{append_str, copy_string};
use crate::tramp_data::{is_direct_reference, referenced_name, ParamUsage};
use crate::type_clone::{alias_candidate, field_views, interface_candidate, FieldView, TypeCandidate};
use crate::call_graph::ExprShape;
use crate::canonical::{Member, TypeExpr};

verus! {

/// Which kind of ancestor to look for.
#[derive(Debug, Clone, Copy, PartialEq, Eq)]
pub enum Seek {
    /// A function-like with a body to run.
    LiveCallable,
    /// Any function-like.
    AnyCallable,
    /// A local `export { .. }` list or an `export default` declaration:
    /// functions within one count as exported (an `export` of a
    /// declaration does not; its names are exports of the module).
    Export,
    /// A variable declarator that binds a name.
    NamedDeclarator,
    /// A directive.
    Directive,
}

/// Whether node `n` is what `s` looks for.
pub open spec fn seeks(s: Seek, n: SyntaxNode) -> bool {
    match s {
        Seek::LiveCallable => n.data matches NodeData::Callable(c) && !c.declare_only,
        Seek::AnyCallable => n.data is Callable,
        Seek::Export => n.data is ExportNamed || n.data is ExportDefault,
        Seek::NamedDeclarator => n.data matches NodeData::Declarator(Some(_)),
        Seek::Directive => n.data is Directive,
    }
}

/// The parent of node `i`, when it comes before `i`; -1 otherwise.
pub open spec fn parent_index(ns: Seq<SyntaxNode>, i: int) -> int {
    if ns[i].parent < i {
        ns[i].parent as int
    } else {
        -1
    }
}

/// The nearest proper ancestor of node `i` that `s` looks for; -1 when none.
pub open spec fn nearest(ns: Seq<SyntaxNode>, i: int, s: Seek) -> int
    decreases i,
{
    if i <= 0 || i >= ns.len() {
        -1
    } else {
        let p = parent_index(ns, i);
        if p < 0 {
            -1
        } else if seeks(s, ns[p]) {
            p
        } else {
            nearest(ns, p, s)
        }
    }
}

/// Whether node `f` is a proper ancestor of node `j`.
pub open spec fn descends(ns: Seq<SyntaxNode>, j: int, f: int) -> bool
    decreases j,
{
    if j <= 0 || j >= ns.len() {
        false
    } else {
        let p = parent_index(ns, j);
        if p < 0 {
            false
        } else if p == f {
            true
        } else {
            descends(ns, p, f)
        }
    }
}

proof fn lemma_nearest_range(ns: Seq<SyntaxNode>, i: int, s: Seek)
    ensures
        nearest(ns, i, s) == -1 || (0 <= nearest(ns, i, s) < i && nearest(ns, i, s) < ns.len() && seeks(
            s,
            ns[nearest(ns, i, s)],
        )),
    decreases i,
{
    if 0 < i < ns.len() {
        let p = parent_index(ns, i);
        if p >= 0 && !seeks(s, ns[p]) {
            lemma_nearest_range(ns, p, s);
        }
    }
}

fn seeks_exec(n: &SyntaxNode, s: Seek) -> (r: bool)
    ensures
        r == seeks(s, *n),
{
    match s {
        Seek::LiveCallable => match &n.data {
            NodeData::Callable(c) => !c.declare_only,
            _ => false,
        },
        Seek::AnyCallable => match &n.data {
            NodeData::Callable(_) => true,
            _ => false,
        },
        Seek::Export => match &n.data {
            NodeData::ExportNamed => true,
            NodeData::ExportDefault => true,
            _ => false,
        },
        Seek::NamedDeclarator => match &n.data {
            NodeData::Declarator(Some(_)) => true,
            _ => false,
        },
        Seek::Directive => match &n.data {
            NodeData::Directive => true,
            _ => false,
        },
    }
}

/// The nearest proper ancestor of node `i` that `s` looks for.
fn nearest_exec(ns: &Vec<SyntaxNode>, i: usize, s: Seek) -> (r: Option<usize>)
    requires
        i < ns.len(),
    ensures
        match r {
            Some(p) => nearest(ns@, i as int, s) == p as int && p < i,
            None => nearest(ns@, i as int, s) == -1,
        },
{
    let mut cur = i;
    loop
        invariant
            cur <= i < ns.len(),
            nearest(ns@, i as int, s) == nearest(ns@, cur as int, s),
        decreases cur,
    {
        if cur == 0 {
            return None;
        }
        let p = ns[cur].parent;
        if p >= cur {
            return None;
        }
        if seeks_exec(&ns[p], s) {
            return Some(p);
        }
        cur = p;
    }
}

/// Whether node `f` is a proper ancestor of node `j`.
fn descends_exec(ns: &Vec<SyntaxNode>, j: usize, f: usize) -> (r: bool)
    requires
        j < ns.len(),
    ensures
        r == descends(ns@, j as int, f as int),
{
    let mut cur = j;
    loop
        invariant
            cur <= j < ns.len(),
            descends(ns@, j as int, f as int) == descends(ns@, cur as int, f as int),
        decreases cur,
    {
        if cur == 0 {
            return false;
        }
        let p = ns[cur].parent;
        if p >= cur {
            return false;
        }
        if p == f {
            return true;
        }
        cur = p;
    }
}

/// Where a function-like starts: at its name when it has one.
pub open spec fn fn_start(n: SyntaxNode) -> u32 {
    match n.data {
        NodeData::Callable(c) => match c.id {
            Some(id) => id.span_start,
            None => n.start,
        },
        _ => n.start,
    }
}

/// The name of a function-like for the call graph: its own, or `default`.
pub open spec fn fn_name(n: SyntaxNode) -> Seq<char> {
    match n.data {
        NodeData::Callable(c) => match c.id {
            Some(id) => id.name@,
            None => "default"@,
        },
        _ => "default"@,
    }
}

/// The call a function-like's block body only forwards to, if any.
pub open spec fn fn_forward(n: SyntaxNode) -> Option<Forward> {
    match n.data {
        NodeData::Callable(c) => match c.statements {
            Some(st) => forward_spec(st@),
            None => None,
        },
        _ => None,
    }
}

/// The 1-based line of byte offset `off`.
pub open spec fn line_of(source: Seq<char>, off: u32) -> int {
    newlines(source.take(chars_within(source, off as int))) + 1
}

/// Indices, below `k`, of the function-likes with a body to run, in walk order.
pub open spec fn live_fns(ns: Seq<SyntaxNode>, k: int) -> Seq<int>
    decreases k,
{
    if k <= 0 {
        Seq::empty()
    } else {
        let p = live_fns(ns, k - 1);
        if seeks(Seek::LiveCallable, ns[k - 1]) {
            p.push(k - 1)
        } else {
            p
        }
    }
}

/// Whether `f` is the call-graph function of node `j` of module `module`.
pub open spec fn fn_node_of(ns: Seq<SyntaxNode>, source: Seq<char>, module: usize, display: Seq<char>, j: int, f: FnNode) -> bool {
    &&& f.module == module
    &&& f.display@ == display
    &&& f.name@ == fn_name(ns[j])
    &&& f.span_start == fn_start(ns[j])
    &&& f.line == line_of(source, fn_start(ns[j]))
    &&& f.exported == (nearest(ns, j, Seek::Export) >= 0)
    &&& f.forward == fn_forward(ns[j])
}

fn fn_node(ns: &Vec<SyntaxNode>, source: &str, module: usize, display: &str, j: usize) -> (r: FnNode)
    requires
        j < ns.len(),
        source@.len() < u32::MAX,
        seeks(Seek::LiveCallable, ns@[j as int]),
    ensures
        fn_node_of(ns@, source@, module, display@, j as int, r),
{
    let n = &ns[j];
    let (name, start, forward) = match &n.data {
        NodeData::Callable(c) => {
            let mut name = String::new();
            let start = match &c.id {
                Some(id) => {
                    append_str(&mut name, id.name.as_str());
                    id.span_start
                },
                None => {
                    append_str(&mut name, "default");
                    n.start
                },
            };
            let forward = match &c.statements {
                Some(st) => forward_of(st),
                None => None,
            };
            (name, start, forward)
        },
        _ => {
            let mut name = String::new();
            append_str(&mut name, "default");
            (name, n.start, None)
        },
    };
    let exported = match nearest_exec(ns, j, Seek::Export) {
        Some(_) => true,
        None => false,
    };
    let mut d = String::new();
    append_str(&mut d, display);
    FnNode { module, display: d, name, line: line_at(source, start), span_start: start, exported, forward }
}

/// The function-likes of a module's syntax, in walk order, as the call
/// graph records them.
pub fn file_functions(ns: &Vec<SyntaxNode>, source: &str, module: usize, display: &str) -> (r: Vec<FnNode>)
    requires
        source@.len() < u32::MAX,
    ensures
        r.len() == live_fns(ns@, ns.len() as int).len(),
        forall|i: int| 0 <= i < r.len() ==> fn_node_of(ns@, source@, module, display@, live_fns(ns@, ns.len() as int)[i], #[trigger] r@[i]),
{
    let mut out: Vec<FnNode> = Vec::new();
    let mut k: usize = 0;
    while k < ns.len()
        invariant
            k <= ns.len(),
            source@.len() < u32::MAX,
            out.len() == live_fns(ns@, k as int).len(),
            forall|i: int| 0 <= i < out.len() ==> fn_node_of(ns@, source@, module, display@, live_fns(ns@, k as int)[i], #[trigger] out@[i]),
        decreases ns.len() - k,
    {
        if seeks_exec(&ns[k], Seek::LiveCallable) {
            let f = fn_node(ns, source, module, display, k);
            out.push(f);
            assert(live_fns(ns@, k + 1) == live_fns(ns@, k as int).push(k as int));
        }
        k += 1;
    }
    out
}

/// The calls of a module's syntax below node `k`, in walk order, each with
/// the start of the innermost function-like with a body around it.
pub open spec fn file_calls_of(ns: Seq<SyntaxNode>, k: int) -> Seq<ParsedCall>
    decreases k,
{
    if k <= 0 {
        Seq::empty()
    } else {
        let p = file_calls_of(ns, k - 1);
        match ns[k - 1].data {
            NodeData::Call(start, _) => {
                let e = nearest(ns, k - 1, Seek::LiveCallable);
                p.push(
                    ParsedCall {
                        start,
                        enclosing: if e >= 0 {
                            Some(fn_start(ns[e]))
                        } else {
                            None
                        },
                    },
                )
            },
            _ => p,
        }
    }
}

fn fn_start_exec(n: &SyntaxNode) -> (r: u32)
    ensures
        r == fn_start(*n),
{
    match &n.data {
        NodeData::Callable(c) => match &c.id {
            Some(id) => id.span_start,
            None => n.start,
        },
        _ => n.start,
    }
}

/// The calls of a module's syntax, in walk order.
pub fn file_calls(ns: &Vec<SyntaxNode>) -> (r: Vec<ParsedCall>)
    ensures
        r@ == file_calls_of(ns@, ns.len() as int),
{
    let mut out: Vec<ParsedCall> = Vec::new();
    let mut k: usize = 0;
    while k < ns.len()
        invariant
            k <= ns.len(),
            out@ == file_calls_of(ns@, k as int),
        decreases ns.len() - k,
    {
        match &ns[k].data {
            NodeData::Call(start, _) => {
                let enclosing = match nearest_exec(ns, k, Seek::LiveCallable) {
                    Some(e) => Some(fn_start_exec(&ns[e])),
                    None => None,
                };
                out.push(ParsedCall { start: *start, enclosing });
            },
            _ => {},
        }
        k += 1;
    }
    out
}

/// The function-likes and calls of a module, read from its text: what the
/// call graph records of the file, in walk order.
pub fn collect(module: usize, abs: &str, display: &str, source: &str) -> (r: (Vec<FnNode>, Vec<ParsedCall>))
    requires
        source@.len() < u32::MAX,
    ensures
        ({
            let ns = parsed_nodes(abs@, source@);
            &&& r.0.len() == live_fns(ns, ns.len() as int).len()
            &&& forall|i: int| 0 <= i < r.0.len() ==> fn_node_of(ns, source@, module, display@, live_fns(ns, ns.len() as int)[i], #[trigger] r.0@[i])
            &&& r.1@ == file_calls_of(ns, ns.len() as int)
        }),
{
    let ns = parse_nodes(abs, source);
    (file_functions(&ns, source, module, display), file_calls(&ns))
}

/// A type candidate by its contents: path, display path, name, line,
/// start, whether it counts as extending, and its fields.
pub open spec fn type_view(c: TypeCandidate) -> (Seq<char>, Seq<char>, Seq<char>, int, u32, bool, Seq<FieldView>) {
    (c.abs@, c.display@, c.name@, c.line as int, c.span_start, c.has_extends, field_views(c))
}

/// The dotted type name that node `i` spells: an identifier, `this`, or a
/// qualified name's left-hand part (its first child), a dot and its
/// right-hand part.
pub open spec fn name_spelled(ns: Seq<SyntaxNode>, i: int) -> Seq<char>
    decreases ns.len() - i,
{
    if i < 0 || i >= ns.len() {
        Seq::empty()
    } else {
        match ns[i].data {
            NodeData::Identifier(s) => s@,
            NodeData::This => "this"@,
            NodeData::Qualified(right) => if i + 1 < ns.len() && ns[i + 1].parent == i {
                name_spelled(ns, i + 1) + "."@ + right@
            } else {
                right@
            },
            _ => Seq::empty(),
        }
    }
}

/// The name a node refers by when it is a type reference (its first child
/// spells it); empty for other nodes.
pub open spec fn reference_name(ns: Seq<SyntaxNode>, i: int) -> Seq<char> {
    if ns[i].data is TypeReference && i + 1 < ns.len() && ns[i + 1].parent == i {
        name_spelled(ns, i + 1)
    } else {
        Seq::empty()
    }
}

/// The name each node refers by, as `reference_name` gives it.
pub open spec fn reference_names(ns: Seq<SyntaxNode>) -> Seq<Seq<char>> {
    Seq::new(ns.len(), |i: int| reference_name(ns, i))
}

fn spelled(ns: &Vec<SyntaxNode>, i: usize) -> (r: String)
    requires
        i < ns.len(),
    ensures
        r@ == name_spelled(ns@, i as int),
    decreases ns.len() - i,
{
    match &ns[i].data {
        NodeData::Identifier(s) => copy_string(s),
        NodeData::This => {
            let r = string_of("this");
            proof {
                reveal_strlit("this");
            }
            r
        },
        NodeData::Qualified(right) => {
            if i + 1 < ns.len() && ns[i + 1].parent == i {
                let mut r = spelled(ns, i + 1);
                let ghost left = r@;
                append_str(&mut r, ".");
                append_str(&mut r, right.as_str());
                proof {
                    reveal_strlit(".");
                }
                assert(r@ == left + "."@ + right@);
                r
            } else {
                copy_string(right)
            }
        },
        _ => String::new(),
    }
}

/// The name each node refers by: a type reference's dotted name, empty for
/// the other nodes.
pub fn reference_names_of(ns: &Vec<SyntaxNode>) -> (r: Vec<String>)
    ensures
        r.len() == ns.len(),
        r@.map_values(|n: String| n@) == reference_names(ns@),
{
    let mut out: Vec<String> = Vec::new();
    let mut i: usize = 0;
    while i < ns.len()
        invariant
            i <= ns.len(),
            out.len() == i,
            forall|k: int| 0 <= k < i ==> #[trigger] out@[k]@ == reference_name(ns@, k),
        decreases ns.len() - i,
    {
        let is_ref = match &ns[i].data {
            NodeData::TypeReference => true,
            _ => false,
        };
        if is_ref && i + 1 < ns.len() && ns[i + 1].parent == i {
            out.push(spelled(ns, i + 1));
        } else {
            out.push(String::new());
        }
        i += 1;
    }
    assert(out@.map_values(|n: String| n@) =~= reference_names(ns@));
    out
}

/// The type candidates of the nodes below `k`, in walk order, each with
/// the type body of the same index: each interface, and each type alias of
/// an object type (its fields) or of an intersection (counted as extending,
/// without fields).
pub open spec fn type_views_of(
    abs: Seq<char>,
    display: Seq<char>,
    source: Seq<char>,
    ns: Seq<SyntaxNode>,
    bodies: Seq<TypeBody>,
    k: int,
) -> Seq<(Seq<char>, Seq<char>, Seq<char>, int, u32, bool, Seq<FieldView>)>
    decreases k,
{
    if k <= 0 {
        Seq::empty()
    } else {
        let p = type_views_of(abs, display, source, ns, bodies, k - 1);
        let body = if k - 1 < bodies.len() {
            bodies[k - 1]
        } else {
            TypeBody::Nothing
        };
        match ns[k - 1].data {
            NodeData::Interface(n, ext) => {
                let fields = match body {
                    TypeBody::Members(ms) => stable_sorted(fields_of(ms@), field_leq()),
                    _ => Seq::empty(),
                };
                p.push((abs, display, n.name@, line_of(source, n.span_start), n.span_start, ext, fields))
            },
            NodeData::Alias(n) => match body {
                TypeBody::Alias(TypeExpr::Object(ms)) => p.push(
                    (abs, display, n.name@, line_of(source, n.span_start), n.span_start, false, stable_sorted(fields_of(ms@), field_leq())),
                ),
                TypeBody::Alias(TypeExpr::Intersection(_)) => p.push(
                    (abs, display, n.name@, line_of(source, n.span_start), n.span_start, true, Seq::empty()),
                ),
                _ => p,
            },
            _ => p,
        }
    }
}

fn string_of(s: &str) -> (r: String)
    ensures
        r@ == s@,
{
    let mut r = String::new();
    append_str(&mut r, s);
    r
}

/// The type candidates of a module's syntax nodes, each declaration read
/// with the type body of the same index, as the type-clone detector
/// compares them.
pub fn types_in_nodes(abs: &str, display: &str, source: &str, ns: &Vec<SyntaxNode>, bodies: &Vec<TypeBody>) -> (r: Vec<TypeCandidate>)
    requires
        source@.len() < u32::MAX,
    ensures
        r@.map_values(|c: TypeCandidate| type_view(c)) == type_views_of(abs@, display@, source@, ns@, bodies@, ns.len() as int),
{
    let empty: Vec<Member> = Vec::new();
    let mut out: Vec<TypeCandidate> = Vec::new();
    let mut k: usize = 0;
    while k < ns.len()
        invariant
            k <= ns.len(),
            source@.len() < u32::MAX,
            empty@.len() == 0,
            out@.map_values(|c: TypeCandidate| type_view(c)) == type_views_of(abs@, display@, source@, ns@, bodies@, k as int),
        decreases ns.len() - k,
    {
        let ghost before = out@;
        match &ns[k].data {
            NodeData::Interface(n, ext) => {
                let line = line_at(source, n.span_start);
                let ms = if k < bodies.len() {
                    match &bodies[k] {
                        TypeBody::Members(ms) => ms,
                        _ => &empty,
                    }
                } else {
                    &empty
                };
                assert(fields_of(empty@) =~= Seq::<FieldView>::empty());
                assert(stable_sorted(Seq::<FieldView>::empty(), field_leq()) =~= Seq::<FieldView>::empty());
                let c = interface_candidate(string_of(abs), string_of(display), copy_string(&n.name), line, n.span_start, *ext, ms);
                out.push(c);
                assert(out@.map_values(|c: TypeCandidate| type_view(c)) =~= before.map_values(|c: TypeCandidate| type_view(c)).push(type_view(c)));
            },
            NodeData::Alias(n) => {
                if k < bodies.len() {
                    if let TypeBody::Alias(ty) = &bodies[k] {
                        let line = line_at(source, n.span_start);
                        match alias_candidate(string_of(abs), string_of(display), copy_string(&n.name), line, n.span_start, ty) {
                            Some(c) => {
                                let ghost v = type_view(c);
                                out.push(c);
                                assert(out@.map_values(|c: TypeCandidate| type_view(c)) =~= before.map_values(|c: TypeCandidate| type_view(c)).push(v));
                                assert(c.fields@.len() == 0 ==> field_views(c) =~= Seq::<FieldView>::empty());
                            },
                            None => {},
                        }
                    }
                }
            },
            _ => {},
        }
        k += 1;
    }
    out
}

/// The interfaces and type aliases of a module, read from its text, as the
/// type-clone detector compares them: its syntax nodes, each type reference
/// named as its nodes spell it.
pub fn collect_types_in_file(abs: &str, display: &str, source: &str) -> (r: Vec<TypeCandidate>)
    requires
        source@.len() < u32::MAX,
    ensures
        ({
            let ns = parsed_nodes(abs@, source@);
            r@.map_values(|c: TypeCandidate| type_view(c)) == type_views_of(
                abs@,
                display@,
                source@,
                ns,
                parsed_type_bodies(abs@, source@, reference_names(ns)),
                ns.len() as int,
            )
        }),
{
    let ns = parse_nodes(abs, source);
    let names = reference_names_of(&ns);
    let bodies = parse_type_bodies(abs, source, &names);
    types_in_nodes(abs, display, source, &ns, &bodies)
}

/// A function-like whose body is compared: one with a body to run.
pub open spec fn has_body(n: SyntaxNode) -> bool {
    n.data matches NodeData::Callable(c) && !c.declare_only && c.body is Some
}

/// The body span of a function-like; empty when it has none.
pub open spec fn body_of(n: SyntaxNode) -> (u32, u32) {
    match n.data {
        NodeData::Callable(c) => match c.body {
            Some(b) => b,
            None => (0u32, 0u32),
        },
        _ => (0u32, 0u32),
    }
}

/// Whether node `n` lies inside the body span of function-like `f`.
pub open spec fn within(f: SyntaxNode, n: SyntaxNode) -> bool {
    body_of(f).0 <= n.start && n.end <= body_of(f).1
}

/// Indices, below `k`, of the function-likes with a body, in walk order.
pub open spec fn body_fns(ns: Seq<SyntaxNode>, k: int) -> Seq<int>
    decreases k,
{
    if k <= 0 {
        Seq::empty()
    } else {
        let p = body_fns(ns, k - 1);
        if has_body(ns[k - 1]) {
            p.push(k - 1)
        } else {
            p
        }
    }
}

/// Whether node `j` is one of the body nodes of function-like `f` that
/// near-duplicate detection compares: inside the body, not the block node
/// itself, not in a directive, and not inside a nested function-like (whose
/// own node does count).
pub open spec fn body_node(ns: Seq<SyntaxNode>, f: int, j: int) -> bool {
    &&& nearest(ns, j, Seek::AnyCallable) == f
    &&& within(ns[f], ns[j])
    &&& !(ns[j].data is Body && parent_index(ns, j) == f)
    &&& !(ns[j].data is Directive)
    &&& nearest(ns, j, Seek::Directive) < f
}

/// The kinds of the body nodes of `f` below `k`, in walk order.
pub open spec fn body_kinds(ns: Seq<SyntaxNode>, f: int, k: int) -> Seq<u32>
    decreases k,
{
    if k <= 0 {
        Seq::empty()
    } else {
        let p = body_kinds(ns, f, k - 1);
        if body_node(ns, f, k - 1) {
            p.push(ns[k - 1].kind)
        } else {
            p
        }
    }
}

/// The name a compared function goes by: its own, else that of the nearest
/// variable it initializes, else `default`.
pub open spec fn candidate_name(ns: Seq<SyntaxNode>, j: int) -> Seq<char> {
    match ns[j].data {
        NodeData::Callable(c) => match c.id {
            Some(id) => id.name@,
            None => {
                let d = nearest(ns, j, Seek::NamedDeclarator);
                if d >= 0 {
                    match ns[d].data {
                        NodeData::Declarator(Some(n)) => n@,
                        _ => "default"@,
                    }
                } else {
                    "default"@
                }
            },
        },
        _ => "default"@,
    }
}

/// Whether `c` is the near-duplicate candidate of node `j`.
pub open spec fn candidate_of(
    abs: Seq<char>,
    display: Seq<char>,
    source: Seq<char>,
    ns: Seq<SyntaxNode>,
    toks: Seq<crate::near_duplicate::RawToken>,
    j: int,
    c: FunctionCandidate,
) -> bool {
    &&& c.abs@ == abs
    &&& c.display@ == display
    &&& c.name@ == candidate_name(ns, j)
    &&& c.span_start == fn_start(ns[j])
    &&& c.line == line_of(source, fn_start(ns[j]))
    &&& c.ast_kinds@ == body_kinds(ns, j, ns.len() as int)
    &&& c.window_hashes@ == window_hashes(normalized(toks, body_of(ns[j]).0, body_of(ns[j]).1))
}

fn body_node_exec(ns: &Vec<SyntaxNode>, f: usize, j: usize) -> (r: bool)
    requires
        f < j < ns.len(),
    ensures
        r == body_node(ns@, f as int, j as int),
{
    match nearest_exec(ns, j, Seek::AnyCallable) {
        Some(p) => {
            if p != f {
                return false;
            }
        },
        None => {
            return false;
        },
    }
    let (bs, be) = match &ns[f].data {
        NodeData::Callable(c) => match c.body {
            Some(b) => b,
            None => (0u32, 0u32),
        },
        _ => (0u32, 0u32),
    };
    if !(bs <= ns[j].start && ns[j].end <= be) {
        return false;
    }
    match &ns[j].data {
        NodeData::Body => {
            if ns[j].parent == f {
                return false;
            }
        },
        NodeData::Directive => {
            return false;
        },
        _ => {},
    }
    match nearest_exec(ns, j, Seek::Directive) {
        Some(d) => d < f,
        None => true,
    }
}

fn candidate_name_exec(ns: &Vec<SyntaxNode>, j: usize) -> (r: String)
    requires
        j < ns.len(),
    ensures
        r@ == candidate_name(ns@, j as int),
{
    match &ns[j].data {
        NodeData::Callable(c) => match &c.id {
            Some(id) => copy_string(&id.name),
            None => match nearest_exec(ns, j, Seek::NamedDeclarator) {
                Some(d) => match &ns[d].data {
                    NodeData::Declarator(Some(n)) => copy_string(n),
                    _ => string_of("default"),
                },
                None => string_of("default"),
            },
        },
        _ => string_of("default"),
    }
}

fn candidate(
    abs: &str,
    display: &str,
    source: &str,
    ns: &Vec<SyntaxNode>,
    toks: &Vec<crate::near_duplicate::RawToken>,
    j: usize,
) -> (r: FunctionCandidate)
    requires
        j < ns.len(),
        source@.len() < u32::MAX,
    ensures
        candidate_of(abs@, display@, source@, ns@, toks@, j as int, r),
{
    let mut kinds: Vec<u32> = Vec::new();
    let mut k: usize = 0;
    while k < ns.len()
        invariant
            k <= ns.len(),
            j < ns.len(),
            kinds@ == body_kinds(ns@, j as int, k as int),
        decreases ns.len() - k,
    {
        if j < k && body_node_exec(ns, j, k) {
            kinds.push(ns[k].kind);
        } else {
            proof {
                if k <= j {
                    lemma_nearest_range(ns@, k as int, Seek::AnyCallable);
                }
            }
        }
        k += 1;
    }
    let (bs, be) = match &ns[j].data {
        NodeData::Callable(c) => match c.body {
            Some(b) => b,
            None => (0u32, 0u32),
        },
        _ => (0u32, 0u32),
    };
    let start = fn_start_exec(&ns[j]);
    let normal = normalize_tokens(toks, bs, be);
    FunctionCandidate {
        abs: string_of(abs),
        display: string_of(display),
        name: candidate_name_exec(ns, j),
        line: line_at(source, start),
        span_start: start,
        ast_kinds: kinds,
        window_hashes: compute_window_hashes(&normal),
    }
}

/// The function-likes among a module's syntax nodes, compared by their
/// node kinds and by the given tokens: every function with a body and every
/// arrow, in walk order.
pub fn functions_in_nodes(abs: &str, display: &str, source: &str, ns: &Vec<SyntaxNode>, toks: &Vec<RawToken>) -> (r: Vec<FunctionCandidate>)
    requires
        source@.len() < u32::MAX,
    ensures
        ({
            let ns = ns@;
            &&& r.len() == body_fns(ns, ns.len() as int).len()
            &&& forall|i: int| 0 <= i < r.len() ==> candidate_of(
                abs@,
                display@,
                source@,
                ns,
                toks@,
                body_fns(ns, ns.len() as int)[i],
                #[trigger] r@[i],
            )
        }),
{
    let mut out: Vec<FunctionCandidate> = Vec::new();
    let mut k: usize = 0;
    while k < ns.len()
        invariant
            k <= ns.len(),
            source@.len() < u32::MAX,
            out.len() == body_fns(ns@, k as int).len(),
            forall|i: int| 0 <= i < out.len() ==> candidate_of(abs@, display@, source@, ns@, toks@, body_fns(ns@, k as int)[i], #[trigger] out@[i]),
        decreases ns.len() - k,
    {
        let has = match &ns[k].data {
            NodeData::Callable(c) => !c.declare_only && c.body.is_some(),
            _ => false,
        };
        if has {
            let c = candidate(abs, display, source, ns, toks, k);
            out.push(c);
            assert(body_fns(ns@, k + 1) == body_fns(ns@, k as int).push(k as int));
        }
        k += 1;
    }
    out
}

/// Whether node `j` lies in the body of function-like `f`, nested
/// function-likes included.
pub open spec fn in_body(ns: Seq<SyntaxNode>, f: int, j: int) -> bool {
    descends(ns, j, f) && within(ns[f], ns[j])
}

/// How many references to `name` the body of `f` holds among the nodes below `k`.
pub open spec fn ref_count(ns: Seq<SyntaxNode>, f: int, name: Seq<char>, k: int) -> nat
    decreases k,
{
    if k <= 0 {
        0
    } else {
        ref_count(ns, f, name, k - 1) + if in_body(ns, f, k - 1) && (ns[k - 1].data matches NodeData::Identifier(n) && n@
            == name) {
            1nat
        } else {
            0nat
        }
    }
}

/// How many of the first `m` arguments are `name` itself.
pub open spec fn direct_count(args: Seq<ExprShape>, name: Seq<char>, m: int) -> nat
    decreases m,
{
    if m <= 0 {
        0
    } else {
        direct_count(args, name, m - 1) + if referenced_name(args[m - 1]) == Some(name) {
            1nat
        } else {
            0nat
        }
    }
}

/// The starts of the calls in the body of `f`, among the nodes below `k`,
/// once for each argument that is `name` itself.
pub open spec fn forwards(ns: Seq<SyntaxNode>, f: int, name: Seq<char>, k: int) -> Seq<u32>
    decreases k,
{
    if k <= 0 {
        Seq::empty()
    } else {
        let p = forwards(ns, f, name, k - 1);
        if in_body(ns, f, k - 1) {
            match ns[k - 1].data {
                NodeData::Call(start, args) => p + Seq::new(direct_count(args@, name, args@.len() as int), |i: int| start),
                _ => p,
            }
        } else {
            p
        }
    }
}

/// The named parameters among the first `m` of `ps`, as (node, parameter) pairs.
pub open spec fn named_params(ps: Seq<Option<SpannedName>>, j: int, m: int) -> Seq<(int, int)>
    decreases m,
{
    if m <= 0 {
        Seq::empty()
    } else {
        let p = named_params(ps, j, m - 1);
        if ps[m - 1] is Some {
            p.push((j, m - 1))
        } else {
            p
        }
    }
}

/// The parameters of a function-like.
pub open spec fn params_of(n: SyntaxNode) -> Seq<Option<SpannedName>> {
    match n.data {
        NodeData::Callable(c) => c.params@,
        _ => Seq::empty(),
    }
}

/// The named parameters of the function-likes with a body below node `k`,
/// in walk order.
pub open spec fn param_entries(ns: Seq<SyntaxNode>, k: int) -> Seq<(int, int)>
    decreases k,
{
    if k <= 0 {
        Seq::empty()
    } else {
        param_entries(ns, k - 1) + if has_body(ns[k - 1]) {
            named_params(params_of(ns[k - 1]), k - 1, params_of(ns[k - 1]).len() as int)
        } else {
            Seq::empty()
        }
    }
}

/// The entries whose function is one of `fns` in module `module`.
pub open spec fn kept_entries(fns: Seq<FnNode>, module: usize, ns: Seq<SyntaxNode>, es: Seq<(int, int)>) -> Seq<(int, int)>
    decreases es.len(),
{
    if es.len() == 0 {
        Seq::empty()
    } else {
        let p = kept_entries(fns, module, ns, es.drop_last());
        if function_at(fns, module, fn_start(ns[es.last().0])) is Some {
            p.push(es.last())
        } else {
            p
        }
    }
}

/// Whether `u` is how parameter `e.1` of function-like `e.0` is used.
pub open spec fn usage_of(fns: Seq<FnNode>, module: usize, source: Seq<char>, ns: Seq<SyntaxNode>, e: (int, int), u: ParamUsage) -> bool {
    let p = params_of(ns[e.0])[e.1]->0;
    &&& function_at(fns, module, fn_start(ns[e.0])) == Some(u.function as int)
    &&& u.name@ == p.name@
    &&& u.span_start == p.span_start
    &&& u.line == line_of(source, p.span_start)
    &&& u.refs == ref_count(ns, e.0, p.name@, ns.len() as int)
    &&& u.forward_calls@ == forwards(ns, e.0, p.name@, ns.len() as int)
}

fn in_body_exec(ns: &Vec<SyntaxNode>, f: usize, j: usize) -> (r: bool)
    requires
        f < ns.len(),
        j < ns.len(),
    ensures
        r == in_body(ns@, f as int, j as int),
{
    let (bs, be) = match &ns[f].data {
        NodeData::Callable(c) => match c.body {
            Some(b) => b,
            None => (0u32, 0u32),
        },
        _ => (0u32, 0u32),
    };
    descends_exec(ns, j, f) && bs <= ns[j].start && ns[j].end <= be
}

fn usage(ns: &Vec<SyntaxNode>, source: &str, f: usize, function: usize, p: &SpannedName) -> (r: ParamUsage)
    requires
        f < ns.len(),
        source@.len() < u32::MAX,
    ensures
        r.function == function,
        r.name@ == p.name@,
        r.span_start == p.span_start,
        r.line == line_of(source@, p.span_start),
        r.refs == ref_count(ns@, f as int, p.name@, ns.len() as int),
        r.forward_calls@ == forwards(ns@, f as int, p.name@, ns.len() as int),
{
    let name = p.name.as_str();
    let mut refs: usize = 0;
    let mut calls: Vec<u32> = Vec::new();
    let mut k: usize = 0;
    while k < ns.len()
        invariant
            k <= ns.len(),
            f < ns.len(),
            name@ == p.name@,
            refs == ref_count(ns@, f as int, name@, k as int),
            refs <= k,
            calls@ == forwards(ns@, f as int, name@, k as int),
        decreases ns.len() - k,
    {
        if in_body_exec(ns, f, k) {
            match &ns[k].data {
                NodeData::Identifier(n) => {
                    if crate::text::str_eq(n.as_str(), name) {
                        refs += 1;
                    }
                },
                NodeData::Call(start, args) => {
                    let ghost before = calls@;
                    let mut a: usize = 0;
                    while a < args.len()
                        invariant
                            a <= args.len(),
                            calls@ == before + Seq::new(direct_count(args@, name@, a as int), |i: int| *start),
                        decreases args.len() - a,
                    {
                        if is_direct_reference(&args[a], name) {
                            calls.push(*start);
                            assert(calls@ =~= before + Seq::new(direct_count(args@, name@, a + 1), |i: int| *start));
                        } else {
                            assert(Seq::new(direct_count(args@, name@, a + 1), |i: int| *start) =~= Seq::new(
                                direct_count(args@, name@, a as int),
                                |i: int| *start,
                            ));
                        }
                        a += 1;
                    }
                },
                _ => {},
            }
        }
        k += 1;
    }
    ParamUsage { function, name: copy_string(&p.name), span_start: p.span_start, line: line_at(source, p.span_start), refs, forward_calls: calls }
}

/// The parameter usages among a module's syntax nodes, as `param_usages`
/// reads them from the module's text.
pub fn param_usages_in_nodes(calls: &CallGraph, module: usize, source: &str, ns: &Vec<SyntaxNode>) -> (r: Vec<ParamUsage>)
    requires
        source@.len() < u32::MAX,
    ensures
        ({
            let ns = ns@;
            let kept = kept_entries(calls.functions@, module, ns, param_entries(ns, ns.len() as int));
            &&& r.len() == kept.len()
            &&& forall|i: int| 0 <= i < r.len() ==> usage_of(calls.functions@, module, source@, ns, kept[i], #[trigger] r@[i])
        }),
{
    let ghost fns = calls.functions@;
    let mut out: Vec<ParamUsage> = Vec::new();
    let mut k: usize = 0;
    while k < ns.len()
        invariant
            k <= ns.len(),
            source@.len() < u32::MAX,
            fns == calls.functions@,
            out.len() == kept_entries(fns, module, ns@, param_entries(ns@, k as int)).len(),
            forall|i: int| 0 <= i < out.len() ==> usage_of(fns, module, source@, ns@, kept_entries(fns, module, ns@, param_entries(ns@, k as int))[i], #[trigger] out@[i]),
        decreases ns.len() - k,
    {
        let ghost before_entries = param_entries(ns@, k as int);
        match &ns[k].data {
            NodeData::Callable(c) => {
                if !c.declare_only && c.body.is_some() {
                    let start = fn_start_exec(&ns[k]);
                    let found = find_function(&calls.functions, module, start);
                    let mut m: usize = 0;
                    while m < c.params.len()
                        invariant
                            k < ns.len(),
                            m <= c.params.len(),
                            source@.len() < u32::MAX,
                            fns == calls.functions@,
                            params_of(ns@[k as int]) == c.params@,
                            start == fn_start(ns@[k as int]),
                            match found {
                                Some(fi) => function_at(fns, module, start) == Some(fi as int),
                                None => function_at(fns, module, start) is None,
                            },
                            out.len() == kept_entries(fns, module, ns@, before_entries + named_params(c.params@, k as int, m as int)).len(),
                            forall|i: int| 0 <= i < out.len() ==> usage_of(fns, module, source@, ns@, kept_entries(fns, module, ns@, before_entries + named_params(c.params@, k as int, m as int))[i], #[trigger] out@[i]),
                        decreases c.params.len() - m,
                    {
                        let ghost es0 = before_entries + named_params(c.params@, k as int, m as int);
                        match &c.params[m] {
                            Some(p) => {
                                let ghost es1 = es0.push((k as int, m as int));
                                assert(before_entries + named_params(c.params@, k as int, m + 1) =~= es1);
                                assert(es1.drop_last() =~= es0);
                                assert(es1.last() == (k as int, m as int));
                                assert(params_of(ns@[k as int])[m as int]->0 == *p);
                                match found {
                                    Some(fi) => {
                                        let u = usage(&ns, source, k, fi, p);
                                        let ghost kept0 = kept_entries(fns, module, ns@, es0);
                                        assert(kept_entries(fns, module, ns@, es1) == kept0.push((k as int, m as int)));
                                        let ghost out0 = out@;
                                        out.push(u);
                                        assert forall|i: int| 0 <= i < out.len() implies usage_of(fns, module, source@, ns@, kept0.push((k as int, m as int))[i], #[trigger] out@[i]) by {
                                            if i < out0.len() {
                                                assert(out@[i] == out0[i]);
                                            }
                                        }
                                    },
                                    None => {
                                        assert(kept_entries(fns, module, ns@, es1) == kept_entries(fns, module, ns@, es0));
                                    },
                                }
                            },
                            None => {
                                assert(before_entries + named_params(c.params@, k as int, m + 1) =~= es0);
                            },
                        }
                        m += 1;
                    }
                    assert(param_entries(ns@, k + 1) =~= before_entries + named_params(c.params@, k as int, c.params@.len() as int));
                } else {
                    assert(param_entries(ns@, k + 1) =~= before_entries);
                }
            },
            _ => {
                assert(param_entries(ns@, k + 1) =~= before_entries);
            },
        }
        k += 1;
    }
    out
}

/// An import or re-export statement of a module: the module it names, where
/// it starts, its line.
#[derive(Debug)]
pub struct ImportRequest {
    pub specifier: String,
    pub span_start: u32,
    pub line: u32,
}

/// The top-level import and re-export statements below node `k`, in order.
pub open spec fn requests_of(source: Seq<char>, ns: Seq<SyntaxNode>, k: int) -> Seq<(Seq<char>, u32, int)>
    decreases k,
{
    if k <= 0 {
        Seq::empty()
    } else {
        let p = requests_of(source, ns, k - 1);
        match ns[k - 1].data {
            NodeData::Request(m) => if k - 1 > 0 && ns[k - 1].parent == 0 {
                p.push((m@, ns[k - 1].start, line_of(source, ns[k - 1].start)))
            } else {
                p
            },
            _ => p,
        }
    }
}

/// The top-level import and re-export statements among a module's syntax
/// nodes, in order.
pub fn requests_in_nodes(source: &str, ns: &Vec<SyntaxNode>) -> (r: Vec<ImportRequest>)
    requires
        source@.len() < u32::MAX,
    ensures
        r@.map_values(|q: ImportRequest| (q.specifier@, q.span_start, q.line as int)) == requests_of(source@, ns@, ns.len() as int),
{
    let mut out: Vec<ImportRequest> = Vec::new();
    let mut k: usize = 0;
    while k < ns.len()
        invariant
            k <= ns.len(),
            source@.len() < u32::MAX,
            out@.map_values(|q: ImportRequest| (q.specifier@, q.span_start, q.line as int)) == requests_of(source@, ns@, k as int),
        decreases ns.len() - k,
    {
        match &ns[k].data {
            NodeData::Request(m) => {
                if k > 0 && ns[k].parent == 0 {
                    let q = ImportRequest { specifier: copy_string(m), span_start: ns[k].start, line: line_at(source, ns[k].start) };
                    let ghost v = (q.specifier@, q.span_start, q.line as int);
                    let ghost before = out@;
                    out.push(q);
                    assert(out@.map_values(|q: ImportRequest| (q.specifier@, q.span_start, q.line as int)) =~= before.map_values(
                        |q: ImportRequest| (q.specifier@, q.span_start, q.line as int),
                    ).push(v));
                }
            },
            _ => {},
        }
        k += 1;
    }
    out
}

/// The top-level import and re-export statements of a module, read from its
/// text, in order.
pub fn import_requests(abs: &str, source: &str) -> (r: Vec<ImportRequest>)
    requires
        source@.len() < u32::MAX,
    ensures
        r@.map_values(|q: ImportRequest| (q.specifier@, q.span_start, q.line as int)) == requests_of(
            source@,
            parsed_nodes(abs@, source@),
            parsed_nodes(abs@, source@).len() as int,
        ),
{
    let ns = parse_nodes(abs, source);
    requests_in_nodes(source, &ns)
}

/// How each named parameter of a module's function-likes with a body is used,
/// read from the module's text; parameters of functions that `calls` does
/// not hold for module `module` are left out.
pub fn param_usages(calls: &CallGraph, module: usize, abs: &str, source: &str) -> (r: Vec<ParamUsage>)
    requires
        source@.len() < u32::MAX,
    ensures
        ({
            let ns = parsed_nodes(abs@, source@);
            let kept = kept_entries(calls.functions@, module, ns, param_entries(ns, ns.len() as int));
            &&& r.len() == kept.len()
            &&& forall|i: int| 0 <= i < r.len() ==> usage_of(calls.functions@, module, source@, ns, kept[i], #[trigger] r@[i])
        }),
{
    let ns = parse_nodes(abs, source);
    param_usages_in_nodes(calls, module, source, &ns)
}

/// The function-likes of a module, read from its text, as near-duplicate
/// detection compares them: every function with a body and every arrow, in
/// walk order.
pub fn collect_functions_in_file(abs: &str, display: &str, source: &str) -> (r: Vec<FunctionCandidate>)
    requires
        source@.len() < u32::MAX,
    ensures
        ({
            let ns = parsed_nodes(abs@, source@);
            &&& r.len() == body_fns(ns, ns.len() as int).len()
            &&& forall|i: int| 0 <= i < r.len() ==> candidate_of(
                abs@,
                display@,
                source@,
                ns,
                lexed_tokens(abs@, source@).map_values(|t: LexedToken| raw_of(t)),
                body_fns(ns, ns.len() as int)[i],
                #[trigger] r@[i],
            )
        }),
{
    let ns = parse_nodes(abs, source);
    let toks = raw_tokens(lex_tokens(abs, source));
    functions_in_nodes(abs, display, source, &ns, &toks)
}

} // verus!
