//! The typed call graph: function-likes of the program and the calls that
//! resolve from one to another.

use vstd::prelude::*;

use crate::parse::{chars_within, utf16_len};
use crate::program::{components, is_program_file, program_file, same_path};
use crate::reach::{adj_ok, adj_view};
use crate::text::chars_of;
use crate::tsgo::{first_with_index, handle_text, node_by_index, node_handle, parse_handle, parsed_handle, tightest, tightest_containing, utf16_offset, Signature, TsNode, KIND_CALL_EXPRESSION};

verus! {

/// A function-like in the program, located by file and UTF-8 span start.
#[derive(Debug)]
pub struct FnNode {
    /// Index of the function's module in the module graph.
    pub module: usize,
    pub display: String,
    pub name: String,
    pub line: u32,
    pub span_start: u32,
    pub exported: bool,
    pub forward: Option<Forward>,
}

/// Body is only a typed-edge candidate call.
#[derive(Debug, Clone, Copy, PartialEq, Eq)]
pub struct Forward {
    pub call_start: u32,
    pub return_only: bool,
}

/// Caller → callee on a resolved typed edge.
#[derive(Debug, Clone, Copy, PartialEq, Eq)]
pub struct TypedEdge {
    pub from: usize,
    pub to: usize,
    pub call_start: u32,
}

#[derive(Debug)]
pub struct CallGraph {
    pub functions: Vec<FnNode>,
    pub edges: Vec<TypedEdge>,
    /// Call-like nodes seen in oxc, and how many resolved to a project function.
    pub calls: usize,
    pub resolved: usize,
}

/// Targets of the edges from `u` that name a function, in edge order.
pub open spec fn edges_from(edges: Seq<TypedEdge>, u: int, n: int) -> Seq<usize>
    decreases edges.len(),
{
    if edges.len() == 0 {
        Seq::empty()
    } else {
        let p = edges_from(edges.drop_last(), u, n);
        let e = edges.last();
        if e.from == u && e.to < n {
            p.push(e.to)
        } else {
            p
        }
    }
}

pub proof fn lemma_edges_from_ok(edges: Seq<TypedEdge>, u: int, n: int)
    ensures
        forall|k: int| 0 <= k < edges_from(edges, u, n).len() ==> #[trigger] edges_from(edges, u, n)[k] < n,
    decreases edges.len(),
{
    if edges.len() > 0 {
        lemma_edges_from_ok(edges.drop_last(), u, n);
        let p = edges_from(edges.drop_last(), u, n);
        assert forall|k: int| 0 <= k < edges_from(edges, u, n).len() implies #[trigger] edges_from(edges, u, n)[k] < n by {
            if k < p.len() {
                assert(edges_from(edges, u, n)[k] == p[k]);
            }
        }
    }
}

/// Every typed edge names a function at both ends.
pub open spec fn edges_ok(calls: CallGraph) -> bool {
    forall|i: int| 0 <= i < calls.edges@.len() ==> #[trigger] calls.edges@[i].from < calls.n() && calls.edges@[i].to < calls.n()
}

impl CallGraph {
    pub open spec fn n(&self) -> nat {
        self.functions@.len()
    }

    /// The typed edges as adjacency lists over the functions.
    pub open spec fn adjacency(&self) -> Seq<Seq<usize>> {
        Seq::new(self.n(), |u: int| edges_from(self.edges@, u, self.n() as int))
    }

    /// Adjacency lists of the typed edges; edges naming no function are left out.
    pub fn adjacency_lists(&self) -> (r: Vec<Vec<usize>>)
        ensures
            adj_view(r@) == self.adjacency(),
            adj_ok(adj_view(r@)),
    {
        let n = self.functions.len();
        let mut adj: Vec<Vec<usize>> = Vec::new();
        let mut u: usize = 0;
        while u < n
            invariant
                u <= n,
                n == self.functions.len(),
                adj.len() == u,
                forall|v: int| 0 <= v < u ==> #[trigger] adj@[v]@ == Seq::<usize>::empty(),
            decreases n - u,
        {
            adj.push(Vec::new());
            u += 1;
        }
        let mut i: usize = 0;
        assert(self.edges@.take(0) =~= Seq::<TypedEdge>::empty());
        while i < self.edges.len()
            invariant
                i <= self.edges.len(),
                n == self.functions.len(),
                adj.len() == n,
                forall|v: int| 0 <= v < n ==> #[trigger] adj@[v]@ == edges_from(self.edges@.take(i as int), v, n as int),
            decreases self.edges.len() - i,
        {
            let e = self.edges[i];
            assert(self.edges@.take(i + 1).drop_last() =~= self.edges@.take(i as int));
            assert(self.edges@.take(i + 1).last() == e);
            if e.from < n && e.to < n {
                let ghost before = adj@;
                let mut list: Vec<usize> = Vec::new();
                std::mem::swap(&mut list, &mut adj[e.from]);
                list.push(e.to);
                adj.set(e.from, list);
                assert forall|v: int| 0 <= v < n implies #[trigger] adj@[v]@ == edges_from(self.edges@.take(i + 1), v, n as int) by {
                    if v != e.from {
                        assert(adj@[v] == before[v]);
                    }
                }
            }
            i += 1;
        }
        assert(self.edges@.take(self.edges.len() as int) =~= self.edges@);
        assert(adj_view(adj@) =~= self.adjacency());
        proof {
            assert forall|u: int, k: int| 0 <= u < adj_view(adj@).len() && 0 <= k < adj_view(adj@)[u].len() implies #[trigger] adj_view(adj@)[u][k] < adj_view(adj@).len() by {
                lemma_edges_from_ok(self.edges@, u, n as int);
            }
        }
        adj
    }
}

/// One program file as the call linker sees it: its path, its text, and the
/// syntax nodes tsgo reports for it.
#[derive(Debug)]
pub struct SourceFile {
    pub abs: String,
    pub source: String,
    pub nodes: Vec<TsNode>,
}

/// A transparent wrapper around an expression.
#[derive(Debug, Clone, Copy, PartialEq, Eq)]
pub enum Wrapper {
    /// `(e)`
    Parenthesized,
    /// `e as T`
    As,
    /// `<T>e`
    TypeAssertion,
    /// `e!`
    NonNull,
    /// `e<T>`
    Instantiation,
    /// `e satisfies T`
    Satisfies,
}

/// An expression as far as the forwarding and tramp-data rules go: a call
/// and where it starts, a plain identifier, a wrapper around another
/// expression, or anything else.
#[derive(Debug)]
pub enum ExprShape {
    Call(u32),
    Identifier(String),
    Wrapped(Wrapper, Box<ExprShape>),
    Other,
}

/// A statement of a function body as far as forwarding goes.
#[derive(Debug)]
pub enum StatementShape {
    /// `return`, with its argument when it has one.
    Return(Option<ExprShape>),
    /// An expression statement.
    Expression(ExprShape),
    Other,
}

/// The call an expression comes down to, through `as`, `<T>` assertions
/// and parentheses.
pub open spec fn call_within(e: ExprShape) -> Option<u32>
    decreases e,
{
    match e {
        ExprShape::Call(start) => Some(start),
        ExprShape::Wrapped(w, inner) => match w {
            Wrapper::Parenthesized | Wrapper::As | Wrapper::TypeAssertion => call_within(*inner),
            _ => None,
        },
        _ => None,
    }
}

/// A body that is only a forwarding call: a single `return` of a call, or a
/// single expression statement that is a call.
pub open spec fn forward_spec(body: Seq<StatementShape>) -> Option<Forward> {
    if body.len() != 1 {
        None
    } else {
        match body[0] {
            StatementShape::Return(Some(e)) => match call_within(e) {
                Some(start) => Some(Forward { call_start: start, return_only: true }),
                None => None,
            },
            StatementShape::Expression(e) => match call_within(e) {
                Some(start) => Some(Forward { call_start: start, return_only: false }),
                None => None,
            },
            _ => None,
        }
    }
}

fn forward_call(e: &ExprShape) -> (r: Option<u32>)
    ensures
        r == call_within(*e),
    decreases e,
{
    match e {
        ExprShape::Call(start) => Some(*start),
        ExprShape::Wrapped(w, inner) => match w {
            Wrapper::Parenthesized | Wrapper::As | Wrapper::TypeAssertion => forward_call(inner),
            _ => None,
        },
        _ => None,
    }
}

/// Whether a body only forwards to one call, and to which.
pub fn forward_of(body: &Vec<StatementShape>) -> (r: Option<Forward>)
    ensures
        r == forward_spec(body@),
{
    if body.len() != 1 {
        return None;
    }
    match &body[0] {
        StatementShape::Return(Some(e)) => match forward_call(e) {
            Some(start) => Some(Forward { call_start: start, return_only: true }),
            None => None,
        },
        StatementShape::Expression(e) => match forward_call(e) {
            Some(start) => Some(Forward { call_start: start, return_only: false }),
            None => None,
        },
        _ => None,
    }
}

/// A call expression found by the parser: where it starts, and where the
/// innermost function-like around it starts.
#[derive(Debug, Clone, Copy, PartialEq, Eq)]
pub struct ParsedCall {
    pub start: u32,
    pub enclosing: Option<u32>,
}

/// `s` with each backslash turned into a slash.
pub open spec fn forward_slashes(s: Seq<char>) -> Seq<char> {
    s.map_values(|c: char| if c == '\\' {
        '/'
    } else {
        c
    })
}

/// The ASCII lowercase of a character.
pub open spec fn ascii_lower(c: char) -> char {
    if 'A' <= c && c <= 'Z' {
        ((c as u32) + 32) as char
    } else {
        c
    }
}

/// Whether two texts are equal up to ASCII case.
pub open spec fn eq_ignore_ascii_case(a: Seq<char>, b: Seq<char>) -> bool {
    a.len() == b.len() && forall|i: int| 0 <= i < a.len() ==> ascii_lower(#[trigger] a[i]) == ascii_lower(b[i])
}

/// Whether two paths name the same file: equal components, or equal text
/// once backslashes are slashes (ignoring ASCII case when the file system does).
pub open spec fn paths_match_spec(a: Seq<char>, b: Seq<char>, case_sensitive: bool) -> bool {
    ||| components(a) == components(b)
    ||| (case_sensitive && forward_slashes(a) == forward_slashes(b))
    ||| (!case_sensitive && eq_ignore_ascii_case(forward_slashes(a), forward_slashes(b)))
}

fn slashed(s: &str) -> (r: Vec<char>)
    ensures
        r@ == forward_slashes(s@),
{
    let cs = chars_of(s);
    let mut out: Vec<char> = Vec::new();
    let mut i: usize = 0;
    while i < cs.len()
        invariant
            i <= cs.len(),
            out@ == forward_slashes(cs@.take(i as int)),
        decreases cs.len() - i,
    {
        let c = cs[i];
        out.push(if c == '\\' {
            '/'
        } else {
            c
        });
        assert(forward_slashes(cs@.take(i + 1)) =~= forward_slashes(cs@.take(i as int)).push(if c == '\\' {
            '/'
        } else {
            c
        }));
        i += 1;
    }
    assert(cs@.take(cs.len() as int) =~= cs@);
    out
}

/// What std's `str::to_lowercase` gives for a text (Unicode lowercase mapping).
pub uninterp spec fn lowercase_of(s: Seq<char>) -> Seq<char>;

/// std's `str::to_lowercase`; its result is named `lowercase_of` of the text.
#[verifier::external_body]
fn to_lowercase(s: &str) -> (r: String)
    ensures
        r@ == lowercase_of(s@),
{
    s.to_lowercase()
}

/// How tsgo spells a file's path in its node handles: with forward slashes,
/// and lowercased where file names are not case-sensitive.
pub fn canonical_path(path: &str, case_sensitive: bool) -> (r: String)
    ensures
        r@ == if case_sensitive {
            forward_slashes(path@)
        } else {
            lowercase_of(forward_slashes(path@))
        },
{
    let s = crate::text::string_from(&slashed(path));
    if case_sensitive {
        s
    } else {
        to_lowercase(s.as_str())
    }
}

fn lower_char(c: char) -> (r: char)
    ensures
        r == ascii_lower(c),
{
    if 'A' <= c && c <= 'Z' {
        let b = (c as u8) + 32;
        b as char
    } else {
        c
    }
}

/// Whether two paths name the same file, as tsgo and the file system see them.
pub fn paths_match(a: &str, b: &str, case_sensitive: bool) -> (r: bool)
    ensures
        r == paths_match_spec(a@, b@, case_sensitive),
{
    if same_path(a, b) {
        return true;
    }
    let sa = slashed(a);
    let sb = slashed(b);
    if sa.len() != sb.len() {
        assert(!(forward_slashes(a@) =~= forward_slashes(b@)));
        return false;
    }
    let mut i: usize = 0;
    while i < sa.len()
        invariant
            sa.len() == sb.len(),
            sa@ == forward_slashes(a@),
            sb@ == forward_slashes(b@),
            components(a@) != components(b@),
            i <= sa.len(),
            case_sensitive ==> forall|k: int| 0 <= k < i ==> sa@[k] == sb@[k],
            !case_sensitive ==> forall|k: int| 0 <= k < i ==> ascii_lower(#[trigger] sa@[k]) == ascii_lower(sb@[k]),
        decreases sa.len() - i,
    {
        let same = if case_sensitive {
            sa[i] == sb[i]
        } else {
            lower_char(sa[i]) == lower_char(sb[i])
        };
        if !same {
            if case_sensitive {
                assert(sa@[i as int] != sb@[i as int]);
            } else {
                assert(ascii_lower(sa@[i as int]) != ascii_lower(sb@[i as int]));
            }
            return false;
        }
        i += 1;
    }
    if case_sensitive {
        assert(sa@ =~= sb@);
    }
    true
}

/// The handle of the call node of `file` that most tightly spans byte offset `start`.
pub open spec fn call_handle_text(file: SourceFile, canonical: Seq<char>, start: u32) -> Option<Seq<char>> {
    let u = utf16_len(file.source@.take(chars_within(file.source@, start as int))) as u32;
    match tightest(file.nodes@, seq![KIND_CALL_EXPRESSION], u, file.nodes@.len() as int) {
        Some(i) => Some(handle_text(file.nodes@[i].index, file.nodes@[i].kind, canonical)),
        None => None,
    }
}

/// The handle under which tsgo knows the call starting at byte `start` of
/// `file`, whose path tsgo writes as `canonical`; `None` when no call node spans it.
pub fn call_handle(file: &SourceFile, canonical: &str, start: u32) -> (r: Option<String>)
    ensures
        match r {
            Some(h) => call_handle_text(*file, canonical@, start) == Some(h@),
            None => call_handle_text(*file, canonical@, start) is None,
        },
{
    let u = utf16_offset(file.source.as_str(), start);
    let kinds: [u32; 1] = [KIND_CALL_EXPRESSION];
    assert(kinds@ =~= seq![KIND_CALL_EXPRESSION]);
    match tightest_containing(file.nodes.as_slice(), &kinds, u) {
        Some(n) => Some(node_handle(n.index, n.kind, canonical)),
        None => None,
    }
}

/// The first file whose path matches `path`.
pub open spec fn first_file(files: Seq<SourceFile>, path: Seq<char>, cs: bool) -> Option<int>
    decreases files.len(),
{
    if files.len() == 0 {
        None
    } else if paths_match_spec(files[0].abs@, path, cs) {
        Some(0)
    } else {
        match first_file(files.drop_first(), path, cs) {
            Some(i) => Some(i + 1),
            None => None,
        }
    }
}

/// The first function declared in `path` whose start (in UTF-16 units of
/// `source`) lies within `node`.
pub open spec fn first_fn_in(
    fns: Seq<FnNode>,
    files: Seq<SourceFile>,
    path: Seq<char>,
    cs: bool,
    source: Seq<char>,
    node: TsNode,
    k: int,
) -> Option<int>
    decreases fns.len() - k,
{
    if k >= fns.len() || k < 0 {
        None
    } else {
        let f = fns[k];
        let s16 = utf16_len(source.take(chars_within(source, f.span_start as int))) as u32;
        if paths_match_spec(files[f.module as int].abs@, path, cs) && node.pos <= s16 && s16 < node.end {
            Some(k)
        } else {
            first_fn_in(fns, files, path, cs, source, node, k + 1)
        }
    }
}

/// The function a resolved signature declares: its handle names a program
/// file among `files`, a node of that file, and the first function of that
/// file starting inside the node.
pub open spec fn declared_function(files: Seq<SourceFile>, fns: Seq<FnNode>, sig: Signature, cs: bool) -> Option<int> {
    match sig.declaration {
        Some(d) => if d@.len() == 0 {
            None
        } else {
            match parsed_handle(d@) {
                None => None,
                Some((index, _kind, path)) => if !program_file(path) {
                    None
                } else {
                    match first_file(files, path, cs) {
                        None => None,
                        Some(fi) => match first_with_index(files[fi].nodes@, index) {
                            None => None,
                            Some(ni) => first_fn_in(fns, files, path, cs, files[fi].source@, files[fi].nodes@[ni], 0),
                        },
                    }
                },
            }
        },
        None => None,
    }
}

/// Every function lies in one of the files.
pub open spec fn functions_in(fns: Seq<FnNode>, files: Seq<SourceFile>) -> bool {
    forall|i: int| 0 <= i < fns.len() ==> #[trigger] fns[i].module < files.len()
}

proof fn lemma_first_file_range(files: Seq<SourceFile>, path: Seq<char>, cs: bool)
    ensures
        match first_file(files, path, cs) {
            Some(i) => 0 <= i < files.len(),
            None => true,
        },
    decreases files.len(),
{
    if files.len() > 0 {
        lemma_first_file_range(files.drop_first(), path, cs);
    }
}

fn find_file(files: &Vec<SourceFile>, path: &str, cs: bool) -> (r: Option<usize>)
    ensures
        match first_file(files@, path@, cs) {
            Some(i) => r == Some(i as usize) && 0 <= i < files.len(),
            None => r is None,
        },
{
    let mut i: usize = 0;
    proof {
        lemma_first_file_range(files@, path@, cs);
    }
    assert(files@.skip(0) =~= files@);
    while i < files.len()
        invariant
            i <= files.len(),
            first_file(files@, path@, cs) == (match first_file(files@.skip(i as int), path@, cs) {
                Some(k) => Some(k + i),
                None => None::<int>,
            }),
        decreases files.len() - i,
    {
        assert(files@.skip(i as int)[0] == files@[i as int]);
        assert(files@.skip(i as int).drop_first() =~= files@.skip(i + 1));
        if paths_match(files[i].abs.as_str(), path, cs) {
            return Some(i);
        }
        i += 1;
    }
    assert(files@.skip(i as int) =~= Seq::<SourceFile>::empty());
    None
}

proof fn lemma_first_fn_in_range(fns: Seq<FnNode>, files: Seq<SourceFile>, path: Seq<char>, cs: bool, source: Seq<char>, node: TsNode, k: int)
    requires
        0 <= k,
    ensures
        match first_fn_in(fns, files, path, cs, source, node, k) {
            Some(i) => k <= i < fns.len(),
            None => true,
        },
    decreases fns.len() - k,
{
    if k < fns.len() {
        lemma_first_fn_in_range(fns, files, path, cs, source, node, k + 1);
    }
}

/// The function that a resolved signature declares, if it is one of `functions`.
pub fn resolve_target(files: &Vec<SourceFile>, functions: &Vec<FnNode>, sig: &Signature, case_sensitive: bool) -> (r: Option<usize>)
    requires
        functions_in(functions@, files@),
    ensures
        match declared_function(files@, functions@, *sig, case_sensitive) {
            Some(i) => r == Some(i as usize) && i < functions.len(),
            None => r is None,
        },
{
    let decl = match &sig.declaration {
        Some(d) => d,
        None => {
            return None;
        },
    };
    if !sig.is_resolved() {
        return None;
    }
    let (index, _kind, decl_path) = match parse_handle(decl.as_str()) {
        Some(h) => h,
        None => {
            return None;
        },
    };
    if !is_program_file(decl_path.as_str()) {
        return None;
    }
    let fi = match find_file(files, decl_path.as_str(), case_sensitive) {
        Some(i) => i,
        None => {
            return None;
        },
    };
    let file = &files[fi];
    assert(first_file(files@, decl_path@, case_sensitive) == Some(fi as int));
    let node = match node_by_index(file.nodes.as_slice(), index) {
        Some(n) => *n,
        None => {
            assert(declared_function(files@, functions@, *sig, case_sensitive) is None);
            return None;
        },
    };
    let ghost target = declared_function(files@, functions@, *sig, case_sensitive);
    let mut k: usize = 0;
    while k < functions.len()
        invariant
            functions_in(functions@, files@),
            k <= functions.len(),
            fi < files.len(),
            *file == files@[fi as int],
            target == declared_function(files@, functions@, *sig, case_sensitive),
            target == first_fn_in(functions@, files@, decl_path@, case_sensitive, file.source@, node, k as int),
        decreases functions.len() - k,
    {
        let f = &functions[k];
        let s16 = utf16_offset(file.source.as_str(), f.span_start);
        if paths_match(files[f.module].abs.as_str(), decl_path.as_str(), case_sensitive) && node.pos <= s16 && s16 < node.end {
            proof {
                lemma_first_fn_in_range(functions@, files@, decl_path@, case_sensitive, file.source@, node, k as int);
            }
            return Some(k);
        }
        k += 1;
    }
    None
}

/// The function whose start is `start` in module `module` (the last such, as
/// later entries replace earlier ones in the lookup table).
pub open spec fn function_at(fns: Seq<FnNode>, module: usize, start: u32) -> Option<int>
    decreases fns.len(),
{
    if fns.len() == 0 {
        None
    } else if fns.last().module == module && fns.last().span_start == start {
        Some(fns.len() - 1)
    } else {
        function_at(fns.drop_last(), module, start)
    }
}

/// The typed edge a call makes: from its enclosing function (when it has
/// one that is known) to `to`.
pub open spec fn call_edge(fns: Seq<FnNode>, module: usize, call: ParsedCall, to: usize) -> Option<TypedEdge> {
    match call.enclosing {
        Some(s) => match function_at(fns, module, s) {
            Some(from) => Some(TypedEdge { from: from as usize, to, call_start: call.start }),
            None => None,
        },
        None => None,
    }
}

proof fn lemma_function_at_range(fns: Seq<FnNode>, module: usize, start: u32)
    ensures
        match function_at(fns, module, start) {
            Some(i) => 0 <= i < fns.len(),
            None => true,
        },
    decreases fns.len(),
{
    if fns.len() > 0 {
        lemma_function_at_range(fns.drop_last(), module, start);
    }
}

/// The index of the function that starts at `start` in module `module`;
/// the last one when several do.
pub fn find_function(fns: &Vec<FnNode>, module: usize, start: u32) -> (r: Option<usize>)
    ensures
        match function_at(fns@, module, start) {
            Some(i) => r == Some(i as usize) && 0 <= i < fns.len(),
            None => r is None,
        },
{
    let mut j = fns.len();
    proof {
        lemma_function_at_range(fns@, module, start);
    }
    assert(fns@.take(j as int) =~= fns@);
    while j > 0
        invariant
            j <= fns.len(),
            function_at(fns@, module, start) == function_at(fns@.take(j as int), module, start),
        decreases j,
    {
        assert(fns@.take(j as int).last() == fns@[j - 1]);
        assert(fns@.take(j as int).drop_last() =~= fns@.take(j - 1));
        if fns[j - 1].module == module && fns[j - 1].span_start == start {
            return Some(j - 1);
        }
        j -= 1;
    }
    None
}

/// One more, stopping at the largest count a `usize` holds.
pub open spec fn saturating_inc(n: usize) -> usize {
    if n < usize::MAX {
        (n + 1) as usize
    } else {
        n
    }
}

/// The edges and the two counters (calls, resolved calls) of a call graph.
pub type Tally = (Seq<TypedEdge>, usize, usize);

/// One recorded call: the module it stands in, the call, and the function it
/// resolved to, if any.
pub type CallStep = (usize, ParsedCall, Option<usize>);

/// The tally after recording one call: it is counted; a resolved call is
/// counted too and adds its edge when its enclosing function is known.
pub open spec fn tally_step(fns: Seq<FnNode>, t: Tally, step: CallStep) -> Tally {
    (
        match step.2 {
            Some(to) => match call_edge(fns, step.0, step.1, to) {
                Some(e) => t.0.push(e),
                None => t.0,
            },
            None => t.0,
        },
        saturating_inc(t.1),
        if step.2 is Some {
            saturating_inc(t.2)
        } else {
            t.2
        },
    )
}

/// The tally after recording `steps` in order, from no edges and no calls.
pub open spec fn tally(fns: Seq<FnNode>, steps: Seq<CallStep>) -> Tally
    decreases steps.len(),
{
    if steps.len() == 0 {
        (Seq::empty(), 0, 0)
    } else {
        tally_step(fns, tally(fns, steps.drop_last()), steps.last())
    }
}

/// How many of `steps` resolved.
pub open spec fn resolved_steps(steps: Seq<CallStep>) -> nat
    decreases steps.len(),
{
    if steps.len() == 0 {
        0
    } else {
        resolved_steps(steps.drop_last()) + if steps.last().2 is Some {
            1nat
        } else {
            0nat
        }
    }
}

/// Recording calls one by one from an empty call graph counts every call and
/// every resolved call, adds at most one edge per resolved call, and, when
/// each call resolved to a function of the graph, adds only edges between
/// functions of the graph.
pub proof fn law_call_counts(fns: Seq<FnNode>, steps: Seq<CallStep>)
    requires
        fns.len() <= usize::MAX,
        steps.len() < usize::MAX,
    ensures
        tally(fns, steps).1 == steps.len(),
        tally(fns, steps).2 == resolved_steps(steps),
        tally(fns, steps).0.len() <= tally(fns, steps).2 <= tally(fns, steps).1,
        (forall|k: int| 0 <= k < steps.len() && (#[trigger] steps[k]).2 is Some ==> steps[k].2->Some_0 < fns.len()) ==> forall|i: int|
            0 <= i < tally(fns, steps).0.len() ==> (#[trigger] tally(fns, steps).0[i]).from < fns.len() && tally(fns, steps).0[i].to
                < fns.len(),
    decreases steps.len(),
{
    if steps.len() > 0 {
        let d = steps.drop_last();
        let last = steps.last();
        law_call_counts(fns, d);
        let p = tally(fns, d);
        let t = tally(fns, steps);
        if let Some(s) = last.1.enclosing {
            lemma_function_at_range(fns, last.0, s);
        }
        if forall|k: int| 0 <= k < steps.len() && (#[trigger] steps[k]).2 is Some ==> steps[k].2->Some_0 < fns.len() {
            assert forall|k: int| 0 <= k < d.len() && (#[trigger] d[k]).2 is Some implies d[k].2->Some_0 < fns.len() by {
                assert(d[k] == steps[k]);
            }
            assert(steps[steps.len() - 1] == last);
            assert forall|i: int| 0 <= i < t.0.len() implies (#[trigger] t.0[i]).from < fns.len() && t.0[i].to < fns.len() by {
                if i < p.0.len() {
                    assert(t.0[i] == p.0[i]);
                }
            }
        }
    }
}

impl CallGraph {
    /// Records one call of module `module`: it is counted; when it resolved
    /// to function `target`, that is counted too, and a typed edge is added
    /// from its enclosing function.
    pub fn record_call(&mut self, module: usize, call: ParsedCall, target: Option<usize>)
        ensures
            final(self).functions@ == old(self).functions@,
            final(self).calls == saturating_inc(old(self).calls),
            final(self).resolved == if target is Some {
                saturating_inc(old(self).resolved)
            } else {
                old(self).resolved
            },
            final(self).edges@ == match target {
                Some(to) => match call_edge(old(self).functions@, module, call, to) {
                    Some(e) => old(self).edges@.push(e),
                    None => old(self).edges@,
                },
                None => old(self).edges@,
            },
            (final(self).edges@, final(self).calls, final(self).resolved) == tally_step(
                old(self).functions@,
                (old(self).edges@, old(self).calls, old(self).resolved),
                (module, call, target),
            ),
            // What every recorded call keeps: no more edges than resolved
            // calls, no more resolved calls than calls.
            old(self).edges.len() <= old(self).resolved <= old(self).calls < usize::MAX ==> final(self).edges.len()
                <= final(self).resolved <= final(self).calls,
            // Edges name functions of the graph at both ends.
            edges_ok(*old(self)) && (target matches Some(t) ==> t < old(self).functions.len()) ==> edges_ok(*final(self)),
    {
        proof {
            if let Some(s) = call.enclosing {
                lemma_function_at_range(self.functions@, module, s);
            }
        }
        let ghost before = self.edges@;
        let ghost mut added: Seq<TypedEdge> = Seq::empty();
        self.calls = self.calls.saturating_add(1);
        if let Some(to) = target {
            self.resolved = self.resolved.saturating_add(1);
            if let Some(s) = call.enclosing {
                if let Some(from) = find_function(&self.functions, module, s) {
                    let e = TypedEdge { from, to, call_start: call.start };
                    self.edges.push(e);
                    proof {
                        added = seq![e];
                    }
                }
            }
        }
        assert(self.edges@ =~= before + added);
        proof {
            if edges_ok(*old(self)) && (target matches Some(t) ==> t < old(self).functions.len()) {
                assert(added.len() == 1 ==> added[0].from < self.n() && added[0].to < self.n());
                assert forall|i: int| 0 <= i < self.edges@.len() implies #[trigger] self.edges@[i].from < self.n() && self.edges@[i].to < self.n() by {
                    if i < before.len() {
                        assert(self.edges@[i] == before[i]);
                    } else {
                        assert(self.edges@[i] == added[0]);
                    }
                }
            }
        }
    }
}

} // verus!
