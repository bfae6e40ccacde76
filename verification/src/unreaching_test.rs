//! Unreaching tests: a test file imports a production module but no typed
//! call path from the test reaches any function of that module.

use vstd::prelude::*;

use crate::call_graph::CallGraph;
use crate::finding::{node, report_order, views, Evidence, Finding, FindingView, Location, PathNode, Shape};
use crate::graph::{keys_view, path_index_leq, ByPath, ModuleGraph};
use crate::order::{stable_sort, stable_sorted};
use crate::program::{components, components_of, display_of, display_path, file_stem, paths_equal, same_file, stem_of, NORMAL};
use crate::text::{chars_end_with, chars_of, ends_with};
use crate::reach::{adj_view, reach, reachable};
use crate::Options;

verus! {

/// Where a test file imports a module: the line and span start of the import statement.
#[derive(Debug, Clone, Copy, PartialEq, Eq)]
pub struct ImportLocation {
    pub test: usize,
    pub module: usize,
    pub line: u32,
    pub span_start: u32,
}

/// The absolute paths of the modules.
pub open spec fn abs_paths(g: ModuleGraph) -> Seq<Seq<char>> {
    g.modules@.map_values(|m: crate::graph::Module| m.abs@)
}

/// The indices in `s` that satisfy `keep`, in order.
pub open spec fn keep_indices(s: Seq<usize>, keep: spec_fn(usize) -> bool) -> Seq<usize>
    decreases s.len(),
{
    if s.len() == 0 {
        Seq::empty()
    } else {
        let p = keep_indices(s.drop_last(), keep);
        if keep(s.last()) {
            p.push(s.last())
        } else {
            p
        }
    }
}

/// Test modules in path order.
pub open spec fn test_order(g: ModuleGraph) -> Seq<usize> {
    stable_sorted(
        keep_indices(Seq::new(g.n(), |i: int| i as usize), |i: usize| g.test_files@[i as int]),
        path_index_leq(abs_paths(g)),
    )
}

/// The production modules test `t` imports, in path order.
pub open spec fn prod_deps(g: ModuleGraph, t: int) -> Seq<usize> {
    stable_sorted(
        keep_indices(g.file_dependencies@[t]@, |d: usize| d < g.n() && !g.test_files@[d as int]),
        path_index_leq(abs_paths(g)),
    )
}

/// Functions reachable along typed edges from the functions of module `t`.
pub open spec fn reach_from(calls: CallGraph, t: int) -> Seq<bool> {
    Seq::new(
        calls.n(),
        |v: int| reachable(calls.adjacency(), Seq::new(calls.n(), |i: int| calls.functions@[i].module == t), v),
    )
}

/// Some function of module `p` is reachable from test `t`.
pub open spec fn has_call(calls: CallGraph, t: int, p: int) -> bool {
    exists|i: int| 0 <= i < calls.n() && #[trigger] calls.functions@[i].module == p && reach_from(calls, t)[i]
}

/// Where test `t` imports module `p`: the first recorded location, or line 1, span 0.
pub open spec fn import_loc(locs: Seq<ImportLocation>, t: int, p: int) -> (u32, u32)
    decreases locs.len(),
{
    if locs.len() == 0 {
        (1, 0)
    } else if locs[0].test == t && locs[0].module == p {
        (locs[0].line, locs[0].span_start)
    } else {
        import_loc(locs.drop_first(), t, p)
    }
}

/// The finding for test `t` importing module `p` without reaching it.
pub open spec fn unreaching_finding(g: ModuleGraph, locs: Seq<ImportLocation>, t: int, p: int) -> FindingView {
    let test_label = display_of(g.root@, g.modules@[t].abs@);
    let prod_label = display_of(g.root@, g.modules@[p].abs@);
    let (line, span) = import_loc(locs, t, p);
    FindingView {
        shape: Shape::UnreachingTest,
        file: test_label,
        line,
        span_start: span,
        subject: prod_label,
        nodes: seq![node(test_label, false), node(prod_label, true)],
    }
}

/// Findings of test `t` for the production modules `deps`.
pub open spec fn test_findings(g: ModuleGraph, calls: CallGraph, locs: Seq<ImportLocation>, t: int, deps: Seq<usize>) -> Seq<FindingView>
    decreases deps.len(),
{
    if deps.len() == 0 {
        Seq::empty()
    } else {
        let p = test_findings(g, calls, locs, t, deps.drop_last());
        if !has_call(calls, t, deps.last() as int) {
            p.push(unreaching_finding(g, locs, t, deps.last() as int))
        } else {
            p
        }
    }
}

/// Findings of the tests `tests`, in order.
pub open spec fn all_test_findings(g: ModuleGraph, calls: CallGraph, locs: Seq<ImportLocation>, tests: Seq<usize>) -> Seq<FindingView>
    decreases tests.len(),
{
    if tests.len() == 0 {
        Seq::empty()
    } else {
        let t = tests.last() as int;
        all_test_findings(g, calls, locs, tests.drop_last()) + test_findings(g, calls, locs, t, prod_deps(g, t))
    }
}

fn keep_tests(graph: &ModuleGraph) -> (r: Vec<usize>)
    requires
        graph.wf(),
    ensures
        r@ == keep_indices(Seq::new(graph.n(), |i: int| i as usize), |i: usize| graph.test_files@[i as int]),
        forall|k: int| 0 <= k < r.len() ==> #[trigger] r@[k] < graph.n(),
{
    let ghost all = Seq::new(graph.n(), |i: int| i as usize);
    let ghost keep = |i: usize| graph.test_files@[i as int];
    let mut r: Vec<usize> = Vec::new();
    let mut i: usize = 0;
    while i < graph.modules.len()
        invariant
            graph.wf(),
            all == Seq::new(graph.n(), |i: int| i as usize),
            keep == (|i: usize| graph.test_files@[i as int]),
            i <= graph.n(),
            r@ == keep_indices(all.take(i as int), keep),
            forall|k: int| 0 <= k < r.len() ==> #[trigger] r@[k] < i,
        decreases graph.modules.len() - i,
    {
        assert(all.take(i + 1).drop_last() =~= all.take(i as int));
        assert(all.take(i + 1).last() == i);
        if graph.test_files[i] {
            r.push(i);
        }
        i += 1;
    }
    assert(all.take(graph.n() as int) =~= all);
    r
}

fn keep_prod(graph: &ModuleGraph, deps: &Vec<usize>) -> (r: Vec<usize>)
    requires
        graph.wf(),
    ensures
        r@ == keep_indices(deps@, |d: usize| d < graph.n() && !graph.test_files@[d as int]),
        forall|k: int| 0 <= k < r.len() ==> #[trigger] r@[k] < graph.n(),
{
    let ghost keep = |d: usize| d < graph.n() && !graph.test_files@[d as int];
    let mut r: Vec<usize> = Vec::new();
    let mut i: usize = 0;
    assert(deps@.take(0) =~= Seq::<usize>::empty());
    while i < deps.len()
        invariant
            graph.wf(),
            keep == (|d: usize| d < graph.n() && !graph.test_files@[d as int]),
            i <= deps.len(),
            r@ == keep_indices(deps@.take(i as int), keep),
            forall|k: int| 0 <= k < r.len() ==> #[trigger] r@[k] < graph.n(),
        decreases deps.len() - i,
    {
        assert(deps@.take(i + 1).drop_last() =~= deps@.take(i as int));
        assert(deps@.take(i + 1).last() == deps[i as int]);
        let d = deps[i];
        if d < graph.modules.len() && !graph.test_files[d] {
            r.push(d);
        }
        i += 1;
    }
    assert(deps@.take(deps.len() as int) =~= deps@);
    r
}

fn abs_order(graph: &ModuleGraph) -> (r: ByPath)
    ensures
        keys_view(r.keys@) == abs_paths(*graph),
        r.keys.len() == graph.n(),
{
    let mut keys: Vec<String> = Vec::new();
    let mut i: usize = 0;
    while i < graph.modules.len()
        invariant
            i <= graph.n(),
            keys.len() == i,
            forall|k: int| 0 <= k < i ==> #[trigger] keys@[k]@ == graph.modules@[k].abs@,
        decreases graph.modules.len() - i,
    {
        keys.push(graph.modules[i].abs.clone());
        i += 1;
    }
    let r = ByPath { keys };
    assert(keys_view(r.keys@) =~= abs_paths(*graph));
    r
}

fn import_loc_exec(locs: &Vec<ImportLocation>, t: usize, p: usize) -> (r: (u32, u32))
    ensures
        r == import_loc(locs@, t as int, p as int),
{
    let mut j: usize = 0;
    assert(locs@.skip(0) =~= locs@);
    while j < locs.len()
        invariant
            j <= locs.len(),
            import_loc(locs@, t as int, p as int) == import_loc(locs@.skip(j as int), t as int, p as int),
        decreases locs.len() - j,
    {
        let l = locs[j];
        assert(locs@.skip(j as int)[0] == l);
        if l.test == t && l.module == p {
            return (l.line, l.span_start);
        }
        assert(locs@.skip(j as int).drop_first() =~= locs@.skip(j + 1));
        j += 1;
    }
    (1, 0)
}

fn has_call_exec(calls: &CallGraph, reached: &Vec<bool>, t: usize, p: usize) -> (r: bool)
    requires
        reached@ == reach_from(*calls, t as int),
    ensures
        r == has_call(*calls, t as int, p as int),
{
    let mut i: usize = 0;
    while i < calls.functions.len()
        invariant
            reached@ == reach_from(*calls, t as int),
            i <= calls.n(),
            forall|k: int| 0 <= k < i ==> !(#[trigger] calls.functions@[k].module == p && reach_from(*calls, t as int)[k]),
        decreases calls.functions.len() - i,
    {
        if calls.functions[i].module == p && reached[i] {
            return true;
        }
        i += 1;
    }
    false
}

fn reach_from_exec(calls: &CallGraph, adj: &Vec<Vec<usize>>, t: usize) -> (r: Vec<bool>)
    requires
        adj_view(adj@) == calls.adjacency(),
        crate::reach::adj_ok(adj_view(adj@)),
    ensures
        r@ == reach_from(*calls, t as int),
{
    let mut roots: Vec<bool> = Vec::new();
    let mut i: usize = 0;
    while i < calls.functions.len()
        invariant
            i <= calls.n(),
            roots@ == Seq::new(i as nat, |k: int| calls.functions@[k].module == t),
        decreases calls.functions.len() - i,
    {
        roots.push(calls.functions[i].module == t);
        assert(roots@ =~= Seq::new((i + 1) as nat, |k: int| calls.functions@[k].module == t));
        i += 1;
    }
    assert(adj@.len() == adj_view(adj@).len());
    let r = reach(adj, &roots);
    assert(r@ =~= reach_from(*calls, t as int));
    r
}

/// Detect test files that import a production module but do not call any function in that module.
///
/// A finding is emitted when:
/// 1. A test file imports a production module (a module of the graph that is not a test file).
/// 2. Zero typed call edges from that test file reach any function in that production module.
///
/// `import_locations` gives, for a test and a module it imports, where the import stands.
pub fn detect(modules: &ModuleGraph, calls: &CallGraph, _options: &Options, import_locations: &Vec<ImportLocation>) -> (r: Vec<Finding>)
    requires
        modules.wf(),
    ensures
        views(r@) == report_order(all_test_findings(*modules, *calls, import_locations@, test_order(*modules))),
{
    let adj = calls.adjacency_lists();
    let ctx = abs_order(modules);
    let tests_raw = keep_tests(modules);
    let tests = stable_sort(&ctx, tests_raw);
    proof {
        crate::order::lemma_sorted_contains(keep_indices(Seq::new(modules.n(), |i: int| i as usize), |i: usize| modules.test_files@[i as int]), path_index_leq(abs_paths(*modules)));
    }
    let mut findings: Vec<Finding> = Vec::new();
    let mut i: usize = 0;
    assert(tests@.take(0) =~= Seq::<usize>::empty());
    while i < tests.len()
        invariant
            modules.wf(),
            adj_view(adj@) == calls.adjacency(),
            crate::reach::adj_ok(adj_view(adj@)),
            keys_view(ctx.keys@) == abs_paths(*modules),
            ctx.keys.len() == modules.n(),
            tests@ == test_order(*modules),
            forall|k: int| 0 <= k < tests.len() ==> keep_indices(Seq::new(modules.n(), |i: int| i as usize), |i: usize| modules.test_files@[i as int]).contains(#[trigger] tests@[k]),
            i <= tests.len(),
            views(findings@) == all_test_findings(*modules, *calls, import_locations@, tests@.take(i as int)),
        decreases tests.len() - i,
    {
        let t = tests[i];
        proof {
            let s = keep_indices(Seq::new(modules.n(), |i: int| i as usize), |i: usize| modules.test_files@[i as int]);
            assert(s.contains(t));
            lemma_keep_indices_bound(Seq::new(modules.n(), |i: int| i as usize), |i: usize| modules.test_files@[i as int], modules.n() as int);
        }
        assert(t < modules.n());
        let raw = keep_prod(modules, &modules.file_dependencies[t]);
        let deps = stable_sort(&ctx, raw);
        assert(deps@ == prod_deps(*modules, t as int));
        proof {
            crate::order::lemma_sorted_contains(keep_indices(modules.file_dependencies@[t as int]@, |d: usize| d < modules.n() && !modules.test_files@[d as int]), path_index_leq(abs_paths(*modules)));
        }
        let ghost base = views(findings@);
        if deps.len() > 0 {
            let reached = reach_from_exec(calls, &adj, t);
            let test_display = display_path(modules.root.as_str(), modules.modules[t].abs.as_str());
            let mut j: usize = 0;
            assert(deps@.take(0) =~= Seq::<usize>::empty());
            while j < deps.len()
                invariant
                    modules.wf(),
                    t < modules.n(),
                    reached@ == reach_from(*calls, t as int),
                    test_display@ == display_of(modules.root@, modules.modules@[t as int].abs@),
                    deps@ == prod_deps(*modules, t as int),
                    forall|k: int| 0 <= k < deps.len() ==> keep_indices(modules.file_dependencies@[t as int]@, |d: usize| d < modules.n() && !modules.test_files@[d as int]).contains(#[trigger] deps@[k]),
                    j <= deps.len(),
                    views(findings@) == base + test_findings(*modules, *calls, import_locations@, t as int, deps@.take(j as int)),
                decreases deps.len() - j,
            {
                let p = deps[j];
                proof {
                    let s = keep_indices(modules.file_dependencies@[t as int]@, |d: usize| d < modules.n() && !modules.test_files@[d as int]);
                    assert(s.contains(p));
                    lemma_keep_indices_keeps(modules.file_dependencies@[t as int]@, |d: usize| d < modules.n() && !modules.test_files@[d as int]);
                }
                assert(p < modules.n());
                assert(deps@.take(j + 1).drop_last() =~= deps@.take(j as int));
                assert(deps@.take(j + 1).last() == p);
                if !has_call_exec(calls, &reached, t, p) {
                    let (line, span_start) = import_loc_exec(import_locations, t, p);
                    let prod_label = display_path(modules.root.as_str(), modules.modules[p].abs.as_str());
                    let nodes = vec![
                        PathNode { label: test_display.clone(), annotation: None, is_subject: false },
                        PathNode { label: prod_label.clone(), annotation: None, is_subject: true },
                    ];
                    let f = Finding {
                        shape: Shape::UnreachingTest,
                        location: Location { file: test_display.clone(), line, span_start },
                        subject: prod_label,
                        evidence: Evidence::Path { nodes },
                    };
                    assert(f@ == unreaching_finding(*modules, import_locations@, t as int, p as int)) by {
                        assert(f@.nodes =~= unreaching_finding(*modules, import_locations@, t as int, p as int).nodes);
                    }
                    let ghost before = views(findings@);
                    findings.push(f);
                    assert(views(findings@) =~= before.push(f@));
                }
                assert(views(findings@) =~= base + test_findings(*modules, *calls, import_locations@, t as int, deps@.take(j + 1)));
                j += 1;
            }
            assert(deps@.take(deps.len() as int) =~= deps@);
        } else {
            assert(test_findings(*modules, *calls, import_locations@, t as int, deps@) =~= Seq::<FindingView>::empty());
            assert(views(findings@) =~= base + test_findings(*modules, *calls, import_locations@, t as int, deps@));
        }
        assert(tests@.take(i + 1).drop_last() =~= tests@.take(i as int));
        assert(tests@.take(i + 1).last() == t);
        assert(views(findings@) =~= all_test_findings(*modules, *calls, import_locations@, tests@.take(i + 1)));
        i += 1;
    }
    assert(tests@.take(tests.len() as int) =~= tests@);
    crate::finding::sort_findings(findings)
}

proof fn lemma_keep_indices_bound(s: Seq<usize>, keep: spec_fn(usize) -> bool, n: int)
    requires
        forall|k: int| 0 <= k < s.len() ==> #[trigger] s[k] < n,
    ensures
        forall|k: int| 0 <= k < keep_indices(s, keep).len() ==> #[trigger] keep_indices(s, keep)[k] < n,
    decreases s.len(),
{
    if s.len() > 0 {
        lemma_keep_indices_bound(s.drop_last(), keep, n);
        let p = keep_indices(s.drop_last(), keep);
        assert forall|k: int| 0 <= k < keep_indices(s, keep).len() implies #[trigger] keep_indices(s, keep)[k] < n by {
            if k < p.len() {
                assert(keep_indices(s, keep)[k] == p[k]);
            }
        }
    }
}

proof fn lemma_keep_indices_keeps(s: Seq<usize>, keep: spec_fn(usize) -> bool)
    ensures
        forall|k: int| 0 <= k < keep_indices(s, keep).len() ==> keep(#[trigger] keep_indices(s, keep)[k]),
    decreases s.len(),
{
    if s.len() > 0 {
        lemma_keep_indices_keeps(s.drop_last(), keep);
        let p = keep_indices(s.drop_last(), keep);
        assert forall|k: int| 0 <= k < keep_indices(s, keep).len() implies keep(#[trigger] keep_indices(s, keep)[k]) by {
            if k < p.len() {
                assert(keep_indices(s, keep)[k] == p[k]);
            }
        }
    }
}

/// An import or re-export statement of a test file: its specifier, where it
/// starts, its line, and the path the resolver gave for it.
#[derive(Debug)]
pub struct ImportStatement {
    pub specifier: String,
    pub span_start: u32,
    pub line: u32,
    pub resolved: Option<String>,
}

/// Whether a location has been recorded for module `m`.
pub open spec fn recorded(locs: Seq<ImportLocation>, m: usize) -> bool {
    exists|i: int| 0 <= i < locs.len() && #[trigger] locs[i].module == m
}

/// Records where module `m` is imported, unless it already has a location.
pub open spec fn record(locs: Seq<ImportLocation>, test: usize, m: usize, line: u32, span: u32) -> Seq<ImportLocation> {
    if recorded(locs, m) {
        locs
    } else {
        locs.push(ImportLocation { test, module: m, line, span_start: span })
    }
}

/// The first module whose path is the same as `path`.
pub open spec fn module_named(g: ModuleGraph, path: Seq<char>, k: int) -> Option<usize>
    decreases g.n() - k,
{
    if k >= g.n() || k < 0 {
        None
    } else if same_file(g.modules@[k].abs@, path) {
        Some(k as usize)
    } else {
        module_named(g, path, k + 1)
    }
}

/// `s` without its leading dots, then without its leading slashes.
pub open spec fn trimmed_specifier(s: Seq<char>) -> Seq<char> {
    let d = s.skip(leading(s, '.'));
    d.skip(leading(d, '/'))
}

/// How many leading characters of `s` are `c`.
pub open spec fn leading(s: Seq<char>, c: char) -> int
    decreases s.len(),
{
    if s.len() > 0 && s[0] == c {
        1 + leading(s.drop_first(), c)
    } else {
        0
    }
}

/// The file stem of a path, when its last component is a name.
pub open spec fn stem_of_path(p: Seq<char>) -> Option<Seq<char>> {
    let c = components(p);
    if c.len() > 0 && c.last().0 == NORMAL {
        Some(file_stem(c.last().1))
    } else {
        None
    }
}

/// Whether a dependency of the test is what a specifier names, by text:
/// its path ends with the trimmed specifier, or the stems agree.
pub open spec fn dep_named(dep: Seq<char>, specifier: Seq<char>) -> bool {
    ends_with(dep, trimmed_specifier(specifier)) || stem_of_path(dep) == stem_of_path(specifier)
}

/// Records the statement's location for the first `k` dependencies of the
/// test that it names by text and that have no location yet.
pub open spec fn record_deps(g: ModuleGraph, test: usize, locs: Seq<ImportLocation>, st: ImportStatement, k: int) -> Seq<ImportLocation>
    decreases k,
{
    if k <= 0 {
        locs
    } else {
        let p = record_deps(g, test, locs, st, k - 1);
        let d = g.file_dependencies@[test as int]@[k - 1];
        if !recorded(p, d) && dep_named(g.modules@[d as int].abs@, st.specifier@) {
            p.push(ImportLocation { test, module: d, line: st.line, span_start: st.span_start })
        } else {
            p
        }
    }
}

/// Records one statement: the module its resolved path names, then the
/// dependencies it names by text.
pub open spec fn statement_step(g: ModuleGraph, test: usize, locs: Seq<ImportLocation>, st: ImportStatement) -> Seq<ImportLocation> {
    let l1 = match st.resolved {
        Some(p) => match module_named(g, p@, 0) {
            Some(m) => record(locs, test, m, st.line, st.span_start),
            None => locs,
        },
        None => locs,
    };
    record_deps(g, test, l1, st, g.file_dependencies@[test as int]@.len() as int)
}

/// The locations recorded by the first `k` statements.
pub open spec fn statement_locations(g: ModuleGraph, test: usize, sts: Seq<ImportStatement>, k: int) -> Seq<ImportLocation>
    decreases k,
{
    if k <= 0 {
        Seq::empty()
    } else {
        statement_step(g, test, statement_locations(g, test, sts, k - 1), sts[k - 1])
    }
}

fn is_recorded(locs: &Vec<ImportLocation>, m: usize) -> (r: bool)
    ensures
        r == recorded(locs@, m),
{
    let mut i: usize = 0;
    while i < locs.len()
        invariant
            i <= locs.len(),
            forall|k: int| 0 <= k < i ==> locs@[k].module != m,
        decreases locs.len() - i,
    {
        if locs[i].module == m {
            return true;
        }
        i += 1;
    }
    false
}

fn find_module(g: &ModuleGraph, path: &str) -> (r: Option<usize>)
    ensures
        r == module_named(*g, path@, 0),
        match r {
            Some(m) => m < g.n(),
            None => true,
        },
{
    let mut k: usize = 0;
    while k < g.modules.len()
        invariant
            k <= g.n(),
            module_named(*g, path@, 0) == module_named(*g, path@, k as int),
        decreases g.modules.len() - k,
    {
        if paths_equal(g.modules[k].abs.as_str(), path) {
            return Some(k);
        }
        k += 1;
    }
    None
}

fn count_leading(s: &Vec<char>, from: usize, c: char) -> (r: usize)
    requires
        from <= s.len(),
    ensures
        r == leading(s@.skip(from as int), c),
        from + r <= s.len(),
{
    let mut i = from;
    while i < s.len() && s[i] == c
        invariant
            from <= i <= s.len(),
            leading(s@.skip(from as int), c) == (i - from) + leading(s@.skip(i as int), c),
        decreases s.len() - i,
    {
        assert(s@.skip(i as int).drop_first() =~= s@.skip(i + 1));
        i += 1;
    }
    proof {
        if i < s.len() {
            assert(s@.skip(i as int)[0] == s@[i as int]);
        }
    }
    i - from
}

fn path_stem(p: &str) -> (r: Option<Vec<char>>)
    ensures
        match stem_of_path(p@) {
            Some(s) => r matches Some(v) && v@ == s,
            None => r is None,
        },
{
    let c = components_of(&chars_of(p));
    if c.len() > 0 && c[c.len() - 1].0 == NORMAL {
        Some(stem_of(&c[c.len() - 1].1))
    } else {
        None
    }
}

fn dep_named_exec(dep: &str, specifier: &str) -> (r: bool)
    ensures
        r == dep_named(dep@, specifier@),
{
    let sc = chars_of(specifier);
    let dots = count_leading(&sc, 0, '.');
    let slashes = count_leading(&sc, dots, '/');
    let mut trimmed: Vec<char> = Vec::new();
    let mut i = dots + slashes;
    let start = i;
    while i < sc.len()
        invariant
            start <= i <= sc.len(),
            trimmed@ == sc@.subrange(start as int, i as int),
        decreases sc.len() - i,
    {
        trimmed.push(sc[i]);
        assert(trimmed@ =~= sc@.subrange(start as int, i + 1));
        i += 1;
    }
    assert(sc@.skip(0) =~= sc@);
    assert(sc@.skip(dots as int).skip(slashes as int) =~= sc@.skip(dots + slashes));
    assert(trimmed@ =~= trimmed_specifier(specifier@));
    let dc = chars_of(dep);
    if chars_end_with(&dc, &trimmed) {
        return true;
    }
    let a = path_stem(dep);
    let b = path_stem(specifier);
    match (a, b) {
        (Some(x), Some(y)) => crate::text::chars_eq(&x, &y),
        (None, None) => true,
        _ => false,
    }
}

/// Where a test file imports each module: for each statement in order, the
/// module its resolved path names, then the test's dependencies it names by
/// text, each keeping the first location found for it.
pub fn import_locations(modules: &ModuleGraph, test: usize, statements: &Vec<ImportStatement>) -> (r: Vec<ImportLocation>)
    requires
        modules.wf(),
        test < modules.n(),
    ensures
        r@ == statement_locations(*modules, test, statements@, statements@.len() as int),
{
    let mut locs: Vec<ImportLocation> = Vec::new();
    let deps = &modules.file_dependencies[test];
    let mut k: usize = 0;
    while k < statements.len()
        invariant
            modules.wf(),
            test < modules.n(),
            *deps == modules.file_dependencies@[test as int],
            k <= statements.len(),
            locs@ == statement_locations(*modules, test, statements@, k as int),
        decreases statements.len() - k,
    {
        let st = &statements[k];
        if let Some(p) = &st.resolved {
            if let Some(m) = find_module(modules, p.as_str()) {
                if !is_recorded(&locs, m) {
                    locs.push(ImportLocation { test, module: m, line: st.line, span_start: st.span_start });
                }
            }
        }
        let ghost l1 = locs@;
        let mut j: usize = 0;
        while j < deps.len()
            invariant
                modules.wf(),
                test < modules.n(),
                *deps == modules.file_dependencies@[test as int],
                *st == statements@[k as int],
                j <= deps.len(),
                locs@ == record_deps(*modules, test, l1, *st, j as int),
            decreases deps.len() - j,
        {
            let d = deps[j];
            assert(crate::reach::adj_view(modules.file_dependencies@)[test as int][j as int] == d);
            if !is_recorded(&locs, d) && dep_named_exec(modules.modules[d].abs.as_str(), st.specifier.as_str()) {
                locs.push(ImportLocation { test, module: d, line: st.line, span_start: st.span_start });
            }
            j += 1;
        }
        k += 1;
    }
    locs
}

proof fn lemma_keep_indices_members(s: Seq<usize>, keep: spec_fn(usize) -> bool)
    ensures
        forall|x: usize| #[trigger] keep_indices(s, keep).contains(x) <==> s.contains(x) && keep(x),
    decreases s.len(),
{
    if s.len() > 0 {
        let p = keep_indices(s.drop_last(), keep);
        let r = keep_indices(s, keep);
        lemma_keep_indices_members(s.drop_last(), keep);
        assert forall|x: usize| #[trigger] r.contains(x) <==> s.contains(x) && keep(x) by {
            if keep(s.last()) {
                assert(r == p.push(s.last()));
            } else {
                assert(r == p);
            }
            if r.contains(x) {
                let n = choose|n: int| 0 <= n < r.len() && r[n] == x;
                if n < p.len() {
                    assert(p[n] == x);
                    assert(p.contains(x));
                    let m = choose|m: int| 0 <= m < s.len() - 1 && s.drop_last()[m] == x;
                    assert(s[m] == x);
                } else {
                    assert(s[s.len() - 1] == x);
                }
            }
            if s.contains(x) && keep(x) {
                let m = choose|m: int| 0 <= m < s.len() && s[m] == x;
                if m < s.len() - 1 {
                    assert(s.drop_last()[m] == x);
                    assert(p.contains(x));
                    let n = choose|n: int| 0 <= n < p.len() && p[n] == x;
                    assert(r[n] == x);
                } else {
                    assert(r[p.len() as int] == x);
                }
            }
        }
    }
}

/// Test `t` imports module `p`, reaches none of its functions, and `f` is the finding for it.
pub open spec fn missed(g: ModuleGraph, calls: CallGraph, locs: Seq<ImportLocation>, f: FindingView, t: int, p: int) -> bool {
    !has_call(calls, t, p) && f == unreaching_finding(g, locs, t, p)
}

proof fn lemma_test_findings(g: ModuleGraph, calls: CallGraph, locs: Seq<ImportLocation>, t: int, deps: Seq<usize>)
    ensures
        forall|f: FindingView| #[trigger] test_findings(g, calls, locs, t, deps).contains(f) <==> exists|p: usize|
            deps.contains(p) && #[trigger] missed(g, calls, locs, f, t, p as int),
    decreases deps.len(),
{
    if deps.len() > 0 {
        let q = test_findings(g, calls, locs, t, deps.drop_last());
        let r = test_findings(g, calls, locs, t, deps);
        let last = deps.last();
        lemma_test_findings(g, calls, locs, t, deps.drop_last());
        assert forall|f: FindingView| #[trigger] r.contains(f) <==> exists|p: usize| deps.contains(p) && #[trigger] missed(g, calls, locs, f, t, p as int) by {
            if !has_call(calls, t, last as int) {
                assert(r == q.push(unreaching_finding(g, locs, t, last as int)));
            } else {
                assert(r == q);
            }
            if r.contains(f) {
                let n = choose|n: int| 0 <= n < r.len() && r[n] == f;
                if n < q.len() {
                    assert(q[n] == f);
                    assert(q.contains(f));
                    let p = choose|p: usize| deps.drop_last().contains(p) && #[trigger] missed(g, calls, locs, f, t, p as int);
                    let m = choose|m: int| 0 <= m < deps.len() - 1 && deps.drop_last()[m] == p;
                    assert(deps[m] == p);
                } else {
                    assert(deps[deps.len() - 1] == last);
                    assert(missed(g, calls, locs, f, t, last as int));
                }
            }
            if exists|p: usize| deps.contains(p) && #[trigger] missed(g, calls, locs, f, t, p as int) {
                let p = choose|p: usize| deps.contains(p) && #[trigger] missed(g, calls, locs, f, t, p as int);
                let m = choose|m: int| 0 <= m < deps.len() && deps[m] == p;
                if m < deps.len() - 1 {
                    assert(deps.drop_last()[m] == p);
                    assert(q.contains(f));
                    let n = choose|n: int| 0 <= n < q.len() && q[n] == f;
                    assert(r[n] == f);
                } else {
                    assert(r[q.len() as int] == f);
                }
            }
        }
    }
}

proof fn lemma_all_test_findings(g: ModuleGraph, calls: CallGraph, locs: Seq<ImportLocation>, tests: Seq<usize>)
    ensures
        forall|f: FindingView| #[trigger] all_test_findings(g, calls, locs, tests).contains(f) <==> exists|t: usize|
            tests.contains(t) && #[trigger] test_findings(g, calls, locs, t as int, prod_deps(g, t as int)).contains(f),
    decreases tests.len(),
{
    if tests.len() > 0 {
        let q = all_test_findings(g, calls, locs, tests.drop_last());
        let last = tests.last();
        let w = test_findings(g, calls, locs, last as int, prod_deps(g, last as int));
        let r = all_test_findings(g, calls, locs, tests);
        lemma_all_test_findings(g, calls, locs, tests.drop_last());
        assert(r == q + w);
        assert forall|f: FindingView| #[trigger] r.contains(f) <==> exists|t: usize|
            tests.contains(t) && #[trigger] test_findings(g, calls, locs, t as int, prod_deps(g, t as int)).contains(f) by {
            if r.contains(f) {
                let n = choose|n: int| 0 <= n < r.len() && r[n] == f;
                if n < q.len() {
                    assert(q[n] == f);
                    assert(q.contains(f));
                    let t = choose|t: usize| tests.drop_last().contains(t) && #[trigger] test_findings(g, calls, locs, t as int, prod_deps(g, t as int)).contains(f);
                    let m = choose|m: int| 0 <= m < tests.len() - 1 && tests.drop_last()[m] == t;
                    assert(tests[m] == t);
                } else {
                    assert(w[n - q.len()] == f);
                    assert(w.contains(f));
                    assert(tests[tests.len() - 1] == last);
                }
            }
            if exists|t: usize| tests.contains(t) && #[trigger] test_findings(g, calls, locs, t as int, prod_deps(g, t as int)).contains(f) {
                let t = choose|t: usize| tests.contains(t) && #[trigger] test_findings(g, calls, locs, t as int, prod_deps(g, t as int)).contains(f);
                let m = choose|m: int| 0 <= m < tests.len() && tests[m] == t;
                if m < tests.len() - 1 {
                    assert(tests.drop_last()[m] == t);
                    assert(q.contains(f));
                    let n = choose|n: int| 0 <= n < q.len() && q[n] == f;
                    assert(r[n] == f);
                } else {
                    let n = choose|n: int| 0 <= n < w.len() && w[n] == f;
                    assert(r[q.len() + n] == f);
                }
            }
        }
    }
}

/// Test `t` imports production module `p` and `f` is the finding for it.
pub open spec fn import_not_reached(g: ModuleGraph, calls: CallGraph, locs: Seq<ImportLocation>, f: FindingView, t: usize, p: usize) -> bool {
    &&& t < g.n()
    &&& g.test_files@[t as int]
    &&& g.file_dependencies@[t as int]@.contains(p)
    &&& p < g.n()
    &&& !g.test_files@[p as int]
    &&& missed(g, calls, locs, f, t as int, p as int)
}

/// A test file gets exactly one kind of finding: one for each production
/// module (a module that is not a test file) among its file dependencies
/// from which no function is reachable along typed call edges starting at
/// the test's own functions.
pub proof fn law_unreaching_tests(g: ModuleGraph, calls: CallGraph, locs: Seq<ImportLocation>)
    requires
        g.wf(),
    ensures
        forall|f: FindingView| #[trigger] all_test_findings(g, calls, locs, test_order(g)).contains(f) <==> exists|t: usize, p: usize|
            #[trigger] import_not_reached(g, calls, locs, f, t, p),
{
    let n = g.n();
    let all = Seq::new(n, |i: int| i as usize);
    let is_test = |i: usize| g.test_files@[i as int];
    let leq = path_index_leq(abs_paths(g));
    let tests = keep_indices(all, is_test);
    lemma_keep_indices_members(all, is_test);
    crate::order::lemma_sorted_keeps(tests, leq);
    crate::order::lemma_sorted_contains(tests, leq);
    let order = test_order(g);
    assert forall|x: usize| #[trigger] order.contains(x) <==> x < n && g.test_files@[x as int] by {
        if order.contains(x) {
            let k = choose|k: int| 0 <= k < order.len() && order[k] == x;
            assert(tests.contains(order[k]));
            let m = choose|m: int| 0 <= m < all.len() && all[m] == x;
        }
        if x < n && g.test_files@[x as int] {
            assert(all[x as int] == x);
            assert(all.contains(x));
        }
    }
    lemma_all_test_findings(g, calls, locs, order);
    assert forall|f: FindingView| #[trigger] all_test_findings(g, calls, locs, order).contains(f) <==> exists|t: usize, p: usize|
        #[trigger] import_not_reached(g, calls, locs, f, t, p) by {
        if all_test_findings(g, calls, locs, order).contains(f) {
            let t = choose|t: usize| order.contains(t) && #[trigger] test_findings(g, calls, locs, t as int, prod_deps(g, t as int)).contains(f);
            let ds = g.file_dependencies@[t as int]@;
            let keep = |d: usize| d < g.n() && !g.test_files@[d as int];
            lemma_keep_indices_members(ds, keep);
            crate::order::lemma_sorted_contains(keep_indices(ds, keep), leq);
            lemma_test_findings(g, calls, locs, t as int, prod_deps(g, t as int));
            let p = choose|p: usize| prod_deps(g, t as int).contains(p) && #[trigger] missed(g, calls, locs, f, t as int, p as int);
            let k = choose|k: int| 0 <= k < prod_deps(g, t as int).len() && prod_deps(g, t as int)[k] == p;
            assert(keep_indices(ds, keep).contains(prod_deps(g, t as int)[k]));
            assert(import_not_reached(g, calls, locs, f, t, p));
        }
        if exists|t: usize, p: usize| #[trigger] import_not_reached(g, calls, locs, f, t, p) {
            let (t, p) = choose|t: usize, p: usize| #[trigger] import_not_reached(g, calls, locs, f, t, p);
            let ds = g.file_dependencies@[t as int]@;
            let keep = |d: usize| d < g.n() && !g.test_files@[d as int];
            lemma_keep_indices_members(ds, keep);
            crate::order::lemma_sorted_keeps(keep_indices(ds, keep), leq);
            assert(keep_indices(ds, keep).contains(p));
            assert(prod_deps(g, t as int).contains(p));
            lemma_test_findings(g, calls, locs, t as int, prod_deps(g, t as int));
            assert(test_findings(g, calls, locs, t as int, prod_deps(g, t as int)).contains(f));
            assert(order.contains(t));
        }
    }
}

/// A test gets a finding for a production module it imports exactly when no
/// function of that module, whichever it is, is reachable from the test's
/// own functions: one reached function of the module rules the finding out.
pub proof fn law_unreaching_means_no_function_reached(g: ModuleGraph, calls: CallGraph, locs: Seq<ImportLocation>)
    requires
        g.wf(),
    ensures
        forall|f: FindingView| #[trigger] all_test_findings(g, calls, locs, test_order(g)).contains(f) <==> exists|t: usize, p: usize|
            {
                &&& t < g.n()
                &&& g.test_files@[t as int]
                &&& g.file_dependencies@[t as int]@.contains(p)
                &&& p < g.n()
                &&& !g.test_files@[p as int]
                &&& forall|i: int| 0 <= i < calls.n() && calls.functions@[i].module == p ==> !reach_from(calls, t as int)[i]
                &&& f == #[trigger] unreaching_finding(g, locs, t as int, p as int)
            },
{
    law_unreaching_tests(g, calls, locs);
    let all = all_test_findings(g, calls, locs, test_order(g));
    assert forall|f: FindingView| #[trigger] all.contains(f) <==> exists|t: usize, p: usize|
        {
            &&& t < g.n()
            &&& g.test_files@[t as int]
            &&& g.file_dependencies@[t as int]@.contains(p)
            &&& p < g.n()
            &&& !g.test_files@[p as int]
            &&& forall|i: int| 0 <= i < calls.n() && calls.functions@[i].module == p ==> !reach_from(calls, t as int)[i]
            &&& f == #[trigger] unreaching_finding(g, locs, t as int, p as int)
        } by {
        if all.contains(f) {
            let (t, p) = choose|t: usize, p: usize| #[trigger] import_not_reached(g, calls, locs, f, t, p);
            assert(!has_call(calls, t as int, p as int));
            assert forall|i: int| 0 <= i < calls.n() && calls.functions@[i].module == p implies !reach_from(calls, t as int)[i] by {
                if reach_from(calls, t as int)[i] {
                    assert(calls.functions@[i].module == p as int);
                }
            }
            assert(f == unreaching_finding(g, locs, t as int, p as int));
        }
        if exists|t: usize, p: usize|
            {
                &&& t < g.n()
                &&& g.test_files@[t as int]
                &&& g.file_dependencies@[t as int]@.contains(p)
                &&& p < g.n()
                &&& !g.test_files@[p as int]
                &&& forall|i: int| 0 <= i < calls.n() && calls.functions@[i].module == p ==> !reach_from(calls, t as int)[i]
                &&& f == #[trigger] unreaching_finding(g, locs, t as int, p as int)
            } {
            let (t, p) = choose|t: usize, p: usize|
                {
                    &&& t < g.n()
                    &&& g.test_files@[t as int]
                    &&& g.file_dependencies@[t as int]@.contains(p)
                    &&& p < g.n()
                    &&& !g.test_files@[p as int]
                    &&& forall|i: int| 0 <= i < calls.n() && calls.functions@[i].module == p ==> !reach_from(calls, t as int)[i]
                    &&& f == #[trigger] unreaching_finding(g, locs, t as int, p as int)
                };
            assert(!has_call(calls, t as int, p as int));
            assert(import_not_reached(g, calls, locs, f, t, p));
        }
    }
}

/// What a test reaches: each of its own functions, and whatever a reached
/// function calls on a typed edge.
pub proof fn law_test_reach(calls: CallGraph, t: int)
    ensures
        forall|i: int| 0 <= i < calls.n() && (#[trigger] calls.functions@[i]).module == t ==> reach_from(calls, t)[i],
        forall|u: int, k: int|
            0 <= u < calls.n() && 0 <= k < calls.adjacency()[u].len() && reach_from(calls, t)[u] ==> reach_from(
                calls,
                t,
            )[#[trigger] calls.adjacency()[u][k] as int],
{
    let adj = calls.adjacency();
    let roots = Seq::new(calls.n(), |i: int| calls.functions@[i].module == t);
    assert forall|i: int| 0 <= i < calls.n() && (#[trigger] calls.functions@[i]).module == t implies reach_from(calls, t)[i] by {
        assert(roots[i]);
        assert(crate::reach::is_walk(adj, seq![i]));
        assert(reachable(adj, roots, i));
    }
    assert(crate::reach::adj_ok(adj)) by {
        assert forall|u: int, k: int| 0 <= u < adj.len() && 0 <= k < adj[u].len() implies #[trigger] adj[u][k] < adj.len() by {
            crate::call_graph::lemma_edges_from_ok(calls.edges@, u, calls.n() as int);
        }
    }
    assert forall|u: int, k: int| 0 <= u < calls.n() && 0 <= k < adj[u].len() && reach_from(calls, t)[u] implies reach_from(
        calls,
        t,
    )[#[trigger] adj[u][k] as int] by {
        crate::reach::lemma_extend_reach(adj, roots, u, k);
        assert(adj[u][k] < adj.len());
    }
}

} // verus!
