//! Unreachable files and functions: no import path, or no typed-edge path,
//! from an entry point (or, outside production mode, from a test).

use vstd::prelude::*;

use crate::call_graph::{CallGraph, FnNode};
use crate::finding::{node, views, Evidence, Finding, FindingView, Location, PathNode, Shape};
use crate::graph::ModuleGraph;
use crate::reach::{adj_view, is_walk, reach, reachable};
use crate::Options;

verus! {

/// Roots of file reachability: entry points, and test files unless in production mode.
pub open spec fn file_roots(g: ModuleGraph, production: bool) -> Seq<bool> {
    Seq::new(g.n(), |i: int| g.entry_points@[i] || (!production && g.test_files@[i]))
}

/// Which modules an import path from a root reaches.
pub open spec fn file_reach(g: ModuleGraph, production: bool) -> Seq<bool> {
    Seq::new(g.n(), |v: int| reachable(g.deps(), file_roots(g, production), v))
}

/// The finding for an unreachable file.
pub open spec fn file_finding(display: Seq<char>) -> FindingView {
    FindingView {
        shape: Shape::Unreachable,
        file: display,
        line: 1,
        span_start: 0,
        subject: display,
        nodes: seq![node(display, true)],
    }
}

/// Findings for the modules in `order` that are neither tests nor reached.
pub open spec fn unreachable_files(g: ModuleGraph, reached: Seq<bool>, order: Seq<usize>) -> Seq<FindingView>
    decreases order.len(),
{
    if order.len() == 0 {
        Seq::empty()
    } else {
        let p = unreachable_files(g, reached, order.drop_last());
        let m = order.last() as int;
        if !g.test_files@[m] && !reached[m] {
            p.push(file_finding(g.modules@[m].display@))
        } else {
            p
        }
    }
}

/// A function is exported when marked so, or when its module exports its name.
pub open spec fn fn_exported(g: ModuleGraph, f: FnNode) -> bool {
    f.exported || (f.module < g.n() && exists|e: int|
        0 <= e < g.modules@[f.module as int].exports.len() && #[trigger] g.modules@[f.module as int].exports@[e].name@
            == f.name@)
}

/// An entry module that holds at least one exported function.
pub open spec fn entry_has_exports(g: ModuleGraph, calls: CallGraph, m: int) -> bool {
    exists|i: int|
        0 <= i < calls.n() && #[trigger] calls.functions@[i].module == m && fn_exported(g, calls.functions@[i])
}

/// Roots of function reachability: in an entry module, its exported functions
/// (all of its functions when it exports none); in a test module unless in
/// production mode, all of its functions.
pub open spec fn fn_roots(g: ModuleGraph, calls: CallGraph, production: bool) -> Seq<bool> {
    Seq::new(
        calls.n(),
        |i: int|
            {
                let f = calls.functions@[i];
                let m = f.module as int;
                m < g.n() && ((g.entry_points@[m] && (!entry_has_exports(g, calls, m) || fn_exported(g, f)))
                    || (!production && g.test_files@[m]))
            },
    )
}

/// Which functions a typed-edge path from a root reaches.
pub open spec fn fn_reach(g: ModuleGraph, calls: CallGraph, production: bool) -> Seq<bool> {
    Seq::new(calls.n(), |v: int| reachable(calls.adjacency(), fn_roots(g, calls, production), v))
}

/// The finding for an unreachable function.
pub open spec fn fn_finding(f: FnNode) -> FindingView {
    FindingView {
        shape: Shape::Unreachable,
        file: f.display@,
        line: f.line,
        span_start: f.span_start,
        subject: f.name@,
        nodes: seq![node(f.name@, true)],
    }
}

/// Findings for the first `k` functions that are unreached, outside tests,
/// in reached files.
pub open spec fn unreachable_fns(
    g: ModuleGraph,
    calls: CallGraph,
    files: Seq<bool>,
    fns: Seq<bool>,
    k: int,
) -> Seq<FindingView>
    decreases k,
{
    if k <= 0 {
        Seq::empty()
    } else {
        let p = unreachable_fns(g, calls, files, fns, k - 1);
        let f = calls.functions@[k - 1];
        let m = f.module as int;
        if m < g.n() && !g.test_files@[m] && files[m] && !fns[k - 1] {
            p.push(fn_finding(f))
        } else {
            p
        }
    }
}

/// Every finding of the unreachable detector, files first.
pub open spec fn unreachable_findings(g: ModuleGraph, calls: CallGraph, production: bool) -> Seq<FindingView> {
    unreachable_files(g, file_reach(g, production), g.display_order()) + unreachable_fns(
        g,
        calls,
        file_reach(g, production),
        fn_reach(g, calls, production),
        calls.n() as int,
    )
}

/// Which modules an import path from an entry point (or a test, unless in
/// production mode) reaches.
pub fn compute_reachable_files(graph: &ModuleGraph, options: &Options) -> (r: Vec<bool>)
    requires
        graph.wf(),
    ensures
        r@ == file_reach(*graph, options.production),
{
    let n = graph.modules.len();
    let mut roots: Vec<bool> = Vec::new();
    let mut i: usize = 0;
    while i < n
        invariant
            i <= n,
            n == graph.n(),
            graph.wf(),
            roots@ == file_roots(*graph, options.production).take(i as int),
        decreases n - i,
    {
        roots.push(graph.entry_points[i] || (!options.production && graph.test_files[i]));
        assert(roots@ =~= file_roots(*graph, options.production).take(i + 1));
        i += 1;
    }
    assert(roots@ =~= file_roots(*graph, options.production));
    let r = reach(&graph.file_dependencies, &roots);
    assert(r@ =~= file_reach(*graph, options.production));
    r
}

fn file_finding_of(display: &String) -> (f: Finding)
    ensures
        f@ == file_finding(display@),
{
    let label = display.clone();
    let nodes = vec![PathNode { label: display.clone(), annotation: None, is_subject: true }];
    let f = Finding {
        shape: Shape::Unreachable,
        location: Location { file: display.clone(), line: 1, span_start: 0 },
        subject: label,
        evidence: Evidence::Path { nodes },
    };
    assert(f@.nodes =~= seq![node(display@, true)]);
    f
}

fn files_findings(graph: &ModuleGraph, reached: &Vec<bool>) -> (r: Vec<Finding>)
    requires
        graph.wf(),
        reached.len() == graph.n(),
    ensures
        views(r@) == unreachable_files(*graph, reached@, graph.display_order()),
{
    let order = graph.modules_by_display();
    proof {
        crate::graph::lemma_display_order(*graph);
    }
    let mut out: Vec<Finding> = Vec::new();
    let mut i: usize = 0;
    assert(order@.take(0) =~= Seq::<usize>::empty());
    while i < order.len()
        invariant
            graph.wf(),
            reached.len() == graph.n(),
            order@ == graph.display_order(),
            forall|k: int| 0 <= k < order.len() ==> #[trigger] order@[k] < graph.n(),
            i <= order.len(),
            views(out@) == unreachable_files(*graph, reached@, order@.take(i as int)),
        decreases order.len() - i,
    {
        let m = order[i];
        assert(order@.take(i + 1).drop_last() =~= order@.take(i as int));
        assert(order@.take(i + 1).last() == m);
        if !graph.test_files[m] && !reached[m] {
            let f = file_finding_of(&graph.modules[m].display);
            out.push(f);
            assert(views(out@) =~= views(out@.drop_last()).push(f@));
            assert(out@.drop_last() =~= out@.take(out.len() - 1));
        }
        proof {
            assert(views(out@) =~= unreachable_files(*graph, reached@, order@.take(i + 1)));
        }
        i += 1;
    }
    assert(order@.take(order.len() as int) =~= order@);
    out
}

/// Detect unreachable files in the module graph.
pub fn detect_files(graph: &ModuleGraph, options: &Options) -> (r: Vec<Finding>)
    requires
        graph.wf(),
    ensures
        views(r@) == unreachable_files(*graph, file_reach(*graph, options.production), graph.display_order()),
{
    let reached = compute_reachable_files(graph, options);
    files_findings(graph, &reached)
}

/// Whether a function is exported: marked so, or named by an export of its module.
pub fn is_function_exported(func: &FnNode, modules: &ModuleGraph) -> (r: bool)
    ensures
        r == fn_exported(*modules, *func),
{
    if func.exported {
        return true;
    }
    if func.module >= modules.modules.len() {
        return false;
    }
    let exports = &modules.modules[func.module].exports;
    let mut e: usize = 0;
    while e < exports.len()
        invariant
            e <= exports.len(),
            func.module < modules.n(),
            exports@ == modules.modules@[func.module as int].exports@,
            forall|k: int| 0 <= k < e ==> #[trigger] exports@[k].name@ != func.name@,
        decreases exports.len() - e,
    {
        if exports[e].name == func.name {
            return true;
        }
        e += 1;
    }
    false
}

fn fn_finding_of(f: &FnNode) -> (r: Finding)
    ensures
        r@ == fn_finding(*f),
{
    let nodes = vec![PathNode { label: f.name.clone(), annotation: None, is_subject: true }];
    let r = Finding {
        shape: Shape::Unreachable,
        location: Location { file: f.display.clone(), line: f.line, span_start: f.span_start },
        subject: f.name.clone(),
        evidence: Evidence::Path { nodes },
    };
    assert(r@.nodes =~= seq![node(f.name@, true)]);
    r
}

fn function_roots(modules: &ModuleGraph, calls: &CallGraph, options: &Options) -> (r: Vec<bool>)
    requires
        modules.wf(),
    ensures
        r@ == fn_roots(*modules, *calls, options.production),
{
    let n = modules.modules.len();
    let nf = calls.functions.len();
    // entry modules with at least one exported function
    let mut has_exports: Vec<bool> = Vec::new();
    let mut m: usize = 0;
    while m < n
        invariant
            m <= n,
            has_exports.len() == m,
            forall|k: int| 0 <= k < m ==> !#[trigger] has_exports@[k],
        decreases n - m,
    {
        has_exports.push(false);
        m += 1;
    }
    let mut i: usize = 0;
    while i < nf
        invariant
            modules.wf(),
            n == modules.n(),
            nf == calls.n(),
            i <= nf,
            has_exports.len() == n,
            forall|k: int| 0 <= k < n ==> #[trigger] has_exports@[k] == exists|j: int|
                0 <= j < i && #[trigger] calls.functions@[j].module == k && modules.entry_points@[k] && fn_exported(*modules, calls.functions@[j]),
        decreases nf - i,
    {
        let f = &calls.functions[i];
        if f.module < n && modules.entry_points[f.module] && is_function_exported(f, modules) {
            has_exports.set(f.module, true);
        }
        assert forall|k: int| 0 <= k < n implies #[trigger] has_exports@[k] == exists|j: int|
            0 <= j < i + 1 && #[trigger] calls.functions@[j].module == k && modules.entry_points@[k] && fn_exported(*modules, calls.functions@[j]) by {
            if has_exports@[k] && !(exists|j: int| 0 <= j < i && #[trigger] calls.functions@[j].module == k && modules.entry_points@[k] && fn_exported(*modules, calls.functions@[j])) {
                assert(calls.functions@[i as int].module == k);
            }
        }
        i += 1;
    }
    let mut roots: Vec<bool> = Vec::new();
    let mut i: usize = 0;
    while i < nf
        invariant
            modules.wf(),
            n == modules.n(),
            nf == calls.n(),
            i <= nf,
            has_exports.len() == n,
            forall|k: int| 0 <= k < n ==> #[trigger] has_exports@[k] == exists|j: int|
                0 <= j < nf && #[trigger] calls.functions@[j].module == k && modules.entry_points@[k] && fn_exported(*modules, calls.functions@[j]),
            roots@ == fn_roots(*modules, *calls, options.production).take(i as int),
        decreases nf - i,
    {
        let f = &calls.functions[i];
        let m = f.module;
        let root = if m < n {
            let entry_root = modules.entry_points[m] && (!has_exports[m] || is_function_exported(f, modules));
            proof {
                if modules.entry_points@[m as int] {
                    assert(has_exports@[m as int] == entry_has_exports(*modules, *calls, m as int));
                }
            }
            entry_root || (!options.production && modules.test_files[m])
        } else {
            false
        };
        roots.push(root);
        assert(roots@ =~= fn_roots(*modules, *calls, options.production).take(i + 1));
        i += 1;
    }
    assert(roots@ =~= fn_roots(*modules, *calls, options.production));
    roots
}

fn detect_unreachable_functions(
    modules: &ModuleGraph,
    calls: &CallGraph,
    options: &Options,
    reachable_files: &Vec<bool>,
) -> (r: Vec<Finding>)
    requires
        modules.wf(),
        reachable_files.len() == modules.n(),
    ensures
        views(r@) == unreachable_fns(*modules, *calls, reachable_files@, fn_reach(*modules, *calls, options.production), calls.n() as int),
{
    let roots = function_roots(modules, calls, options);
    let adj = calls.adjacency_lists();
    assert(adj@.len() == adj_view(adj@).len());
    let reached = reach(&adj, &roots);
    let ghost fr = fn_reach(*modules, *calls, options.production);
    assert(reached@ =~= fr);
    let n = modules.modules.len();
    let mut out: Vec<Finding> = Vec::new();
    let mut i: usize = 0;
    while i < calls.functions.len()
        invariant
            modules.wf(),
            n == modules.n(),
            reachable_files.len() == n,
            reached@ == fr,
            reached.len() == calls.n(),
            i <= calls.n(),
            views(out@) == unreachable_fns(*modules, *calls, reachable_files@, fr, i as int),
        decreases calls.functions.len() - i,
    {
        let f = &calls.functions[i];
        let m = f.module;
        if m < n && !modules.test_files[m] && reachable_files[m] && !reached[i] {
            let x = fn_finding_of(f);
            let ghost before = views(out@);
            out.push(x);
            assert(views(out@) =~= before.push(x@));
        }
        i += 1;
    }
    out
}

/// Detect unreachable files and unreachable functions.
///
/// A file with no import path from an entry point is reported as an unreachable file.
/// A function with no typed-edge path from an entry point is reported as an unreachable function.
/// By default, test files and test functions are roots of reachability.
/// When `--production` is set, test roots are removed.
/// Functions in already unreachable files are suppressed to avoid duplicate findings.
/// Test files and test functions are never reported as unreachable production code.
pub fn detect(modules: &ModuleGraph, calls: &CallGraph, options: &Options) -> (r: Vec<Finding>)
    requires
        modules.wf(),
    ensures
        views(r@) == unreachable_findings(*modules, *calls, options.production),
{
    let reachable_files = compute_reachable_files(modules, options);
    let mut findings = files_findings(modules, &reachable_files);
    let mut fns = detect_unreachable_functions(modules, calls, options, &reachable_files);
    let ghost a = findings@;
    let ghost b = fns@;
    findings.append(&mut fns);
    assert(views(findings@) =~= views(a) + views(b));
    findings
}

/// An entry point, and outside production mode a test file, is always
/// reached, so it is never reported as an unreachable file.
pub proof fn law_file_roots_reached(g: ModuleGraph, production: bool, i: int)
    requires
        g.wf(),
        0 <= i < g.n(),
        g.entry_points@[i] || (!production && g.test_files@[i]),
    ensures
        file_reach(g, production)[i],
{
    let p = seq![i];
    assert(is_walk(g.deps(), p));
    assert(file_roots(g, production)[p[0]]);
}

/// Production mode reaches no file that the default mode does not.
pub proof fn law_production_reaches_fewer_files(g: ModuleGraph, i: int)
    requires
        g.wf(),
        0 <= i < g.n(),
        file_reach(g, true)[i],
    ensures
        file_reach(g, false)[i],
{
    let p = choose|p: Seq<int>| #[trigger] is_walk(g.deps(), p) && file_roots(g, true)[p[0]] && p.last() == i;
    assert(file_roots(g, false)[p[0]]);
}

/// Production mode reaches no function that the default mode does not.
pub proof fn law_production_reaches_fewer_functions(g: ModuleGraph, calls: CallGraph, i: int)
    requires
        0 <= i < calls.n(),
        fn_reach(g, calls, true)[i],
    ensures
        fn_reach(g, calls, false)[i],
{
    let p = choose|p: Seq<int>| #[trigger] is_walk(calls.adjacency(), p) && fn_roots(g, calls, true)[p[0]] && p.last() == i;
    assert(fn_roots(g, calls, false)[p[0]]);
}

/// In an entry module that exports none of its functions (no function is
/// marked exported, and no export of the module has a function's name),
/// every function is a root of reachability, so it is reached and never
/// reported; and a function is reported only when it is not reached.
pub proof fn law_entry_without_exports_roots_all(g: ModuleGraph, calls: CallGraph, production: bool, i: int)
    requires
        0 <= i < calls.n(),
        calls.functions@[i].module < g.n(),
        g.entry_points@[calls.functions@[i].module as int],
        forall|k: int|
            0 <= k < calls.n() && #[trigger] calls.functions@[k].module == calls.functions@[i].module ==> !calls.functions@[k].exported
                && forall|e: int|
                0 <= e < g.modules@[calls.functions@[i].module as int].exports.len() ==> g.modules@[calls.functions@[i].module as int].exports@[e].name@
                    != calls.functions@[k].name@,
    ensures
        fn_reach(g, calls, production)[i],
        forall|f: FindingView| #[trigger] unreachable_fns(g, calls, file_reach(g, production), fn_reach(g, calls, production), calls.n() as int).contains(f)
            ==> exists|k: int| 0 <= k < calls.n() && !fn_reach(g, calls, production)[k] && f == #[trigger] fn_finding(calls.functions@[k]),
{
    let m = calls.functions@[i].module as int;
    assert(!entry_has_exports(g, calls, m)) by {
        if entry_has_exports(g, calls, m) {
            let k = choose|k: int| 0 <= k < calls.n() && #[trigger] calls.functions@[k].module == m && fn_exported(g, calls.functions@[k]);
            assert(calls.functions@[k].module == calls.functions@[i].module);
            assert(!calls.functions@[k].exported);
        }
    }
    assert(fn_roots(g, calls, production)[i]);
    let p = seq![i];
    assert(is_walk(calls.adjacency(), p));
    assert(reachable(calls.adjacency(), fn_roots(g, calls, production), i));
    lemma_unreachable_fns_unreached(g, calls, file_reach(g, production), fn_reach(g, calls, production), calls.n() as int);
}

proof fn lemma_unreachable_fns_unreached(g: ModuleGraph, calls: CallGraph, files: Seq<bool>, fns: Seq<bool>, k: int)
    requires
        k <= calls.n(),
    ensures
        forall|f: FindingView| #[trigger] unreachable_fns(g, calls, files, fns, k).contains(f) ==> exists|j: int|
            0 <= j < k && !fns[j] && calls.functions@[j].module < g.n() && !g.test_files@[calls.functions@[j].module as int]
                && files[calls.functions@[j].module as int] && f == #[trigger] fn_finding(calls.functions@[j]),
    decreases k,
{
    if k > 0 {
        lemma_unreachable_fns_unreached(g, calls, files, fns, k - 1);
        let p = unreachable_fns(g, calls, files, fns, k - 1);
        let r = unreachable_fns(g, calls, files, fns, k);
        assert forall|f: FindingView| #[trigger] r.contains(f) implies exists|j: int|
            0 <= j < k && !fns[j] && calls.functions@[j].module < g.n() && !g.test_files@[calls.functions@[j].module as int]
                && files[calls.functions@[j].module as int] && f == #[trigger] fn_finding(calls.functions@[j]) by {
            let n = choose|n: int| 0 <= n < r.len() && r[n] == f;
            let fk = calls.functions@[k - 1];
            let m = fk.module as int;
            if m < g.n() && !g.test_files@[m] && files[m] && !fns[k - 1] {
                assert(r == p.push(fn_finding(fk)));
                if n < p.len() {
                    assert(p[n] == f);
                    assert(p.contains(f));
                } else {
                    assert(f == fn_finding(calls.functions@[k - 1]));
                }
            } else {
                assert(r == p);
                assert(p.contains(f));
            }
        }
    }
}

/// Reachability of functions: every exported function of an entry module,
/// and outside production mode every function of a test module, is
/// reached, and whatever a reached function calls on a typed edge is
/// reached too. A function is reported only when it is not reached, lies in
/// a reached file and is not in a test file.
pub proof fn law_function_reach(g: ModuleGraph, calls: CallGraph, production: bool)
    ensures
        forall|i: int|
            0 <= i < calls.n() && (#[trigger] calls.functions@[i]).module < g.n() && ((g.entry_points@[calls.functions@[i].module as int]
                && (calls.functions@[i].exported || exists|e: int|
                0 <= e < g.modules@[calls.functions@[i].module as int].exports.len()
                    && g.modules@[calls.functions@[i].module as int].exports@[e].name@ == calls.functions@[i].name@)) || (!production
                && g.test_files@[calls.functions@[i].module as int])) ==> fn_reach(g, calls, production)[i],
        forall|u: int, k: int|
            0 <= u < calls.n() && 0 <= k < calls.adjacency()[u].len() && fn_reach(g, calls, production)[u] ==> fn_reach(
                g,
                calls,
                production,
            )[#[trigger] calls.adjacency()[u][k] as int],
        forall|f: FindingView| #[trigger] unreachable_fns(g, calls, file_reach(g, production), fn_reach(g, calls, production), calls.n() as int).contains(f)
            ==> exists|j: int|
            0 <= j < calls.n() && !fn_reach(g, calls, production)[j] && calls.functions@[j].module < g.n()
                && !g.test_files@[calls.functions@[j].module as int] && file_reach(g, production)[calls.functions@[j].module as int]
                && f == #[trigger] fn_finding(calls.functions@[j]),
{
    let adj = calls.adjacency();
    let roots = fn_roots(g, calls, production);
    assert forall|i: int|
        0 <= i < calls.n() && (#[trigger] calls.functions@[i]).module < g.n() && ((g.entry_points@[calls.functions@[i].module as int]
            && (calls.functions@[i].exported || exists|e: int|
            0 <= e < g.modules@[calls.functions@[i].module as int].exports.len()
                && g.modules@[calls.functions@[i].module as int].exports@[e].name@ == calls.functions@[i].name@)) || (!production
            && g.test_files@[calls.functions@[i].module as int])) implies fn_reach(g, calls, production)[i] by {
        assert(roots[i]);
        assert(is_walk(adj, seq![i]));
        assert(reachable(adj, roots, i));
    }
    assert(crate::reach::adj_ok(adj)) by {
        assert forall|u: int, k: int| 0 <= u < adj.len() && 0 <= k < adj[u].len() implies #[trigger] adj[u][k] < adj.len() by {
            crate::call_graph::lemma_edges_from_ok(calls.edges@, u, calls.n() as int);
        }
    }
    assert forall|u: int, k: int|
        0 <= u < calls.n() && 0 <= k < adj[u].len() && fn_reach(g, calls, production)[u] implies fn_reach(
            g,
            calls,
            production,
        )[#[trigger] adj[u][k] as int] by {
        crate::reach::lemma_extend_reach(adj, roots, u, k);
        assert(adj[u][k] < adj.len());
    }
    lemma_unreachable_fns_unreached(g, calls, file_reach(g, production), fn_reach(g, calls, production), calls.n() as int);
}

} // verus!
