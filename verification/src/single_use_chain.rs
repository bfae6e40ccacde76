//! Single-use chains: call chains of two or more functions in which each
//! function has exactly one caller on typed edges.

use vstd::prelude::*;

use crate::call_graph::{edges_from, lemma_edges_from_ok, CallGraph, FnNode, TypedEdge};
use crate::finding::{node, views, Evidence, Finding, FindingView, Location, PathNode, Shape, report_order};
use crate::graph::ModuleGraph;
use crate::order::{dedup_adjacent, stable_sort, stable_sorted, KeyOrder};
use crate::program::{compare_paths, path_order};
use crate::text::{compare_strings, lex_order, Rel};
use crate::unreachable::{fn_exported, is_function_exported};
use crate::Options;

verus! {

/// A sequence without repeats whose entries all name one of `n` nodes.
pub open spec fn simple_in(s: Seq<usize>, n: int) -> bool {
    &&& s.no_duplicates()
    &&& forall|i: int| 0 <= i < s.len() ==> #[trigger] s[i] < n
}

/// A sequence without repeats over `n` nodes has at most `n` entries.
pub proof fn lemma_simple_len(s: Seq<usize>, n: int)
    requires
        simple_in(s, n),
        n >= 0,
    ensures
        s.len() <= n,
{
    let t = s.map_values(|x: usize| x as int);
    assert(t.no_duplicates()) by {
        assert forall|i: int, j: int| 0 <= i < t.len() && 0 <= j < t.len() && i != j implies t[i] != t[j] by {
            assert(s[i] != s[j]);
        }
    }
    assert(t.len() == s.len());
    t.unique_seq_to_set();
    assert(t.to_set().subset_of(vstd::set_lib::set_int_range(0, n))) by {
        assert forall|x: int| t.to_set().contains(x) implies vstd::set_lib::set_int_range(0, n).contains(x) by {
            assert(t.contains(x));
            let i = choose|i: int| 0 <= i < t.len() && t[i] == x;
            assert(s[i] < n);
        }
    }
    {
        vstd::set_lib::lemma_int_range(0, n);
        vstd::set_lib::lemma_len_subset(t.to_set(), vstd::set_lib::set_int_range(0, n));
        assert(t.to_set().len() <= n);
        assert(t.len() == t.to_set().len());
        assert(s.len() == t.len());
    }
}

/// The last node of `path` has a successor that is eligible and not on the path.
pub open spec fn can_extend(out: Seq<Seq<usize>>, elig: Seq<bool>, path: Seq<usize>) -> bool {
    let succ = out[path.last() as int];
    exists|k: int| 0 <= k < succ.len() && elig[#[trigger] succ[k] as int] && !path.contains(succ[k])
}

/// The maximal chains that extend `path` through eligible nodes not yet on it,
/// in depth-first order of the successor lists; `path` itself when it cannot be
/// extended and holds at least three nodes.
pub open spec fn chains_from(out: Seq<Seq<usize>>, elig: Seq<bool>, path: Seq<usize>) -> Seq<Seq<usize>>
    decreases out.len() - path.len(), 1int, 0int,
{
    chains_over(out, elig, path, 0) + if !can_extend(out, elig, path) && path.len() >= 3 {
        seq![path]
    } else {
        Seq::empty()
    }
}

/// The chains through the successors of `path`'s last node from the `k`-th on.
pub open spec fn chains_over(out: Seq<Seq<usize>>, elig: Seq<bool>, path: Seq<usize>, k: int) -> Seq<Seq<usize>>
    decreases out.len() - path.len(), 0int, out[path.last() as int].len() - k,
{
    let succ = out[path.last() as int];
    if k < 0 || k >= succ.len() || path.len() >= out.len() {
        Seq::empty()
    } else {
        let w = succ[k];
        (if elig[w as int] && !path.contains(w) {
            chains_from(out, elig, path.push(w))
        } else {
            Seq::empty()
        }) + chains_over(out, elig, path, k + 1)
    }
}

/// Successor lists name nodes of the graph.
pub open spec fn out_ok(out: Seq<Seq<usize>>) -> bool {
    forall|u: int, k: int| 0 <= u < out.len() && 0 <= k < out[u].len() ==> #[trigger] out[u][k] < out.len()
}

pub open spec fn seqs_view(v: Seq<Vec<usize>>) -> Seq<Seq<usize>> {
    v.map_values(|x: Vec<usize>| x@)
}

/// A copy of a list of indices.
pub fn copy_indices(v: &Vec<usize>) -> (r: Vec<usize>)
    ensures
        r@ == v@,
{
    let mut r: Vec<usize> = Vec::new();
    let mut i: usize = 0;
    while i < v.len()
        invariant
            i <= v.len(),
            r@ == v@.take(i as int),
        decreases v.len() - i,
    {
        r.push(v[i]);
        assert(v@.take(i + 1) =~= v@.take(i as int).push(v@[i as int]));
        i += 1;
    }
    assert(v@.take(v.len() as int) =~= v@);
    r
}

/// Extends `path` depth-first through eligible successors not yet on it,
/// appending every maximal chain of at least three nodes to `chains`.
fn dfs_extend(
    curr: usize,
    path: &mut Vec<usize>,
    visited: &mut Vec<bool>,
    out_edges: &Vec<Vec<usize>>,
    eligible: &Vec<bool>,
    chains: &mut Vec<Vec<usize>>,
)
    requires
        out_ok(seqs_view(out_edges@)),
        eligible.len() == out_edges.len(),
        old(visited).len() == out_edges.len(),
        old(path).len() >= 1,
        curr == old(path)@.last(),
        simple_in(old(path)@, out_edges.len() as int),
        forall|v: int| 0 <= v < out_edges.len() ==> (old(visited)@[v] <==> old(path)@.contains(v as usize)),
    ensures
        final(path)@ == old(path)@,
        final(visited)@ == old(visited)@,
        seqs_view(final(chains)@) == seqs_view(old(chains)@) + chains_from(seqs_view(out_edges@), eligible@, old(path)@),
    decreases out_edges.len() - old(path)@.len(),
{
    let ghost out = seqs_view(out_edges@);
    let ghost p0 = path@;
    let ghost c0 = seqs_view(chains@);
    let ghost n = out_edges.len() as int;
    proof {
        lemma_simple_len(p0, n);
        assert(0 <= curr < n);
    }
    let succ = &out_edges[curr];
    assert(succ@ == out[curr as int]);
    let mut extended = false;
    let mut k: usize = 0;
    while k < succ.len()
        invariant
            out == seqs_view(out_edges@),
            out_ok(out),
            n == out_edges.len(),
            eligible.len() == n,
            visited.len() == n,
            visited@ == old(visited)@,
            path@ == p0,
            old(path)@ == p0,
            p0.len() >= 1,
            p0.len() <= n,
            curr == p0.last(),
            0 <= curr < n,
            succ@ == out[curr as int],
            simple_in(p0, n),
            forall|v: int| 0 <= v < n ==> (visited@[v] <==> p0.contains(v as usize)),
            k <= succ.len(),
            seqs_view(chains@) + chains_over(out, eligible@, p0, k as int) == c0 + chains_over(out, eligible@, p0, 0),
            extended == exists|j: int| 0 <= j < k && eligible@[#[trigger] succ@[j] as int] && !p0.contains(succ@[j]),
        decreases succ.len() - k,
    {
        let next = succ[k];
        assert(next < n);
        let ghost before = seqs_view(chains@);
        if eligible[next] && !visited[next] {
            proof {
                assert(simple_in(p0.push(next), n)) by {
                    assert forall|i: int, j: int| 0 <= i < p0.len() + 1 && 0 <= j < p0.len() + 1 && i != j implies p0.push(next)[i] != p0.push(next)[j] by {
                        if i < p0.len() && j < p0.len() {
                        } else if i < p0.len() {
                            assert(p0[i] != next);
                        } else if j < p0.len() {
                            assert(p0[j] != next);
                        }
                    }
                }
                lemma_simple_len(p0.push(next), n);
            }
            extended = true;
            path.push(next);
            visited.set(next, true);
            assert forall|v: int| 0 <= v < n implies (visited@[v] <==> path@.contains(v as usize)) by {
                if v == next {
                    assert(path@[path.len() - 1] == next);
                } else {
                    if p0.contains(v as usize) {
                        let i = choose|i: int| 0 <= i < p0.len() && p0[i] == v as usize;
                        assert(path@[i] == v as usize);
                    }
                    if path@.contains(v as usize) {
                        let i = choose|i: int| 0 <= i < path.len() && path@[i] == v as usize;
                        assert(i < p0.len());
                    }
                }
            }
            assert(path@ == p0.push(next));
            dfs_extend(next, path, visited, out_edges, eligible, chains);
            path.pop();
            visited.set(next, false);
            assert(path@ =~= p0);
            assert(visited@ =~= old(visited)@);
        }
        proof {
            assert(seqs_view(chains@) + chains_over(out, eligible@, p0, k + 1) =~= before + chains_over(out, eligible@, p0, k as int));
        }
        k += 1;
    }
    proof {
        assert(chains_over(out, eligible@, p0, k as int) =~= Seq::<Seq<usize>>::empty());
        assert(extended == can_extend(out, eligible@, p0));
    }
    assert(seqs_view(chains@) =~= c0 + chains_over(out, eligible@, p0, 0));
    if !extended && path.len() >= 3 {
        let c = copy_indices(path);
        let ghost mid = seqs_view(chains@);
        chains.push(c);
        assert(seqs_view(chains@) =~= mid.push(p0));
        assert(chains_from(out, eligible@, p0) =~= chains_over(out, eligible@, p0, 0) + seq![p0]);
        assert(seqs_view(chains@) =~= c0 + chains_from(out, eligible@, p0));
    } else {
        assert(seqs_view(chains@) =~= c0 + chains_from(out, eligible@, p0));
    }
}

/// What every chain that extends `path` satisfies: it starts with `path`,
/// holds at least three nodes without repeats, continues only through eligible
/// successors, and cannot be extended further.
pub open spec fn chain_ok(out: Seq<Seq<usize>>, elig: Seq<bool>, path: Seq<usize>, c: Seq<usize>) -> bool {
    &&& c.len() >= 3
    &&& c.len() >= path.len()
    &&& c.take(path.len() as int) == path
    &&& simple_in(c, out.len() as int)
    &&& forall|i: int| path.len() <= i < c.len() ==> #[trigger] elig[c[i] as int]
    &&& forall|i: int| path.len() <= i < c.len() ==> out[c[i - 1] as int].contains(#[trigger] c[i])
    &&& !can_extend(out, elig, c)
}

/// Every chain found from `path` is a maximal chain that extends it.
pub proof fn lemma_chains_from_ok(out: Seq<Seq<usize>>, elig: Seq<bool>, path: Seq<usize>)
    requires
        out_ok(out),
        elig.len() == out.len(),
        path.len() >= 1,
        simple_in(path, out.len() as int),
    ensures
        forall|k: int| 0 <= k < chains_from(out, elig, path).len() ==> chain_ok(out, elig, path, #[trigger] chains_from(out, elig, path)[k]),
    decreases out.len() - path.len(), 1int, 0int,
{
    lemma_chains_over_ok(out, elig, path, 0);
    let a = chains_over(out, elig, path, 0);
    let r = chains_from(out, elig, path);
    assert forall|k: int| 0 <= k < r.len() implies chain_ok(out, elig, path, #[trigger] r[k]) by {
        if k < a.len() {
            assert(r[k] == a[k]);
        } else {
            assert(r[k] == path);
            assert(path.take(path.len() as int) =~= path);
        }
    }
}

pub proof fn lemma_chains_over_ok(out: Seq<Seq<usize>>, elig: Seq<bool>, path: Seq<usize>, k: int)
    requires
        out_ok(out),
        elig.len() == out.len(),
        path.len() >= 1,
        simple_in(path, out.len() as int),
    ensures
        forall|j: int| 0 <= j < chains_over(out, elig, path, k).len() ==> chain_ok(out, elig, path, #[trigger] chains_over(out, elig, path, k)[j]),
    decreases out.len() - path.len(), 0int, out[path.last() as int].len() - k,
{
    let succ = out[path.last() as int];
    if k < 0 || k >= succ.len() || path.len() >= out.len() {
    } else {
        let w = succ[k];
        lemma_chains_over_ok(out, elig, path, k + 1);
        let rest = chains_over(out, elig, path, k + 1);
        let r = chains_over(out, elig, path, k);
        if elig[w as int] && !path.contains(w) {
            let q = path.push(w);
            assert(path.last() < out.len());
            assert(w < out.len());
            assert(simple_in(q, out.len() as int)) by {
                assert forall|i: int, j: int| 0 <= i < q.len() && 0 <= j < q.len() && i != j implies q[i] != q[j] by {
                    if i < path.len() && j < path.len() {
                    } else if i < path.len() {
                        assert(path[i] != w);
                    } else if j < path.len() {
                        assert(path[j] != w);
                    }
                }
            }
            lemma_chains_from_ok(out, elig, q);
            let first = chains_from(out, elig, q);
            assert forall|j: int| 0 <= j < r.len() implies chain_ok(out, elig, path, #[trigger] r[j]) by {
                if j < first.len() {
                    let c = first[j];
                    assert(r[j] == c);
                    assert(chain_ok(out, elig, q, c));
                    assert(c.take(path.len() as int) =~= c.take(q.len() as int).take(path.len() as int));
                    assert(c.take(q.len() as int).take(path.len() as int) =~= path);
                    assert forall|i: int| path.len() <= i < c.len() implies #[trigger] elig[c[i] as int] by {
                        if i == path.len() {
                            assert(c[i] == c.take(q.len() as int)[i]);
                        }
                    }
                    assert forall|i: int| path.len() <= i < c.len() implies out[c[i - 1] as int].contains(#[trigger] c[i]) by {
                        if i == path.len() {
                            assert(c[i] == c.take(q.len() as int)[i]);
                            assert(c[i - 1] == c.take(q.len() as int)[i - 1]);
                            assert(c[i - 1] == path.last());
                            assert(succ[k] == w);
                        }
                    }
                } else {
                    assert(r[j] == rest[j - first.len()]);
                }
            }
        } else {
            assert forall|j: int| 0 <= j < r.len() implies chain_ok(out, elig, path, #[trigger] r[j]) by {
                assert(r[j] == rest[j]);
            }
        }
    }
}

/// Order of functions: by display path, span start, then name.
pub open spec fn fn_order(a: FnNode, b: FnNode) -> Rel {
    match path_order(a.display@, b.display@) {
        Rel::Equal => if a.span_start < b.span_start {
            Rel::Less
        } else if a.span_start > b.span_start {
            Rel::Greater
        } else {
            lex_order(a.name@, b.name@)
        },
        r => r,
    }
}

/// Function indices ordered by their functions.
pub open spec fn fn_leq(fns: Seq<FnNode>) -> spec_fn(usize, usize) -> bool {
    |a: usize, b: usize| fn_order(fns[a as int], fns[b as int]) != Rel::Greater
}

/// Pairs of function indices ordered by first function, then second.
pub open spec fn pair_leq(fns: Seq<FnNode>) -> spec_fn((usize, usize), (usize, usize)) -> bool {
    |a: (usize, usize), b: (usize, usize)|
        match fn_order(fns[a.0 as int], fns[b.0 as int]) {
            Rel::Less => true,
            Rel::Greater => false,
            Rel::Equal => fn_order(fns[a.1 as int], fns[b.1 as int]) != Rel::Greater,
        }
}

fn compare_fns(a: &FnNode, b: &FnNode) -> (r: Rel)
    ensures
        r == fn_order(*a, *b),
{
    match compare_paths(a.display.as_str(), b.display.as_str()) {
        Rel::Equal => {
            if a.span_start < b.span_start {
                Rel::Less
            } else if a.span_start > b.span_start {
                Rel::Greater
            } else {
                compare_strings(a.name.as_str(), b.name.as_str())
            }
        },
        r => r,
    }
}

/// Function indices, ordered by their functions.
pub struct ByFn<'a> {
    pub fns: &'a Vec<FnNode>,
}

impl<'a> KeyOrder<usize> for ByFn<'a> {
    open spec fn admits(&self, x: usize) -> bool {
        x < self.fns.len()
    }

    open spec fn leq(&self) -> spec_fn(usize, usize) -> bool {
        fn_leq(self.fns@)
    }

    fn le(&self, a: &usize, b: &usize) -> (r: bool) {
        match compare_fns(&self.fns[*a], &self.fns[*b]) {
            Rel::Greater => false,
            _ => true,
        }
    }
}

/// Pairs of function indices, ordered by their functions.
pub struct ByFnPair<'a> {
    pub fns: &'a Vec<FnNode>,
}

impl<'a> KeyOrder<(usize, usize)> for ByFnPair<'a> {
    open spec fn admits(&self, x: (usize, usize)) -> bool {
        x.0 < self.fns.len() && x.1 < self.fns.len()
    }

    open spec fn leq(&self) -> spec_fn((usize, usize), (usize, usize)) -> bool {
        pair_leq(self.fns@)
    }

    fn le(&self, a: &(usize, usize), b: &(usize, usize)) -> (r: bool) {
        match compare_fns(&self.fns[a.0], &self.fns[b.0]) {
            Rel::Less => true,
            Rel::Greater => false,
            Rel::Equal => match compare_fns(&self.fns[a.1], &self.fns[b.1]) {
                Rel::Greater => false,
                _ => true,
            },
        }
    }
}

/// Number of edges into `v`.
pub open spec fn in_degree(edges: Seq<TypedEdge>, v: int) -> int
    decreases edges.len(),
{
    if edges.len() == 0 {
        0
    } else {
        in_degree(edges.drop_last(), v) + if edges.last().to == v {
            1int
        } else {
            0int
        }
    }
}

proof fn lemma_in_degree_bound(edges: Seq<TypedEdge>, v: int)
    ensures
        0 <= in_degree(edges, v) <= edges.len(),
    decreases edges.len(),
{
    if edges.len() > 0 {
        lemma_in_degree_bound(edges.drop_last(), v);
    }
}

/// Each function's callees, in function order, each once.
pub open spec fn out_lists(calls: CallGraph) -> Seq<Seq<usize>> {
    Seq::new(calls.n(), |u: int| dedup_adjacent(stable_sorted(calls.adjacency()[u], fn_leq(calls.functions@))))
}

/// A chain member: exactly one caller, and not exported unless exported
/// functions are included.
pub open spec fn eligible(g: ModuleGraph, calls: CallGraph, include_exported: bool) -> Seq<bool> {
    Seq::new(
        calls.n(),
        |v: int| in_degree(calls.edges@, v) == 1 && (include_exported || !fn_exported(g, calls.functions@[v])),
    )
}

/// Edges from a non-member into a member, in edge order.
pub open spec fn raw_entries(edges: Seq<TypedEdge>, elig: Seq<bool>, n: int) -> Seq<(usize, usize)>
    decreases edges.len(),
{
    if edges.len() == 0 {
        Seq::empty()
    } else {
        let p = raw_entries(edges.drop_last(), elig, n);
        let e = edges.last();
        if e.from < n && e.to < n && !elig[e.from as int] && elig[e.to as int] {
            p.push((e.from, e.to))
        } else {
            p
        }
    }
}

/// The edges that enter a chain, in function order, each once.
pub open spec fn entry_edges(g: ModuleGraph, calls: CallGraph, include_exported: bool) -> Seq<(usize, usize)> {
    dedup_adjacent(
        stable_sorted(
            raw_entries(calls.edges@, eligible(g, calls, include_exported), calls.n() as int),
            pair_leq(calls.functions@),
        ),
    )
}

/// The chains found from each entry edge, in order.
pub open spec fn all_chains(out: Seq<Seq<usize>>, elig: Seq<bool>, entries: Seq<(usize, usize)>) -> Seq<Seq<usize>>
    decreases entries.len(),
{
    if entries.len() == 0 {
        Seq::empty()
    } else {
        let e = entries.last();
        all_chains(out, elig, entries.drop_last()) + chains_from(out, elig, seq![e.0, e.1])
    }
}

/// Every single-use chain of the program, as function indices; the first is
/// the caller that enters the chain.
pub open spec fn chains_of(g: ModuleGraph, calls: CallGraph, include_exported: bool) -> Seq<Seq<usize>> {
    all_chains(out_lists(calls), eligible(g, calls, include_exported), entry_edges(g, calls, include_exported))
}

/// The finding for one chain: its first member is the subject; the caller
/// that enters it is marked when it is exported and exported functions are left out.
pub open spec fn chain_finding(g: ModuleGraph, calls: CallGraph, include_exported: bool, c: Seq<usize>) -> FindingView {
    let fns = calls.functions@;
    let f0 = fns[c[0] as int];
    let f1 = fns[c[1] as int];
    let label0 = if fn_exported(g, f0) && !include_exported {
        f0.name@ + "   (exported, not in chain)"@
    } else {
        f0.name@
    };
    FindingView {
        shape: Shape::SingleUseChain,
        file: f1.display@,
        line: f1.line,
        span_start: f1.span_start,
        subject: f1.name@,
        nodes: seq![node(label0, false), node(f1.name@, true)] + c.skip(2).map_values(
            |v: usize| node(fns[v as int].name@, false),
        ),
    }
}

/// The caller's body is only a forward along the edge into the chain.
pub open spec fn forward_hits(calls: CallGraph, v0: int, v1: int) -> bool {
    match calls.functions@[v0].forward {
        Some(fw) => exists|j: int|
            0 <= j < calls.edges.len() && #[trigger] calls.edges@[j].from == v0 && calls.edges@[j].to == v1
                && calls.edges@[j].call_start == fw.call_start,
        None => false,
    }
}

/// A function left out of empty-wrapper detection: a chain member, or a
/// caller whose body only forwards into a chain.
pub open spec fn suppressed_by(calls: CallGraph, chains: Seq<Seq<usize>>, v: int) -> bool {
    exists|k: int| 0 <= k < chains.len() && #[trigger] suppresses(calls, chains[k], v)
}

/// `v` follows the caller in chain `c`.
pub open spec fn in_chain_tail(c: Seq<usize>, v: int) -> bool {
    exists|i: int| 1 <= i < c.len() && c[i] as int == v
}

/// Chain `c` leaves `v` out of empty-wrapper detection.
pub open spec fn suppresses(calls: CallGraph, c: Seq<usize>, v: int) -> bool {
    in_chain_tail(c, v) || (c[0] as int == v && forward_hits(calls, c[0] as int, c[1] as int))
}

fn in_degrees(calls: &CallGraph) -> (r: Vec<usize>)
    ensures
        r.len() == calls.n(),
        forall|v: int| 0 <= v < calls.n() ==> #[trigger] r@[v] == in_degree(calls.edges@, v),
{
    let n = calls.functions.len();
    let mut deg: Vec<usize> = Vec::new();
    let mut v: usize = 0;
    while v < n
        invariant
            v <= n,
            deg.len() == v,
            forall|k: int| 0 <= k < v ==> #[trigger] deg@[k] == 0,
        decreases n - v,
    {
        deg.push(0);
        v += 1;
    }
    let mut i: usize = 0;
    assert(calls.edges@.take(0) =~= Seq::<TypedEdge>::empty());
    while i < calls.edges.len()
        invariant
            n == calls.n(),
            i <= calls.edges.len(),
            deg.len() == n,
            forall|k: int| 0 <= k < n ==> #[trigger] deg@[k] == in_degree(calls.edges@.take(i as int), k),
        decreases calls.edges.len() - i,
    {
        let e = calls.edges[i];
        assert(calls.edges@.take(i + 1).drop_last() =~= calls.edges@.take(i as int));
        assert(calls.edges@.take(i + 1).last() == e);
        if e.to < n {
            proof {
                lemma_in_degree_bound(calls.edges@.take(i as int), e.to as int);
            }
            let d = deg[e.to] + 1;
            deg.set(e.to, d);
        }
        i += 1;
    }
    assert(calls.edges@.take(calls.edges.len() as int) =~= calls.edges@);
    deg
}

fn out_lists_of(calls: &CallGraph) -> (r: Vec<Vec<usize>>)
    ensures
        seqs_view(r@) == out_lists(*calls),
        out_ok(seqs_view(r@)),
        r.len() == calls.n(),
{
    let adj = calls.adjacency_lists();
    let n = calls.functions.len();
    let ctx = ByFn { fns: &calls.functions };
    let mut out: Vec<Vec<usize>> = Vec::new();
    let mut u: usize = 0;
    assert(adj@.len() == crate::reach::adj_view(adj@).len());
    while u < n
        invariant
            n == calls.n(),
            adj.len() == n,
            crate::reach::adj_view(adj@) == calls.adjacency(),
            crate::reach::adj_ok(crate::reach::adj_view(adj@)),
            ctx.fns == &calls.functions,
            u <= n,
            out.len() == u,
            forall|k: int| 0 <= k < u ==> #[trigger] out@[k]@ == out_lists(*calls)[k],
            forall|k: int, j: int| 0 <= k < u && 0 <= j < out@[k].len() ==> #[trigger] out@[k]@[j] < n,
        decreases n - u,
    {
        let list = copy_indices(&adj[u]);
        assert(list@ == calls.adjacency()[u as int]);
        assert forall|i: int| 0 <= i < list.len() implies ctx.admits(#[trigger] list@[i]) by {
            assert(crate::reach::adj_view(adj@)[u as int][i] < n);
        }
        let sorted = stable_sort(&ctx, list);
        let ghost sl = sorted@;
        let d = crate::order::dedup_indices(sorted);
        proof {
            crate::order::lemma_sorted_contains(calls.adjacency()[u as int], fn_leq(calls.functions@));
            crate::order::lemma_dedup_contains(sl);
            assert forall|j: int| 0 <= j < d.len() implies #[trigger] d@[j] < n by {
                assert(sl.contains(d@[j]));
                let a = choose|a: int| 0 <= a < sl.len() && sl[a] == d@[j];
                assert(calls.adjacency()[u as int].contains(sl[a]));
                let b = choose|b: int| 0 <= b < calls.adjacency()[u as int].len() && calls.adjacency()[u as int][b] == sl[a];
                assert(crate::reach::adj_view(adj@)[u as int][b] < n);
            }
        }
        out.push(d);
        u += 1;
    }
    assert(seqs_view(out@) =~= out_lists(*calls));
    out
}

fn eligibility(modules: &ModuleGraph, calls: &CallGraph, options: &Options) -> (r: Vec<bool>)
    ensures
        r@ == eligible(*modules, *calls, options.include_exported),
{
    let deg = in_degrees(calls);
    let n = calls.functions.len();
    let mut r: Vec<bool> = Vec::new();
    let mut v: usize = 0;
    while v < n
        invariant
            n == calls.n(),
            deg.len() == n,
            forall|k: int| 0 <= k < n ==> #[trigger] deg@[k] == in_degree(calls.edges@, k),
            v <= n,
            r@ == eligible(*modules, *calls, options.include_exported).take(v as int),
        decreases n - v,
    {
        let e = deg[v] == 1 && (options.include_exported || !is_function_exported(&calls.functions[v], modules));
        r.push(e);
        assert(r@ =~= eligible(*modules, *calls, options.include_exported).take(v + 1));
        v += 1;
    }
    assert(r@ =~= eligible(*modules, *calls, options.include_exported));
    r
}

proof fn lemma_raw_entries_ok(edges: Seq<TypedEdge>, elig: Seq<bool>, n: int)
    requires
        elig.len() == n,
    ensures
        forall|i: int| 0 <= i < raw_entries(edges, elig, n).len() ==> {
            let e = #[trigger] raw_entries(edges, elig, n)[i];
            &&& e.0 < n
            &&& e.1 < n
            &&& !elig[e.0 as int]
            &&& elig[e.1 as int]
        },
    decreases edges.len(),
{
    if edges.len() > 0 {
        lemma_raw_entries_ok(edges.drop_last(), elig, n);
        let p = raw_entries(edges.drop_last(), elig, n);
        assert forall|i: int| 0 <= i < raw_entries(edges, elig, n).len() implies {
            let e = #[trigger] raw_entries(edges, elig, n)[i];
            &&& e.0 < n
            &&& e.1 < n
            &&& !elig[e.0 as int]
            &&& elig[e.1 as int]
        } by {
            if i < p.len() {
                assert(raw_entries(edges, elig, n)[i] == p[i]);
            }
        }
    }
}

fn entries_of(modules: &ModuleGraph, calls: &CallGraph, options: &Options, elig: &Vec<bool>) -> (r: Vec<(usize, usize)>)
    requires
        elig@ == eligible(*modules, *calls, options.include_exported),
    ensures
        r@ == entry_edges(*modules, *calls, options.include_exported),
        forall|i: int| 0 <= i < r.len() ==> {
            let e = #[trigger] r@[i];
            &&& e.0 < calls.n()
            &&& e.1 < calls.n()
            &&& !elig@[e.0 as int]
            &&& elig@[e.1 as int]
        },
{
    let n = calls.functions.len();
    let mut raw: Vec<(usize, usize)> = Vec::new();
    let mut i: usize = 0;
    assert(calls.edges@.take(0) =~= Seq::<TypedEdge>::empty());
    while i < calls.edges.len()
        invariant
            n == calls.n(),
            elig.len() == n,
            i <= calls.edges.len(),
            raw@ == raw_entries(calls.edges@.take(i as int), elig@, n as int),
        decreases calls.edges.len() - i,
    {
        let e = calls.edges[i];
        assert(calls.edges@.take(i + 1).drop_last() =~= calls.edges@.take(i as int));
        assert(calls.edges@.take(i + 1).last() == e);
        if e.from < n && e.to < n && !elig[e.from] && elig[e.to] {
            raw.push((e.from, e.to));
        }
        i += 1;
    }
    assert(calls.edges@.take(calls.edges.len() as int) =~= calls.edges@);
    let ghost rv = raw@;
    proof {
        lemma_raw_entries_ok(calls.edges@, elig@, n as int);
    }
    let ctx = ByFnPair { fns: &calls.functions };
    assert forall|i: int| 0 <= i < raw.len() implies ctx.admits(#[trigger] raw@[i]) by {
        assert(rv[i] == raw_entries(calls.edges@, elig@, n as int)[i]);
    }
    let sorted = stable_sort(&ctx, raw);
    let ghost sl = sorted@;
    let d = crate::order::dedup_pairs(sorted);
    proof {
        crate::order::lemma_sorted_contains(rv, pair_leq(calls.functions@));
        crate::order::lemma_dedup_contains(sl);
        assert forall|j: int| 0 <= j < d.len() implies {
            let e = #[trigger] d@[j];
            &&& e.0 < calls.n()
            &&& e.1 < calls.n()
            &&& !elig@[e.0 as int]
            &&& elig@[e.1 as int]
        } by {
            assert(sl.contains(d@[j]));
            let a = choose|a: int| 0 <= a < sl.len() && sl[a] == d@[j];
            assert(rv.contains(sl[a]));
            let b = choose|b: int| 0 <= b < rv.len() && rv[b] == sl[a];
            assert(rv[b] == raw_entries(calls.edges@, elig@, n as int)[b]);
        }
    }
    d
}

fn collect_chains(out: &Vec<Vec<usize>>, elig: &Vec<bool>, entries: &Vec<(usize, usize)>) -> (r: Vec<Vec<usize>>)
    requires
        out_ok(seqs_view(out@)),
        elig.len() == out.len(),
        forall|i: int| 0 <= i < entries.len() ==> {
            let e = #[trigger] entries@[i];
            &&& e.0 < out.len()
            &&& e.1 < out.len()
            &&& !elig@[e.0 as int]
            &&& elig@[e.1 as int]
        },
    ensures
        seqs_view(r@) == all_chains(seqs_view(out@), elig@, entries@),
{
    let n = out.len();
    let mut visited: Vec<bool> = Vec::new();
    let mut v: usize = 0;
    while v < n
        invariant
            v <= n,
            visited.len() == v,
            forall|k: int| 0 <= k < v ==> !#[trigger] visited@[k],
        decreases n - v,
    {
        visited.push(false);
        v += 1;
    }
    let mut chains: Vec<Vec<usize>> = Vec::new();
    let mut i: usize = 0;
    assert(entries@.take(0) =~= Seq::<(usize, usize)>::empty());
    while i < entries.len()
        invariant
            n == out.len(),
            out_ok(seqs_view(out@)),
            elig.len() == n,
            visited.len() == n,
            forall|k: int| 0 <= k < n ==> !#[trigger] visited@[k],
            forall|j: int| 0 <= j < entries.len() ==> {
                let e = #[trigger] entries@[j];
                &&& e.0 < n
                &&& e.1 < n
                &&& !elig@[e.0 as int]
                &&& elig@[e.1 as int]
            },
            i <= entries.len(),
            seqs_view(chains@) == all_chains(seqs_view(out@), elig@, entries@.take(i as int)),
        decreases entries.len() - i,
    {
        let (v0, v1) = entries[i];
        assert(entries@[i as int] == (v0, v1));
        let mut path: Vec<usize> = Vec::new();
        path.push(v0);
        path.push(v1);
        assert(path@ =~= seq![v0, v1]);
        visited.set(v0, true);
        visited.set(v1, true);
        proof {
            assert(v0 != v1);
            assert(simple_in(path@, n as int)) by {
                assert forall|a: int, b: int| 0 <= a < path.len() && 0 <= b < path.len() && a != b implies path@[a] != path@[b] by {
                }
            }
            assert forall|x: int| 0 <= x < n implies (visited@[x] <==> path@.contains(x as usize)) by {
                if x == v0 {
                    assert(path@[0] == v0);
                } else if x == v1 {
                    assert(path@[1] == v1);
                } else if path@.contains(x as usize) {
                    let k = choose|k: int| 0 <= k < 2 && path@[k] == x as usize;
                }
            }
        }
        let ghost before = seqs_view(chains@);
        dfs_extend(v1, &mut path, &mut visited, out, elig, &mut chains);
        visited.set(v0, false);
        visited.set(v1, false);
        assert(entries@.take(i + 1).drop_last() =~= entries@.take(i as int));
        assert(entries@.take(i + 1).last() == (v0, v1));
        i += 1;
    }
    assert(entries@.take(entries.len() as int) =~= entries@);
    chains
}

fn forward_hits_exec(calls: &CallGraph, v0: usize, v1: usize) -> (r: bool)
    requires
        v0 < calls.n(),
    ensures
        r == forward_hits(*calls, v0 as int, v1 as int),
{
    match calls.functions[v0].forward {
        Some(fw) => {
            let mut j: usize = 0;
            while j < calls.edges.len()
                invariant
                    v0 < calls.n(),
                    calls.functions@[v0 as int].forward == Some(fw),
                    j <= calls.edges.len(),
                    forall|k: int| 0 <= k < j ==> !(#[trigger] calls.edges@[k].from == v0 && calls.edges@[k].to == v1
                        && calls.edges@[k].call_start == fw.call_start),
                decreases calls.edges.len() - j,
            {
                let e = calls.edges[j];
                if e.from == v0 && e.to == v1 && e.call_start == fw.call_start {
                    return true;
                }
                j += 1;
            }
            false
        },
        None => false,
    }
}

fn is_suppressed(calls: &CallGraph, chains: &Vec<Vec<usize>>, v: usize) -> (r: bool)
    requires
        forall|k: int| 0 <= k < chains.len() ==> #[trigger] chains@[k].len() >= 3,
        forall|k: int| 0 <= k < chains.len() ==> #[trigger] chains@[k]@[0] < calls.n(),
    ensures
        r == suppressed_by(*calls, seqs_view(chains@), v as int),
{
    let ghost cs = seqs_view(chains@);
    let mut k: usize = 0;
    while k < chains.len()
        invariant
            cs == seqs_view(chains@),
            forall|k2: int| 0 <= k2 < chains.len() ==> #[trigger] chains@[k2].len() >= 3,
            forall|k2: int| 0 <= k2 < chains.len() ==> #[trigger] chains@[k2]@[0] < calls.n(),
            k <= chains.len(),
            forall|k2: int| 0 <= k2 < k ==> !#[trigger] suppresses(*calls, cs[k2], v as int),
        decreases chains.len() - k,
    {
        let c = &chains[k];
        assert(cs[k as int] == c@);
        let mut i: usize = 1;
        while i < c.len()
            invariant
                c@ == cs[k as int],
                cs == seqs_view(chains@),
                k < chains.len(),
                1 <= i <= c.len(),
                forall|i2: int| 1 <= i2 < i ==> #[trigger] c@[i2] != v,
            decreases c.len() - i,
        {
            if c[i] == v {
                assert(1 <= i < cs[k as int].len() && cs[k as int][i as int] == v as int);
                assert(suppresses(*calls, cs[k as int], v as int));
                return true;
            }
            i += 1;
        }
        if c[0] == v && forward_hits_exec(calls, c[0], c[1]) {
            assert(suppresses(*calls, cs[k as int], v as int));
            return true;
        }
        assert(!in_chain_tail(cs[k as int], v as int));
        k += 1;
    }
    false
}

fn chain_finding_of(modules: &ModuleGraph, calls: &CallGraph, options: &Options, c: &Vec<usize>) -> (r: Finding)
    requires
        c.len() >= 3,
        forall|i: int| 0 <= i < c.len() ==> #[trigger] c@[i] < calls.n(),
    ensures
        r@ == chain_finding(*modules, *calls, options.include_exported, c@),
{
    let f0 = &calls.functions[c[0]];
    let f1 = &calls.functions[c[1]];
    let mut label0 = f0.name.clone();
    if is_function_exported(f0, modules) && !options.include_exported {
        crate::text::append_str(&mut label0, "   (exported, not in chain)");
    }
    let mut nodes: Vec<PathNode> = Vec::new();
    nodes.push(PathNode { label: label0, annotation: None, is_subject: false });
    nodes.push(PathNode { label: f1.name.clone(), annotation: None, is_subject: true });
    let ghost fns = calls.functions@;
    let ghost tail = c@.skip(2).map_values(|v: usize| node(fns[v as int].name@, false));
    let ghost head = nodes@.map_values(|n: PathNode| n@);
    let mut i: usize = 2;
    while i < c.len()
        invariant
            fns == calls.functions@,
            2 <= i <= c.len(),
            forall|j: int| 0 <= j < c.len() ==> #[trigger] c@[j] < calls.n(),
            nodes@.map_values(|n: PathNode| n@) == head + tail.take(i - 2),
            tail == c@.skip(2).map_values(|v: usize| node(fns[v as int].name@, false)),
        decreases c.len() - i,
    {
        let f = &calls.functions[c[i]];
        let ghost before = nodes@.map_values(|n: PathNode| n@);
        let nd = PathNode { label: f.name.clone(), annotation: None, is_subject: false };
        assert(nd@ == node(fns[c@[i as int] as int].name@, false));
        nodes.push(nd);
        assert(nodes@.map_values(|n: PathNode| n@) =~= before.push(nd@));
        assert(tail[i - 2] == node(fns[c@[i as int] as int].name@, false));
        assert(tail.take(i - 1) =~= tail.take(i - 2).push(tail[i - 2]));
        assert(nodes@.map_values(|n: PathNode| n@) =~= head + tail.take(i - 1));
        i += 1;
    }
    assert(tail.take(c.len() - 2) =~= tail);
    let r = Finding {
        shape: Shape::SingleUseChain,
        location: Location { file: f1.display.clone(), line: f1.line, span_start: f1.span_start },
        subject: f1.name.clone(),
        evidence: Evidence::Path { nodes },
    };
    proof {
        reveal_strlit("   (exported, not in chain)");
        let expected = chain_finding(*modules, *calls, options.include_exported, c@);
        assert(head[0] == expected.nodes[0]);
        assert(head[1] == expected.nodes[1]);
        assert(r@.nodes =~= expected.nodes);
    }
    r
}

/// The findings of every chain, in chain order.
pub open spec fn chain_findings(g: ModuleGraph, calls: CallGraph, include_exported: bool) -> Seq<FindingView> {
    chains_of(g, calls, include_exported).map_values(|c: Seq<usize>| chain_finding(g, calls, include_exported, c))
}

/// Detect call chains of two or more functions where each function has in-degree 1 on typed edges.
/// Returns the findings, in report order, and which functions empty-wrapper
/// detection leaves out.
pub fn detect(modules: &ModuleGraph, calls: &CallGraph, options: &Options) -> (r: (Vec<Finding>, Vec<bool>))
    ensures
        views(r.0@) == report_order(chain_findings(*modules, *calls, options.include_exported)),
        r.1@ == Seq::new(calls.n(), |v: int| suppressed_by(*calls, chains_of(*modules, *calls, options.include_exported), v)),
{
    let n = calls.functions.len();
    let out = out_lists_of(calls);
    let elig = eligibility(modules, calls, options);
    let entries = entries_of(modules, calls, options, &elig);
    let chains = collect_chains(&out, &elig, &entries);
    let ghost cs = chains_of(*modules, *calls, options.include_exported);
    assert(seqs_view(chains@) == cs);
    proof {
        lemma_all_chains_ok(seqs_view(out@), elig@, entries@);
    }
    assert forall|k: int| 0 <= k < chains.len() implies #[trigger] chains@[k].len() >= 3 && (forall|i: int| 0 <= i < chains@[k].len() ==> #[trigger] chains@[k]@[i] < n) by {
        assert(cs[k] == chains@[k]@);
    }
    let mut findings: Vec<Finding> = Vec::new();
    let mut k: usize = 0;
    while k < chains.len()
        invariant
            n == calls.n(),
            seqs_view(chains@) == cs,
            cs == chains_of(*modules, *calls, options.include_exported),
            forall|k2: int| 0 <= k2 < chains.len() ==> #[trigger] chains@[k2].len() >= 3 && (forall|i: int| 0 <= i < chains@[k2].len() ==> #[trigger] chains@[k2]@[i] < n),
            k <= chains.len(),
            views(findings@) == chain_findings(*modules, *calls, options.include_exported).take(k as int),
        decreases chains.len() - k,
    {
        let f = chain_finding_of(modules, calls, options, &chains[k]);
        assert(cs[k as int] == chains@[k as int]@);
        let ghost before = views(findings@);
        findings.push(f);
        assert(views(findings@) =~= before.push(f@));
        assert(cs.len() == chains.len());
        assert(chain_findings(*modules, *calls, options.include_exported)[k as int] == f@);
        assert(views(findings@) =~= chain_findings(*modules, *calls, options.include_exported).take(k + 1));
        k += 1;
    }
    assert(views(findings@) =~= chain_findings(*modules, *calls, options.include_exported));
    let mut suppressed: Vec<bool> = Vec::new();
    let mut v: usize = 0;
    while v < n
        invariant
            n == calls.n(),
            seqs_view(chains@) == cs,
            cs == chains_of(*modules, *calls, options.include_exported),
            forall|k2: int| 0 <= k2 < chains.len() ==> #[trigger] chains@[k2].len() >= 3 && (forall|i: int| 0 <= i < chains@[k2].len() ==> #[trigger] chains@[k2]@[i] < n),
            v <= n,
            suppressed@ == Seq::new(n as nat, |x: int| suppressed_by(*calls, cs, x)).take(v as int),
        decreases n - v,
    {
        assert forall|k2: int| 0 <= k2 < chains.len() implies #[trigger] chains@[k2]@[0] < calls.n() by {
            assert(chains@[k2].len() >= 3);
        }
        let s = is_suppressed(calls, &chains, v);
        suppressed.push(s);
        assert(suppressed@ =~= Seq::new(n as nat, |x: int| suppressed_by(*calls, cs, x)).take(v + 1));
        v += 1;
    }
    assert(suppressed@ =~= Seq::new(n as nat, |x: int| suppressed_by(*calls, cs, x)));
    let sorted = crate::finding::sort_findings(findings);
    (sorted, suppressed)
}

/// Every chain found from the entry edges is a maximal chain that extends its entry edge.
pub proof fn lemma_all_chains_ok(out: Seq<Seq<usize>>, elig: Seq<bool>, entries: Seq<(usize, usize)>)
    requires
        out_ok(out),
        elig.len() == out.len(),
        forall|i: int| 0 <= i < entries.len() ==> {
            let e = #[trigger] entries[i];
            &&& e.0 < out.len()
            &&& e.1 < out.len()
            &&& !elig[e.0 as int]
            &&& elig[e.1 as int]
        },
    ensures
        forall|k: int| 0 <= k < all_chains(out, elig, entries).len() ==> exists|i: int| 0 <= i < entries.len() && chain_ok(out, elig, seq![entries[i].0, entries[i].1], #[trigger] all_chains(out, elig, entries)[k]),
    decreases entries.len(),
{
    if entries.len() > 0 {
        let e = entries.last();
        let p = all_chains(out, elig, entries.drop_last());
        lemma_all_chains_ok(out, elig, entries.drop_last());
        let path = seq![e.0, e.1];
        assert(entries[entries.len() - 1] == e);
        assert(simple_in(path, out.len() as int)) by {
            assert(e.0 != e.1);
        }
        lemma_chains_from_ok(out, elig, path);
        let r = all_chains(out, elig, entries);
        assert forall|k: int| 0 <= k < r.len() implies exists|i: int| 0 <= i < entries.len() && chain_ok(out, elig, seq![entries[i].0, entries[i].1], #[trigger] r[k]) by {
            if k < p.len() {
                assert(r[k] == p[k]);
                let i = choose|i: int| 0 <= i < entries.drop_last().len() && chain_ok(out, elig, seq![entries.drop_last()[i].0, entries.drop_last()[i].1], p[k]);
                assert(entries[i] == entries.drop_last()[i]);
            } else {
                assert(r[k] == chains_from(out, elig, path)[k - p.len()]);
                assert(chain_ok(out, elig, seq![entries[entries.len() - 1].0, entries[entries.len() - 1].1], r[k]));
            }
        }
    }
}

proof fn lemma_out_lists_ok(calls: CallGraph)
    ensures
        out_lists(calls).len() == calls.n(),
        out_ok(out_lists(calls)),
        forall|u: int, k: int| 0 <= u < calls.n() && 0 <= k < out_lists(calls)[u].len()
            ==> calls.adjacency()[u].contains(#[trigger] out_lists(calls)[u][k]),
{
    let out = out_lists(calls);
    let n = calls.n() as int;
    assert forall|u: int, k: int| 0 <= u < n && 0 <= k < out[u].len() implies calls.adjacency()[u].contains(
        #[trigger] out[u][k],
    ) && out[u][k] < n by {
        let a = calls.adjacency()[u];
        let s = stable_sorted(a, fn_leq(calls.functions@));
        crate::order::lemma_dedup_contains(s);
        crate::order::lemma_sorted_contains(a, fn_leq(calls.functions@));
        assert(s.contains(out[u][k]));
        let j = choose|j: int| 0 <= j < s.len() && s[j] == out[u][k];
        assert(a.contains(s[j]));
        lemma_edges_from_ok(calls.edges@, u, n);
    }
}

proof fn lemma_raw_entries_edges(edges: Seq<TypedEdge>, elig: Seq<bool>, n: int)
    ensures
        forall|i: int| 0 <= i < raw_entries(edges, elig, n).len() ==> {
            let e = #[trigger] raw_entries(edges, elig, n)[i];
            edges_from(edges, e.0 as int, n).contains(e.1)
        },
    decreases edges.len(),
{
    if edges.len() > 0 {
        let d = edges.drop_last();
        lemma_raw_entries_edges(d, elig, n);
        let p = raw_entries(d, elig, n);
        assert forall|i: int| 0 <= i < raw_entries(edges, elig, n).len() implies {
            let e = #[trigger] raw_entries(edges, elig, n)[i];
            edges_from(edges, e.0 as int, n).contains(e.1)
        } by {
            let e = raw_entries(edges, elig, n)[i];
            let last = edges.last();
            if i < p.len() {
                assert(e == p[i]);
                let q = edges_from(d, e.0 as int, n);
                let j = choose|j: int| 0 <= j < q.len() && q[j] == e.1;
                assert(edges_from(edges, e.0 as int, n)[j] == q[j]);
            } else {
                assert(e == (last.from, last.to));
                assert(edges_from(edges, e.0 as int, n).last() == e.1);
            }
        }
    }
}

/// A reported single-use chain is entered by a caller that is not a member,
/// then runs through two or more members: each has exactly one caller on
/// typed edges, is not exported unless exported functions are included, and
/// is called on a typed edge by the function before it; no function occurs
/// twice; and every member that the last one calls is already on the chain.
pub proof fn law_chains_are_single_use(g: ModuleGraph, calls: CallGraph, include_exported: bool, k: int)
    requires
        0 <= k < chains_of(g, calls, include_exported).len(),
    ensures
        ({
            let c = chains_of(g, calls, include_exported)[k];
            &&& c.len() >= 3
            &&& simple_in(c, calls.n() as int)
            &&& !eligible(g, calls, include_exported)[c[0] as int]
            &&& forall|i: int| 1 <= i < c.len() ==> #[trigger] in_degree(calls.edges@, c[i] as int) == 1 && (include_exported
                || !fn_exported(g, calls.functions@[c[i] as int]))
            &&& forall|i: int| 1 <= i < c.len() ==> calls.adjacency()[c[i - 1] as int].contains(#[trigger] c[i])
            &&& forall|w: usize| #[trigger] calls.adjacency()[c.last() as int].contains(w) && eligible(g, calls, include_exported)[w as int]
                ==> c.contains(w)
        }),
{
    let n = calls.n() as int;
    let out = out_lists(calls);
    let elig = eligible(g, calls, include_exported);
    let raw = raw_entries(calls.edges@, elig, n);
    let sorted = stable_sorted(raw, pair_leq(calls.functions@));
    let entries = entry_edges(g, calls, include_exported);
    lemma_out_lists_ok(calls);
    lemma_raw_entries_ok(calls.edges@, elig, n);
    lemma_raw_entries_edges(calls.edges@, elig, n);
    crate::order::lemma_sorted_contains(raw, pair_leq(calls.functions@));
    crate::order::lemma_dedup_contains(sorted);
    assert forall|i: int| 0 <= i < entries.len() implies {
        let e = #[trigger] entries[i];
        &&& e.0 < out.len()
        &&& e.1 < out.len()
        &&& !elig[e.0 as int]
        &&& elig[e.1 as int]
        &&& calls.adjacency()[e.0 as int].contains(e.1)
    } by {
        assert(sorted.contains(entries[i]));
        let a = choose|a: int| 0 <= a < sorted.len() && sorted[a] == entries[i];
        assert(raw.contains(sorted[a]));
        let b = choose|b: int| 0 <= b < raw.len() && raw[b] == sorted[a];
        assert(raw[b] == entries[i]);
    }
    lemma_all_chains_ok(out, elig, entries);
    let c = chains_of(g, calls, include_exported)[k];
    let i0 = choose|i: int| 0 <= i < entries.len() && chain_ok(out, elig, seq![entries[i].0, entries[i].1], c);
    let e = entries[i0];
    let path = seq![e.0, e.1];
    assert(c.take(2) == path);
    assert(c[0] == c.take(2)[0]);
    assert(c[1] == c.take(2)[1]);
    assert forall|i: int| 1 <= i < c.len() implies #[trigger] in_degree(calls.edges@, c[i] as int) == 1 && (
    include_exported || !fn_exported(g, calls.functions@[c[i] as int])) by {
        assert(elig[c[i] as int]);
    }
    assert forall|i: int| 1 <= i < c.len() implies calls.adjacency()[c[i - 1] as int].contains(#[trigger] c[i]) by {
        if i >= 2 {
            let o = out[c[i - 1] as int];
            assert(o.contains(c[i]));
            let j = choose|j: int| 0 <= j < o.len() && #[trigger] o[j] == c[i];
            assert(calls.adjacency()[c[i - 1] as int].contains(out[c[i - 1] as int][j]));
        }
    }
    assert forall|w: usize| #[trigger] calls.adjacency()[c.last() as int].contains(w) && elig[w as int] implies c.contains(w) by {
        let a = calls.adjacency()[c.last() as int];
        crate::order::lemma_sorted_keeps(a, fn_leq(calls.functions@));
        crate::order::lemma_dedup_keeps(stable_sorted(a, fn_leq(calls.functions@)));
        assert(c[c.len() - 1] < n);
        assert(out[c.last() as int] == dedup_adjacent(stable_sorted(a, fn_leq(calls.functions@))));
        let succ = out[c.last() as int];
        assert(succ.contains(w));
        let j = choose|j: int| 0 <= j < succ.len() && succ[j] == w;
        assert(elig[succ[j] as int]);
    }
}

proof fn lemma_raw_entry(edges: Seq<TypedEdge>, elig: Seq<bool>, n: int, u: usize, v: usize)
    requires
        edges_from(edges, u as int, n).contains(v),
        u < n,
        !elig[u as int],
        elig[v as int],
    ensures
        raw_entries(edges, elig, n).contains((u, v)),
    decreases edges.len(),
{
    if edges.len() > 0 {
        let d = edges.drop_last();
        let p = edges_from(d, u as int, n);
        let q = raw_entries(d, elig, n);
        let r = raw_entries(edges, elig, n);
        let last = edges.last();
        let l = edges_from(edges, u as int, n);
        let j = choose|j: int| 0 <= j < l.len() && l[j] == v;
        let cond = last.from < n && last.to < n && !elig[last.from as int] && elig[last.to as int];
        if cond {
            assert(r == q.push((last.from, last.to)));
        } else {
            assert(r == q);
        }
        if last.from == u && last.to < n {
            assert(l == p.push(last.to));
        } else {
            assert(l == p);
        }
        if j < p.len() {
            assert(p[j] == v);
            assert(p.contains(v));
            lemma_raw_entry(d, elig, n, u, v);
            let k = choose|k: int| 0 <= k < q.len() && q[k] == (u, v);
            assert(r[k] == (u, v));
        } else {
            assert(last.from == u && last.to == v);
            assert(r[q.len() as int] == (u, v));
        }
    }
}

proof fn lemma_over_contains(out: Seq<Seq<usize>>, elig: Seq<bool>, path: Seq<usize>, j: int, k: int, c: Seq<usize>)
    requires
        path.len() >= 1,
        0 <= j <= k < out[path.last() as int].len(),
        path.len() < out.len(),
        elig[out[path.last() as int][k] as int],
        !path.contains(out[path.last() as int][k]),
        chains_from(out, elig, path.push(out[path.last() as int][k])).contains(c),
    ensures
        chains_over(out, elig, path, j).contains(c),
    decreases k - j,
{
    let succ = out[path.last() as int];
    let w = succ[j];
    let first = if elig[w as int] && !path.contains(w) {
        chains_from(out, elig, path.push(w))
    } else {
        Seq::empty()
    };
    let rest = chains_over(out, elig, path, j + 1);
    assert(chains_over(out, elig, path, j) == first + rest);
    if j == k {
        let m = choose|m: int| 0 <= m < first.len() && first[m] == c;
        assert((first + rest)[m] == c);
    } else {
        lemma_over_contains(out, elig, path, j + 1, k, c);
        let m = choose|m: int| 0 <= m < rest.len() && rest[m] == c;
        assert((first + rest)[first.len() + m] == c);
    }
}

proof fn lemma_chains_from_complete(out: Seq<Seq<usize>>, elig: Seq<bool>, path: Seq<usize>, c: Seq<usize>)
    requires
        out_ok(out),
        elig.len() == out.len(),
        path.len() >= 1,
        simple_in(path, out.len() as int),
        chain_ok(out, elig, path, c),
    ensures
        chains_from(out, elig, path).contains(c),
    decreases out.len() - path.len(), 1int, 0int,
{
    let a = chains_over(out, elig, path, 0);
    let tail = if !can_extend(out, elig, path) && path.len() >= 3 {
        seq![path]
    } else {
        Seq::empty()
    };
    assert(chains_from(out, elig, path) == a + tail);
    if c.len() == path.len() {
        assert(c =~= path) by {
            assert(c.take(path.len() as int) =~= c);
        }
        assert(tail == seq![path]);
        assert((a + tail)[a.len() as int] == c);
    } else {
        let pl = path.len() as int;
        let w = c[pl];
        assert(out[c[pl - 1] as int].contains(c[pl]));
        assert(c[pl - 1] == c.take(pl)[pl - 1]);
        assert(c[pl - 1] == path.last());
        let succ = out[path.last() as int];
        let k = choose|k: int| 0 <= k < succ.len() && succ[k] == w;
        assert(elig[w as int]);
        assert(!path.contains(w)) by {
            if path.contains(w) {
                let i = choose|i: int| 0 <= i < path.len() && path[i] == w;
                assert(c[i] == c.take(pl)[i]);
                assert(c[i] == c[pl]);
            }
        }
        lemma_simple_len(c, out.len() as int);
        let q = path.push(w);
        assert(c.take(q.len() as int) =~= q) by {
            assert forall|i: int| 0 <= i < q.len() implies c.take(q.len() as int)[i] == q[i] by {
                if i < pl {
                    assert(c[i] == c.take(pl)[i]);
                }
            }
        }
        assert(simple_in(q, out.len() as int)) by {
            assert forall|i: int, j: int| 0 <= i < q.len() && 0 <= j < q.len() && i != j implies q[i] != q[j] by {
                assert(q[i] == c.take(q.len() as int)[i]);
                assert(q[j] == c.take(q.len() as int)[j]);
            }
            assert forall|i: int| 0 <= i < q.len() implies #[trigger] q[i] < out.len() by {
                assert(q[i] == c.take(q.len() as int)[i]);
            }
        }
        assert(chain_ok(out, elig, q, c));
        lemma_chains_from_complete(out, elig, q, c);
        lemma_over_contains(out, elig, path, 0, k, c);
        let m = choose|m: int| 0 <= m < a.len() && a[m] == c;
        assert((a + tail)[m] == c);
    }
}

proof fn lemma_all_chains_complete(out: Seq<Seq<usize>>, elig: Seq<bool>, entries: Seq<(usize, usize)>, i: int, c: Seq<usize>)
    requires
        0 <= i < entries.len(),
        chains_from(out, elig, seq![entries[i].0, entries[i].1]).contains(c),
    ensures
        all_chains(out, elig, entries).contains(c),
    decreases entries.len(),
{
    let e = entries.last();
    let p = all_chains(out, elig, entries.drop_last());
    let w = chains_from(out, elig, seq![e.0, e.1]);
    assert(all_chains(out, elig, entries) == p + w);
    if i < entries.len() - 1 {
        assert(entries.drop_last()[i] == entries[i]);
        lemma_all_chains_complete(out, elig, entries.drop_last(), i, c);
        let m = choose|m: int| 0 <= m < p.len() && p[m] == c;
        assert((p + w)[m] == c);
    } else {
        let m = choose|m: int| 0 <= m < w.len() && w[m] == c;
        assert((p + w)[p.len() + m] == c);
    }
}

/// Every maximal single-use chain is reported: a caller that is not a
/// member, calling on a typed edge a run of two or more members, each called
/// by the one before it, with no function twice, and whose last member calls
/// no member that is not already on it.
pub proof fn law_maximal_chains_reported(g: ModuleGraph, calls: CallGraph, include_exported: bool, c: Seq<usize>)
    requires
        c.len() >= 3,
        simple_in(c, calls.n() as int),
        !eligible(g, calls, include_exported)[c[0] as int],
        forall|i: int| 1 <= i < c.len() ==> #[trigger] eligible(g, calls, include_exported)[c[i] as int],
        forall|i: int| 1 <= i < c.len() ==> calls.adjacency()[c[i - 1] as int].contains(#[trigger] c[i]),
        forall|w: usize| #[trigger] calls.adjacency()[c.last() as int].contains(w) && eligible(g, calls, include_exported)[w as int]
            ==> c.contains(w),
    ensures
        chains_of(g, calls, include_exported).contains(c),
{
    let n = calls.n() as int;
    let out = out_lists(calls);
    let elig = eligible(g, calls, include_exported);
    let leq = fn_leq(calls.functions@);
    lemma_out_lists_ok(calls);
    assert forall|u: int, w: usize| 0 <= u < n && #[trigger] calls.adjacency()[u].contains(w) implies out[u].contains(w) by {
        crate::order::lemma_sorted_keeps(calls.adjacency()[u], leq);
        crate::order::lemma_dedup_keeps(stable_sorted(calls.adjacency()[u], leq));
    }
    let path = seq![c[0], c[1]];
    assert(c.take(2) =~= path);
    assert(simple_in(path, n)) by {
        assert(c[0] != c[1]);
    }
    assert forall|i: int| path.len() <= i < c.len() implies out[c[i - 1] as int].contains(#[trigger] c[i]) by {
        assert(calls.adjacency()[c[i - 1] as int].contains(c[i]));
    }
    assert(!can_extend(out, elig, c)) by {
        let succ = out[c.last() as int];
        assert(c[c.len() - 1] < n);
        assert forall|k: int| 0 <= k < succ.len() && elig[#[trigger] succ[k] as int] implies c.contains(succ[k]) by {
            assert(calls.adjacency()[c.last() as int].contains(succ[k]));
        }
    }
    assert(chain_ok(out, elig, path, c));
    lemma_chains_from_complete(out, elig, path, c);
    // The entry edge (c[0], c[1]) is one of the entry edges.
    let raw = raw_entries(calls.edges@, elig, n);
    assert(calls.adjacency()[c[0] as int] == edges_from(calls.edges@, c[0] as int, n));
    assert(calls.adjacency()[c[0] as int].contains(c[1]));
    lemma_raw_entry(calls.edges@, elig, n, c[0], c[1]);
    crate::order::lemma_sorted_keeps(raw, pair_leq(calls.functions@));
    crate::order::lemma_dedup_keeps(stable_sorted(raw, pair_leq(calls.functions@)));
    let entries = entry_edges(g, calls, include_exported);
    assert(entries.contains((c[0], c[1])));
    let i = choose|i: int| 0 <= i < entries.len() && entries[i] == (c[0], c[1]);
    assert(seq![entries[i].0, entries[i].1] == path);
    lemma_all_chains_complete(out, elig, entries, i, c);
}

} // verus!
