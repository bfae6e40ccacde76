//! False sharing: an export whose consumers all sit in one consumer group.

use vstd::prelude::*;

use crate::finding::{node, report_order, views, Evidence, Finding, FindingView, Location, NodeView, PathNode, Shape};
use crate::graph::{consumer_keys_unique, group_dir, ModuleGraph};
use crate::order::{dedup_adjacent, stable_sort, stable_sorted, KeyOrder};
use crate::parse::ParsedExport;
use crate::program::{components, display_of, display_path, same_path};
use crate::text::{compare_strings, lex_order, Rel};

verus! {

/// Exports ordered by span start, then name.
pub open spec fn export_leq(exports: Seq<ParsedExport>) -> spec_fn(usize, usize) -> bool {
    |a: usize, b: usize|
        {
            let (x, y) = (exports[a as int], exports[b as int]);
            x.span_start < y.span_start || (x.span_start == y.span_start && lex_order(x.name@, y.name@)
                != Rel::Greater)
        }
}

/// Export indices, ordered by span start, then name.
pub struct ByExport<'a> {
    pub exports: &'a Vec<ParsedExport>,
}

impl<'a> KeyOrder<usize> for ByExport<'a> {
    open spec fn admits(&self, x: usize) -> bool {
        x < self.exports.len()
    }

    open spec fn leq(&self) -> spec_fn(usize, usize) -> bool {
        export_leq(self.exports@)
    }

    fn le(&self, a: &usize, b: &usize) -> (r: bool) {
        let x = &self.exports[*a];
        let y = &self.exports[*b];
        if x.span_start < y.span_start {
            true
        } else if x.span_start > y.span_start {
            false
        } else {
            match compare_strings(x.name.as_str(), y.name.as_str()) {
                Rel::Greater => false,
                _ => true,
            }
        }
    }
}

/// Strings in character order.
pub open spec fn text_leq() -> spec_fn(String, String) -> bool {
    |a: String, b: String| lex_order(a@, b@) != Rel::Greater
}

/// Strings in character order.
pub struct ByText;

impl KeyOrder<String> for ByText {
    open spec fn admits(&self, x: String) -> bool {
        true
    }

    open spec fn leq(&self) -> spec_fn(String, String) -> bool {
        text_leq()
    }

    fn le(&self, a: &String, b: &String) -> (r: bool) {
        match compare_strings(a.as_str(), b.as_str()) {
            Rel::Greater => false,
            _ => true,
        }
    }
}

/// The importers recorded for export `name` of module `m`, if any.
pub open spec fn consumers_of(g: ModuleGraph, m: int, name: Seq<char>) -> Option<Seq<usize>> {
    if exists|c: int| 0 <= c < g.consumers.len() && #[trigger] g.consumers@[c].exporter == m && g.consumers@[c].name@ == name {
        let c = choose|c: int| 0 <= c < g.consumers.len() && #[trigger] g.consumers@[c].exporter == m && g.consumers@[c].name@ == name;
        Some(g.consumers@[c].importers@)
    } else {
        None
    }
}

/// All importers sit in one consumer group.
pub open spec fn one_group(g: ModuleGraph, importers: Seq<usize>) -> bool {
    forall|i: int, j: int|
        0 <= i < importers.len() && 0 <= j < importers.len() ==> components(
            group_dir(g.root@, g.modules@[#[trigger] importers[i] as int].abs@),
        ) == components(group_dir(g.root@, g.modules@[#[trigger] importers[j] as int].abs@))
}

/// The importers' display paths, in character order, each once.
pub open spec fn importer_labels(g: ModuleGraph, importers: Seq<usize>) -> Seq<Seq<char>> {
    dedup_adjacent(
        stable_sorted(
            importers.map_values(|i: usize| display_of(g.root@, g.modules@[i as int].abs@)),
            chars_leq(),
        ),
    )
}

/// Character sequences in character order.
pub open spec fn chars_leq() -> spec_fn(Seq<char>, Seq<char>) -> bool {
    |a: Seq<char>, b: Seq<char>| lex_order(a, b) != Rel::Greater
}

/// The finding for an export shared within one consumer group.
pub open spec fn sharing_finding(g: ModuleGraph, m: int, e: ParsedExport, importers: Seq<usize>) -> FindingView {
    let labels = importer_labels(g, importers);
    let first = NodeView { label: labels[0], annotation: Some("one consumer group"@), is_subject: false };
    let rest = labels.skip(1).map_values(|l: Seq<char>| node(l, false));
    FindingView {
        shape: Shape::FalseSharing,
        file: g.modules@[m].display@,
        line: e.line,
        span_start: e.span_start,
        subject: e.display@,
        nodes: seq![first] + rest + seq![node(e.display@, true)],
    }
}

/// The finding for export `e` of module `m`, if it is falsely shared.
pub open spec fn export_finding(g: ModuleGraph, m: int, e: ParsedExport) -> Option<FindingView> {
    match consumers_of(g, m, e.name@) {
        Some(importers) => if importers.len() > 0 && one_group(g, importers) {
            Some(sharing_finding(g, m, e, importers))
        } else {
            None
        },
        None => None,
    }
}

/// The exports of module `m` in (span start, name) order.
pub open spec fn export_order(g: ModuleGraph, m: int) -> Seq<usize> {
    let ex = g.modules@[m].exports@;
    stable_sorted(Seq::new(ex.len(), |i: int| i as usize), export_leq(ex))
}

/// Findings for the exports `order[..k]` of module `m`.
pub open spec fn module_findings(g: ModuleGraph, m: int, order: Seq<usize>) -> Seq<FindingView>
    decreases order.len(),
{
    if order.len() == 0 {
        Seq::empty()
    } else {
        let p = module_findings(g, m, order.drop_last());
        match export_finding(g, m, g.modules@[m].exports@[order.last() as int]) {
            Some(f) => p.push(f),
            None => p,
        }
    }
}

/// Findings for the modules `mods`, in order.
pub open spec fn sharing_findings(g: ModuleGraph, mods: Seq<usize>) -> Seq<FindingView>
    decreases mods.len(),
{
    if mods.len() == 0 {
        Seq::empty()
    } else {
        sharing_findings(g, mods.drop_last()) + module_findings(g, mods.last() as int, export_order(g, mods.last() as int))
    }
}

fn lookup_consumers(graph: &ModuleGraph, m: usize, name: &String) -> (r: Option<usize>)
    requires
        consumer_keys_unique(*graph),
    ensures
        match consumers_of(*graph, m as int, name@) {
            Some(imps) => r is Some && r->0 < graph.consumers.len() && graph.consumers@[r->0 as int].importers@ == imps,
            None => r is None,
        },
{
    let mut c: usize = 0;
    while c < graph.consumers.len()
        invariant
            consumer_keys_unique(*graph),
            c <= graph.consumers.len(),
            forall|k: int| 0 <= k < c ==> !(#[trigger] graph.consumers@[k].exporter == m && graph.consumers@[k].name@ == name@),
        decreases graph.consumers.len() - c,
    {
        if graph.consumers[c].exporter == m && graph.consumers[c].name == *name {
            assert(graph.consumers@[c as int].exporter == m && graph.consumers@[c as int].name@ == name@);
            proof {
                let c2 = choose|c2: int| 0 <= c2 < graph.consumers.len() && #[trigger] graph.consumers@[c2].exporter == m as int && graph.consumers@[c2].name@ == name@;
                assert(graph.consumers@[c2].exporter == graph.consumers@[c as int].exporter);
                assert(c2 == c);
            }
            return Some(c);
        }
        c += 1;
    }
    None
}

fn importers_in_one_group(graph: &ModuleGraph, importers: &Vec<usize>) -> (r: bool)
    requires
        importers.len() > 0,
        forall|k: int| 0 <= k < importers.len() ==> #[trigger] importers@[k] < graph.n(),
    ensures
        r == one_group(*graph, importers@),
{
    let first = graph.consumer_group_dir(graph.modules[importers[0]].abs.as_str());
    let mut i: usize = 1;
    while i < importers.len()
        invariant
            importers.len() > 0,
            forall|k: int| 0 <= k < importers.len() ==> #[trigger] importers@[k] < graph.n(),
            first@ == group_dir(graph.root@, graph.modules@[importers@[0] as int].abs@),
            1 <= i <= importers.len(),
            forall|k: int| 0 <= k < i ==> components(group_dir(graph.root@, graph.modules@[#[trigger] importers@[k] as int].abs@)) == components(first@),
        decreases importers.len() - i,
    {
        let d = graph.consumer_group_dir(graph.modules[importers[i]].abs.as_str());
        if !same_path(d.as_str(), first.as_str()) {
            proof {
                assert(!one_group(*graph, importers@)) by {
                    assert(components(group_dir(graph.root@, graph.modules@[importers@[i as int] as int].abs@)) != components(group_dir(graph.root@, graph.modules@[importers@[0] as int].abs@)));
                }
            }
            return false;
        }
        i += 1;
    }
    true
}

fn dedup_strings(v: Vec<String>) -> (r: Vec<String>)
    ensures
        r@.map_values(|s: String| s@) == dedup_adjacent(v@.map_values(|s: String| s@)),
{
    let ghost vv = v@.map_values(|s: String| s@);
    let mut out: Vec<String> = Vec::new();
    let mut i: usize = 0;
    assert(vv.take(0) =~= Seq::<Seq<char>>::empty());
    while i < v.len()
        invariant
            vv == v@.map_values(|s: String| s@),
            i <= v.len(),
            out@.map_values(|s: String| s@) == dedup_adjacent(vv.take(i as int)),
        decreases v.len() - i,
    {
        let ghost t = vv.take(i + 1);
        assert(t.drop_last() =~= vv.take(i as int));
        assert(t.last() == v@[i as int]@);
        let ghost before = out@.map_values(|s: String| s@);
        if i == 0 {
            out.push(v[i].clone());
            assert(out@.map_values(|s: String| s@) =~= t);
        } else {
            proof {
                crate::order::lemma_dedup_contains(vv.take(i as int));
                lemma_dedup_last_strings(vv.take(i as int));
            }
            assert(t[t.len() - 2] == v@[i - 1]@);
            if v[i - 1] != v[i] {
                out.push(v[i].clone());
                assert(out@.map_values(|s: String| s@) =~= before.push(v@[i as int]@));
            }
        }
        i += 1;
    }
    assert(vv.take(v.len() as int) =~= vv);
    out
}

proof fn lemma_dedup_last_strings(s: Seq<Seq<char>>)
    requires
        s.len() > 0,
    ensures
        dedup_adjacent(s).len() > 0,
        dedup_adjacent(s).last() == s.last(),
    decreases s.len(),
{
    if s.len() > 1 {
        lemma_dedup_last_strings(s.drop_last());
    }
}

fn labels_of(graph: &ModuleGraph, importers: &Vec<usize>) -> (r: Vec<String>)
    requires
        forall|k: int| 0 <= k < importers.len() ==> #[trigger] importers@[k] < graph.n(),
    ensures
        r@.map_values(|s: String| s@) == importer_labels(*graph, importers@),
{
    let mut raw: Vec<String> = Vec::new();
    let mut i: usize = 0;
    let ghost target = importers@.map_values(|i: usize| display_of(graph.root@, graph.modules@[i as int].abs@));
    while i < importers.len()
        invariant
            forall|k: int| 0 <= k < importers.len() ==> #[trigger] importers@[k] < graph.n(),
            target == importers@.map_values(|i: usize| display_of(graph.root@, graph.modules@[i as int].abs@)),
            i <= importers.len(),
            raw@.map_values(|s: String| s@) == target.take(i as int),
        decreases importers.len() - i,
    {
        let d = display_path(graph.root.as_str(), graph.modules[importers[i]].abs.as_str());
        let ghost before = raw@.map_values(|s: String| s@);
        raw.push(d);
        assert(raw@.map_values(|s: String| s@) =~= before.push(d@));
        assert(target.take(i + 1) =~= target.take(i as int).push(target[i as int]));
        i += 1;
    }
    assert(target.take(importers.len() as int) =~= target);
    let ghost rv = raw@;
    let sorted = stable_sort(&ByText, raw);
    proof {
        crate::order::lemma_stable_sorted_map(rv, text_leq(), |s: String| s@, chars_leq());
    }
    dedup_strings(sorted)
}

fn export_finding_exec(graph: &ModuleGraph, m: usize, e: &ParsedExport) -> (r: Option<Finding>)
    requires
        graph.wf(),
        m < graph.n(),
    ensures
        match export_finding(*graph, m as int, *e) {
            Some(f) => r is Some && r->0@ == f,
            None => r is None,
        },
{
    let c = match lookup_consumers(graph, m, &e.name) {
        Some(c) => c,
        None => {
            return None;
        },
    };
    let importers = &graph.consumers[c].importers;
    assert forall|k: int| 0 <= k < importers.len() implies #[trigger] importers@[k] < graph.n() by {
        assert(graph.consumers@[c as int].importers@[k] < graph.n());
    }
    if importers.len() == 0 {
        return None;
    }
    if !importers_in_one_group(graph, importers) {
        return None;
    }
    let labels = labels_of(graph, importers);
    let ghost lv = labels@.map_values(|s: String| s@);
    proof {
        crate::order::lemma_sorted_contains(importers@.map_values(|i: usize| display_of(graph.root@, graph.modules@[i as int].abs@)), chars_leq());
        crate::order::lemma_stable_sorted_len(importers@.map_values(|i: usize| display_of(graph.root@, graph.modules@[i as int].abs@)), chars_leq());
        lemma_dedup_last_strings(stable_sorted(importers@.map_values(|i: usize| display_of(graph.root@, graph.modules@[i as int].abs@)), chars_leq()));
    }
    assert(labels.len() > 0);
    let mut nodes: Vec<PathNode> = Vec::new();
    let mut first = String::new();
    crate::text::append_str(&mut first, "one consumer group");
    nodes.push(PathNode { label: labels[0].clone(), annotation: Some(first), is_subject: false });
    let ghost expected = sharing_finding(*graph, m as int, *e, importers@);
    let ghost rest = lv.skip(1).map_values(|l: Seq<char>| node(l, false));
    let mut i: usize = 1;
    assert(nodes@.map_values(|n: PathNode| n@) =~= seq![expected.nodes[0]] + rest.take(0));
    while i < labels.len()
        invariant
            lv == labels@.map_values(|s: String| s@),
            rest == lv.skip(1).map_values(|l: Seq<char>| node(l, false)),
            1 <= i <= labels.len(),
            expected == sharing_finding(*graph, m as int, *e, importers@),
            nodes@.map_values(|n: PathNode| n@) == seq![expected.nodes[0]] + rest.take(i - 1),
        decreases labels.len() - i,
    {
        let ghost before = nodes@.map_values(|n: PathNode| n@);
        let nd = PathNode { label: labels[i].clone(), annotation: None, is_subject: false };
        nodes.push(nd);
        assert(rest[i - 1] == node(lv[i as int], false));
        assert(nodes@.map_values(|n: PathNode| n@) =~= before.push(nd@));
        assert(rest.take(i as int) =~= rest.take(i - 1).push(rest[i - 1]));
        i += 1;
    }
    assert(rest.take(labels.len() - 1) =~= rest);
    let ghost mid = nodes@.map_values(|n: PathNode| n@);
    let last = PathNode { label: e.display.clone(), annotation: None, is_subject: true };
    nodes.push(last);
    assert(nodes@.map_values(|n: PathNode| n@) =~= mid.push(last@));
    let f = Finding {
        shape: Shape::FalseSharing,
        location: Location { file: graph.modules[m].display.clone(), line: e.line, span_start: e.span_start },
        subject: e.display.clone(),
        evidence: Evidence::Path { nodes },
    };
    proof {
        reveal_strlit("one consumer group");
        assert(f@.nodes =~= expected.nodes);
    }
    Some(f)
}

fn export_indices(n: usize) -> (r: Vec<usize>)
    ensures
        r@ == Seq::new(n as nat, |i: int| i as usize),
{
    let mut r: Vec<usize> = Vec::new();
    let mut i: usize = 0;
    while i < n
        invariant
            i <= n,
            r@ == Seq::new(i as nat, |k: int| k as usize),
        decreases n - i,
    {
        r.push(i);
        assert(r@ =~= Seq::new((i + 1) as nat, |k: int| k as usize));
        i += 1;
    }
    r
}

/// An export with exactly one consumer group.
pub fn detect(graph: &ModuleGraph) -> (r: Vec<Finding>)
    requires
        graph.wf(),
    ensures
        views(r@) == report_order(sharing_findings(*graph, graph.display_order())),
{
    let order = graph.modules_by_display();
    proof {
        crate::graph::lemma_display_order(*graph);
    }
    let mut findings: Vec<Finding> = Vec::new();
    let mut i: usize = 0;
    assert(order@.take(0) =~= Seq::<usize>::empty());
    while i < order.len()
        invariant
            graph.wf(),
            order@ == graph.display_order(),
            forall|k: int| 0 <= k < order.len() ==> #[trigger] order@[k] < graph.n(),
            i <= order.len(),
            views(findings@) == sharing_findings(*graph, order@.take(i as int)),
        decreases order.len() - i,
    {
        let m = order[i];
        let ex = &graph.modules[m].exports;
        let idx = export_indices(ex.len());
        let ctx = ByExport { exports: ex };
        let sorted = stable_sort(&ctx, idx);
        proof {
            crate::order::lemma_sorted_contains(Seq::new(ex.len() as nat, |i: int| i as usize), export_leq(ex@));
        }
        assert(sorted@ == export_order(*graph, m as int));
        let ghost base = views(findings@);
        let mut j: usize = 0;
        assert(sorted@.take(0) =~= Seq::<usize>::empty());
        while j < sorted.len()
            invariant
                graph.wf(),
                m < graph.n(),
                ex@ == graph.modules@[m as int].exports@,
                sorted@ == export_order(*graph, m as int),
                forall|k: int| 0 <= k < sorted.len() ==> Seq::new(ex.len() as nat, |i: int| i as usize).contains(#[trigger] sorted@[k]),
                j <= sorted.len(),
                views(findings@) == base + module_findings(*graph, m as int, sorted@.take(j as int)),
            decreases sorted.len() - j,
        {
            let k = sorted[j];
            assert(Seq::new(ex.len() as nat, |i: int| i as usize).contains(k));
            assert(k < ex.len());
            assert(sorted@.take(j + 1).drop_last() =~= sorted@.take(j as int));
            assert(sorted@.take(j + 1).last() == k);
            match export_finding_exec(graph, m, &ex[k]) {
                Some(f) => {
                    let ghost before = views(findings@);
                    findings.push(f);
                    assert(views(findings@) =~= before.push(f@));
                },
                None => {},
            }
            assert(views(findings@) =~= base + module_findings(*graph, m as int, sorted@.take(j + 1)));
            j += 1;
        }
        assert(sorted@.take(sorted.len() as int) =~= sorted@);
        assert(order@.take(i + 1).drop_last() =~= order@.take(i as int));
        assert(order@.take(i + 1).last() == m);
        assert(views(findings@) =~= sharing_findings(*graph, order@.take(i + 1)));
        i += 1;
    }
    assert(order@.take(order.len() as int) =~= order@);
    crate::finding::sort_findings(findings)
}

/// Export `k` of module `m` is falsely shared and `f` is its finding.
pub open spec fn shared_export(g: ModuleGraph, m: int, k: int, f: FindingView) -> bool {
    export_finding(g, m, g.modules@[m].exports@[k]) == Some(f)
}

proof fn lemma_module_findings(g: ModuleGraph, m: int, order: Seq<usize>)
    ensures
        forall|f: FindingView| #[trigger] module_findings(g, m, order).contains(f) <==> exists|k: usize|
            order.contains(k) && #[trigger] shared_export(g, m, k as int, f),
    decreases order.len(),
{
    if order.len() > 0 {
        let p = module_findings(g, m, order.drop_last());
        let r = module_findings(g, m, order);
        let last = order.last();
        lemma_module_findings(g, m, order.drop_last());
        assert forall|f: FindingView| #[trigger] r.contains(f) <==> exists|k: usize| order.contains(k) && #[trigger] shared_export(g, m, k as int, f) by {
            match export_finding(g, m, g.modules@[m].exports@[last as int]) {
                Some(x) => assert(r == p.push(x)),
                None => assert(r == p),
            }
            if r.contains(f) {
                let n = choose|n: int| 0 <= n < r.len() && r[n] == f;
                if n < p.len() {
                    assert(p[n] == f);
                    assert(p.contains(f));
                    let k = choose|k: usize| order.drop_last().contains(k) && #[trigger] shared_export(g, m, k as int, f);
                    let j = choose|j: int| 0 <= j < order.len() - 1 && order.drop_last()[j] == k;
                    assert(order[j] == k);
                } else {
                    assert(order[order.len() - 1] == last);
                    assert(shared_export(g, m, last as int, f));
                }
            }
            if exists|k: usize| order.contains(k) && #[trigger] shared_export(g, m, k as int, f) {
                let k = choose|k: usize| order.contains(k) && #[trigger] shared_export(g, m, k as int, f);
                let j = choose|j: int| 0 <= j < order.len() && order[j] == k;
                if j < order.len() - 1 {
                    assert(order.drop_last()[j] == k);
                    assert(p.contains(f));
                    let n = choose|n: int| 0 <= n < p.len() && p[n] == f;
                    assert(r[n] == f);
                } else {
                    assert(r[p.len() as int] == f);
                }
            }
        }
    }
}

proof fn lemma_sharing_findings(g: ModuleGraph, mods: Seq<usize>)
    ensures
        forall|f: FindingView| #[trigger] sharing_findings(g, mods).contains(f) <==> exists|m: usize|
            mods.contains(m) && #[trigger] module_findings(g, m as int, export_order(g, m as int)).contains(f),
    decreases mods.len(),
{
    if mods.len() > 0 {
        let q = sharing_findings(g, mods.drop_last());
        let last = mods.last();
        let w = module_findings(g, last as int, export_order(g, last as int));
        let r = sharing_findings(g, mods);
        lemma_sharing_findings(g, mods.drop_last());
        assert(r == q + w);
        assert forall|f: FindingView| #[trigger] r.contains(f) <==> exists|m: usize|
            mods.contains(m) && #[trigger] module_findings(g, m as int, export_order(g, m as int)).contains(f) by {
            if r.contains(f) {
                let n = choose|n: int| 0 <= n < r.len() && r[n] == f;
                if n < q.len() {
                    assert(q[n] == f);
                    assert(q.contains(f));
                    let m = choose|m: usize| mods.drop_last().contains(m) && #[trigger] module_findings(g, m as int, export_order(g, m as int)).contains(f);
                    let j = choose|j: int| 0 <= j < mods.len() - 1 && mods.drop_last()[j] == m;
                    assert(mods[j] == m);
                } else {
                    assert(w[n - q.len()] == f);
                    assert(w.contains(f));
                    assert(mods[mods.len() - 1] == last);
                }
            }
            if exists|m: usize| mods.contains(m) && #[trigger] module_findings(g, m as int, export_order(g, m as int)).contains(f) {
                let m = choose|m: usize| mods.contains(m) && #[trigger] module_findings(g, m as int, export_order(g, m as int)).contains(f);
                let j = choose|j: int| 0 <= j < mods.len() && mods[j] == m;
                if j < mods.len() - 1 {
                    assert(mods.drop_last()[j] == m);
                    assert(q.contains(f));
                    let n = choose|n: int| 0 <= n < q.len() && q[n] == f;
                    assert(r[n] == f);
                } else {
                    let n = choose|n: int| 0 <= n < w.len() && w[n] == f;
                    assert(r[q.len() + n] == f);
                }
            }
        }
    }
}

proof fn lemma_index_order(all: Seq<usize>, n: nat, leq: spec_fn(usize, usize) -> bool)
    requires
        n <= usize::MAX,
        all == Seq::new(n, |i: int| i as usize),
    ensures
        forall|x: usize| #[trigger] stable_sorted(all, leq).contains(x) <==> x < n,
{
    crate::order::lemma_sorted_keeps(all, leq);
    crate::order::lemma_sorted_contains(all, leq);
    let o = stable_sorted(all, leq);
    assert forall|x: usize| #[trigger] o.contains(x) <==> x < n by {
        if o.contains(x) {
            let k = choose|k: int| 0 <= k < o.len() && o[k] == x;
            assert(all.contains(o[k]));
        }
        if x < n {
            assert(all[x as int] == x);
            assert(all.contains(x));
        }
    }
}

/// An export is reported exactly when its recorded consumers are not empty
/// and all sit in one consumer group; each module and each of its exports
/// is looked at.
pub proof fn law_false_sharing_exports(g: ModuleGraph)
    requires
        g.wf(),
        g.n() <= usize::MAX,
        forall|m: int| 0 <= m < g.n() ==> (#[trigger] g.modules@[m]).exports@.len() <= usize::MAX,
    ensures
        forall|f: FindingView| #[trigger] sharing_findings(g, g.display_order()).contains(f) <==> exists|m: usize, k: usize|
            m < g.n() && k < g.modules@[m as int].exports@.len() && #[trigger] shared_export(g, m as int, k as int, f),
        forall|m: int, e: ParsedExport| #[trigger] export_finding(g, m, e) is Some <==> (consumers_of(g, m, e.name@) is Some
            && consumers_of(g, m, e.name@)->Some_0.len() > 0 && one_group(g, consumers_of(g, m, e.name@)->Some_0)),
{
    lemma_index_order(Seq::new(g.n(), |i: int| i as usize), g.n(), crate::graph::path_index_leq(g.displays()));
    lemma_sharing_findings(g, g.display_order());
    assert forall|f: FindingView| #[trigger] sharing_findings(g, g.display_order()).contains(f) <==> exists|m: usize, k: usize|
        m < g.n() && k < g.modules@[m as int].exports@.len() && #[trigger] shared_export(g, m as int, k as int, f) by {
        if sharing_findings(g, g.display_order()).contains(f) {
            let m = choose|m: usize| g.display_order().contains(m) && #[trigger] module_findings(g, m as int, export_order(g, m as int)).contains(f);
            let ex = g.modules@[m as int].exports@;
            lemma_index_order(Seq::new(ex.len(), |i: int| i as usize), ex.len(), export_leq(ex));
            lemma_module_findings(g, m as int, export_order(g, m as int));
            let k = choose|k: usize| export_order(g, m as int).contains(k) && #[trigger] shared_export(g, m as int, k as int, f);
            assert(k < ex.len());
        }
        if exists|m: usize, k: usize| m < g.n() && k < g.modules@[m as int].exports@.len() && #[trigger] shared_export(g, m as int, k as int, f) {
            let (m, k) = choose|m: usize, k: usize| m < g.n() && k < g.modules@[m as int].exports@.len() && #[trigger] shared_export(g, m as int, k as int, f);
            let ex = g.modules@[m as int].exports@;
            lemma_index_order(Seq::new(ex.len(), |i: int| i as usize), ex.len(), export_leq(ex));
            lemma_module_findings(g, m as int, export_order(g, m as int));
            assert(export_order(g, m as int).contains(k));
            assert(module_findings(g, m as int, export_order(g, m as int)).contains(f));
            assert(g.display_order().contains(m));
        }
    }
}

/// An export is reported as falsely shared exactly when its row of the
/// consumers table lists importers and every two of them, whichever they
/// are, sit in the same consumer group directory; the finding is then made
/// of that export and those importers.
pub proof fn law_false_sharing_one_group(g: ModuleGraph)
    requires
        g.wf(),
        g.n() <= usize::MAX,
        forall|m: int| 0 <= m < g.n() ==> (#[trigger] g.modules@[m]).exports@.len() <= usize::MAX,
    ensures
        forall|f: FindingView| #[trigger] sharing_findings(g, g.display_order()).contains(f) <==> exists|m: usize, k: usize, c: int|
            {
                &&& m < g.n()
                &&& k < g.modules@[m as int].exports@.len()
                &&& 0 <= c < g.consumers.len()
                &&& g.consumers@[c].exporter == m
                &&& g.consumers@[c].name@ == g.modules@[m as int].exports@[k as int].name@
                &&& g.consumers@[c].importers.len() > 0
                &&& forall|i: int, j: int|
                    0 <= i < g.consumers@[c].importers.len() && 0 <= j < g.consumers@[c].importers.len() ==> components(
                        group_dir(g.root@, g.modules@[g.consumers@[c].importers@[i] as int].abs@),
                    ) == components(group_dir(g.root@, g.modules@[g.consumers@[c].importers@[j] as int].abs@))
                &&& f == #[trigger] sharing_finding(g, m as int, g.modules@[m as int].exports@[k as int], g.consumers@[c].importers@)
            },
{
    law_false_sharing_exports(g);
    let fs = sharing_findings(g, g.display_order());
    assert forall|f: FindingView| #[trigger] fs.contains(f) <==> exists|m: usize, k: usize, c: int|
        {
            &&& m < g.n()
            &&& k < g.modules@[m as int].exports@.len()
            &&& 0 <= c < g.consumers.len()
            &&& g.consumers@[c].exporter == m
            &&& g.consumers@[c].name@ == g.modules@[m as int].exports@[k as int].name@
            &&& g.consumers@[c].importers.len() > 0
            &&& forall|i: int, j: int|
                0 <= i < g.consumers@[c].importers.len() && 0 <= j < g.consumers@[c].importers.len() ==> components(
                    group_dir(g.root@, g.modules@[g.consumers@[c].importers@[i] as int].abs@),
                ) == components(group_dir(g.root@, g.modules@[g.consumers@[c].importers@[j] as int].abs@))
            &&& f == #[trigger] sharing_finding(g, m as int, g.modules@[m as int].exports@[k as int], g.consumers@[c].importers@)
        } by {
        if fs.contains(f) {
            let (m, k) = choose|m: usize, k: usize| m < g.n() && k < g.modules@[m as int].exports@.len() && #[trigger] shared_export(g, m as int, k as int, f);
            let e = g.modules@[m as int].exports@[k as int];
            let mi = m as int;
            assert(consumers_of(g, mi, e.name@) is Some);
            let c = choose|c: int| 0 <= c < g.consumers.len() && #[trigger] g.consumers@[c].exporter == mi && g.consumers@[c].name@ == e.name@;
            let imps = g.consumers@[c].importers@;
            assert(consumers_of(g, mi, e.name@) == Some(imps));
            assert(one_group(g, imps));
            assert forall|i: int, j: int| 0 <= i < imps.len() && 0 <= j < imps.len() implies components(
                group_dir(g.root@, g.modules@[imps[i] as int].abs@),
            ) == components(group_dir(g.root@, g.modules@[imps[j] as int].abs@)) by {
                assert(imps[i] == imps[i] && imps[j] == imps[j]);
            }
            assert(f == sharing_finding(g, mi, e, imps));
        }
        if exists|m: usize, k: usize, c: int|
            {
                &&& m < g.n()
                &&& k < g.modules@[m as int].exports@.len()
                &&& 0 <= c < g.consumers.len()
                &&& g.consumers@[c].exporter == m
                &&& g.consumers@[c].name@ == g.modules@[m as int].exports@[k as int].name@
                &&& g.consumers@[c].importers.len() > 0
                &&& forall|i: int, j: int|
                    0 <= i < g.consumers@[c].importers.len() && 0 <= j < g.consumers@[c].importers.len() ==> components(
                        group_dir(g.root@, g.modules@[g.consumers@[c].importers@[i] as int].abs@),
                    ) == components(group_dir(g.root@, g.modules@[g.consumers@[c].importers@[j] as int].abs@))
                &&& f == #[trigger] sharing_finding(g, m as int, g.modules@[m as int].exports@[k as int], g.consumers@[c].importers@)
            } {
            let (m, k, c) = choose|m: usize, k: usize, c: int|
                {
                    &&& m < g.n()
                    &&& k < g.modules@[m as int].exports@.len()
                    &&& 0 <= c < g.consumers.len()
                    &&& g.consumers@[c].exporter == m
                    &&& g.consumers@[c].name@ == g.modules@[m as int].exports@[k as int].name@
                    &&& g.consumers@[c].importers.len() > 0
                    &&& forall|i: int, j: int|
                        0 <= i < g.consumers@[c].importers.len() && 0 <= j < g.consumers@[c].importers.len() ==> components(
                            group_dir(g.root@, g.modules@[g.consumers@[c].importers@[i] as int].abs@),
                        ) == components(group_dir(g.root@, g.modules@[g.consumers@[c].importers@[j] as int].abs@))
                    &&& f == #[trigger] sharing_finding(g, m as int, g.modules@[m as int].exports@[k as int], g.consumers@[c].importers@)
                };
            let e = g.modules@[m as int].exports@[k as int];
            let mi = m as int;
            assert(g.consumers@[c].exporter == mi && g.consumers@[c].name@ == e.name@);
            let c2 = choose|c: int| 0 <= c < g.consumers.len() && #[trigger] g.consumers@[c].exporter == mi && g.consumers@[c].name@ == e.name@;
            assert(g.consumers@[c2].exporter == g.consumers@[c].exporter);
            assert(c2 == c);
            let imps = g.consumers@[c].importers@;
            assert(consumers_of(g, mi, e.name@) == Some(imps));
            assert(one_group(g, imps));
            assert(shared_export(g, mi, k as int, f));
        }
    }
}

} // verus!
