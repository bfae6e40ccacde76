//! Empty wrappers: functions whose body is only a forward along a typed edge.

use vstd::prelude::*;

use crate::call_graph::{edges_ok, CallGraph, TypedEdge};
use crate::finding::{node, report_order, views, Evidence, Finding, FindingView, Location, NodeView, PathNode, Shape};

verus! {

/// The first edge from `from` whose call starts at `call_start`.
pub open spec fn first_match(edges: Seq<TypedEdge>, from: int, call_start: u32) -> Option<TypedEdge>
    decreases edges.len(),
{
    if edges.len() == 0 {
        None
    } else if edges[0].from == from && edges[0].call_start == call_start {
        Some(edges[0])
    } else {
        first_match(edges.drop_first(), from, call_start)
    }
}

/// Whether function `i` is left out.
pub open spec fn is_left_out(suppressed: Seq<bool>, i: int) -> bool {
    i < suppressed.len() && suppressed[i]
}

/// The edge along which function `i` forwards, when it is not left out.
pub open spec fn forward_edge(calls: CallGraph, suppressed: Seq<bool>, i: int) -> Option<TypedEdge> {
    if is_left_out(suppressed, i) {
        None
    } else {
        match calls.functions@[i].forward {
            Some(fw) => first_match(calls.edges@, i, fw.call_start),
            None => None,
        }
    }
}

/// Every forward edge names a function.
pub open spec fn forward_targets_ok(calls: CallGraph, suppressed: Seq<bool>) -> bool {
    forall|i: int| 0 <= i < calls.n() ==> match #[trigger] forward_edge(calls, suppressed, i) {
        Some(e) => e.to < calls.n(),
        None => true,
    }
}

/// The finding for a function that only forwards along edge `e`.
pub open spec fn wrapper_finding(calls: CallGraph, i: int, e: TypedEdge) -> FindingView {
    let f = calls.functions@[i];
    let annotation = if f.forward.unwrap().return_only {
        Some("return only"@)
    } else {
        None
    };
    FindingView {
        shape: Shape::EmptyWrapper,
        file: f.display@,
        line: f.line,
        span_start: f.span_start,
        subject: f.name@,
        nodes: seq![
            NodeView { label: f.name@, annotation, is_subject: true },
            node(calls.functions@[e.to as int].name@, false),
        ],
    }
}

/// Findings for the first `k` functions, in function order.
pub open spec fn wrapper_findings(calls: CallGraph, suppressed: Seq<bool>, k: int) -> Seq<FindingView>
    decreases k,
{
    if k <= 0 {
        Seq::empty()
    } else {
        let p = wrapper_findings(calls, suppressed, k - 1);
        match forward_edge(calls, suppressed, k - 1) {
            Some(e) => p.push(wrapper_finding(calls, k - 1, e)),
            None => p,
        }
    }
}

proof fn lemma_first_match_in(edges: Seq<TypedEdge>, from: int, call_start: u32, n: int)
    requires
        forall|i: int| 0 <= i < edges.len() ==> #[trigger] edges[i].to < n,
    ensures
        match first_match(edges, from, call_start) {
            Some(e) => e.to < n,
            None => true,
        },
    decreases edges.len(),
{
    if edges.len() > 0 {
        assert(edges[0].to < n);
        assert forall|i: int| 0 <= i < edges.drop_first().len() implies #[trigger] edges.drop_first()[i].to < n by {
            assert(edges.drop_first()[i] == edges[i + 1]);
        }
        lemma_first_match_in(edges.drop_first(), from, call_start, n);
    }
}

/// When every edge names a function, so does every forward edge, whatever is left out.
pub proof fn lemma_forward_targets_ok(calls: CallGraph, suppressed: Seq<bool>)
    requires
        edges_ok(calls),
    ensures
        forward_targets_ok(calls, suppressed),
{
    assert forall|i: int| 0 <= i < calls.n() implies match #[trigger] forward_edge(calls, suppressed, i) {
        Some(e) => e.to < calls.n(),
        None => true,
    } by {
        if let Some(fw) = calls.functions@[i].forward {
            assert forall|k: int| 0 <= k < calls.edges@.len() implies #[trigger] calls.edges@[k].to < calls.n() by {
                assert(calls.edges@[k].from < calls.n() && calls.edges@[k].to < calls.n());
            }
            lemma_first_match_in(calls.edges@, i, fw.call_start, calls.n() as int);
        }
    }
}

fn first_match_exec(edges: &Vec<TypedEdge>, from: usize, call_start: u32) -> (r: Option<TypedEdge>)
    ensures
        r == first_match(edges@, from as int, call_start),
{
    let mut j: usize = 0;
    assert(edges@.skip(0) =~= edges@);
    while j < edges.len()
        invariant
            j <= edges.len(),
            first_match(edges@, from as int, call_start) == first_match(edges@.skip(j as int), from as int, call_start),
        decreases edges.len() - j,
    {
        let e = edges[j];
        assert(edges@.skip(j as int)[0] == e);
        if e.from == from && e.call_start == call_start {
            return Some(e);
        }
        assert(edges@.skip(j as int).drop_first() =~= edges@.skip(j + 1));
        j += 1;
    }
    None
}

/// A function whose body is only a forward on a typed edge, skipping the
/// functions marked in `suppressed`.
pub fn detect_with_suppression(graph: &CallGraph, suppressed: &Vec<bool>) -> (r: Vec<Finding>)
    requires
        forward_targets_ok(*graph, suppressed@),
    ensures
        views(r@) == report_order(wrapper_findings(*graph, suppressed@, graph.n() as int)),
{
    let mut findings: Vec<Finding> = Vec::new();
    let mut from: usize = 0;
    while from < graph.functions.len()
        invariant
            forward_targets_ok(*graph, suppressed@),
            from <= graph.n(),
            views(findings@) == wrapper_findings(*graph, suppressed@, from as int),
        decreases graph.functions.len() - from,
    {
        let func = &graph.functions[from];
        if from < suppressed.len() && suppressed[from] {
            from += 1;
            continue;
        }
        let forward = match func.forward {
            Some(fw) => fw,
            None => {
                from += 1;
                continue;
            },
        };
        let edge = match first_match_exec(&graph.edges, from, forward.call_start) {
            Some(e) => e,
            None => {
                from += 1;
                continue;
            },
        };
        assert(forward_edge(*graph, suppressed@, from as int) == Some(edge));
        let target = &graph.functions[edge.to];
        let annotation = if forward.return_only {
            let mut a = String::new();
            crate::text::append_str(&mut a, "return only");
            Some(a)
        } else {
            None
        };
        let nodes = vec![
            PathNode { label: func.name.clone(), annotation, is_subject: true },
            PathNode { label: target.name.clone(), annotation: None, is_subject: false },
        ];
        let f = Finding {
            shape: Shape::EmptyWrapper,
            location: Location { file: func.display.clone(), line: func.line, span_start: func.span_start },
            subject: func.name.clone(),
            evidence: Evidence::Path { nodes },
        };
        assert(f@ == wrapper_finding(*graph, from as int, edge)) by {
            assert(f@.nodes =~= wrapper_finding(*graph, from as int, edge).nodes);
        }
        let ghost before = views(findings@);
        findings.push(f);
        assert(views(findings@) =~= before.push(f@));
        from += 1;
    }
    crate::finding::sort_findings(findings)
}

/// A function whose body is only a forward on a typed edge.
pub fn detect(graph: &CallGraph) -> (r: Vec<Finding>)
    requires
        forward_targets_ok(*graph, Seq::empty()),
    ensures
        views(r@) == report_order(wrapper_findings(*graph, Seq::empty(), graph.n() as int)),
{
    let none: Vec<bool> = Vec::new();
    assert(none@ =~= Seq::<bool>::empty());
    detect_with_suppression(graph, &none)
}

/// Leaving functions out only removes findings: with none left out (an empty
/// list or one of `false` only) the findings are those of `detect`, and each
/// finding with some left out is one of those.
pub proof fn law_suppression_only_removes(calls: CallGraph, suppressed: Seq<bool>, k: int)
    ensures
        wrapper_findings(calls, Seq::new(suppressed.len(), |i: int| false), k) == wrapper_findings(calls, Seq::empty(), k),
        forall|f: FindingView| #[trigger] wrapper_findings(calls, suppressed, k).contains(f) ==> wrapper_findings(
            calls,
            Seq::empty(),
            k,
        ).contains(f),
    decreases k,
{
    if k > 0 {
        law_suppression_only_removes(calls, suppressed, k - 1);
        let none = Seq::new(suppressed.len(), |i: int| false);
        let p = wrapper_findings(calls, suppressed, k - 1);
        let q = wrapper_findings(calls, Seq::<bool>::empty(), k - 1);
        let r = wrapper_findings(calls, suppressed, k);
        let w = wrapper_findings(calls, Seq::<bool>::empty(), k);
        assert(forward_edge(calls, none, k - 1) == forward_edge(calls, Seq::empty(), k - 1));
        assert forall|f: FindingView| #[trigger] r.contains(f) implies w.contains(f) by {
            let m = choose|m: int| 0 <= m < r.len() && r[m] == f;
            match forward_edge(calls, Seq::<bool>::empty(), k - 1) {
                Some(e) => {
                    assert(w == q.push(wrapper_finding(calls, k - 1, e)));
                    if m < p.len() {
                        assert(r[m] == p[m]);
                        assert(p.contains(f));
                        let j = choose|j: int| 0 <= j < q.len() && q[j] == f;
                        assert(w[j] == f);
                    } else {
                        assert(forward_edge(calls, suppressed, k - 1) == Some(e));
                        assert(w[q.len() as int] == f);
                    }
                },
                None => {
                    assert(forward_edge(calls, suppressed, k - 1) is None);
                    assert(r == p);
                    assert(p.contains(f));
                },
            }
        }
    }
}

proof fn lemma_first_match_is_first(edges: Seq<TypedEdge>, from: int, call_start: u32)
    ensures
        match first_match(edges, from, call_start) {
            Some(e) => exists|j: int|
                0 <= j < edges.len() && #[trigger] edges[j] == e && e.from == from && e.call_start == call_start && forall|k: int|
                    0 <= k < j ==> !(edges[k].from == from && edges[k].call_start == call_start),
            None => forall|j: int| 0 <= j < edges.len() ==> !(#[trigger] edges[j].from == from && edges[j].call_start == call_start),
        },
    decreases edges.len(),
{
    if edges.len() > 0 {
        let rest = edges.drop_first();
        lemma_first_match_is_first(rest, from, call_start);
        if !(edges[0].from == from && edges[0].call_start == call_start) {
            match first_match(rest, from, call_start) {
                Some(e) => {
                    let j = choose|j: int|
                        0 <= j < rest.len() && #[trigger] rest[j] == e && e.from == from && e.call_start == call_start && forall|k: int|
                            0 <= k < j ==> !(rest[k].from == from && rest[k].call_start == call_start);
                    assert(edges[j + 1] == e);
                    assert forall|k: int| 0 <= k < j + 1 implies !(edges[k].from == from && edges[k].call_start == call_start) by {
                        if k > 0 {
                            assert(edges[k] == rest[k - 1]);
                        }
                    }
                },
                None => {
                    assert forall|j: int| 0 <= j < edges.len() implies !(#[trigger] edges[j].from == from && edges[j].call_start == call_start) by {
                        if j > 0 {
                            assert(edges[j] == rest[j - 1]);
                        }
                    }
                },
            }
        }
    }
}

/// Every function that is not left out and whose body is only a forward,
/// a `return f(..)` or a bare `f(..);` alike, is reported when a typed edge
/// leaves it at the forwarded call: the finding names it, sits where it
/// does, and is annotated "return only" exactly when the forward returns.
/// Every finding is of that kind, along the first such edge.
pub proof fn law_every_forward_reported(calls: CallGraph, suppressed: Seq<bool>)
    ensures
        forall|i: int|
            0 <= i < calls.n() && !(i < suppressed.len() && suppressed[i]) && #[trigger] calls.functions@[i].forward is Some && (exists|j: int|
                0 <= j < calls.edges.len() && calls.edges@[j].from == i && calls.edges@[j].call_start
                    == calls.functions@[i].forward->Some_0.call_start) ==> exists|f: FindingView|
                #[trigger] wrapper_findings(calls, suppressed, calls.n() as int).contains(f) && f.shape == Shape::EmptyWrapper && f.subject
                    == calls.functions@[i].name@ && f.file == calls.functions@[i].display@ && f.line == calls.functions@[i].line
                    && f.span_start == calls.functions@[i].span_start && f.nodes.len() == 2 && f.nodes[0] == (NodeView {
                    label: calls.functions@[i].name@,
                    annotation: if calls.functions@[i].forward->Some_0.return_only {
                        Some("return only"@)
                    } else {
                        None
                    },
                    is_subject: true,
                }),
        forall|f: FindingView| #[trigger] wrapper_findings(calls, suppressed, calls.n() as int).contains(f) ==> exists|i: int, j: int|
            0 <= i < calls.n() && !(i < suppressed.len() && suppressed[i]) && calls.functions@[i].forward is Some && 0 <= j
                < calls.edges.len() && calls.edges@[j].from == i && calls.edges@[j].call_start == calls.functions@[i].forward->Some_0.call_start
                && (forall|k: int|
                0 <= k < j ==> !(calls.edges@[k].from == i && calls.edges@[k].call_start == calls.functions@[i].forward->Some_0.call_start))
                && f == #[trigger] wrapper_finding(calls, i, calls.edges@[j]),
{
    lemma_reported_below(calls, suppressed, calls.n() as int);
}

proof fn lemma_reported_below(calls: CallGraph, suppressed: Seq<bool>, n: int)
    requires
        n <= calls.n(),
    ensures
        forall|i: int|
            0 <= i < n && !(i < suppressed.len() && suppressed[i]) && #[trigger] calls.functions@[i].forward is Some && (exists|j: int|
                0 <= j < calls.edges.len() && calls.edges@[j].from == i && calls.edges@[j].call_start
                    == calls.functions@[i].forward->Some_0.call_start) ==> exists|f: FindingView|
                #[trigger] wrapper_findings(calls, suppressed, n).contains(f) && f.shape == Shape::EmptyWrapper && f.subject
                    == calls.functions@[i].name@ && f.file == calls.functions@[i].display@ && f.line == calls.functions@[i].line
                    && f.span_start == calls.functions@[i].span_start && f.nodes.len() == 2 && f.nodes[0] == (NodeView {
                    label: calls.functions@[i].name@,
                    annotation: if calls.functions@[i].forward->Some_0.return_only {
                        Some("return only"@)
                    } else {
                        None
                    },
                    is_subject: true,
                }),
        forall|f: FindingView| #[trigger] wrapper_findings(calls, suppressed, n).contains(f) ==> exists|i: int, j: int|
            0 <= i < n && !(i < suppressed.len() && suppressed[i]) && calls.functions@[i].forward is Some && 0 <= j
                < calls.edges.len() && calls.edges@[j].from == i && calls.edges@[j].call_start == calls.functions@[i].forward->Some_0.call_start
                && (forall|k: int|
                0 <= k < j ==> !(calls.edges@[k].from == i && calls.edges@[k].call_start == calls.functions@[i].forward->Some_0.call_start))
                && f == #[trigger] wrapper_finding(calls, i, calls.edges@[j]),
    decreases n,
{
    if n > 0 {
        lemma_reported_below(calls, suppressed, n - 1);
        let p = wrapper_findings(calls, suppressed, n - 1);
        let r = wrapper_findings(calls, suppressed, n);
        let last = n - 1;
        let fl = calls.functions@[last];
        let edges = calls.edges@;
        if let Some(fw) = fl.forward {
            lemma_first_match_is_first(edges, last, fw.call_start);
        }
        match forward_edge(calls, suppressed, last) {
            Some(e) => assert(r == p.push(wrapper_finding(calls, last, e))),
            None => assert(r == p),
        }
        assert forall|f: FindingView| #[trigger] p.contains(f) implies r.contains(f) by {
            let m = choose|m: int| 0 <= m < p.len() && p[m] == f;
            assert(r[m] == f);
        }
        assert forall|i: int|
            0 <= i < n && !(i < suppressed.len() && suppressed[i]) && #[trigger] calls.functions@[i].forward is Some && (exists|j: int|
                0 <= j < calls.edges.len() && calls.edges@[j].from == i && calls.edges@[j].call_start
                    == calls.functions@[i].forward->Some_0.call_start) implies exists|f: FindingView|
                #[trigger] r.contains(f) && f.shape == Shape::EmptyWrapper && f.subject
                    == calls.functions@[i].name@ && f.file == calls.functions@[i].display@ && f.line == calls.functions@[i].line
                    && f.span_start == calls.functions@[i].span_start && f.nodes.len() == 2 && f.nodes[0] == (NodeView {
                    label: calls.functions@[i].name@,
                    annotation: if calls.functions@[i].forward->Some_0.return_only {
                        Some("return only"@)
                    } else {
                        None
                    },
                    is_subject: true,
                }) by {
            if i < last {
                let f = choose|f: FindingView|
                    #[trigger] p.contains(f) && f.shape == Shape::EmptyWrapper && f.subject
                        == calls.functions@[i].name@ && f.file == calls.functions@[i].display@ && f.line == calls.functions@[i].line
                        && f.span_start == calls.functions@[i].span_start && f.nodes.len() == 2 && f.nodes[0] == (NodeView {
                        label: calls.functions@[i].name@,
                        annotation: if calls.functions@[i].forward->Some_0.return_only {
                            Some("return only"@)
                        } else {
                            None
                        },
                        is_subject: true,
                    });
                assert(r.contains(f));
            } else {
                let fw = fl.forward->Some_0;
                let j = choose|j: int| 0 <= j < calls.edges.len() && calls.edges@[j].from == i && calls.edges@[j].call_start == fw.call_start;
                assert(edges[j].from == last && edges[j].call_start == fw.call_start);
                let e = forward_edge(calls, suppressed, last)->Some_0;
                let f = wrapper_finding(calls, last, e);
                assert(r[p.len() as int] == f);
                assert(r.contains(f));
            }
        }
        assert forall|f: FindingView| #[trigger] r.contains(f) implies exists|i: int, j: int|
            0 <= i < n && !(i < suppressed.len() && suppressed[i]) && calls.functions@[i].forward is Some && 0 <= j
                < calls.edges.len() && calls.edges@[j].from == i && calls.edges@[j].call_start == calls.functions@[i].forward->Some_0.call_start
                && (forall|k: int|
                0 <= k < j ==> !(calls.edges@[k].from == i && calls.edges@[k].call_start == calls.functions@[i].forward->Some_0.call_start))
                && f == #[trigger] wrapper_finding(calls, i, calls.edges@[j]) by {
            let m = choose|m: int| 0 <= m < r.len() && r[m] == f;
            if m < p.len() {
                assert(p[m] == f);
                assert(p.contains(f));
            } else {
                let e = forward_edge(calls, suppressed, last)->Some_0;
                let fw = fl.forward->Some_0;
                let j = choose|j: int|
                    0 <= j < edges.len() && #[trigger] edges[j] == e && e.from == last && e.call_start == fw.call_start && forall|k: int|
                        0 <= k < j ==> !(edges[k].from == last && edges[k].call_start == fw.call_start);
                assert(f == wrapper_finding(calls, last, edges[j]));
            }
        }
    }
}

} // verus!
