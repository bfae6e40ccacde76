//! Tramp data: a parameter that a function does not read locally, except as
//! a direct argument to calls that all resolve along typed edges.

use vstd::prelude::*;

use crate::call_graph::{edges_ok, CallGraph, ExprShape, TypedEdge};
use crate::finding::{node, report_order, views, Evidence, Finding, FindingView, Location, NodeView, PathNode, Shape};

verus! {

/// How one parameter of a function is used in its body.
#[derive(Debug)]
pub struct ParamUsage {
    /// Index of the function in the call graph.
    pub function: usize,
    pub name: String,
    pub span_start: u32,
    pub line: u32,
    /// How many identifier references to the parameter the body holds.
    pub refs: usize,
    /// Start of each call that takes the parameter directly as an argument.
    pub forward_calls: Vec<u32>,
}

/// Targets of the edges from `from` whose call starts at `call`, in edge order.
pub open spec fn call_targets(edges: Seq<TypedEdge>, from: int, call: u32) -> Seq<usize>
    decreases edges.len(),
{
    if edges.len() == 0 {
        Seq::empty()
    } else {
        let p = call_targets(edges.drop_last(), from, call);
        let e = edges.last();
        if e.from == from && e.call_start == call {
            p.push(e.to)
        } else {
            p
        }
    }
}

/// `acc` followed by the values of `xs` it does not hold yet, first occurrences kept.
pub open spec fn add_new(acc: Seq<usize>, xs: Seq<usize>) -> Seq<usize>
    decreases xs.len(),
{
    if xs.len() == 0 {
        acc
    } else {
        let p = add_new(acc, xs.drop_last());
        if p.contains(xs.last()) {
            p
        } else {
            p.push(xs.last())
        }
    }
}

/// The distinct targets of the forwarding calls, in order of first
/// appearance; `None` when some call has no typed edge.
pub open spec fn forward_targets(edges: Seq<TypedEdge>, from: int, calls: Seq<u32>) -> Option<Seq<usize>>
    decreases calls.len(),
{
    if calls.len() == 0 {
        Some(Seq::empty())
    } else {
        match forward_targets(edges, from, calls.drop_last()) {
            None => None,
            Some(acc) => {
                let m = call_targets(edges, from, calls.last());
                if m.len() == 0 {
                    None
                } else {
                    Some(add_new(acc, m))
                }
            },
        }
    }
}

/// The parameter is only ever passed on: it is referenced, every reference
/// is a direct argument of a call, and every such call is typed.
pub open spec fn is_tramp(calls: CallGraph, u: ParamUsage) -> bool {
    &&& u.refs > 0
    &&& u.forward_calls@.len() > 0
    &&& u.refs == u.forward_calls@.len()
    &&& forward_targets(calls.edges@, u.function as int, u.forward_calls@) is Some
}

/// The finding for parameter `u` passed on to function `t`.
pub open spec fn tramp_finding(calls: CallGraph, u: ParamUsage, t: usize) -> FindingView {
    let caller = calls.functions@[u.function as int];
    FindingView {
        shape: Shape::TrampData,
        file: caller.display@,
        line: u.line,
        span_start: u.span_start,
        subject: u.name@,
        nodes: seq![
            NodeView { label: caller.name@, annotation: Some("passes "@ + u.name@), is_subject: true },
            node(calls.functions@[t as int].name@, false),
        ],
    }
}

/// The findings of one parameter: one per distinct target it is passed to.
pub open spec fn param_findings(calls: CallGraph, u: ParamUsage) -> Seq<FindingView> {
    if is_tramp(calls, u) {
        forward_targets(calls.edges@, u.function as int, u.forward_calls@).unwrap().map_values(
            |t: usize| tramp_finding(calls, u, t),
        )
    } else {
        Seq::empty()
    }
}

/// The findings of the first `k` parameter usages, in order.
pub open spec fn usage_findings(calls: CallGraph, us: Seq<ParamUsage>, k: int) -> Seq<FindingView>
    decreases k,
{
    if k <= 0 {
        Seq::empty()
    } else {
        usage_findings(calls, us, k - 1) + param_findings(calls, us[k - 1])
    }
}

proof fn lemma_call_targets_ok(calls: CallGraph, edges: Seq<TypedEdge>, from: int, call: u32)
    requires
        forall|i: int| 0 <= i < edges.len() ==> #[trigger] edges[i].to < calls.n(),
    ensures
        forall|i: int| 0 <= i < call_targets(edges, from, call).len() ==> #[trigger] call_targets(edges, from, call)[i] < calls.n(),
    decreases edges.len(),
{
    if edges.len() > 0 {
        lemma_call_targets_ok(calls, edges.drop_last(), from, call);
        let p = call_targets(edges.drop_last(), from, call);
        assert forall|i: int| 0 <= i < call_targets(edges, from, call).len() implies #[trigger] call_targets(edges, from, call)[i] < calls.n() by {
            if i < p.len() {
                assert(call_targets(edges, from, call)[i] == p[i]);
            } else {
                assert(edges[edges.len() - 1].to < calls.n());
            }
        }
    }
}

fn targets_of_call(edges: &Vec<TypedEdge>, from: usize, call: u32) -> (r: Vec<usize>)
    ensures
        r@ == call_targets(edges@, from as int, call),
{
    let mut out: Vec<usize> = Vec::new();
    let mut i: usize = 0;
    assert(edges@.take(0) =~= Seq::<TypedEdge>::empty());
    while i < edges.len()
        invariant
            i <= edges.len(),
            out@ == call_targets(edges@.take(i as int), from as int, call),
        decreases edges.len() - i,
    {
        let e = edges[i];
        assert(edges@.take(i + 1).drop_last() =~= edges@.take(i as int));
        assert(edges@.take(i + 1).last() == e);
        if e.from == from && e.call_start == call {
            out.push(e.to);
        }
        i += 1;
    }
    assert(edges@.take(edges.len() as int) =~= edges@);
    out
}

fn contains_index(v: &Vec<usize>, x: usize) -> (r: bool)
    ensures
        r == v@.contains(x),
{
    let mut i: usize = 0;
    while i < v.len()
        invariant
            i <= v.len(),
            forall|k: int| 0 <= k < i ==> v@[k] != x,
        decreases v.len() - i,
    {
        if v[i] == x {
            assert(v@[i as int] == x);
            return true;
        }
        i += 1;
    }
    false
}

fn push_new(acc: &mut Vec<usize>, xs: &Vec<usize>)
    ensures
        final(acc)@ == add_new(old(acc)@, xs@),
{
    let ghost a0 = old(acc)@;
    let mut i: usize = 0;
    assert(xs@.take(0) =~= Seq::<usize>::empty());
    while i < xs.len()
        invariant
            i <= xs.len(),
            acc@ == add_new(a0, xs@.take(i as int)),
        decreases xs.len() - i,
    {
        let x = xs[i];
        assert(xs@.take(i + 1).drop_last() =~= xs@.take(i as int));
        assert(xs@.take(i + 1).last() == x);
        if !contains_index(acc, x) {
            acc.push(x);
        }
        i += 1;
    }
    assert(xs@.take(xs.len() as int) =~= xs@);
}

proof fn lemma_add_new_ok(acc: Seq<usize>, xs: Seq<usize>, n: int)
    requires
        forall|i: int| 0 <= i < acc.len() ==> #[trigger] acc[i] < n,
        forall|i: int| 0 <= i < xs.len() ==> #[trigger] xs[i] < n,
    ensures
        forall|i: int| 0 <= i < add_new(acc, xs).len() ==> #[trigger] add_new(acc, xs)[i] < n,
    decreases xs.len(),
{
    if xs.len() > 0 {
        lemma_add_new_ok(acc, xs.drop_last(), n);
        let p = add_new(acc, xs.drop_last());
        assert forall|i: int| 0 <= i < add_new(acc, xs).len() implies #[trigger] add_new(acc, xs)[i] < n by {
            if i < p.len() {
                assert(add_new(acc, xs)[i] == p[i]);
            } else {
                assert(xs[xs.len() - 1] < n);
            }
        }
    }
}

/// The distinct targets of the forwarding calls of `u`, or `None` when one
/// of them has no typed edge.
fn collect_targets(calls: &CallGraph, u: &ParamUsage) -> (r: Option<Vec<usize>>)
    requires
        edges_ok(*calls),
    ensures
        match r {
            Some(v) => forward_targets(calls.edges@, u.function as int, u.forward_calls@) == Some(v@)
                && forall|i: int| 0 <= i < v@.len() ==> #[trigger] v@[i] < calls.n(),
            None => forward_targets(calls.edges@, u.function as int, u.forward_calls@) is None,
        },
{
    let mut acc: Vec<usize> = Vec::new();
    let mut i: usize = 0;
    let fc = &u.forward_calls;
    assert(fc@.take(0) =~= Seq::<u32>::empty());
    while i < fc.len()
        invariant
            edges_ok(*calls),
            fc == &u.forward_calls,
            i <= fc.len(),
            forward_targets(calls.edges@, u.function as int, fc@.take(i as int)) == Some(acc@),
            forall|k: int| 0 <= k < acc@.len() ==> #[trigger] acc@[k] < calls.n(),
        decreases fc.len() - i,
    {
        let call = fc[i];
        assert(fc@.take(i + 1).drop_last() =~= fc@.take(i as int));
        assert(fc@.take(i + 1).last() == call);
        let m = targets_of_call(&calls.edges, u.function, call);
        proof {
            assert forall|q: int| 0 <= q < calls.edges@.len() implies #[trigger] calls.edges@[q].to < calls.n() by {
                assert(calls.edges@[q].from < calls.n() && calls.edges@[q].to < calls.n());
            }
            lemma_call_targets_ok(*calls, calls.edges@, u.function as int, call);
        }
        if m.len() == 0 {
            proof {
                lemma_forward_targets_none(calls.edges@, u.function as int, fc@, i as int + 1);
            }
            return None;
        }
        proof {
            lemma_add_new_ok(acc@, m@, calls.n() as int);
        }
        push_new(&mut acc, &m);
        i += 1;
    }
    assert(fc@.take(fc.len() as int) =~= fc@);
    Some(acc)
}

proof fn lemma_forward_targets_none(edges: Seq<TypedEdge>, from: int, calls: Seq<u32>, k: int)
    requires
        0 <= k <= calls.len(),
        forward_targets(edges, from, calls.take(k)) is None,
    ensures
        forward_targets(edges, from, calls) is None,
    decreases calls.len() - k,
{
    if k < calls.len() {
        assert(calls.take(k + 1).drop_last() =~= calls.take(k));
        lemma_forward_targets_none(edges, from, calls, k + 1);
    } else {
        assert(calls.take(k) =~= calls);
    }
}

/// Whether `u` is tramp data; when it is, the findings it gives, one per
/// distinct target function, in order of first appearance.
pub fn inspect_param(calls: &CallGraph, u: &ParamUsage) -> (r: Vec<Finding>)
    requires
        edges_ok(*calls),
        u.function < calls.n(),
    ensures
        views(r@) == param_findings(*calls, *u),
{
    if u.refs == 0 || u.forward_calls.len() == 0 || u.refs != u.forward_calls.len() {
        return Vec::new();
    }
    let targets = match collect_targets(calls, u) {
        Some(t) => t,
        None => {
            return Vec::new();
        },
    };
    let caller = &calls.functions[u.function];
    let mut out: Vec<Finding> = Vec::new();
    let mut i: usize = 0;
    let ghost ts = targets@;
    while i < targets.len()
        invariant
            u.function < calls.n(),
            *caller == calls.functions@[u.function as int],
            is_tramp(*calls, *u),
            forward_targets(calls.edges@, u.function as int, u.forward_calls@) == Some(ts),
            ts == targets@,
            forall|k: int| 0 <= k < ts.len() ==> #[trigger] ts[k] < calls.n(),
            i <= targets.len(),
            views(out@) == ts.take(i as int).map_values(|t: usize| tramp_finding(*calls, *u, t)),
        decreases targets.len() - i,
    {
        let t = targets[i];
        let mut note = String::new();
        crate::text::append_str(&mut note, "passes ");
        crate::text::append_str(&mut note, u.name.as_str());
        proof {
            reveal_strlit("passes ");
        }
        let f = Finding {
            shape: Shape::TrampData,
            location: Location { file: caller.display.clone(), line: u.line, span_start: u.span_start },
            subject: u.name.clone(),
            evidence: Evidence::Path {
                nodes: vec![
                    PathNode { label: caller.name.clone(), annotation: Some(note), is_subject: true },
                    PathNode { label: calls.functions[t].name.clone(), annotation: None, is_subject: false },
                ],
            },
        };
        assert(f@ == tramp_finding(*calls, *u, t)) by {
            assert(f@.nodes =~= tramp_finding(*calls, *u, t).nodes);
        }
        let ghost before = views(out@);
        out.push(f);
        assert(views(out@) =~= before.push(f@));
        assert(ts.take(i + 1).map_values(|t: usize| tramp_finding(*calls, *u, t)) =~= ts.take(
            i as int,
        ).map_values(|t: usize| tramp_finding(*calls, *u, t)).push(tramp_finding(*calls, *u, t)));
        i += 1;
    }
    assert(ts.take(ts.len() as int) =~= ts);
    out
}

/// Tramp-data parameters: the findings of every usage, in report order.
pub fn detect(calls: &CallGraph, usages: &Vec<ParamUsage>) -> (r: Vec<Finding>)
    requires
        edges_ok(*calls),
        forall|i: int| 0 <= i < usages.len() ==> #[trigger] usages@[i].function < calls.n(),
    ensures
        views(r@) == report_order(usage_findings(*calls, usages@, usages.len() as int)),
{
    let mut findings: Vec<Finding> = Vec::new();
    let mut k: usize = 0;
    while k < usages.len()
        invariant
            edges_ok(*calls),
            forall|i: int| 0 <= i < usages.len() ==> #[trigger] usages@[i].function < calls.n(),
            k <= usages.len(),
            views(findings@) == usage_findings(*calls, usages@, k as int),
        decreases usages.len() - k,
    {
        let mut more = inspect_param(calls, &usages[k]);
        let ghost before = views(findings@);
        let ghost add = views(more@);
        findings.append(&mut more);
        assert(views(findings@) =~= before + add);
        k += 1;
    }
    crate::finding::sort_findings(findings)
}

/// The identifier an expression names, through any transparent wrappers.
pub open spec fn referenced_name(e: ExprShape) -> Option<Seq<char>>
    decreases e,
{
    match e {
        ExprShape::Identifier(name) => Some(name@),
        ExprShape::Wrapped(_, inner) => referenced_name(*inner),
        _ => None,
    }
}

/// Whether an argument is the parameter `name` itself, unwrapped of
/// parentheses and type-level wrappers.
pub fn is_direct_reference(e: &ExprShape, name: &str) -> (r: bool)
    ensures
        r == (referenced_name(*e) == Some(name@)),
    decreases e,
{
    match e {
        ExprShape::Identifier(n) => crate::text::str_eq(n.as_str(), name),
        ExprShape::Wrapped(_, inner) => is_direct_reference(inner, name),
        _ => false,
    }
}

} // verus!
