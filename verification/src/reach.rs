//! Reachability over a directed graph given as adjacency lists.

use vstd::prelude::*;

verus! {

/// Every successor index names a node of the graph.
pub open spec fn adj_ok(adj: Seq<Seq<usize>>) -> bool {
    forall|u: int, k: int| 0 <= u < adj.len() && 0 <= k < adj[u].len() ==> #[trigger] adj[u][k] < adj.len()
}

/// `p` is a non-empty walk: each node is followed by one of its successors.
pub open spec fn is_walk(adj: Seq<Seq<usize>>, p: Seq<int>) -> bool {
    &&& p.len() >= 1
    &&& forall|i: int| 0 <= i < p.len() ==> 0 <= #[trigger] p[i] < adj.len()
    &&& forall|i: int| 0 <= i < p.len() - 1 ==> adj[p[i]].contains(#[trigger] p[i + 1] as usize)
}

/// `v` is reachable from a root: some walk starts at a root and ends at `v`.
pub open spec fn reachable(adj: Seq<Seq<usize>>, roots: Seq<bool>, v: int) -> bool {
    exists|p: Seq<int>| #[trigger] is_walk(adj, p) && roots[p[0]] && p.last() == v
}

/// The adjacency lists of an exec graph.
pub open spec fn adj_view(adj: Seq<Vec<usize>>) -> Seq<Seq<usize>> {
    adj.map_values(|v: Vec<usize>| v@)
}

/// Number of `true` entries.
pub open spec fn count_true(s: Seq<bool>) -> nat
    decreases s.len(),
{
    if s.len() == 0 {
        0
    } else {
        count_true(s.drop_last()) + if s.last() {
            1nat
        } else {
            0nat
        }
    }
}

proof fn lemma_count_true_bound(s: Seq<bool>)
    ensures
        count_true(s) <= s.len(),
    decreases s.len(),
{
    if s.len() > 0 {
        lemma_count_true_bound(s.drop_last());
    }
}

proof fn lemma_count_true_set(s: Seq<bool>, i: int)
    requires
        0 <= i < s.len(),
        !s[i],
    ensures
        count_true(s.update(i, true)) == count_true(s) + 1,
    decreases s.len(),
{
    if i < s.len() - 1 {
        assert(s.update(i, true).drop_last() =~= s.drop_last().update(i, true));
        lemma_count_true_set(s.drop_last(), i);
    } else {
        assert(s.update(i, true).drop_last() =~= s.drop_last());
    }
}

proof fn lemma_all_false_count(n: nat)
    ensures
        count_true(Seq::new(n, |i: int| false)) == 0,
    decreases n,
{
    if n > 0 {
        assert(Seq::new(n, |i: int| false).drop_last() =~= Seq::new((n - 1) as nat, |i: int| false));
        lemma_all_false_count((n - 1) as nat);
    }
}

/// A set that holds the roots and is closed under successors holds every
/// reachable node.
proof fn lemma_closed_holds_reachable(adj: Seq<Seq<usize>>, roots: Seq<bool>, seen: Seq<bool>, p: Seq<int>)
    requires
        adj.len() <= usize::MAX,
        seen.len() == adj.len(),
        roots.len() == adj.len(),
        forall|v: int| 0 <= v < adj.len() && roots[v] ==> seen[v],
        forall|u: int, k: int|
            0 <= u < adj.len() && seen[u] && 0 <= k < adj[u].len() ==> seen[#[trigger] adj[u][k] as int],
        is_walk(adj, p),
        roots[p[0]],
    ensures
        seen[p.last()],
    decreases p.len(),
{
    if p.len() > 1 {
        let q = p.drop_last();
        assert(is_walk(adj, q)) by {
            assert forall|i: int| 0 <= i < q.len() - 1 implies adj[q[i]].contains(#[trigger] q[i + 1] as usize) by {
                assert(q[i + 1] == p[i + 1]);
            }
        }
        lemma_closed_holds_reachable(adj, roots, seen, q);
        let u = q.last();
        let i = p.len() - 2;
        assert(adj[p[i]].contains(p[i + 1] as usize));
        assert(p[i] == u && p[i + 1] == p.last());
        let k = choose|k: int| 0 <= k < adj[u].len() && adj[u][k] == p.last() as usize;
        assert(0 <= p[p.len() - 1] < adj.len());
        assert(0 <= u < adj.len());
        assert(seen[u]);
        assert(adj[u][k] as int == p.last());
        assert(seen[adj[u][k] as int]);
    } else {
        assert(0 <= p[0] < adj.len());
        assert(p.last() == p[0]);
    }
}

/// Extending a walk from a root by one successor gives a walk to that successor.
pub proof fn lemma_extend_reach(adj: Seq<Seq<usize>>, roots: Seq<bool>, u: int, k: int)
    requires
        adj_ok(adj),
        0 <= u < adj.len(),
        0 <= k < adj[u].len(),
        reachable(adj, roots, u),
    ensures
        reachable(adj, roots, adj[u][k] as int),
{
    let p = choose|p: Seq<int>| #[trigger] is_walk(adj, p) && roots[p[0]] && p.last() == u;
    let w = adj[u][k] as int;
    let q = p.push(w);
    assert(is_walk(adj, q)) by {
        assert forall|i: int| 0 <= i < q.len() - 1 implies adj[q[i]].contains(#[trigger] q[i + 1] as usize) by {
            if i < p.len() - 1 {
                assert(q[i] == p[i] && q[i + 1] == p[i + 1]);
            } else {
                assert(q[i] == u);
                assert(adj[u][k] == w as usize);
            }
        }
    }
    assert(q[0] == p[0]);
}

/// The nodes reachable from the roots along the adjacency lists.
pub fn reach(adj: &Vec<Vec<usize>>, roots: &Vec<bool>) -> (r: Vec<bool>)
    requires
        roots.len() == adj.len(),
        adj_ok(adj_view(adj@)),
    ensures
        r.len() == adj.len(),
        forall|v: int| 0 <= v < adj.len() ==> r[v] == reachable(adj_view(adj@), roots@, v),
{
    let ghost g = adj_view(adj@);
    let n = adj.len();
    let mut seen: Vec<bool> = Vec::new();
    let mut order: Vec<usize> = Vec::new();
    let mut i: usize = 0;
    while i < n
        invariant
            i <= n,
            n == adj.len(),
            roots.len() == n,
            seen.len() == i,
            forall|v: int| 0 <= v < i ==> seen[v] == roots[v],
            forall|v: int| 0 <= v < order.len() ==> #[trigger] order[v] < i,
            forall|v: int| 0 <= v < i ==> (seen[v] <==> order@.contains(v as usize)),
            count_true(seen@) == order.len(),
        decreases n - i,
    {
        let ghost before = seen@;
        let ghost old_order = order@;
        seen.push(roots[i]);
        assert(seen@.drop_last() =~= before);
        if roots[i] {
            order.push(i);
            assert(order@.last() == i);
        }
        assert forall|v: int| 0 <= v < i + 1 implies (seen[v] <==> order@.contains(v as usize)) by {
            if v < i {
                if old_order.contains(v as usize) {
                    let k = choose|k: int| 0 <= k < old_order.len() && old_order[k] == v as usize;
                    assert(order@[k] == v as usize);
                }
                if order@.contains(v as usize) {
                    let k = choose|k: int| 0 <= k < order.len() && order@[k] == v as usize;
                    if k < old_order.len() {
                        assert(old_order[k] == v as usize);
                    }
                }
            } else {
                if roots[i as int] {
                    assert(order@[order.len() - 1] == i);
                } else if order@.contains(v as usize) {
                    let k = choose|k: int| 0 <= k < order.len() && order@[k] == v as usize;
                    assert(old_order[k] < i);
                }
            }
        }
        assert forall|v: int| 0 <= v < order.len() implies #[trigger] order[v] < i + 1 by {
            if v < old_order.len() {
                assert(order[v] == old_order[v]);
            }
        }
        i += 1;
    }
    proof {
        assert forall|v: int| 0 <= v < n && seen[v] implies reachable(g, roots@, v) by {
            let p = seq![v];
            assert(is_walk(g, p));
        }
    }
    let mut head: usize = 0;
    while head < order.len()
        invariant
            n == adj.len(),
            g == adj_view(adj@),
            adj_ok(g),
            roots.len() == n,
            seen.len() == n,
            head <= order.len(),
            count_true(seen@) == order.len(),
            forall|v: int| 0 <= v < order.len() ==> #[trigger] order[v] < n,
            forall|v: int| 0 <= v < n ==> (seen[v] <==> order@.contains(v as usize)),
            forall|v: int| 0 <= v < n && roots[v] ==> seen[v],
            forall|v: int| 0 <= v < n && seen[v] ==> reachable(g, roots@, v),
            forall|h: int, k: int|
                0 <= h < head && 0 <= k < g[order[h] as int].len() ==> seen[#[trigger] g[order[h] as int][k] as int],
        decreases n - head,
    {
        proof {
            lemma_count_true_bound(seen@);
        }
        let u = order[head];
        assert(seen[u as int]);
        let succ = &adj[u];
        assert(succ@ == g[u as int]);
        let mut k: usize = 0;
        while k < succ.len()
            invariant
                n == adj.len(),
                g == adj_view(adj@),
                adj_ok(g),
                succ@ == g[u as int],
                u < n,
                roots.len() == n,
                seen.len() == n,
                head < order.len(),
                order[head as int] == u,
                k <= succ.len(),
                count_true(seen@) == order.len(),
                forall|v: int| 0 <= v < order.len() ==> #[trigger] order[v] < n,
                forall|v: int| 0 <= v < n ==> (seen[v] <==> order@.contains(v as usize)),
                forall|v: int| 0 <= v < n && roots[v] ==> seen[v],
                forall|v: int| 0 <= v < n && seen[v] ==> reachable(g, roots@, v),
                reachable(g, roots@, u as int),
                forall|j: int| 0 <= j < k ==> seen[#[trigger] succ@[j] as int],
                forall|h: int, k2: int|
                    0 <= h < head && 0 <= k2 < g[order[h] as int].len() ==> seen[#[trigger] g[order[h] as int][k2] as int],
            decreases succ.len() - k,
        {
            let w = succ[k];
            assert(w < n);
            if !seen[w] {
                proof {
                    lemma_count_true_set(seen@, w as int);
                    lemma_extend_reach(g, roots@, u as int, k as int);
                }
                let ghost old_order = order@;
                seen.set(w, true);
                order.push(w);
                assert forall|v: int| 0 <= v < n implies (seen[v] <==> order@.contains(v as usize)) by {
                    if v == w {
                        assert(order@[order.len() - 1] == w);
                    } else if old_order.contains(v as usize) {
                        let j = choose|j: int| 0 <= j < old_order.len() && old_order[j] == v as usize;
                        assert(order@[j] == v as usize);
                    } else if order@.contains(v as usize) {
                        let j = choose|j: int| 0 <= j < order.len() && order@[j] == v as usize;
                        assert(j < old_order.len());
                    }
                }
            }
            k += 1;
        }
        head += 1;
    }
    proof {
        assert forall|v: int| 0 <= v < n implies seen[v] == reachable(g, roots@, v) by {
            if reachable(g, roots@, v) {
                let p = choose|p: Seq<int>| #[trigger] is_walk(g, p) && roots@[p[0]] && p.last() == v;
                assert forall|u: int, k: int|
                    0 <= u < g.len() && seen[u] && 0 <= k < g[u].len() implies seen[#[trigger] g[u][k] as int] by {
                    assert(order@.contains(u as usize));
                    let h = choose|h: int| 0 <= h < order.len() && order@[h] == u as usize;
                    assert(g[order[h] as int][k] == g[u][k]);
                }
                lemma_closed_holds_reachable(g, roots@, seen@, p);
            }
        }
    }
    seen
}

} // verus!
