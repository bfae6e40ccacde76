//! Stable insertion order: the sequence that inserting each element, in turn,
//! after every earlier element that does not exceed it produces.

use vstd::prelude::*;

verus! {

broadcast use vstd::seq_lib::group_seq_properties;

/// `leq` is a total preorder.
pub open spec fn total_preorder<A>(leq: spec_fn(A, A) -> bool) -> bool {
    &&& forall|a: A, b: A| #[trigger] leq(a, b) || #[trigger] leq(b, a)
    &&& forall|a: A, b: A, c: A| #[trigger] leq(a, b) && #[trigger] leq(b, c) ==> leq(a, c)
}

/// Where `x` goes in `s`: after the last element that does not exceed it,
/// scanning from the back.
pub open spec fn ins_pos<A>(s: Seq<A>, x: A, leq: spec_fn(A, A) -> bool) -> int
    decreases s.len(),
{
    if s.len() == 0 {
        0
    } else if leq(s.last(), x) {
        s.len() as int
    } else {
        ins_pos(s.drop_last(), x, leq)
    }
}

/// `s` in stable sorted order: each element inserted in turn.
pub open spec fn stable_sorted<A>(s: Seq<A>, leq: spec_fn(A, A) -> bool) -> Seq<A>
    decreases s.len(),
{
    if s.len() == 0 {
        s
    } else {
        let t = stable_sorted(s.drop_last(), leq);
        t.insert(ins_pos(t, s.last(), leq), s.last())
    }
}

/// Every earlier element is `leq` every later one.
pub open spec fn is_sorted<A>(s: Seq<A>, leq: spec_fn(A, A) -> bool) -> bool {
    forall|i: int, j: int| 0 <= i < j < s.len() ==> #[trigger] leq(s[i], s[j])
}

pub proof fn lemma_ins_pos<A>(s: Seq<A>, x: A, leq: spec_fn(A, A) -> bool)
    ensures
        0 <= ins_pos(s, x, leq) <= s.len(),
        ins_pos(s, x, leq) == 0 || leq(s[ins_pos(s, x, leq) - 1], x),
        forall|k: int| ins_pos(s, x, leq) <= k < s.len() ==> !leq(#[trigger] s[k], x),
    decreases s.len(),
{
    if s.len() > 0 && !leq(s.last(), x) {
        lemma_ins_pos(s.drop_last(), x, leq);
        assert forall|k: int| ins_pos(s, x, leq) <= k < s.len() implies !leq(
            #[trigger] s[k],
            x,
        ) by {
            if k < s.len() - 1 {
                assert(s.drop_last()[k] == s[k]);
            }
        }
    }
}

/// The stable order is sorted.
pub proof fn lemma_stable_sorted_is_sorted<A>(s: Seq<A>, leq: spec_fn(A, A) -> bool)
    requires
        total_preorder(leq),
    ensures
        is_sorted(stable_sorted(s, leq), leq),
        stable_sorted(s, leq).len() == s.len(),
    decreases s.len(),
{
    if s.len() > 0 {
        let t = stable_sorted(s.drop_last(), leq);
        lemma_stable_sorted_is_sorted(s.drop_last(), leq);
        let x = s.last();
        let p = ins_pos(t, x, leq);
        lemma_ins_pos(t, x, leq);
        let u = t.insert(p, x);
        t.insert_ensures(p, x);
        assert forall|i: int, j: int| 0 <= i < j < u.len() implies #[trigger] leq(u[i], u[j]) by {
            if j < p {
                assert(leq(t[i], t[j]));
            } else if j == p {
                if i < p - 1 {
                    assert(leq(t[i], t[p - 1]));
                }
            } else if i < p {
                assert(leq(t[i], t[j - 1]));
            } else if i == p {
                assert(!leq(t[j - 1], x));
                assert(leq(x, t[j - 1]));
            } else {
                assert(leq(t[i - 1], t[j - 1]));
            }
        }
    }
}

/// The stable order holds the same elements.
pub proof fn lemma_stable_sorted_multiset<A>(s: Seq<A>, leq: spec_fn(A, A) -> bool)
    ensures
        stable_sorted(s, leq).to_multiset() == s.to_multiset(),
        stable_sorted(s, leq).len() == s.len(),
    decreases s.len(),
{
    if s.len() > 0 {
        let t = stable_sorted(s.drop_last(), leq);
        lemma_stable_sorted_multiset(s.drop_last(), leq);
        let x = s.last();
        lemma_ins_pos(t, x, leq);
        let p = ins_pos(t, x, leq);
        let u = t.insert(p, x);
        assert(u.remove(p) =~= t);
        u.to_multiset_ensures();
        t.to_multiset_ensures();
        s.drop_last().to_multiset_ensures();
        assert(s.drop_last().push(x) =~= s);
        assert(u.to_multiset().remove(x) =~= t.to_multiset());
        assert(u.to_multiset() =~= t.to_multiset().insert(x)) by {
            assert(u.contains(x)) by {
                assert(u[p] == x);
            }
        }
    }
}

/// The stable order has the input's length.
pub proof fn lemma_stable_sorted_len<A>(s: Seq<A>, leq: spec_fn(A, A) -> bool)
    ensures
        stable_sorted(s, leq).len() == s.len(),
    decreases s.len(),
{
    if s.len() > 0 {
        lemma_stable_sorted_len(s.drop_last(), leq);
        lemma_ins_pos(stable_sorted(s.drop_last(), leq), s.last(), leq);
    }
}

proof fn lemma_ins_pos_map<A, B>(
    s: Seq<A>,
    x: A,
    leq: spec_fn(A, A) -> bool,
    f: spec_fn(A) -> B,
    leqb: spec_fn(B, B) -> bool,
)
    requires
        forall|a: A, b: A| #[trigger] leq(a, b) == leqb(f(a), f(b)),
    ensures
        ins_pos(s, x, leq) == ins_pos(s.map_values(f), f(x), leqb),
    decreases s.len(),
{
    if s.len() > 0 {
        assert(s.map_values(f).drop_last() =~= s.drop_last().map_values(f));
        assert(s.map_values(f).last() == f(s.last()));
        assert(leq(s.last(), x) == leqb(f(s.last()), f(x)));
        lemma_ins_pos_map(s.drop_last(), x, leq, f, leqb);
    }
}

/// Sorting commutes with a map through which the order factors.
pub proof fn lemma_stable_sorted_map<A, B>(
    s: Seq<A>,
    leq: spec_fn(A, A) -> bool,
    f: spec_fn(A) -> B,
    leqb: spec_fn(B, B) -> bool,
)
    requires
        forall|a: A, b: A| #[trigger] leq(a, b) == leqb(f(a), f(b)),
    ensures
        stable_sorted(s, leq).map_values(f) == stable_sorted(s.map_values(f), leqb),
    decreases s.len(),
{
    if s.len() > 0 {
        let t = stable_sorted(s.drop_last(), leq);
        lemma_stable_sorted_map(s.drop_last(), leq, f, leqb);
        assert(s.map_values(f).drop_last() =~= s.drop_last().map_values(f));
        assert(s.map_values(f).last() == f(s.last()));
        lemma_ins_pos_map(t, s.last(), leq, f, leqb);
        lemma_ins_pos(t, s.last(), leq);
        let p = ins_pos(t, s.last(), leq);
        assert(t.insert(p, s.last()).map_values(f) =~= t.map_values(f).insert(p, f(s.last())));
    }
}

/// A key order on values of `T`, as a relation and as a comparison.
pub trait KeyOrder<T> {
    /// The values the comparison accepts.
    spec fn admits(&self, x: T) -> bool;

    /// The order as a relation.
    spec fn leq(&self) -> spec_fn(T, T) -> bool;

    /// Whether `a` comes no later than `b`.
    fn le(&self, a: &T, b: &T) -> (r: bool)
        requires
            self.admits(*a),
            self.admits(*b),
        ensures
            r == self.leq()(*a, *b),
    ;
}

fn insertion_point<T, C: KeyOrder<T>>(ctx: &C, out: &Vec<T>, x: &T) -> (p: usize)
    requires
        ctx.admits(*x),
        forall|i: int| 0 <= i < out.len() ==> ctx.admits(#[trigger] out@[i]),
    ensures
        p == ins_pos(out@, *x, ctx.leq()),
{
    let mut j = out.len();
    assert(out@.take(out.len() as int) =~= out@);
    while j > 0
        invariant
            j <= out.len(),
            ctx.admits(*x),
            forall|i: int| 0 <= i < out.len() ==> ctx.admits(#[trigger] out@[i]),
            ins_pos(out@, *x, ctx.leq()) == ins_pos(out@.take(j as int), *x, ctx.leq()),
        decreases j,
    {
        assert(out@.take(j as int).drop_last() =~= out@.take(j - 1));
        assert(out@.take(j as int).last() == out@[j - 1]);
        if ctx.le(&out[j - 1], x) {
            return j;
        }
        j -= 1;
    }
    0
}

/// Sorts `v` by the key order of `ctx`; values with equal keys keep their order.
pub fn stable_sort<T, C: KeyOrder<T>>(ctx: &C, v: Vec<T>) -> (r: Vec<T>)
    requires
        forall|i: int| 0 <= i < v.len() ==> ctx.admits(#[trigger] v@[i]),
    ensures
        r@ == stable_sorted(v@, ctx.leq()),
{
    let ghost orig = v@;
    let mut rest = v;
    let mut out: Vec<T> = Vec::new();
    let n = rest.len();
    let mut i: usize = 0;
    assert(orig.take(0) =~= Seq::<T>::empty());
    assert(orig.skip(0) =~= orig);
    while i < n
        invariant
            n == orig.len(),
            i <= n,
            forall|k: int| 0 <= k < orig.len() ==> ctx.admits(#[trigger] orig[k]),
            rest@ == orig.skip(i as int),
            out@ == stable_sorted(orig.take(i as int), ctx.leq()),
            forall|k: int| 0 <= k < out.len() ==> ctx.admits(#[trigger] out@[k]),
        decreases n - i,
    {
        let x = rest.remove(0);
        assert(x == orig[i as int]);
        assert(rest@ =~= orig.skip(i + 1));
        let p = insertion_point(ctx, &out, &x);
        proof {
            lemma_ins_pos(out@, x, ctx.leq());
        }
        let ghost before = out@;
        out.insert(p, x);
        assert forall|k: int| 0 <= k < out.len() implies ctx.admits(#[trigger] out@[k]) by {
            if k < p {
                assert(out@[k] == before[k]);
            } else if k > p {
                assert(out@[k] == before[k - 1]);
            }
        }
        assert(orig.take(i + 1).drop_last() =~= orig.take(i as int));
        assert(orig.take(i + 1).last() == x);
        i += 1;
    }
    assert(orig.take(n as int) =~= orig);
    out
}

/// `leq` relates two values both ways only when they are equal.
pub open spec fn antisymmetric<A>(leq: spec_fn(A, A) -> bool) -> bool {
    forall|a: A, b: A| #[trigger] leq(a, b) && #[trigger] leq(b, a) ==> a == b
}

/// Under a total antisymmetric order, two sorted sequences with the same
/// elements are the same sequence.
pub proof fn lemma_sorted_unique<A>(s1: Seq<A>, s2: Seq<A>, leq: spec_fn(A, A) -> bool)
    requires
        total_preorder(leq),
        antisymmetric(leq),
        is_sorted(s1, leq),
        is_sorted(s2, leq),
        s1.to_multiset() == s2.to_multiset(),
    ensures
        s1 == s2,
    decreases s1.len(),
{
    s1.to_multiset_ensures();
    s2.to_multiset_ensures();
    if s1.len() == 0 {
        if s2.len() > 0 {
            assert(s2.to_multiset().count(s2[0]) > 0);
        }
        assert(s1 =~= s2);
    } else {
        assert(s2.len() == s1.len());
        let x1 = s1.last();
        let x2 = s2.last();
        assert(s2.to_multiset().count(x1) > 0);
        assert(s1.to_multiset().count(x2) > 0);
        let k1 = choose|k: int| 0 <= k < s1.len() && s1[k] == x2;
        let k2 = choose|k: int| 0 <= k < s2.len() && s2[k] == x1;
        assert(leq(x2, x1)) by {
            if k1 < s1.len() - 1 {
                assert(leq(s1[k1], s1[s1.len() - 1]));
            } else {
                assert(leq(x1, x1) || leq(x1, x1));
            }
        }
        assert(leq(x1, x2)) by {
            if k2 < s2.len() - 1 {
                assert(leq(s2[k2], s2[s2.len() - 1]));
            } else {
                assert(leq(x2, x2) || leq(x2, x2));
            }
        }
        assert(x1 == x2);
        let t1 = s1.drop_last();
        let t2 = s2.drop_last();
        assert(s1 =~= t1.push(x1));
        assert(s2 =~= t2.push(x1));
        t1.to_multiset_ensures();
        t2.to_multiset_ensures();
        assert(t1.to_multiset() =~= t2.to_multiset()) by {
            assert forall|y: A| #[trigger] t1.to_multiset().count(y) == t2.to_multiset().count(y) by {
                assert(t1.push(x1).to_multiset().count(y) == t2.push(x1).to_multiset().count(y));
            }
        }
        assert forall|i: int, j: int| 0 <= i < j < t1.len() implies #[trigger] leq(t1[i], t1[j]) by {
            assert(leq(s1[i], s1[j]));
        }
        assert forall|i: int, j: int| 0 <= i < j < t2.len() implies #[trigger] leq(t2[i], t2[j]) by {
            assert(leq(s2[i], s2[j]));
        }
        lemma_sorted_unique(t1, t2, leq);
    }
}

/// Drops each element equal to the one before it.
pub open spec fn dedup_adjacent<T>(s: Seq<T>) -> Seq<T>
    decreases s.len(),
{
    if s.len() <= 1 {
        s
    } else {
        let d = dedup_adjacent(s.drop_last());
        if s.last() == s[s.len() - 2] {
            d
        } else {
            d.push(s.last())
        }
    }
}

pub proof fn lemma_dedup_last<T>(s: Seq<T>)
    requires
        s.len() > 0,
    ensures
        dedup_adjacent(s).len() > 0,
        dedup_adjacent(s).last() == s.last(),
    decreases s.len(),
{
    if s.len() > 1 {
        lemma_dedup_last(s.drop_last());
    }
}

/// Every element of the deduplicated sequence comes from the input.
pub proof fn lemma_dedup_contains<T>(s: Seq<T>)
    ensures
        forall|i: int| 0 <= i < dedup_adjacent(s).len() ==> s.contains(#[trigger] dedup_adjacent(s)[i]),
    decreases s.len(),
{
    if s.len() > 1 {
        lemma_dedup_contains(s.drop_last());
        let d = dedup_adjacent(s.drop_last());
        assert forall|i: int| 0 <= i < dedup_adjacent(s).len() implies s.contains(#[trigger] dedup_adjacent(s)[i]) by {
            if i < d.len() {
                assert(dedup_adjacent(s)[i] == d[i]);
                assert(s.drop_last().contains(d[i]));
                let j = choose|j: int| 0 <= j < s.drop_last().len() && s.drop_last()[j] == d[i];
                assert(s[j] == d[i]);
            } else {
                assert(dedup_adjacent(s)[i] == s.last());
                assert(s[s.len() - 1] == s.last());
            }
        }
    } else if s.len() == 1 {
        assert(s[0] == s[0]);
    }
}

/// Every element of the input stays in the deduplicated sequence.
pub proof fn lemma_dedup_keeps<T>(s: Seq<T>)
    ensures
        forall|x: T| s.contains(x) ==> #[trigger] dedup_adjacent(s).contains(x),
    decreases s.len(),
{
    if s.len() > 1 {
        lemma_dedup_keeps(s.drop_last());
        let d = dedup_adjacent(s.drop_last());
        let r = dedup_adjacent(s);
        if s.last() == s[s.len() - 2] {
            assert(r == d);
        } else {
            assert(r == d.push(s.last()));
        }
        assert(r.len() >= d.len());
        assert forall|k: int| 0 <= k < d.len() implies #[trigger] r[k] == d[k] by {
            if s.last() != s[s.len() - 2] {
                assert(r == d.push(s.last()));
            }
        }
        assert forall|x: T| s.contains(x) implies #[trigger] r.contains(x) by {
            let j = choose|j: int| 0 <= j < s.len() && s[j] == x;
            if j < s.len() - 1 {
                assert(s.drop_last()[j] == x);
                assert(s.drop_last().contains(x));
                assert(d.contains(x));
                let k = choose|k: int| 0 <= k < d.len() && d[k] == x;
                assert(r[k] == x);
            } else if s.last() == s[s.len() - 2] {
                assert(s.drop_last()[s.len() - 2] == x);
                assert(s.drop_last().contains(x));
                assert(d.contains(x));
                let k = choose|k: int| 0 <= k < d.len() && d[k] == x;
                assert(r[k] == x);
            } else {
                assert(r[d.len() as int] == x);
            }
        }
    }
}

/// Every element of the input stays in the stable order.
pub proof fn lemma_sorted_keeps<A>(s: Seq<A>, leq: spec_fn(A, A) -> bool)
    ensures
        forall|x: A| s.contains(x) ==> #[trigger] stable_sorted(s, leq).contains(x),
{
    lemma_stable_sorted_multiset(s, leq);
    let t = stable_sorted(s, leq);
    assert forall|x: A| s.contains(x) implies #[trigger] t.contains(x) by {
        t.to_multiset_ensures();
        s.to_multiset_ensures();
        assert(s.to_multiset().count(x) > 0);
    }
}

/// Every element of the stable order comes from the input.
pub proof fn lemma_sorted_contains<A>(s: Seq<A>, leq: spec_fn(A, A) -> bool)
    ensures
        forall|i: int| 0 <= i < stable_sorted(s, leq).len() ==> s.contains(#[trigger] stable_sorted(s, leq)[i]),
{
    lemma_stable_sorted_multiset(s, leq);
    let t = stable_sorted(s, leq);
    assert forall|i: int| 0 <= i < t.len() implies s.contains(#[trigger] t[i]) by {
        t.to_multiset_ensures();
        s.to_multiset_ensures();
        assert(t.contains(t[i]));
        assert(t.to_multiset().count(t[i]) > 0);
    }
}

/// Drops each index equal to the one before it.
pub fn dedup_indices(v: Vec<usize>) -> (r: Vec<usize>)
    ensures
        r@ == dedup_adjacent(v@),
{
    let mut out: Vec<usize> = Vec::new();
    let mut i: usize = 0;
    assert(v@.take(0) =~= Seq::<usize>::empty());
    while i < v.len()
        invariant
            i <= v.len(),
            out@ == dedup_adjacent(v@.take(i as int)),
        decreases v.len() - i,
    {
        let x = v[i];
        let ghost t = v@.take(i + 1);
        assert(t.drop_last() =~= v@.take(i as int));
        assert(t.last() == x);
        if i == 0 {
            out.push(x);
            assert(out@ =~= t);
        } else {
            proof {
                lemma_dedup_last(v@.take(i as int));
            }
            assert(t[t.len() - 2] == v@[i - 1]);
            if v[i - 1] != x {
                out.push(x);
            }
        }
        i += 1;
    }
    assert(v@.take(v.len() as int) =~= v@);
    out
}

/// Drops each pair equal to the one before it.
pub fn dedup_pairs(v: Vec<(usize, usize)>) -> (r: Vec<(usize, usize)>)
    ensures
        r@ == dedup_adjacent(v@),
{
    let mut out: Vec<(usize, usize)> = Vec::new();
    let mut i: usize = 0;
    assert(v@.take(0) =~= Seq::<(usize, usize)>::empty());
    while i < v.len()
        invariant
            i <= v.len(),
            out@ == dedup_adjacent(v@.take(i as int)),
        decreases v.len() - i,
    {
        let x = v[i];
        let ghost t = v@.take(i + 1);
        assert(t.drop_last() =~= v@.take(i as int));
        assert(t.last() == x);
        if i == 0 {
            out.push(x);
            assert(out@ =~= t);
        } else {
            proof {
                lemma_dedup_last(v@.take(i as int));
            }
            assert(t[t.len() - 2] == v@[i - 1]);
            let y = v[i - 1];
            if y.0 != x.0 || y.1 != x.1 {
                out.push(x);
            }
        }
        i += 1;
    }
    assert(v@.take(v.len() as int) =~= v@);
    out
}

/// Dropping adjacent repeats keeps a sorted sequence sorted and leaves no
/// element next to an equal one.
pub proof fn lemma_dedup_sorted<A>(s: Seq<A>, leq: spec_fn(A, A) -> bool)
    requires
        is_sorted(s, leq),
    ensures
        is_sorted(dedup_adjacent(s), leq),
        forall|k: int| 0 <= k < dedup_adjacent(s).len() - 1 ==> #[trigger] dedup_adjacent(s)[k] != dedup_adjacent(s)[k + 1],
    decreases s.len(),
{
    if s.len() > 1 {
        let t = s.drop_last();
        assert(is_sorted(t, leq)) by {
            assert forall|i: int, j: int| 0 <= i < j < t.len() implies #[trigger] leq(t[i], t[j]) by {
                assert(leq(s[i], s[j]));
            }
        }
        lemma_dedup_sorted(t, leq);
        lemma_dedup_last(t);
        lemma_dedup_contains(t);
        let d = dedup_adjacent(t);
        if s.last() != s[s.len() - 2] {
            let e = d.push(s.last());
            assert(dedup_adjacent(s) == e);
            assert forall|i: int, j: int| 0 <= i < j < e.len() implies #[trigger] leq(e[i], e[j]) by {
                if j < d.len() {
                    assert(leq(d[i], d[j]));
                } else {
                    assert(t.contains(d[i]));
                    let m = choose|m: int| 0 <= m < t.len() && t[m] == d[i];
                    assert(leq(s[m], s[s.len() - 1]));
                }
            }
            assert forall|k: int| 0 <= k < e.len() - 1 implies #[trigger] e[k] != e[k + 1] by {
                if k + 1 < d.len() {
                    assert(d[k] != d[k + 1]);
                } else {
                    assert(e[k] == d.last());
                    assert(d.last() == t.last());
                }
            }
        }
    }
}

} // verus!
