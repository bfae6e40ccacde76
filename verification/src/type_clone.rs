//! Type clones: two distinct object types with the same fields (names,
//! optionality, readonly-ness and canonical types), no `extends` link, and at
//! least three fields.

use vstd::prelude::*;

use crate::finding::{node, report_order, views, Evidence, Finding, FindingView, Location, PathNode, Shape};
use crate::order::{stable_sort, stable_sorted, KeyOrder};
use crate::program::{compare_paths, components, path_order, same_path};
use crate::text::{compare_strings, lex_order, str_eq, Rel};

verus! {

pub const MIN_FIELDS: usize = 3;

/// One field of an object type, its type in canonical text.
#[derive(Debug)]
pub struct Field {
    pub name: String,
    pub optional: bool,
    pub readonly: bool,
    pub canonical_type: String,
}

/// An interface or type alias of the program.
#[derive(Debug)]
pub struct TypeCandidate {
    pub abs: String,
    pub display: String,
    pub name: String,
    pub line: u32,
    pub span_start: u32,
    pub has_extends: bool,
    pub fields: Vec<Field>,
}

/// The abstract content of a field.
pub struct FieldView {
    pub name: Seq<char>,
    pub optional: bool,
    pub readonly: bool,
    pub canonical_type: Seq<char>,
}

impl View for Field {
    type V = FieldView;

    open spec fn view(&self) -> FieldView {
        FieldView {
            name: self.name@,
            optional: self.optional,
            readonly: self.readonly,
            canonical_type: self.canonical_type@,
        }
    }
}

/// The fields of a candidate by their contents.
pub open spec fn field_views(c: TypeCandidate) -> Seq<FieldView> {
    c.fields@.map_values(|f: Field| f@)
}

/// Candidate order: by display path, then span start, then name.
pub open spec fn candidate_rel(a: TypeCandidate, b: TypeCandidate) -> Rel {
    match path_order(a.display@, b.display@) {
        Rel::Equal => if a.span_start < b.span_start {
            Rel::Less
        } else if a.span_start > b.span_start {
            Rel::Greater
        } else {
            lex_order(a.name@, b.name@)
        },
        r => r,
    }
}

/// Candidate order on indices into `cs`.
pub open spec fn candidate_leq(cs: Seq<TypeCandidate>) -> spec_fn(usize, usize) -> bool {
    |a: usize, b: usize| candidate_rel(cs[a as int], cs[b as int]) != Rel::Greater
}

/// Whether a candidate may be a clone: no `extends` and at least `MIN_FIELDS` fields.
pub open spec fn eligible(c: TypeCandidate) -> bool {
    !c.has_extends && c.fields@.len() >= MIN_FIELDS
}

/// Indices below `k` of the eligible candidates, in order.
pub open spec fn eligible_candidates(cs: Seq<TypeCandidate>, k: int) -> Seq<usize>
    decreases k,
{
    if k <= 0 {
        Seq::empty()
    } else {
        let p = eligible_candidates(cs, k - 1);
        if eligible(cs[k - 1]) {
            p.push((k - 1) as usize)
        } else {
            p
        }
    }
}

/// The eligible candidates in candidate order (ties kept in input order).
pub open spec fn candidate_sequence(cs: Seq<TypeCandidate>) -> Seq<usize> {
    stable_sorted(eligible_candidates(cs, cs.len() as int), candidate_leq(cs))
}

/// Whether `b` is a clone of `a`: distinct types (not the same name in the
/// same file), both eligible, equal fields.
pub open spec fn clones(a: TypeCandidate, b: TypeCandidate) -> bool {
    &&& !(a.name@ == b.name@ && components(a.abs@) == components(b.abs@))
    &&& eligible(a)
    &&& eligible(b)
    &&& field_views(a) == field_views(b)
}

/// The finding for the pair `a`, `b`, located at `a`.
pub open spec fn pair_finding(a: TypeCandidate, b: TypeCandidate) -> FindingView {
    FindingView {
        shape: Shape::TypeClone,
        file: a.display@,
        line: a.line,
        span_start: a.span_start,
        subject: a.name@,
        nodes: seq![node(a.name@, true), node(b.name@, false)],
    }
}

/// Findings for the pairs `(i, j)` with `i < j < m` of the sequence `order`.
pub open spec fn row_findings(cs: Seq<TypeCandidate>, order: Seq<usize>, i: int, m: int) -> Seq<FindingView>
    decreases m - i,
{
    if m <= i + 1 {
        Seq::empty()
    } else {
        let p = row_findings(cs, order, i, m - 1);
        let (a, b) = (cs[order[i] as int], cs[order[m - 1] as int]);
        if clones(a, b) {
            p.push(pair_finding(a, b))
        } else {
            p
        }
    }
}

/// Findings for the pairs whose first member is among the first `k` of `order`.
pub open spec fn pair_findings(cs: Seq<TypeCandidate>, order: Seq<usize>, k: int) -> Seq<FindingView>
    decreases k,
{
    if k <= 0 {
        Seq::empty()
    } else {
        pair_findings(cs, order, k - 1) + row_findings(cs, order, k - 1, order.len() as int)
    }
}

/// All type-clone findings among the candidates, in the order they are found.
pub open spec fn type_clone_findings(cs: Seq<TypeCandidate>) -> Seq<FindingView> {
    let order = candidate_sequence(cs);
    pair_findings(cs, order, order.len() as int)
}

/// Being a type clone does not depend on which of the two types comes first.
pub proof fn law_clones_symmetric(a: TypeCandidate, b: TypeCandidate)
    ensures
        clones(a, b) == clones(b, a),
{
}

fn compare_candidates(a: &TypeCandidate, b: &TypeCandidate) -> (r: Rel)
    ensures
        r == candidate_rel(*a, *b),
{
    match compare_paths(a.display.as_str(), b.display.as_str()) {
        Rel::Equal => {
            if a.span_start < b.span_start {
                Rel::Less
            } else if a.span_start > b.span_start {
                Rel::Greater
            } else {
                compare_strings(a.name.as_str(), b.name.as_str())
            }
        },
        r => r,
    }
}

/// Candidate indices ordered by their candidates.
pub struct ByCandidate<'a> {
    pub cands: &'a Vec<TypeCandidate>,
}

impl<'a> KeyOrder<usize> for ByCandidate<'a> {
    open spec fn admits(&self, x: usize) -> bool {
        x < self.cands.len()
    }

    open spec fn leq(&self) -> spec_fn(usize, usize) -> bool {
        candidate_leq(self.cands@)
    }

    fn le(&self, a: &usize, b: &usize) -> (r: bool) {
        match compare_candidates(&self.cands[*a], &self.cands[*b]) {
            Rel::Greater => false,
            _ => true,
        }
    }
}

proof fn lemma_eligible_ok(cs: Seq<TypeCandidate>, k: int)
    requires
        k <= cs.len(),
    ensures
        forall|i: int| 0 <= i < eligible_candidates(cs, k).len() ==> #[trigger] eligible_candidates(cs, k)[i] < k,
    decreases k,
{
    if k > 0 {
        lemma_eligible_ok(cs, k - 1);
        let p = eligible_candidates(cs, k - 1);
        assert forall|i: int| 0 <= i < eligible_candidates(cs, k).len() implies #[trigger] eligible_candidates(cs, k)[i] < k by {
            if i < p.len() {
                assert(eligible_candidates(cs, k)[i] == p[i]);
            }
        }
    }
}

proof fn lemma_sorted_in_range(s: Seq<usize>, leq: spec_fn(usize, usize) -> bool, n: int)
    requires
        forall|i: int| 0 <= i < s.len() ==> #[trigger] s[i] < n,
    ensures
        forall|i: int| 0 <= i < stable_sorted(s, leq).len() ==> #[trigger] stable_sorted(s, leq)[i] < n,
{
    crate::order::lemma_stable_sorted_multiset(s, leq);
    let t = stable_sorted(s, leq);
    assert forall|i: int| 0 <= i < t.len() implies #[trigger] t[i] < n by {
        t.to_multiset_ensures();
        s.to_multiset_ensures();
        assert(t.to_multiset().count(t[i]) > 0);
        assert(s.contains(t[i]));
    }
}

/// Whether two fields are equal in every part.
fn same_field(a: &Field, b: &Field) -> (r: bool)
    ensures
        r == (a@ == b@),
{
    str_eq(a.name.as_str(), b.name.as_str()) && a.optional == b.optional && a.readonly == b.readonly
        && str_eq(a.canonical_type.as_str(), b.canonical_type.as_str())
}

/// Whether two field lists are equal, field by field.
fn same_fields(a: &Vec<Field>, b: &Vec<Field>) -> (r: bool)
    ensures
        r == (a@.map_values(|f: Field| f@) == b@.map_values(|f: Field| f@)),
{
    if a.len() != b.len() {
        assert(a@.map_values(|f: Field| f@).len() != b@.map_values(|f: Field| f@).len());
        return false;
    }
    let mut i: usize = 0;
    while i < a.len()
        invariant
            a.len() == b.len(),
            i <= a.len(),
            forall|k: int| 0 <= k < i ==> a@[k]@ == b@[k]@,
        decreases a.len() - i,
    {
        if !same_field(&a[i], &b[i]) {
            assert(a@.map_values(|f: Field| f@)[i as int] != b@.map_values(|f: Field| f@)[i as int]);
            return false;
        }
        i += 1;
    }
    assert(a@.map_values(|f: Field| f@) =~= b@.map_values(|f: Field| f@));
    true
}

/// Type-clone pairs among the candidates: candidates with `extends` or fewer
/// than `MIN_FIELDS` fields are dropped, the rest put in candidate order, and
/// each pair `a` before `b` of distinct types with equal fields gives a
/// finding located at `a`.
pub fn detect(candidates: &Vec<TypeCandidate>) -> (r: Vec<Finding>)
    ensures
        views(r@) == report_order(type_clone_findings(candidates@)),
{
    let ghost cs = candidates@;
    let mut keep: Vec<usize> = Vec::new();
    let mut k: usize = 0;
    while k < candidates.len()
        invariant
            cs == candidates@,
            k <= candidates.len(),
            keep@ == eligible_candidates(cs, k as int),
        decreases candidates.len() - k,
    {
        if !candidates[k].has_extends && candidates[k].fields.len() >= MIN_FIELDS {
            keep.push(k);
        }
        k += 1;
    }
    proof {
        lemma_eligible_ok(cs, cs.len() as int);
        lemma_sorted_in_range(eligible_candidates(cs, cs.len() as int), candidate_leq(cs), cs.len() as int);
    }
    let ctx = ByCandidate { cands: candidates };
    let order = stable_sort(&ctx, keep);
    let n = order.len();
    let mut findings: Vec<Finding> = Vec::new();
    let mut i: usize = 0;
    while i < n
        invariant
            cs == candidates@,
            n == order.len(),
            order@ == candidate_sequence(cs),
            forall|q: int| 0 <= q < n ==> #[trigger] order@[q] < cs.len(),
            i <= n,
            views(findings@) == pair_findings(cs, order@, i as int),
        decreases n - i,
    {
        let a = &candidates[order[i]];
        let mut j: usize = i + 1;
        let ghost base = views(findings@);
        while j < n
            invariant
                cs == candidates@,
                n == order.len(),
                forall|q: int| 0 <= q < n ==> #[trigger] order@[q] < cs.len(),
                i < n,
                i + 1 <= j <= n,
                *a == cs[order@[i as int] as int],
                views(findings@) == base + row_findings(cs, order@, i as int, j as int),
            decreases n - j,
        {
            let b = &candidates[order[j]];
            let ghost before = views(findings@);
            let same_type = str_eq(a.name.as_str(), b.name.as_str()) && same_path(a.abs.as_str(), b.abs.as_str());
            if !same_type && !a.has_extends && !b.has_extends && a.fields.len() >= MIN_FIELDS
                && b.fields.len() >= MIN_FIELDS && same_fields(&a.fields, &b.fields) {
                let f = Finding {
                    shape: Shape::TypeClone,
                    location: Location { file: a.display.clone(), line: a.line, span_start: a.span_start },
                    subject: a.name.clone(),
                    evidence: Evidence::Path {
                        nodes: vec![
                            PathNode { label: a.name.clone(), annotation: None, is_subject: true },
                            PathNode { label: b.name.clone(), annotation: None, is_subject: false },
                        ],
                    },
                };
                assert(f@ == pair_finding(*a, *b)) by {
                    assert(f@.nodes =~= pair_finding(*a, *b).nodes);
                }
                findings.push(f);
                assert(views(findings@) =~= before.push(f@));
            }
            assert(views(findings@) =~= base + row_findings(cs, order@, i as int, j + 1));
            j += 1;
        }
        assert(views(findings@) =~= pair_findings(cs, order@, i + 1));
        i += 1;
    }
    crate::finding::sort_findings(findings)
}

/// An interface: its fields are those its members declare, sorted; it has
/// an `extends` link when it extends anything.
pub fn interface_candidate(
    abs: String,
    display: String,
    name: String,
    line: u32,
    span_start: u32,
    has_extends: bool,
    members: &Vec<crate::canonical::Member>,
) -> (r: TypeCandidate)
    ensures
        r.abs == abs,
        r.display == display,
        r.name == name,
        r.line == line,
        r.span_start == span_start,
        r.has_extends == has_extends,
        field_views(r) == stable_sorted(crate::canonical::fields_of(members@), crate::canonical::field_leq()),
{
    let fields = crate::canonical::sort_fields(crate::canonical::fields_of_exec(members));
    TypeCandidate { abs, display, name, line, span_start, has_extends, fields }
}

/// A type alias: an object type gives a candidate with its sorted fields;
/// an intersection gives one that counts as extending; others give none.
pub fn alias_candidate(
    abs: String,
    display: String,
    name: String,
    line: u32,
    span_start: u32,
    ty: &crate::canonical::TypeExpr,
) -> (r: Option<TypeCandidate>)
    ensures
        match *ty {
            crate::canonical::TypeExpr::Object(ms) => r matches Some(c) && c.abs == abs && c.display == display
                && c.name == name && c.line == line && c.span_start == span_start && !c.has_extends && field_views(c)
                == stable_sorted(crate::canonical::fields_of(ms@), crate::canonical::field_leq()),
            crate::canonical::TypeExpr::Intersection(_) => r matches Some(c) && c.abs == abs && c.display == display
                && c.name == name && c.line == line && c.span_start == span_start && c.has_extends && c.fields@.len()
                == 0,
            _ => r is None,
        },
{
    match ty {
        crate::canonical::TypeExpr::Object(members) => {
            Some(interface_candidate(abs, display, name, line, span_start, false, members))
        },
        crate::canonical::TypeExpr::Intersection(_) => {
            Some(TypeCandidate { abs, display, name, line, span_start, has_extends: true, fields: Vec::new() })
        },
        _ => None,
    }
}

/// Candidates `order[i]` and `order[j]` are clones and `f` is their finding.
pub open spec fn found_pair(cs: Seq<TypeCandidate>, order: Seq<usize>, f: FindingView, i: int, j: int) -> bool {
    clones(cs[order[i] as int], cs[order[j] as int]) && f == pair_finding(cs[order[i] as int], cs[order[j] as int])
}

proof fn lemma_row_findings(cs: Seq<TypeCandidate>, order: Seq<usize>, i: int, m: int)
    requires
        0 <= i,
        m <= order.len(),
    ensures
        forall|f: FindingView| #[trigger] row_findings(cs, order, i, m).contains(f) <==> exists|j: int| i < j < m && #[trigger] found_pair(cs, order, f, i, j),
    decreases m - i,
{
    if m > i + 1 {
        let p = row_findings(cs, order, i, m - 1);
        let r = row_findings(cs, order, i, m);
        lemma_row_findings(cs, order, i, m - 1);
        let (a, b) = (cs[order[i] as int], cs[order[m - 1] as int]);
        assert forall|f: FindingView| #[trigger] r.contains(f) <==> exists|j: int| i < j < m && #[trigger] found_pair(cs, order, f, i, j) by {
            if clones(a, b) {
                assert(r == p.push(pair_finding(a, b)));
                if r.contains(f) {
                    let k = choose|k: int| 0 <= k < r.len() && r[k] == f;
                    if k < p.len() {
                        assert(p[k] == f);
                        assert(p.contains(f));
                    } else {
                        assert(found_pair(cs, order, f, i, m - 1));
                    }
                }
                if exists|j: int| i < j < m && #[trigger] found_pair(cs, order, f, i, j) {
                    let j = choose|j: int| i < j < m && #[trigger] found_pair(cs, order, f, i, j);
                    if j < m - 1 {
                        assert(p.contains(f));
                        let k = choose|k: int| 0 <= k < p.len() && p[k] == f;
                        assert(r[k] == f);
                    } else {
                        assert(r[p.len() as int] == f);
                    }
                }
            } else {
                assert(r == p);
                if exists|j: int| i < j < m && #[trigger] found_pair(cs, order, f, i, j) {
                    let j = choose|j: int| i < j < m && #[trigger] found_pair(cs, order, f, i, j);
                    assert(j < m - 1);
                }
            }
        }
    }
}

proof fn lemma_pair_findings(cs: Seq<TypeCandidate>, order: Seq<usize>, k: int)
    requires
        k <= order.len(),
    ensures
        forall|f: FindingView| #[trigger] pair_findings(cs, order, k).contains(f) <==> exists|i: int, j: int|
            0 <= i < k && i < j < order.len() && #[trigger] found_pair(cs, order, f, i, j),
    decreases k,
{
    if k > 0 {
        let p = pair_findings(cs, order, k - 1);
        let q = row_findings(cs, order, k - 1, order.len() as int);
        let r = pair_findings(cs, order, k);
        lemma_pair_findings(cs, order, k - 1);
        lemma_row_findings(cs, order, k - 1, order.len() as int);
        assert(r == p + q);
        assert forall|f: FindingView| #[trigger] r.contains(f) <==> exists|i: int, j: int|
            0 <= i < k && i < j < order.len() && #[trigger] found_pair(cs, order, f, i, j) by {
            if r.contains(f) {
                let n = choose|n: int| 0 <= n < r.len() && r[n] == f;
                if n < p.len() {
                    assert(p[n] == f);
                    assert(p.contains(f));
                } else {
                    assert(q[n - p.len()] == f);
                    assert(q.contains(f));
                }
            }
            if exists|i: int, j: int| 0 <= i < k && i < j < order.len() && #[trigger] found_pair(cs, order, f, i, j) {
                let (i, j) = choose|i: int, j: int| 0 <= i < k && i < j < order.len() && #[trigger] found_pair(cs, order, f, i, j);
                if i < k - 1 {
                    assert(p.contains(f));
                    let n = choose|n: int| 0 <= n < p.len() && p[n] == f;
                    assert(r[n] == f);
                } else {
                    assert(q.contains(f));
                    let n = choose|n: int| 0 <= n < q.len() && q[n] == f;
                    assert(r[p.len() + n] == f);
                }
            }
        }
    }
}

proof fn lemma_eligible_members(cs: Seq<TypeCandidate>, k: int)
    requires
        0 <= k <= cs.len(),
        cs.len() <= usize::MAX,
    ensures
        forall|x: usize| #[trigger] eligible_candidates(cs, k).contains(x) <==> x < k && eligible(cs[x as int]),
    decreases k,
{
    if k > 0 {
        let p = eligible_candidates(cs, k - 1);
        let r = eligible_candidates(cs, k);
        lemma_eligible_members(cs, k - 1);
        assert forall|x: usize| #[trigger] r.contains(x) <==> x < k && eligible(cs[x as int]) by {
            if eligible(cs[k - 1]) {
                assert(r == p.push((k - 1) as usize));
                if r.contains(x) {
                    let n = choose|n: int| 0 <= n < r.len() && r[n] == x;
                    if n < p.len() {
                        assert(p[n] == x);
                        assert(p.contains(x));
                    }
                }
                if x < k && eligible(cs[x as int]) {
                    if x < k - 1 {
                        assert(p.contains(x));
                        let n = choose|n: int| 0 <= n < p.len() && p[n] == x;
                        assert(r[n] == x);
                    } else {
                        assert(r[p.len() as int] == x);
                    }
                }
            } else {
                assert(r == p);
            }
        }
    }
}

/// The candidate order holds exactly the eligible candidates (no `extends`,
/// at least three fields), and a finding is reported exactly for each pair
/// of clones in that order, located at the earlier of the two.
pub proof fn law_type_clone_pairs(cs: Seq<TypeCandidate>)
    requires
        cs.len() <= usize::MAX,
    ensures
        forall|x: usize| #[trigger] candidate_sequence(cs).contains(x) <==> x < cs.len() && eligible(cs[x as int]),
        forall|f: FindingView| #[trigger] type_clone_findings(cs).contains(f) <==> exists|i: int, j: int|
            0 <= i < j < candidate_sequence(cs).len() && #[trigger] found_pair(cs, candidate_sequence(cs), f, i, j),
{
    let e = eligible_candidates(cs, cs.len() as int);
    let order = candidate_sequence(cs);
    lemma_eligible_members(cs, cs.len() as int);
    crate::order::lemma_sorted_keeps(e, candidate_leq(cs));
    crate::order::lemma_sorted_contains(e, candidate_leq(cs));
    assert forall|x: usize| #[trigger] order.contains(x) implies e.contains(x) by {
        let n = choose|n: int| 0 <= n < order.len() && order[n] == x;
        assert(e.contains(order[n]));
    }
    lemma_pair_findings(cs, order, order.len() as int);
}

/// Type clones are found anywhere in the program: every type with no
/// `extends` and at least `MIN_FIELDS` fields is compared, and a pair, the
/// earlier one first, is reported exactly when the two are not one type
/// (the same name in the same file) and their fields are equal; types of the
/// same name in different files do pair.
pub proof fn law_type_clones_anywhere(cs: Seq<TypeCandidate>)
    requires
        cs.len() <= usize::MAX,
    ensures
        forall|x: usize| #[trigger] candidate_sequence(cs).contains(x) <==> x < cs.len() && !cs[x as int].has_extends
            && cs[x as int].fields@.len() >= MIN_FIELDS,
        forall|i: int, j: int|
            0 <= i < j < candidate_sequence(cs).len() && !(cs[candidate_sequence(cs)[i] as int].name@ == cs[candidate_sequence(
                cs,
            )[j] as int].name@ && components(cs[candidate_sequence(cs)[i] as int].abs@) == components(
                cs[candidate_sequence(cs)[j] as int].abs@,
            )) && field_views(cs[candidate_sequence(cs)[i] as int]) == field_views(cs[candidate_sequence(cs)[j] as int])
                ==> #[trigger] type_clone_findings(cs).contains(
                pair_finding(cs[candidate_sequence(cs)[i] as int], cs[candidate_sequence(cs)[j] as int]),
            ),
        forall|f: FindingView| #[trigger] type_clone_findings(cs).contains(f) ==> exists|i: int, j: int|
            0 <= i < j < candidate_sequence(cs).len() && field_views(cs[candidate_sequence(cs)[i] as int]) == field_views(
                cs[candidate_sequence(cs)[j] as int],
            ) && f == #[trigger] pair_finding(cs[candidate_sequence(cs)[i] as int], cs[candidate_sequence(cs)[j] as int]),
{
    law_type_clone_pairs(cs);
    let order = candidate_sequence(cs);
    let fs = type_clone_findings(cs);
    assert forall|i: int, j: int|
        0 <= i < j < order.len() && !(cs[order[i] as int].name@ == cs[order[j] as int].name@ && components(
            cs[order[i] as int].abs@,
        ) == components(cs[order[j] as int].abs@)) && field_views(cs[order[i] as int]) == field_views(cs[order[j] as int])
            implies #[trigger] fs.contains(pair_finding(cs[order[i] as int], cs[order[j] as int])) by {
        assert(order.contains(order[i]));
        assert(order.contains(order[j]));
        assert(found_pair(cs, order, pair_finding(cs[order[i] as int], cs[order[j] as int]), i, j));
    }
    assert forall|f: FindingView| #[trigger] fs.contains(f) implies exists|i: int, j: int|
        0 <= i < j < order.len() && field_views(cs[order[i] as int]) == field_views(cs[order[j] as int]) && f
            == #[trigger] pair_finding(cs[order[i] as int], cs[order[j] as int]) by {
        let (i, j) = choose|i: int, j: int| 0 <= i < j < order.len() && #[trigger] found_pair(cs, order, f, i, j);
        assert(f == pair_finding(cs[order[i] as int], cs[order[j] as int]));
    }
}

} // verus!
