//! Findings: one instance of a shape in one program, and the order in which
//! a report lists them.

use vstd::prelude::*;

use crate::order::{lemma_stable_sorted_map, stable_sort, stable_sorted, total_preorder, KeyOrder};
use crate::program::{
    compare_paths, lemma_comps_order_equal, lemma_comps_order_flip, lemma_comps_order_trans,
    path_order, components,
};
use crate::text::{compare_strings, lemma_lex_order_equal, lemma_lex_order_flip, lemma_lex_order_trans, lex_order, Rel};

verus! {

/// Canonical shape name.
#[derive(Debug, Clone, Copy, PartialEq, Eq, PartialOrd, Ord)]
pub enum Shape {
    EmptyWrapper,
    FalseSharing,
    NearDuplicate,
    SingleUseChain,
    TrampData,
    TypeClone,
    Unreachable,
    UnreachingTest,
}

/// The heading text of a shape's card.
pub open spec fn heading_text(shape: Shape) -> Seq<char> {
    match shape {
        Shape::EmptyWrapper => "EMPTY WRAPPER"@,
        Shape::FalseSharing => "FALSE SHARING"@,
        Shape::NearDuplicate => "NEAR-DUPLICATE"@,
        Shape::SingleUseChain => "SINGLE-USE CHAIN"@,
        Shape::TrampData => "TRAMP DATA"@,
        Shape::TypeClone => "TYPE CLONE"@,
        Shape::Unreachable => "UNREACHABLE"@,
        Shape::UnreachingTest => "UNREACHING TEST"@,
    }
}

impl Shape {
    pub fn heading(self) -> (r: &'static str)
        ensures
            r@ == heading_text(self),
    {
        match self {
            Shape::EmptyWrapper => "EMPTY WRAPPER",
            Shape::FalseSharing => "FALSE SHARING",
            Shape::NearDuplicate => "NEAR-DUPLICATE",
            Shape::SingleUseChain => "SINGLE-USE CHAIN",
            Shape::TrampData => "TRAMP DATA",
            Shape::TypeClone => "TYPE CLONE",
            Shape::Unreachable => "UNREACHABLE",
            Shape::UnreachingTest => "UNREACHING TEST",
        }
    }
}

/// File and span of the subject.
#[derive(Debug, PartialEq, Eq)]
pub struct Location {
    pub file: String,
    pub line: u32,
    pub span_start: u32,
}

/// One node on an ASCII evidence path.
#[derive(Debug, PartialEq, Eq)]
pub struct PathNode {
    pub label: String,
    pub annotation: Option<String>,
    pub is_subject: bool,
}

/// Shape-specific proof a human can check. No remedy.
#[derive(Debug, PartialEq, Eq)]
pub enum Evidence {
    Path { nodes: Vec<PathNode> },
}

/// One instance of a shape in one program.
#[derive(Debug, PartialEq, Eq)]
pub struct Finding {
    pub shape: Shape,
    pub location: Location,
    pub subject: String,
    pub evidence: Evidence,
}

/// The abstract content of a path node.
pub struct NodeView {
    pub label: Seq<char>,
    pub annotation: Option<Seq<char>>,
    pub is_subject: bool,
}

/// The abstract content of a finding.
pub struct FindingView {
    pub shape: Shape,
    pub file: Seq<char>,
    pub line: u32,
    pub span_start: u32,
    pub subject: Seq<char>,
    pub nodes: Seq<NodeView>,
}

pub open spec fn opt_view(o: Option<String>) -> Option<Seq<char>> {
    match o {
        Some(s) => Some(s@),
        None => None,
    }
}

impl View for PathNode {
    type V = NodeView;

    open spec fn view(&self) -> NodeView {
        NodeView { label: self.label@, annotation: opt_view(self.annotation), is_subject: self.is_subject }
    }
}

impl View for Finding {
    type V = FindingView;

    open spec fn view(&self) -> FindingView {
        FindingView {
            shape: self.shape,
            file: self.location.file@,
            line: self.location.line,
            span_start: self.location.span_start,
            subject: self.subject@,
            nodes: match self.evidence {
                Evidence::Path { nodes } => nodes@.map_values(|n: PathNode| n@),
            },
        }
    }
}

/// The abstract contents of a sequence of findings.
pub open spec fn views(s: Seq<Finding>) -> Seq<FindingView> {
    s.map_values(|f: Finding| f@)
}

/// A node without annotation.
pub open spec fn node(label: Seq<char>, is_subject: bool) -> NodeView {
    NodeView { label, annotation: None, is_subject }
}

/// Report order: by file (as paths compare), then span start, then subject.
pub open spec fn finding_order(a: FindingView, b: FindingView) -> Rel {
    match path_order(a.file, b.file) {
        Rel::Equal => if a.span_start < b.span_start {
            Rel::Less
        } else if a.span_start > b.span_start {
            Rel::Greater
        } else {
            lex_order(a.subject, b.subject)
        },
        r => r,
    }
}

/// The report order as a relation on findings' contents.
pub open spec fn view_leq() -> spec_fn(FindingView, FindingView) -> bool {
    |a: FindingView, b: FindingView| finding_order(a, b) != Rel::Greater
}

/// The report order as a relation on findings.
pub open spec fn finding_leq() -> spec_fn(Finding, Finding) -> bool {
    |a: Finding, b: Finding| finding_order(a@, b@) != Rel::Greater
}

/// Findings' contents in report order, ties kept in the order they were produced.
pub open spec fn report_order(s: Seq<FindingView>) -> Seq<FindingView> {
    stable_sorted(s, view_leq())
}

proof fn lemma_finding_order_props(a: FindingView, b: FindingView, c: FindingView)
    ensures
        finding_order(a, b) == Rel::Less <==> finding_order(b, a) == Rel::Greater,
        finding_order(a, b) != Rel::Greater && finding_order(b, c) != Rel::Greater ==> finding_order(a, c) != Rel::Greater,
{
    let (fa, fb, fc) = (components(a.file), components(b.file), components(c.file));
    lemma_comps_order_flip(fa, fb);
    lemma_comps_order_flip(fb, fa);
    lemma_comps_order_flip(fa, fc);
    lemma_comps_order_flip(fc, fa);
    lemma_comps_order_flip(fb, fc);
    lemma_comps_order_flip(fc, fb);
    lemma_comps_order_equal(fa, fb);
    lemma_comps_order_equal(fb, fc);
    lemma_comps_order_equal(fa, fc);
    lemma_lex_order_flip(a.subject, b.subject);
    lemma_lex_order_flip(b.subject, a.subject);
    lemma_lex_order_flip(a.subject, c.subject);
    lemma_lex_order_flip(c.subject, a.subject);
    lemma_lex_order_flip(b.subject, c.subject);
    lemma_lex_order_flip(c.subject, b.subject);
    lemma_lex_order_equal(a.subject, b.subject);
    lemma_lex_order_equal(b.subject, c.subject);
    lemma_lex_order_equal(a.subject, c.subject);
    if path_order(a.file, b.file) == Rel::Less && path_order(b.file, c.file) == Rel::Less {
        lemma_comps_order_trans(fa, fb, fc);
    }
    if lex_order(a.subject, b.subject) == Rel::Less && lex_order(b.subject, c.subject) == Rel::Less {
        lemma_lex_order_trans(a.subject, b.subject, c.subject);
    }
}

/// The report order is a total preorder.
pub proof fn lemma_view_leq_total_preorder()
    ensures
        total_preorder(view_leq()),
{
    assert forall|a: FindingView, b: FindingView| #[trigger] view_leq()(a, b) || #[trigger] view_leq()(b, a) by {
        lemma_finding_order_props(a, b, b);
    }
    assert forall|a: FindingView, b: FindingView, c: FindingView| #[trigger] view_leq()(a, b) && #[trigger] view_leq()(b, c) implies view_leq()(a, c) by {
        lemma_finding_order_props(a, b, c);
    }
}

/// A report lists its findings sorted by file, then span start, then
/// subject, and it lists exactly the findings it was given.
pub proof fn law_report_order(s: Seq<FindingView>)
    ensures
        crate::order::is_sorted(report_order(s), view_leq()),
        report_order(s).to_multiset() == s.to_multiset(),
        report_order(s).len() == s.len(),
{
    lemma_view_leq_total_preorder();
    crate::order::lemma_stable_sorted_is_sorted(s, view_leq());
    crate::order::lemma_stable_sorted_multiset(s, view_leq());
}

/// Three-way comparison of two findings in report order.
pub fn compare_findings(a: &Finding, b: &Finding) -> (r: Rel)
    ensures
        r == finding_order(a@, b@),
{
    match compare_paths(a.location.file.as_str(), b.location.file.as_str()) {
        Rel::Equal => {
            if a.location.span_start < b.location.span_start {
                Rel::Less
            } else if a.location.span_start > b.location.span_start {
                Rel::Greater
            } else {
                compare_strings(a.subject.as_str(), b.subject.as_str())
            }
        },
        r => r,
    }
}

/// Sorts findings into report order; findings with equal keys keep their order.
pub fn sort_findings(v: Vec<Finding>) -> (r: Vec<Finding>)
    ensures
        views(r@) == report_order(views(v@)),
{
    let r = stable_sort(&ReportOrder, v);
    proof {
        lemma_stable_sorted_map(v@, finding_leq(), |f: Finding| f@, view_leq());
        assert(views(v@) == v@.map_values(|f: Finding| f@));
    }
    r
}

/// The report order of findings.
pub struct ReportOrder;

impl KeyOrder<Finding> for ReportOrder {
    open spec fn admits(&self, x: Finding) -> bool {
        true
    }

    open spec fn leq(&self) -> spec_fn(Finding, Finding) -> bool {
        finding_leq()
    }

    fn le(&self, a: &Finding, b: &Finding) -> (r: bool) {
        match compare_findings(a, b) {
            Rel::Greater => false,
            _ => true,
        }
    }
}

} // verus!
