use vstd::prelude::*;

pub mod call_graph;
pub mod canonical;
pub mod detect;
pub mod empty_wrapper;
pub mod entry;
pub mod error;
pub mod extract;
pub mod false_sharing;
pub mod finding;
pub mod graph;
pub mod graph_build;
pub mod linking;
pub mod near_duplicate;
pub mod order;
pub mod parse;
pub mod program;
pub mod reach;
pub mod report;
pub mod single_use_chain;
pub mod style;
pub mod syntax;
pub mod type_clone;
pub mod text;
pub mod tramp_data;
pub mod tsgo;
pub mod unreachable;
pub mod unreaching_test;

verus! {

/// Detector switches.
#[derive(Debug, Clone, Copy, PartialEq, Eq)]
pub struct Options {
    /// Remove test roots for unreachable detection.
    pub production: bool,
    /// Include exported functions in single-use chain detection.
    pub include_exported: bool,
}

impl Default for Options {
    fn default() -> (r: Self)
        ensures
            r == (Options { production: false, include_exported: false }),
    {
        Options { production: false, include_exported: false }
    }
}

/// How many oxc call nodes mapped onto a tsgo `getResolvedSignature` result.
#[derive(Debug, Clone, Copy, PartialEq, Eq)]
pub struct ResolvedCallCounts {
    pub calls: usize,
    pub resolved: usize,
}

/// The report of one program: every detector's findings in report order, rendered.
pub fn analyze(
    modules: &graph::ModuleGraph,
    calls: &call_graph::CallGraph,
    options: &Options,
    extracted: &detect::Extracted,
) -> (r: String)
    requires
        modules.wf(),
        call_graph::edges_ok(*calls),
        forall|i: int| 0 <= i < extracted.params@.len() ==> #[trigger] extracted.params@[i].function < calls.n(),
    ensures
        r@ == report::report_text(
            finding::report_order(detect::detector_findings(*modules, *calls, *options, *extracted)),
            detect::detector_findings(*modules, *calls, *options, *extracted).len() as int,
        ),
{
    let findings = detect::run(modules, calls, options, extracted);
    proof {
        let fs = detect::detector_findings(*modules, *calls, *options, *extracted);
        order::lemma_stable_sorted_len(fs, finding::view_leq());
        assert(findings@.map_values(|f: finding::Finding| f@) == finding::views(findings@));
    }
    report::render(findings.as_slice())
}

/// How many calls the call graph saw, and how many resolved to a function of the program.
pub fn resolved_call_counts(calls: &call_graph::CallGraph) -> (r: ResolvedCallCounts)
    ensures
        r == (ResolvedCallCounts { calls: calls.calls, resolved: calls.resolved }),
{
    ResolvedCallCounts { calls: calls.calls, resolved: calls.resolved }
}

} // verus!
