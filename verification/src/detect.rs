//! Running every detector over one program and merging their findings into
//! one report order.

use vstd::prelude::*;

use crate::call_graph::{edges_ok, CallGraph};
use crate::empty_wrapper::wrapper_findings;
use crate::false_sharing::sharing_findings;
use crate::finding::{report_order, views, Finding, FindingView};
use crate::graph::ModuleGraph;
use crate::near_duplicate::{near_duplicate_findings, FunctionCandidate};
use crate::single_use_chain::{chain_findings, chains_of, suppressed_by};
use crate::tramp_data::{usage_findings, ParamUsage};
use crate::type_clone::{type_clone_findings, TypeCandidate};
use crate::unreachable::unreachable_findings;
use crate::unreaching_test::{all_test_findings, test_order, ImportLocation};
use crate::Options;

verus! {

/// What the parsers extracted from the program's files for the detectors
/// that look inside function bodies and type declarations.
#[derive(Debug)]
pub struct Extracted {
    pub functions: Vec<FunctionCandidate>,
    pub types: Vec<TypeCandidate>,
    pub params: Vec<ParamUsage>,
    pub test_imports: Vec<ImportLocation>,
}

/// The functions that belong to a single-use chain and are left out of the
/// empty-wrapper detector.
pub open spec fn chain_members(g: ModuleGraph, calls: CallGraph, options: Options) -> Seq<bool> {
    Seq::new(calls.n(), |v: int| suppressed_by(calls, chains_of(g, calls, options.include_exported), v))
}

/// Every detector's findings, in the order the detectors run.
pub open spec fn detector_findings(g: ModuleGraph, calls: CallGraph, options: Options, x: Extracted) -> Seq<FindingView> {
    report_order(sharing_findings(g, g.display_order()))
        + report_order(chain_findings(g, calls, options.include_exported))
        + report_order(wrapper_findings(calls, chain_members(g, calls, options), calls.n() as int))
        + unreachable_findings(g, calls, options.production)
        + report_order(near_duplicate_findings(x.functions@))
        + report_order(usage_findings(calls, x.params@, x.params@.len() as int))
        + report_order(type_clone_findings(x.types@))
        + report_order(all_test_findings(g, calls, x.test_imports@, test_order(g)))
}

/// Runs every detector and puts all findings in report order (findings with
/// equal keys keep the order of the detectors).
pub fn run(modules: &ModuleGraph, calls: &CallGraph, options: &Options, extracted: &Extracted) -> (r: Vec<Finding>)
    requires
        modules.wf(),
        edges_ok(*calls),
        forall|i: int| 0 <= i < extracted.params@.len() ==> #[trigger] extracted.params@[i].function < calls.n(),
    ensures
        views(r@) == report_order(detector_findings(*modules, *calls, *options, *extracted)),
{
    let mut findings = crate::false_sharing::detect(modules);
    let (mut chains, suppressed) = crate::single_use_chain::detect(modules, calls, options);
    proof {
        crate::empty_wrapper::lemma_forward_targets_ok(*calls, suppressed@);
    }
    let mut wrappers = crate::empty_wrapper::detect_with_suppression(calls, &suppressed);
    let mut unreachable = crate::unreachable::detect(modules, calls, options);
    let mut near = crate::near_duplicate::detect(&extracted.functions);
    let mut tramps = crate::tramp_data::detect(calls, &extracted.params);
    let mut clones = crate::type_clone::detect(&extracted.types);
    let mut tests = crate::unreaching_test::detect(modules, calls, options, &extracted.test_imports);
    let ghost parts = seq![
        views(findings@),
        views(chains@),
        views(wrappers@),
        views(unreachable@),
        views(near@),
        views(tramps@),
        views(clones@),
        views(tests@),
    ];
    findings.append(&mut chains);
    findings.append(&mut wrappers);
    findings.append(&mut unreachable);
    findings.append(&mut near);
    findings.append(&mut tramps);
    findings.append(&mut clones);
    findings.append(&mut tests);
    assert(views(findings@) =~= parts[0] + parts[1] + parts[2] + parts[3] + parts[4] + parts[5] + parts[6] + parts[7]);
    crate::finding::sort_findings(findings)
}

} // verus!
