//! The human-text report: findings grouped by file, each as a card with a
//! heading, its subject and line, a one-sentence summary and the evidence
//! path drawn in ASCII.

use vstd::prelude::*;

use crate::finding::{heading_text, Evidence, Finding, FindingView, NodeView, PathNode, Shape};
use crate::program::{components, same_path};
use crate::text::{append_decimal, append_str, chars_end_with_str, chars_of, decimal, ends_with, str_eq};

verus! {

/// The line of an evidence node.
pub open spec fn node_line(n: NodeView) -> Seq<char> {
    if n.is_subject {
        n.label + "  ←── finding\n"@
    } else {
        n.label + "\n"@
    }
}

/// The connector drawn below a node that is not the last.
pub open spec fn connector(n: NodeView) -> Seq<char> {
    match n.annotation {
        Some(t) => "     │  "@ + t + "\n"@ + "     ▼\n"@,
        None => "     │\n"@ + "     ▼\n"@,
    }
}

/// The evidence path of the first `k` nodes.
pub open spec fn evidence_text(nodes: Seq<NodeView>, k: int) -> Seq<char>
    decreases k,
{
    if k <= 0 {
        Seq::empty()
    } else {
        let n = nodes[k - 1];
        evidence_text(nodes, k - 1) + node_line(n) + if k < nodes.len() {
            connector(n)
        } else {
            Seq::empty()
        }
    }
}

/// "Function" or "File", whichever an unreachable subject names.
pub open spec fn names_file(f: FindingView) -> bool {
    ||| f.subject == f.file
    ||| ends_with(f.subject, ".ts"@)
    ||| ends_with(f.subject, ".tsx"@)
    ||| ends_with(f.subject, ".js"@)
    ||| ends_with(f.subject, ".jsx"@)
}

/// The one-sentence summary of a finding.
pub open spec fn summary_text(f: FindingView) -> Seq<char> {
    let s = f.subject;
    let nodes = f.nodes;
    match f.shape {
        Shape::Unreachable => if names_file(f) {
            "File '"@ + s + "' is not reachable from any entry point."@
        } else {
            "Function '"@ + s + "' is not reachable from any entry point."@
        },
        Shape::SingleUseChain => "Chain of "@ + decimal(nodes.len()) + " functions with exactly one caller per function."@,
        Shape::EmptyWrapper => if nodes.len() > 1 {
            "Function '"@ + s + "' only forwards calls to '"@ + nodes[1].label + "'."@
        } else {
            "Function '"@ + s + "' only forwards calls to another function."@
        },
        Shape::FalseSharing => "Export '"@ + s + "' is imported only within a single consumer group."@,
        Shape::NearDuplicate => if nodes.len() > 1 {
            "Function '"@ + s + "' has nearly identical implementation to '"@ + nodes[1].label + "'."@
        } else {
            "Function '"@ + s + "' has nearly identical implementation to another function."@
        },
        Shape::TrampData => if nodes.len() > 1 {
            "Parameter '"@ + s + "' in '"@ + nodes[0].label + "' is forwarded to '"@ + nodes[1].label
                + "' without local use."@
        } else {
            "Parameter '"@ + s + "' is forwarded without local use."@
        },
        Shape::TypeClone => if nodes.len() > 1 {
            "Type '"@ + s + "' has identical fields and types to '"@ + nodes[1].label + "' without inheritance."@
        } else {
            "Type '"@ + s + "' has identical fields and types to another type without inheritance."@
        },
        Shape::UnreachingTest => if nodes.len() > 1 {
            "Test '"@ + nodes[0].label + "' imports '"@ + nodes[1].label + "' but makes zero typed calls to it."@
        } else {
            "Test imports '"@ + s + "' but makes zero typed calls to it."@
        },
    }
}

/// The card of one finding: heading, subject line, summary, evidence.
pub open spec fn card_text(f: FindingView) -> Seq<char> {
    heading_text(f.shape) + "\n"@ + "subject: "@ + f.subject + "  (line "@ + decimal(f.line as nat) + ")\n"@
        + summary_text(f) + "\n"@ + evidence_text(f.nodes, f.nodes.len() as int)
}

/// What comes before the card of finding `i`: a file header when the file
/// changes (set off by a blank line after the first group), else a blank line.
pub open spec fn separator(fs: Seq<FindingView>, i: int) -> Seq<char> {
    if i == 0 {
        fs[i].file + "\n\n"@
    } else if components(fs[i - 1].file) != components(fs[i].file) {
        "\n"@ + fs[i].file + "\n\n"@
    } else {
        "\n"@
    }
}

/// The report of the first `k` findings.
pub open spec fn report_text(fs: Seq<FindingView>, k: int) -> Seq<char>
    decreases k,
{
    if k <= 0 {
        Seq::empty()
    } else {
        report_text(fs, k - 1) + separator(fs, k - 1) + card_text(fs[k - 1])
    }
}

fn subject_names_file(f: &Finding) -> (r: bool)
    ensures
        r == names_file(f@),
{
    let cs = chars_of(f.subject.as_str());
    str_eq(f.subject.as_str(), f.location.file.as_str()) || chars_end_with_str(&cs, ".ts")
        || chars_end_with_str(&cs, ".tsx") || chars_end_with_str(&cs, ".js") || chars_end_with_str(&cs, ".jsx")
}

/// The one-sentence summary of a finding.
pub fn finding_summary(finding: &Finding) -> (r: String)
    ensures
        r@ == summary_text(finding@),
{
    let Evidence::Path { nodes } = &finding.evidence;
    let ghost v = finding@;
    assert(v.nodes.len() == nodes.len());
    let s = finding.subject.as_str();
    let mut out = String::new();
    match finding.shape {
        Shape::Unreachable => {
            if subject_names_file(finding) {
                append_str(&mut out, "File '");
            } else {
                append_str(&mut out, "Function '");
            }
            append_str(&mut out, s);
            append_str(&mut out, "' is not reachable from any entry point.");
            proof {
                reveal_strlit("File '");
                reveal_strlit("Function '");
                reveal_strlit("' is not reachable from any entry point.");
            }
        },
        Shape::SingleUseChain => {
            append_str(&mut out, "Chain of ");
            append_decimal(&mut out, nodes.len() as u64);
            append_str(&mut out, " functions with exactly one caller per function.");
            proof {
                reveal_strlit("Chain of ");
                reveal_strlit(" functions with exactly one caller per function.");
            }
        },
        Shape::EmptyWrapper => {
            append_str(&mut out, "Function '");
            append_str(&mut out, s);
            if nodes.len() > 1 {
                append_str(&mut out, "' only forwards calls to '");
                append_str(&mut out, nodes[1].label.as_str());
                append_str(&mut out, "'.");
            } else {
                append_str(&mut out, "' only forwards calls to another function.");
            }
            proof {
                reveal_strlit("Function '");
                reveal_strlit("' only forwards calls to '");
                reveal_strlit("'.");
                reveal_strlit("' only forwards calls to another function.");
            }
        },
        Shape::FalseSharing => {
            append_str(&mut out, "Export '");
            append_str(&mut out, s);
            append_str(&mut out, "' is imported only within a single consumer group.");
            proof {
                reveal_strlit("Export '");
                reveal_strlit("' is imported only within a single consumer group.");
            }
        },
        Shape::NearDuplicate => {
            append_str(&mut out, "Function '");
            append_str(&mut out, s);
            if nodes.len() > 1 {
                append_str(&mut out, "' has nearly identical implementation to '");
                append_str(&mut out, nodes[1].label.as_str());
                append_str(&mut out, "'.");
            } else {
                append_str(&mut out, "' has nearly identical implementation to another function.");
            }
            proof {
                reveal_strlit("Function '");
                reveal_strlit("' has nearly identical implementation to '");
                reveal_strlit("'.");
                reveal_strlit("' has nearly identical implementation to another function.");
            }
        },
        Shape::TrampData => {
            append_str(&mut out, "Parameter '");
            append_str(&mut out, s);
            if nodes.len() > 1 {
                append_str(&mut out, "' in '");
                append_str(&mut out, nodes[0].label.as_str());
                append_str(&mut out, "' is forwarded to '");
                append_str(&mut out, nodes[1].label.as_str());
                append_str(&mut out, "' without local use.");
            } else {
                append_str(&mut out, "' is forwarded without local use.");
            }
            proof {
                reveal_strlit("Parameter '");
                reveal_strlit("' in '");
                reveal_strlit("' is forwarded to '");
                reveal_strlit("' without local use.");
                reveal_strlit("' is forwarded without local use.");
            }
        },
        Shape::TypeClone => {
            append_str(&mut out, "Type '");
            append_str(&mut out, s);
            if nodes.len() > 1 {
                append_str(&mut out, "' has identical fields and types to '");
                append_str(&mut out, nodes[1].label.as_str());
                append_str(&mut out, "' without inheritance.");
            } else {
                append_str(&mut out, "' has identical fields and types to another type without inheritance.");
            }
            proof {
                reveal_strlit("Type '");
                reveal_strlit("' has identical fields and types to '");
                reveal_strlit("' without inheritance.");
                reveal_strlit("' has identical fields and types to another type without inheritance.");
            }
        },
        Shape::UnreachingTest => {
            if nodes.len() > 1 {
                append_str(&mut out, "Test '");
                append_str(&mut out, nodes[0].label.as_str());
                append_str(&mut out, "' imports '");
                append_str(&mut out, nodes[1].label.as_str());
            } else {
                append_str(&mut out, "Test imports '");
                append_str(&mut out, s);
            }
            append_str(&mut out, "' but makes zero typed calls to it.");
            proof {
                reveal_strlit("Test '");
                reveal_strlit("' imports '");
                reveal_strlit("Test imports '");
                reveal_strlit("' but makes zero typed calls to it.");
            }
        },
    }
    assert(out@ =~= summary_text(v));
    out
}

/// Appends the evidence path of a finding.
pub fn render_evidence(out: &mut String, finding: &Finding)
    ensures
        final(out)@ == old(out)@ + evidence_text(finding@.nodes, finding@.nodes.len() as int),
{
    let Evidence::Path { nodes } = &finding.evidence;
    let ghost nv = finding@.nodes;
    assert(nv.len() == nodes.len());
    let ghost start = out@;
    let mut i: usize = 0;
    while i < nodes.len()
        invariant
            nv == finding@.nodes,
            nv.len() == nodes.len(),
            nv == nodes@.map_values(|n: PathNode| n@),
            i <= nodes.len(),
            out@ == start + evidence_text(nv, i as int),
        decreases nodes.len() - i,
    {
        let node = &nodes[i];
        assert(nv[i as int] == node@);
        append_str(out, node.label.as_str());
        if node.is_subject {
            append_str(out, "  ←── finding\n");
        } else {
            append_str(out, "\n");
        }
        if i + 1 < nodes.len() {
            match &node.annotation {
                Some(text) => {
                    append_str(out, "     │  ");
                    append_str(out, text.as_str());
                    append_str(out, "\n");
                    append_str(out, "     ▼\n");
                },
                None => {
                    append_str(out, "     │\n");
                    append_str(out, "     ▼\n");
                },
            }
        }
        proof {
            reveal_strlit("  ←── finding\n");
            reveal_strlit("\n");
            reveal_strlit("     │  ");
            reveal_strlit("     ▼\n");
            reveal_strlit("     │\n");
        }
        assert(out@ =~= start + evidence_text(nv, i + 1));
        i += 1;
    }
}

fn append_separator(out: &mut String, findings: &[Finding], i: usize)
    requires
        i < findings@.len(),
    ensures
        final(out)@ == old(out)@ + separator(findings@.map_values(|f: Finding| f@), i as int),
{
    let ghost fs = findings@.map_values(|f: Finding| f@);
    let finding = &findings[i];
    assert(fs[i as int] == finding@);
    if i == 0 {
        append_str(out, finding.location.file.as_str());
        append_str(out, "\n\n");
    } else if !same_path(findings[i - 1].location.file.as_str(), finding.location.file.as_str()) {
        append_str(out, "\n");
        append_str(out, finding.location.file.as_str());
        append_str(out, "\n\n");
    } else {
        append_str(out, "\n");
    }
    proof {
        reveal_strlit("\n\n");
        reveal_strlit("\n");
        if i > 0 {
            assert(fs[i - 1] == findings@[i - 1]@);
        }
    }
    assert(final(out)@ =~= old(out)@ + separator(fs, i as int));
}

fn append_card(out: &mut String, finding: &Finding)
    ensures
        final(out)@ == old(out)@ + card_text(finding@),
{
    append_str(out, finding.shape.heading());
    append_str(out, "\n");
    append_str(out, "subject: ");
    append_str(out, finding.subject.as_str());
    append_str(out, "  (line ");
    append_decimal(out, finding.location.line as u64);
    append_str(out, ")\n");
    let summary = finding_summary(finding);
    append_str(out, summary.as_str());
    append_str(out, "\n");
    render_evidence(out, finding);
    proof {
        reveal_strlit("\n");
        reveal_strlit("subject: ");
        reveal_strlit("  (line ");
        reveal_strlit(")\n");
    }
    assert(final(out)@ =~= old(out)@ + card_text(finding@));
}

/// The plain-text report of the findings, in the order given; empty for no findings.
pub fn render(findings: &[Finding]) -> (r: String)
    ensures
        r@ == report_text(findings@.map_values(|f: Finding| f@), findings@.len() as int),
{
    let ghost fs = findings@.map_values(|f: Finding| f@);
    let mut out = String::new();
    let mut i: usize = 0;
    while i < findings.len()
        invariant
            fs == findings@.map_values(|f: Finding| f@),
            i <= findings.len(),
            out@ == report_text(fs, i as int),
        decreases findings.len() - i,
    {
        append_separator(&mut out, findings, i);
        append_card(&mut out, &findings[i]);
        assert(fs[i as int] == findings@[i as int]@);
        i += 1;
    }
    out
}

} // verus!
