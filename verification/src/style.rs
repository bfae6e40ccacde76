//! The report for a terminal: the plain report cut into pieces, each tagged
//! with the role that decides how it is styled. Styles only decorate: the
//! pieces, put back together, spell the plain report.

use vstd::prelude::*;

use crate::finding::{heading_text, Evidence, Finding, FindingView, NodeView, PathNode, Shape};
use crate::program::{components, same_path};
use crate::report::{card_text, connector, evidence_text, finding_summary, node_line, report_text, separator, summary_text};
use crate::text::{append_decimal, append_str, chars_of, copy_string, decimal, string_from};

verus! {

/// What a piece of the report is, as far as styling goes.
#[derive(Debug, Clone, Copy, PartialEq, Eq)]
pub enum Role {
    /// Spacing, line ends and unstyled text.
    Plain,
    /// The file a group of cards belongs to.
    FileHeader,
    /// A card's heading, styled by its shape.
    Heading(Shape),
    /// The word `subject:`.
    Label,
    /// A card's subject.
    Subject,
    /// The `(line n)` note.
    LineNote,
    /// The one-sentence summary.
    Summary,
    /// The label of the evidence node that is the subject.
    SubjectNode,
    /// The `←── finding` marker.
    Marker,
    /// The part of a node label from its first `(` on.
    Paren,
    /// The vertical bar of a connector.
    Bar,
    /// A connector's annotation.
    Annotation,
    /// The arrow head of a connector.
    Arrow,
}

/// A colour of the terminal's palette.
#[derive(Debug, Clone, Copy, PartialEq, Eq)]
pub enum Colour {
    Cyan,
    White,
    BrightRed,
    BrightYellow,
    BrightMagenta,
    BrightCyan,
    BrightWhite,
}

/// How a piece is painted: its colour, if any, and its text attributes.
#[derive(Debug, Clone, Copy, PartialEq, Eq)]
pub struct Paint {
    pub colour: Option<Colour>,
    pub bold: bool,
    pub italic: bool,
    pub underline: bool,
    pub dimmed: bool,
}

/// A paint with the given colour and attributes.
pub open spec fn paint(colour: Option<Colour>, bold: bool, italic: bool, underline: bool, dimmed: bool) -> Paint {
    Paint { colour, bold, italic, underline, dimmed }
}

/// How each role is painted; plain pieces are not painted. Headings take
/// their colour from their shape: red for what nothing reaches, yellow for
/// needless indirection, magenta for what is shared or copied, cyan for
/// near-duplicates.
pub open spec fn paint_of(role: Role) -> Option<Paint> {
    match role {
        Role::Plain => None,
        Role::FileHeader => Some(paint(Some(Colour::Cyan), true, false, true, false)),
        Role::Heading(shape) => Some(
            paint(
                Some(
                    match shape {
                        Shape::Unreachable | Shape::UnreachingTest => Colour::BrightRed,
                        Shape::SingleUseChain | Shape::EmptyWrapper | Shape::TrampData => Colour::BrightYellow,
                        Shape::FalseSharing | Shape::TypeClone => Colour::BrightMagenta,
                        Shape::NearDuplicate => Colour::BrightCyan,
                    },
                ),
                true,
                false,
                false,
                false,
            ),
        ),
        Role::Label | Role::LineNote | Role::Paren | Role::Bar | Role::Arrow => Some(paint(None, false, false, false, true)),
        Role::Subject => Some(paint(None, true, false, false, false)),
        Role::Summary => Some(paint(Some(Colour::White), false, true, false, false)),
        Role::SubjectNode => Some(paint(Some(Colour::BrightWhite), true, false, false, false)),
        Role::Marker => Some(paint(Some(Colour::BrightRed), true, false, false, false)),
        Role::Annotation => Some(paint(Some(Colour::BrightCyan), false, true, false, false)),
    }
}

/// How a piece of this role is painted; `None` for plain pieces.
pub fn paint_for(role: Role) -> (r: Option<Paint>)
    ensures
        r == paint_of(role),
{
    let heading = |c: Colour| -> (p: Paint)
        ensures
            p == paint(Some(c), true, false, false, false),
        { Paint { colour: Some(c), bold: true, italic: false, underline: false, dimmed: false } };
    let dim = Paint { colour: None, bold: false, italic: false, underline: false, dimmed: true };
    match role {
        Role::Plain => None,
        Role::FileHeader => Some(Paint { colour: Some(Colour::Cyan), bold: true, italic: false, underline: true, dimmed: false }),
        Role::Heading(Shape::Unreachable) | Role::Heading(Shape::UnreachingTest) => Some(heading(Colour::BrightRed)),
        Role::Heading(Shape::SingleUseChain) | Role::Heading(Shape::EmptyWrapper) | Role::Heading(Shape::TrampData) => Some(
            heading(Colour::BrightYellow),
        ),
        Role::Heading(Shape::FalseSharing) | Role::Heading(Shape::TypeClone) => Some(heading(Colour::BrightMagenta)),
        Role::Heading(Shape::NearDuplicate) => Some(heading(Colour::BrightCyan)),
        Role::Label | Role::LineNote | Role::Paren | Role::Bar | Role::Arrow => Some(dim),
        Role::Subject => Some(Paint { colour: None, bold: true, italic: false, underline: false, dimmed: false }),
        Role::Summary => Some(Paint { colour: Some(Colour::White), bold: false, italic: true, underline: false, dimmed: false }),
        Role::SubjectNode => Some(heading(Colour::BrightWhite)),
        Role::Marker => Some(heading(Colour::BrightRed)),
        Role::Annotation => Some(
            Paint { colour: Some(Colour::BrightCyan), bold: false, italic: true, underline: false, dimmed: false },
        ),
    }
}

/// A piece of the report and its role.
#[derive(Debug)]
pub struct Piece {
    pub role: Role,
    pub text: String,
}

impl View for Piece {
    type V = (Role, Seq<char>);

    open spec fn view(&self) -> (Role, Seq<char>) {
        (self.role, self.text@)
    }
}

/// The abstract contents of a sequence of pieces.
pub open spec fn piece_views(ps: Seq<Piece>) -> Seq<(Role, Seq<char>)> {
    ps.map_values(|p: Piece| p@)
}

/// The text that a sequence of pieces spells.
pub open spec fn spelled(ps: Seq<(Role, Seq<char>)>) -> Seq<char>
    decreases ps.len(),
{
    if ps.len() == 0 {
        Seq::empty()
    } else {
        spelled(ps.drop_last()) + ps.last().1
    }
}

pub broadcast proof fn lemma_spelled_push(ps: Seq<(Role, Seq<char>)>, p: (Role, Seq<char>))
    ensures
        #[trigger] spelled(ps.push(p)) == spelled(ps) + p.1,
{
    assert(ps.push(p).drop_last() =~= ps);
}

pub broadcast proof fn lemma_spelled_concat(a: Seq<(Role, Seq<char>)>, b: Seq<(Role, Seq<char>)>)
    ensures
        #[trigger] spelled(a + b) == spelled(a) + spelled(b),
    decreases b.len(),
{
    if b.len() == 0 {
        assert(a + b =~= a);
        assert(spelled(a) + spelled(b) =~= spelled(a));
    } else {
        lemma_spelled_concat(a, b.drop_last());
        assert((a + b).drop_last() =~= a + b.drop_last());
        assert((a + b).last() == b.last());
        assert(spelled(a) + spelled(b) =~= spelled(a) + spelled(b.drop_last()) + b.last().1);
    }
}

/// An unstyled piece.
pub open spec fn plain(t: Seq<char>) -> (Role, Seq<char>) {
    (Role::Plain, t)
}

/// The index of the first `(` in `s` at or after `k`; -1 when there is none.
pub open spec fn paren_index(s: Seq<char>, k: int) -> int
    decreases s.len() - k,
{
    if k < 0 || k >= s.len() {
        -1
    } else if s[k] == '(' {
        k
    } else {
        paren_index(s, k + 1)
    }
}

proof fn lemma_paren_index_range(s: Seq<char>, k: int)
    requires
        0 <= k,
    ensures
        paren_index(s, k) == -1 || (k <= paren_index(s, k) < s.len() && s[paren_index(s, k)] == '('),
    decreases s.len() - k,
{
    if k < s.len() && s[k] != '(' {
        lemma_paren_index_range(s, k + 1);
    }
}

/// A label that is not the subject: the part before its first `(` plain,
/// the rest set apart.
pub open spec fn label_pieces(l: Seq<char>) -> Seq<(Role, Seq<char>)> {
    let i = paren_index(l, 0);
    if i < 0 {
        Seq::empty().push(plain(l))
    } else {
        Seq::empty().push(plain(l.take(i))).push((Role::Paren, l.skip(i)))
    }
}

/// The pieces of an evidence node's line.
pub open spec fn node_pieces(n: NodeView) -> Seq<(Role, Seq<char>)> {
    if n.is_subject {
        Seq::empty().push((Role::SubjectNode, n.label)).push(plain("  "@)).push((Role::Marker, "←── finding"@)).push(
            plain("\n"@),
        )
    } else {
        label_pieces(n.label).push(plain("\n"@))
    }
}

/// The pieces of the connector below a node.
pub open spec fn connector_pieces(n: NodeView) -> Seq<(Role, Seq<char>)> {
    match n.annotation {
        Some(t) => Seq::empty().push(plain("     "@)).push((Role::Bar, "│"@)).push(plain("  "@)).push(
            (Role::Annotation, t),
        ).push(plain("\n"@)).push(plain("     "@)).push((Role::Arrow, "▼"@)).push(plain("\n"@)),
        None => Seq::empty().push(plain("     "@)).push((Role::Bar, "│"@)).push(plain("\n"@)).push(
            plain("     "@),
        ).push((Role::Arrow, "▼"@)).push(plain("\n"@)),
    }
}

/// The pieces of the evidence path of the first `k` nodes.
pub open spec fn evidence_pieces(nodes: Seq<NodeView>, k: int) -> Seq<(Role, Seq<char>)>
    decreases k,
{
    if k <= 0 {
        Seq::empty()
    } else {
        let n = nodes[k - 1];
        evidence_pieces(nodes, k - 1) + node_pieces(n) + if k < nodes.len() {
            connector_pieces(n)
        } else {
            Seq::empty()
        }
    }
}

/// The pieces of a card.
pub open spec fn card_pieces(f: FindingView) -> Seq<(Role, Seq<char>)> {
    Seq::empty().push((Role::Heading(f.shape), heading_text(f.shape))).push(plain("\n"@)).push(
        (Role::Label, "subject:"@),
    ).push(plain(" "@)).push((Role::Subject, f.subject)).push(plain("  "@)).push(
        (Role::LineNote, "(line "@ + decimal(f.line as nat) + ")"@),
    ).push(plain("\n"@)).push((Role::Summary, summary_text(f))).push(plain("\n"@)) + evidence_pieces(
        f.nodes,
        f.nodes.len() as int,
    )
}

/// The pieces before the card of finding `i`.
pub open spec fn separator_pieces(fs: Seq<FindingView>, i: int) -> Seq<(Role, Seq<char>)> {
    if i == 0 {
        Seq::empty().push((Role::FileHeader, fs[i].file)).push(plain("\n"@)).push(plain("\n"@))
    } else if components(fs[i - 1].file) != components(fs[i].file) {
        Seq::empty().push(plain("\n"@)).push((Role::FileHeader, fs[i].file)).push(plain("\n"@)).push(plain("\n"@))
    } else {
        Seq::empty().push(plain("\n"@))
    }
}

/// The pieces of the report of the first `k` findings.
pub open spec fn report_pieces_of(fs: Seq<FindingView>, k: int) -> Seq<(Role, Seq<char>)>
    decreases k,
{
    if k <= 0 {
        Seq::empty()
    } else {
        report_pieces_of(fs, k - 1) + separator_pieces(fs, k - 1) + card_pieces(fs[k - 1])
    }
}

proof fn lemma_label_spells(l: Seq<char>)
    ensures
        spelled(label_pieces(l)) == l,
{
    broadcast use lemma_spelled_push;

    lemma_paren_index_range(l, 0);
    let i = paren_index(l, 0);
    if i >= 0 {
        assert(l.take(i) + l.skip(i) =~= l);
    }
    assert(Seq::<char>::empty() + l =~= l);
}

proof fn lemma_evidence_spells(nodes: Seq<NodeView>, k: int)
    ensures
        spelled(evidence_pieces(nodes, k)) == evidence_text(nodes, k),
    decreases k,
{
    broadcast use lemma_spelled_push, lemma_spelled_concat;

    if k > 0 {
        lemma_evidence_spells(nodes, k - 1);
        let n = nodes[k - 1];
        lemma_label_spells(n.label);
        reveal_strlit("  ←── finding\n");
        reveal_strlit("  ");
        reveal_strlit("←── finding");
        reveal_strlit("\n");
        reveal_strlit("     │  ");
        reveal_strlit("     │\n");
        reveal_strlit("     ▼\n");
        reveal_strlit("     ");
        reveal_strlit("│");
        reveal_strlit("▼");
        assert(spelled(node_pieces(n)) =~= node_line(n));
        if k < nodes.len() {
            assert(spelled(connector_pieces(n)) =~= connector(n));
        } else {
            assert(spelled(Seq::<(Role, Seq<char>)>::empty()) =~= Seq::<char>::empty());
        }
        assert(spelled(evidence_pieces(nodes, k)) =~= evidence_text(nodes, k));
    }
}

proof fn lemma_card_spells(f: FindingView)
    ensures
        spelled(card_pieces(f)) == card_text(f),
{
    broadcast use lemma_spelled_push, lemma_spelled_concat;

    lemma_evidence_spells(f.nodes, f.nodes.len() as int);
    reveal_strlit("\n");
    reveal_strlit("subject:");
    reveal_strlit(" ");
    reveal_strlit("subject: ");
    reveal_strlit("  ");
    reveal_strlit("(line ");
    reveal_strlit("  (line ");
    reveal_strlit(")");
    reveal_strlit(")\n");
    assert(spelled(card_pieces(f)) =~= card_text(f));
}

proof fn lemma_separator_spells(fs: Seq<FindingView>, i: int)
    ensures
        spelled(separator_pieces(fs, i)) == separator(fs, i),
{
    broadcast use lemma_spelled_push;

    reveal_strlit("\n");
    reveal_strlit("\n\n");
    assert(spelled(separator_pieces(fs, i)) =~= separator(fs, i));
}

/// Styles only decorate: the pieces of the report, put back together,
/// spell the plain report.
pub proof fn law_pieces_spell_report(fs: Seq<FindingView>, k: int)
    ensures
        spelled(report_pieces_of(fs, k)) == report_text(fs, k),
    decreases k,
{
    broadcast use lemma_spelled_concat;

    if k > 0 {
        law_pieces_spell_report(fs, k - 1);
        lemma_separator_spells(fs, k - 1);
        lemma_card_spells(fs[k - 1]);
    }
}

fn text_of(s: &str) -> (r: String)
    ensures
        r@ == s@,
{
    let mut r = String::new();
    append_str(&mut r, s);
    r
}

fn push_piece(out: &mut Vec<Piece>, role: Role, text: String)
    ensures
        piece_views(final(out)@) == piece_views(old(out)@).push((role, text@)),
{
    let ghost t = text@;
    out.push(Piece { role, text });
    assert(piece_views(out@) =~= piece_views(old(out)@).push((role, t)));
}

/// A node label cut at its first `(`: the part before, and the rest when
/// there is a `(`.
fn split_label(label: &str) -> (r: (String, Option<String>))
    ensures
        paren_index(label@, 0) < 0 ==> r.0@ == label@ && r.1 is None,
        paren_index(label@, 0) >= 0 ==> r.0@ == label@.take(paren_index(label@, 0)) && r.1 is Some
            && r.1->0@ == label@.skip(paren_index(label@, 0)),
{
    let cs = chars_of(label);
    let mut i: usize = 0;
    while i < cs.len() && cs[i] != '('
        invariant
            i <= cs.len(),
            cs@ == label@,
            paren_index(cs@, i as int) == paren_index(cs@, 0),
        decreases cs.len() - i,
    {
        i += 1;
    }
    let mut head: Vec<char> = Vec::new();
    let mut j: usize = 0;
    while j < i
        invariant
            j <= i,
            i <= cs.len(),
            head@ == cs@.take(j as int),
        decreases i - j,
    {
        head.push(cs[j]);
        assert(cs@.take(j as int).push(cs@[j as int]) =~= cs@.take(j + 1));
        j += 1;
    }
    if i == cs.len() {
        assert(cs@.take(i as int) =~= cs@);
        (string_from(&head), None)
    } else {
        let mut tail: Vec<char> = Vec::new();
        let mut k: usize = i;
        while k < cs.len()
            invariant
                i <= k <= cs.len(),
                tail@ == cs@.subrange(i as int, k as int),
            decreases cs.len() - k,
        {
            tail.push(cs[k]);
            assert(cs@.subrange(i as int, k as int).push(cs@[k as int]) =~= cs@.subrange(i as int, k + 1));
            k += 1;
        }
        assert(cs@.subrange(i as int, cs.len() as int) =~= cs@.skip(i as int));
        (string_from(&head), Some(string_from(&tail)))
    }
}

fn push_node(out: &mut Vec<Piece>, node: &PathNode, last: bool)
    ensures
        piece_views(final(out)@) == piece_views(old(out)@) + node_pieces(node@) + if last {
            Seq::empty()
        } else {
            connector_pieces(node@)
        },
{
    let ghost start = piece_views(out@);
    if node.is_subject {
        push_piece(out, Role::SubjectNode, copy_string(&node.label));
        push_piece(out, Role::Plain, text_of("  "));
        push_piece(out, Role::Marker, text_of("←── finding"));
        push_piece(out, Role::Plain, text_of("\n"));
    } else {
        let (head, paren) = split_label(node.label.as_str());
        push_piece(out, Role::Plain, head);
        match paren {
            Some(p) => push_piece(out, Role::Paren, p),
            None => {},
        }
        push_piece(out, Role::Plain, text_of("\n"));
    }
    let ghost mid = piece_views(out@);
    assert(mid =~= start + node_pieces(node@));
    if !last {
        push_piece(out, Role::Plain, text_of("     "));
        push_piece(out, Role::Bar, text_of("│"));
        match &node.annotation {
            Some(t) => {
                push_piece(out, Role::Plain, text_of("  "));
                push_piece(out, Role::Annotation, copy_string(t));
                push_piece(out, Role::Plain, text_of("\n"));
            },
            None => {
                push_piece(out, Role::Plain, text_of("\n"));
            },
        }
        push_piece(out, Role::Plain, text_of("     "));
        push_piece(out, Role::Arrow, text_of("▼"));
        push_piece(out, Role::Plain, text_of("\n"));
        assert(piece_views(out@) =~= mid + connector_pieces(node@));
    } else {
        assert(mid + Seq::<(Role, Seq<char>)>::empty() =~= mid);
    }
}

fn push_evidence(out: &mut Vec<Piece>, finding: &Finding)
    ensures
        piece_views(final(out)@) == piece_views(old(out)@) + evidence_pieces(finding@.nodes, finding@.nodes.len() as int),
{
    let Evidence::Path { nodes } = &finding.evidence;
    let ghost nv = finding@.nodes;
    let ghost start = piece_views(out@);
    assert(start + evidence_pieces(nv, 0) =~= start);
    let mut i: usize = 0;
    while i < nodes.len()
        invariant
            nv == finding@.nodes,
            nv == nodes@.map_values(|n: PathNode| n@),
            i <= nodes.len(),
            piece_views(out@) == start + evidence_pieces(nv, i as int),
        decreases nodes.len() - i,
    {
        let node = &nodes[i];
        assert(nv[i as int] == node@);
        push_node(out, node, i + 1 >= nodes.len());
        assert(piece_views(out@) =~= start + evidence_pieces(nv, i + 1));
        i += 1;
    }
}

fn push_card(out: &mut Vec<Piece>, finding: &Finding)
    ensures
        piece_views(final(out)@) == piece_views(old(out)@) + card_pieces(finding@),
{
    let ghost start = piece_views(out@);
    push_piece(out, Role::Heading(finding.shape), text_of(finding.shape.heading()));
    push_piece(out, Role::Plain, text_of("\n"));
    push_piece(out, Role::Label, text_of("subject:"));
    push_piece(out, Role::Plain, text_of(" "));
    push_piece(out, Role::Subject, copy_string(&finding.subject));
    push_piece(out, Role::Plain, text_of("  "));
    let mut note = text_of("(line ");
    append_decimal(&mut note, finding.location.line as u64);
    append_str(&mut note, ")");
    push_piece(out, Role::LineNote, note);
    push_piece(out, Role::Plain, text_of("\n"));
    push_piece(out, Role::Summary, finding_summary(finding));
    push_piece(out, Role::Plain, text_of("\n"));
    push_evidence(out, finding);
    assert(piece_views(out@) =~= start + card_pieces(finding@));
}

fn push_separator(out: &mut Vec<Piece>, findings: &[Finding], i: usize)
    requires
        i < findings@.len(),
    ensures
        piece_views(final(out)@) == piece_views(old(out)@) + separator_pieces(findings@.map_values(|f: Finding| f@), i as int),
{
    let ghost fs = findings@.map_values(|f: Finding| f@);
    let ghost start = piece_views(out@);
    let finding = &findings[i];
    assert(fs[i as int] == finding@);
    if i == 0 {
        push_piece(out, Role::FileHeader, copy_string(&finding.location.file));
        push_piece(out, Role::Plain, text_of("\n"));
        push_piece(out, Role::Plain, text_of("\n"));
    } else if !same_path(findings[i - 1].location.file.as_str(), finding.location.file.as_str()) {
        assert(fs[i - 1] == findings@[i - 1]@);
        push_piece(out, Role::Plain, text_of("\n"));
        push_piece(out, Role::FileHeader, copy_string(&finding.location.file));
        push_piece(out, Role::Plain, text_of("\n"));
        push_piece(out, Role::Plain, text_of("\n"));
    } else {
        assert(fs[i - 1] == findings@[i - 1]@);
        push_piece(out, Role::Plain, text_of("\n"));
    }
    assert(piece_views(out@) =~= start + separator_pieces(fs, i as int));
}

/// The report of the findings, in the order given, cut into styled pieces;
/// put back together they spell the plain report.
pub fn report_pieces(findings: &[Finding]) -> (r: Vec<Piece>)
    ensures
        piece_views(r@) == report_pieces_of(findings@.map_values(|f: Finding| f@), findings@.len() as int),
        spelled(piece_views(r@)) == report_text(findings@.map_values(|f: Finding| f@), findings@.len() as int),
{
    let ghost fs = findings@.map_values(|f: Finding| f@);
    let mut out: Vec<Piece> = Vec::new();
    assert(piece_views(out@) =~= report_pieces_of(fs, 0));
    let mut i: usize = 0;
    while i < findings.len()
        invariant
            fs == findings@.map_values(|f: Finding| f@),
            i <= findings.len(),
            piece_views(out@) == report_pieces_of(fs, i as int),
        decreases findings.len() - i,
    {
        push_separator(&mut out, findings, i);
        push_card(&mut out, &findings[i]);
        assert(fs[i as int] == findings@[i as int]@);
        i += 1;
    }
    proof {
        law_pieces_spell_report(fs, findings@.len() as int);
    }
    out
}

} // verus!
