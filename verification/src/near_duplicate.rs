//! Near-duplicate functions: distinct names, the same body AST-kind sequence
//! of at least 20 nodes, and at least 70% of their 50-token windows in common.

use std::hash::Hasher;

use vstd::prelude::*;
use vstd::multiset::Multiset;
use vstd::std_specs::hash::DefaultHasherAdditionalSpecFns;

use crate::finding::{node, report_order, views, Evidence, Finding, FindingView, Location, PathNode, Shape};
use crate::order::{stable_sort, stable_sorted, KeyOrder};
use crate::program::{compare_paths, path_order};
use crate::text::{compare_strings, lex_order, str_eq, Rel};

verus! {

pub const MIN_AST_NODES: usize = 20;

pub const WINDOW_SIZE: usize = 50;

/// A token with identifiers and literals abstracted away.
#[derive(Debug, Clone, PartialEq, Eq, Hash)]
pub enum NormalizedToken {
    Id,
    Lit,
    Text(String),
}

/// One function-like: where it is, its body's AST-kind sequence (each kind by
/// its number) and the hashes of its token windows.
#[derive(Debug)]
pub struct FunctionCandidate {
    pub abs: String,
    pub display: String,
    pub name: String,
    pub line: u32,
    pub span_start: u32,
    pub ast_kinds: Vec<u32>,
    pub window_hashes: Vec<u64>,
}

/// An 8-byte little-endian word holding the small number `d`.
pub open spec fn word(d: u8) -> Seq<u8> {
    seq![d, 0u8, 0u8, 0u8, 0u8, 0u8, 0u8, 0u8]
}

/// The hasher writes of one token, as its derived `Hash` makes them on a
/// 64-bit little-endian target: the variant's discriminant as a word, then,
/// for text, its UTF-8 bytes and a 0xff terminator.
pub open spec fn token_writes(t: NormalizedToken) -> Seq<Seq<u8>> {
    match t {
        NormalizedToken::Id => seq![word(0)],
        NormalizedToken::Lit => seq![word(1)],
        NormalizedToken::Text(s) => seq![word(2), vstd::utf8::encode_utf8(s@), seq![0xffu8]],
    }
}

/// The hasher writes of a run of tokens.
pub open spec fn tokens_writes(w: Seq<NormalizedToken>) -> Seq<Seq<u8>>
    decreases w.len(),
{
    if w.len() == 0 {
        Seq::empty()
    } else {
        tokens_writes(w.drop_last()) + token_writes(w.last())
    }
}

/// The hasher writes of a window, as hashing the slice makes them: its
/// length (always `WINDOW_SIZE`) as a word, then each token.
pub open spec fn window_writes(w: Seq<NormalizedToken>) -> Seq<Seq<u8>> {
    seq![word(WINDOW_SIZE as u8)] + tokens_writes(w)
}

/// The hash of a window: a fresh `DefaultHasher` fed with the window's writes.
pub open spec fn window_hash(w: Seq<NormalizedToken>) -> u64 {
    std::hash::DefaultHasher::spec_finish(window_writes(w))
}

/// The hashes of all windows of `WINDOW_SIZE` consecutive tokens, in order.
pub open spec fn window_hashes(tokens: Seq<NormalizedToken>) -> Seq<u64> {
    if tokens.len() < WINDOW_SIZE {
        Seq::empty()
    } else {
        Seq::new(
            (tokens.len() - WINDOW_SIZE + 1) as nat,
            |i: int| window_hash(tokens.subrange(i, i + WINDOW_SIZE)),
        )
    }
}

fn hash_window(tokens: &Vec<NormalizedToken>, start: usize) -> (h: u64)
    requires
        start + WINDOW_SIZE <= tokens.len(),
    ensures
        h == window_hash(tokens@.subrange(start as int, start + WINDOW_SIZE)),
{
    let mut hasher = std::hash::DefaultHasher::new();
    let ghost w = tokens@.subrange(start as int, start + WINDOW_SIZE);
    let len_word: [u8; 8] = [50, 0, 0, 0, 0, 0, 0, 0];
    hasher.write(&len_word);
    assert(len_word@ =~= word(WINDOW_SIZE as u8));
    let mut i: usize = 0;
    assert(w.take(0) =~= Seq::<NormalizedToken>::empty());
    assert(hasher@ =~= window_writes(w.take(0)));
    while i < WINDOW_SIZE
        invariant
            start + WINDOW_SIZE <= tokens.len(),
            w == tokens@.subrange(start as int, start + WINDOW_SIZE),
            i <= WINDOW_SIZE,
            hasher@ == window_writes(w.take(i as int)),
        decreases WINDOW_SIZE - i,
    {
        match &tokens[start + i] {
            NormalizedToken::Id => {
                let tag: [u8; 8] = [0, 0, 0, 0, 0, 0, 0, 0];
                hasher.write(&tag);
                assert(tag@ =~= word(0));
            },
            NormalizedToken::Lit => {
                let tag: [u8; 8] = [1, 0, 0, 0, 0, 0, 0, 0];
                hasher.write(&tag);
                assert(tag@ =~= word(1));
            },
            NormalizedToken::Text(s) => {
                let tag: [u8; 8] = [2, 0, 0, 0, 0, 0, 0, 0];
                hasher.write(&tag);
                assert(tag@ =~= word(2));
                hasher.write(s.as_str().as_bytes());
                let end: [u8; 1] = [0xff];
                hasher.write(&end);
                assert(end@ =~= seq![0xffu8]);
            },
        }
        assert(w.take(i + 1).drop_last() =~= w.take(i as int));
        assert(w.take(i + 1).last() == tokens@[start + i]);
        assert(hasher@ =~= window_writes(w.take(i + 1)));
        i += 1;
    }
    assert(w.take(WINDOW_SIZE as int) =~= w);
    hasher.finish()
}

/// Hashes of every window of 50 consecutive normalized tokens.
pub fn compute_window_hashes(tokens: &Vec<NormalizedToken>) -> (r: Vec<u64>)
    ensures
        r@ == window_hashes(tokens@),
{
    if tokens.len() < WINDOW_SIZE {
        return Vec::new();
    }
    let count = tokens.len() - WINDOW_SIZE + 1;
    let mut hashes: Vec<u64> = Vec::new();
    let mut i: usize = 0;
    while i < count
        invariant
            count == tokens.len() - WINDOW_SIZE + 1,
            tokens.len() >= WINDOW_SIZE,
            i <= count,
            hashes@ == window_hashes(tokens@).take(i as int),
        decreases count - i,
    {
        let h = hash_window(tokens, i);
        hashes.push(h);
        assert(hashes@ =~= window_hashes(tokens@).take(i + 1));
        i += 1;
    }
    assert(hashes@ =~= window_hashes(tokens@));
    hashes
}

/// Number of windows the two hash lists share, counted with multiplicity.
pub open spec fn common_windows(a: Seq<u64>, b: Seq<u64>) -> nat {
    a.to_multiset().intersection_with(b.to_multiset()).len()
}

/// At least 70% of the longer window list is shared (both lists non-empty).
pub open spec fn confident(a: Seq<u64>, b: Seq<u64>) -> bool {
    let total = if a.len() >= b.len() {
        a.len()
    } else {
        b.len()
    };
    a.len() > 0 && b.len() > 0 && 10 * common_windows(a, b) >= 7 * total
}

/// Confidence is symmetric: the shared windows of `a` and `b` are those of
/// `b` and `a`, and the longer list is the same either way.
pub proof fn law_confidence_symmetric(a: Seq<u64>, b: Seq<u64>)
    ensures
        common_windows(a, b) == common_windows(b, a),
        confident(a, b) == confident(b, a),
{
    let ma = a.to_multiset();
    let mb = b.to_multiset();
    assert forall|x: u64| #[trigger] ma.intersection_with(mb).count(x) == mb.intersection_with(ma).count(x) by {
        vstd::multiset::lemma_intersection_count(ma, mb, x);
        vstd::multiset::lemma_intersection_count(mb, ma, x);
    }
    assert(ma.intersection_with(mb) =~= mb.intersection_with(ma));
}

/// A function is never a near-duplicate of one with the same name, and two
/// functions are near-duplicates of each other or not at all.
pub proof fn law_near_duplicates_symmetric(a: FunctionCandidate, b: FunctionCandidate)
    ensures
        near_duplicates(a, b) == near_duplicates(b, a),
        a.name@ == b.name@ ==> !near_duplicates(a, b),
{
    law_confidence_symmetric(a.window_hashes@, b.window_hashes@);
}

proof fn lemma_intersection_insert(a: Multiset<u64>, b: Multiset<u64>, x: u64)
    ensures
        b.count(x) > 0 ==> a.insert(x).intersection_with(b) =~= a.intersection_with(b.remove(x)).insert(x),
        b.count(x) == 0 ==> a.insert(x).intersection_with(b) =~= a.intersection_with(b),
{
    broadcast use vstd::multiset::group_multiset_axioms;
    vstd::multiset::lemma_intersection_count(a.insert(x), b, x);
    vstd::multiset::lemma_intersection_count(a, b.remove(x), x);
    vstd::multiset::lemma_intersection_count(a, b, x);
    assert forall|y: u64| #[trigger] a.insert(x).intersection_with(b).count(y) == (if b.count(x) > 0 {
        a.intersection_with(b.remove(x)).insert(x)
    } else {
        a.intersection_with(b)
    }).count(y) by {
        vstd::multiset::lemma_intersection_count(a.insert(x), b, y);
        vstd::multiset::lemma_intersection_count(a, b.remove(x), y);
        vstd::multiset::lemma_intersection_count(a, b, y);
    }
}

/// Number of windows the two hash lists share, counted with multiplicity.
pub fn window_matches(a: &Vec<u64>, b: &Vec<u64>) -> (r: usize)
    ensures
        r == common_windows(a@, b@),
{
    broadcast use vstd::multiset::group_multiset_axioms;
    let mut rest: Vec<u64> = b.clone();
    let mut count: usize = 0;
    let mut i: usize = 0;
    assert(a@.skip(0) =~= a@);
    while i < a.len()
        invariant
            i <= a.len(),
            count <= i,
            count + common_windows(a@.skip(i as int), rest@) == common_windows(a@, b@),
        decreases a.len() - i,
    {
        let x = a[i];
        let ghost s = a@.skip(i as int);
        assert(s =~= seq![x] + a@.skip(i + 1));
        assert(s.to_multiset() =~= a@.skip(i + 1).to_multiset().insert(x)) by {
            vstd::seq_lib::lemma_multiset_commutative(seq![x], a@.skip(i + 1));
            assert(seq![x].to_multiset() =~= Multiset::singleton(x)) by {
                assert(seq![x] =~= Seq::<u64>::empty().push(x));
                Seq::<u64>::empty().to_multiset_ensures();
            }
        }
        let ghost r0 = rest@;
        proof {
            lemma_intersection_insert(a@.skip(i + 1).to_multiset(), r0.to_multiset(), x);
            r0.to_multiset_ensures();
        }
        if let Some(j) = position_of(&rest, x) {
            assert(r0[j as int] == x);
            rest.remove(j);
            assert(r0.to_multiset().count(x) > 0) by {
                assert(r0.contains(x));
            }
            assert(rest@.to_multiset() =~= r0.to_multiset().remove(x));
            count += 1;
        } else {
            assert(r0.to_multiset().count(x) == 0);
        }
        i += 1;
    }
    assert(a@.skip(a.len() as int) =~= Seq::<u64>::empty());
    assert(Seq::<u64>::empty().to_multiset() =~= Multiset::empty()) by {
        Seq::<u64>::empty().to_multiset_ensures();
    }
    assert forall|y: u64| #[trigger] Multiset::<u64>::empty().intersection_with(rest@.to_multiset()).count(y) == 0 by {
        vstd::multiset::lemma_intersection_count(Multiset::<u64>::empty(), rest@.to_multiset(), y);
    }
    assert(Multiset::<u64>::empty().intersection_with(rest@.to_multiset()) =~= Multiset::empty());
    count
}

/// The first position of `x` in `v`.
fn position_of(v: &Vec<u64>, x: u64) -> (r: Option<usize>)
    ensures
        match r {
            Some(j) => j < v.len() && v@[j as int] == x,
            None => !v@.contains(x),
        },
{
    let mut j: usize = 0;
    while j < v.len()
        invariant
            j <= v.len(),
            forall|k: int| 0 <= k < j ==> v@[k] != x,
        decreases v.len() - j,
    {
        if v[j] == x {
            return Some(j);
        }
        j += 1;
    }
    None
}

/// How the parser classed a token.
#[derive(Debug, Clone, Copy, PartialEq, Eq, Structural)]
pub enum TokenClass {
    Identifier,
    Literal,
    Eof,
    Other,
}

/// A token of the source: its UTF-8 span, its class and its text.
#[derive(Debug)]
pub struct RawToken {
    pub start: u32,
    pub end: u32,
    pub class: TokenClass,
    pub text: String,
}

/// A token kind as the lexer names it, where the class depends on the kind
/// itself: the end of input and the four template pieces.
#[derive(Debug, Clone, Copy, PartialEq, Eq, Structural)]
pub enum LexKind {
    Eof,
    NoSubstitutionTemplate,
    TemplateHead,
    TemplateMiddle,
    TemplateTail,
    Other,
}

/// A token as the lexer hands it over: its UTF-8 span, its kind, whether the
/// lexer counts its kind as an identifier and as a literal, and its text.
#[derive(Debug)]
pub struct LexedToken {
    pub start: u32,
    pub end: u32,
    pub kind: LexKind,
    pub identifier: bool,
    pub literal: bool,
    pub text: String,
}

/// The class of a token: the end of input; an identifier; a literal, which
/// template pieces count as; anything else.
pub open spec fn class_of(kind: LexKind, identifier: bool, literal: bool) -> TokenClass {
    if kind == LexKind::Eof {
        TokenClass::Eof
    } else if identifier {
        TokenClass::Identifier
    } else if literal || kind != LexKind::Other {
        TokenClass::Literal
    } else {
        TokenClass::Other
    }
}

/// A lexed token with its class.
pub open spec fn raw_of(t: LexedToken) -> RawToken {
    RawToken { start: t.start, end: t.end, class: class_of(t.kind, t.identifier, t.literal), text: t.text }
}

/// Classes a token by its kind and the lexer's tests of it.
pub fn token_class(kind: LexKind, identifier: bool, literal: bool) -> (r: TokenClass)
    ensures
        r == class_of(kind, identifier, literal),
{
    match kind {
        LexKind::Eof => TokenClass::Eof,
        LexKind::Other => {
            if identifier {
                TokenClass::Identifier
            } else if literal {
                TokenClass::Literal
            } else {
                TokenClass::Other
            }
        },
        _ => {
            if identifier {
                TokenClass::Identifier
            } else {
                TokenClass::Literal
            }
        },
    }
}

/// The lexed tokens, each with its class.
pub fn raw_tokens(toks: Vec<LexedToken>) -> (r: Vec<RawToken>)
    ensures
        r@ == toks@.map_values(|t: LexedToken| raw_of(t)),
{
    let ghost tv = toks@;
    let mut toks = toks;
    let mut rev: Vec<RawToken> = Vec::new();
    while toks.len() > 0
        invariant
            toks@ == tv.take(toks.len() as int),
            toks.len() <= tv.len(),
            rev.len() == tv.len() - toks.len(),
            forall|i: int| 0 <= i < rev.len() ==> #[trigger] rev@[i] == raw_of(tv[tv.len() - 1 - i]),
        decreases toks.len(),
    {
        let t = toks.pop().unwrap();
        assert(t == tv[toks.len() as int]);
        let class = token_class(t.kind, t.identifier, t.literal);
        rev.push(RawToken { start: t.start, end: t.end, class, text: t.text });
        assert(toks@ =~= tv.take(toks.len() as int));
    }
    let mut out: Vec<RawToken> = Vec::new();
    while rev.len() > 0
        invariant
            out.len() + rev.len() == tv.len(),
            forall|i: int| 0 <= i < rev.len() ==> #[trigger] rev@[i] == raw_of(tv[tv.len() - 1 - i]),
            forall|i: int| 0 <= i < out.len() ==> #[trigger] out@[i] == raw_of(tv[i]),
        decreases rev.len(),
    {
        let t = rev.pop().unwrap();
        out.push(t);
    }
    assert(out@ =~= tv.map_values(|t: LexedToken| raw_of(t)));
    out
}

/// The normalized form of one token.
pub open spec fn normal_form(t: RawToken) -> NormalizedToken {
    match t.class {
        TokenClass::Identifier => NormalizedToken::Id,
        TokenClass::Literal => NormalizedToken::Lit,
        _ => NormalizedToken::Text(t.text),
    }
}

/// Whether a token lies inside the body span and is not the end of input.
pub open spec fn in_body(t: RawToken, start: u32, end: u32) -> bool {
    start <= t.start && t.end <= end && t.class != TokenClass::Eof
}

/// The normalized tokens of a body: identifiers and literals abstracted,
/// everything else kept by its text, tokens outside the body dropped.
pub open spec fn normalized(tokens: Seq<RawToken>, start: u32, end: u32) -> Seq<NormalizedToken>
    decreases tokens.len(),
{
    if tokens.len() == 0 {
        Seq::empty()
    } else {
        let p = normalized(tokens.drop_last(), start, end);
        if in_body(tokens.last(), start, end) {
            p.push(normal_form(tokens.last()))
        } else {
            p
        }
    }
}

/// Normalizes the tokens that lie inside the body span `start..end`.
pub fn normalize_tokens(tokens: &Vec<RawToken>, start: u32, end: u32) -> (r: Vec<NormalizedToken>)
    ensures
        r@ == normalized(tokens@, start, end),
{
    let mut out: Vec<NormalizedToken> = Vec::new();
    let mut i: usize = 0;
    assert(tokens@.take(0) =~= Seq::<RawToken>::empty());
    while i < tokens.len()
        invariant
            i <= tokens.len(),
            out@ == normalized(tokens@.take(i as int), start, end),
        decreases tokens.len() - i,
    {
        let t = &tokens[i];
        assert(tokens@.take(i + 1).drop_last() =~= tokens@.take(i as int));
        assert(tokens@.take(i + 1).last() == *t);
        if start <= t.start && t.end <= end && t.class != TokenClass::Eof {
            let n = match t.class {
                TokenClass::Identifier => NormalizedToken::Id,
                TokenClass::Literal => NormalizedToken::Lit,
                _ => NormalizedToken::Text(t.text.clone()),
            };
            out.push(n);
        }
        i += 1;
    }
    assert(tokens@.take(tokens.len() as int) =~= tokens@);
    out
}

/// Candidate order: by display path, then span start, then name.
pub open spec fn candidate_rel(a: FunctionCandidate, b: FunctionCandidate) -> Rel {
    match path_order(a.display@, b.display@) {
        Rel::Equal => if a.span_start < b.span_start {
            Rel::Less
        } else if a.span_start > b.span_start {
            Rel::Greater
        } else {
            lex_order(a.name@, b.name@)
        },
        r => r,
    }
}

/// Candidate order on indices into `cs`.
pub open spec fn candidate_leq(cs: Seq<FunctionCandidate>) -> spec_fn(usize, usize) -> bool {
    |a: usize, b: usize| candidate_rel(cs[a as int], cs[b as int]) != Rel::Greater
}

/// Indices below `k` of the candidates with at least `MIN_AST_NODES` AST nodes, in order.
pub open spec fn large_candidates(cs: Seq<FunctionCandidate>, k: int) -> Seq<usize>
    decreases k,
{
    if k <= 0 {
        Seq::empty()
    } else {
        let p = large_candidates(cs, k - 1);
        if cs[k - 1].ast_kinds@.len() >= MIN_AST_NODES {
            p.push((k - 1) as usize)
        } else {
            p
        }
    }
}

/// The large candidates in candidate order (ties kept in input order).
pub open spec fn candidate_sequence(cs: Seq<FunctionCandidate>) -> Seq<usize> {
    stable_sorted(large_candidates(cs, cs.len() as int), candidate_leq(cs))
}

/// Whether `b` is a near-duplicate of `a`.
pub open spec fn near_duplicates(a: FunctionCandidate, b: FunctionCandidate) -> bool {
    &&& a.name@ != b.name@
    &&& a.ast_kinds@.len() >= MIN_AST_NODES
    &&& b.ast_kinds@.len() >= MIN_AST_NODES
    &&& a.ast_kinds@ == b.ast_kinds@
    &&& confident(a.window_hashes@, b.window_hashes@)
}

/// The finding for the pair `a`, `b`, located at `a`.
pub open spec fn pair_finding(a: FunctionCandidate, b: FunctionCandidate) -> FindingView {
    FindingView {
        shape: Shape::NearDuplicate,
        file: a.display@,
        line: a.line,
        span_start: a.span_start,
        subject: a.name@,
        nodes: seq![node(a.name@, true), node(b.name@, false)],
    }
}

/// Findings for the pairs `(i, j)` with `i < j < m` of the sequence `order`.
pub open spec fn row_findings(cs: Seq<FunctionCandidate>, order: Seq<usize>, i: int, m: int) -> Seq<FindingView>
    decreases m - i,
{
    if m <= i + 1 {
        Seq::empty()
    } else {
        let p = row_findings(cs, order, i, m - 1);
        let (a, b) = (cs[order[i] as int], cs[order[m - 1] as int]);
        if near_duplicates(a, b) {
            p.push(pair_finding(a, b))
        } else {
            p
        }
    }
}

/// Findings for the pairs whose first member is among the first `k` of `order`.
pub open spec fn pair_findings(cs: Seq<FunctionCandidate>, order: Seq<usize>, k: int) -> Seq<FindingView>
    decreases k,
{
    if k <= 0 {
        Seq::empty()
    } else {
        pair_findings(cs, order, k - 1) + row_findings(cs, order, k - 1, order.len() as int)
    }
}

/// All near-duplicate findings among the candidates, in the order they are found.
pub open spec fn near_duplicate_findings(cs: Seq<FunctionCandidate>) -> Seq<FindingView> {
    let order = candidate_sequence(cs);
    pair_findings(cs, order, order.len() as int)
}

/// Three-way comparison of two candidates.
fn compare_candidates(a: &FunctionCandidate, b: &FunctionCandidate) -> (r: Rel)
    ensures
        r == candidate_rel(*a, *b),
{
    match compare_paths(a.display.as_str(), b.display.as_str()) {
        Rel::Equal => {
            if a.span_start < b.span_start {
                Rel::Less
            } else if a.span_start > b.span_start {
                Rel::Greater
            } else {
                compare_strings(a.name.as_str(), b.name.as_str())
            }
        },
        r => r,
    }
}

/// Candidate indices ordered by their candidates.
pub struct ByCandidate<'a> {
    pub cands: &'a Vec<FunctionCandidate>,
}

impl<'a> KeyOrder<usize> for ByCandidate<'a> {
    open spec fn admits(&self, x: usize) -> bool {
        x < self.cands.len()
    }

    open spec fn leq(&self) -> spec_fn(usize, usize) -> bool {
        candidate_leq(self.cands@)
    }

    fn le(&self, a: &usize, b: &usize) -> (r: bool) {
        match compare_candidates(&self.cands[*a], &self.cands[*b]) {
            Rel::Greater => false,
            _ => true,
        }
    }
}

proof fn lemma_large_candidates_ok(cs: Seq<FunctionCandidate>, k: int)
    requires
        k <= cs.len(),
    ensures
        forall|i: int| 0 <= i < large_candidates(cs, k).len() ==> #[trigger] large_candidates(cs, k)[i] < k,
    decreases k,
{
    if k > 0 {
        lemma_large_candidates_ok(cs, k - 1);
        let p = large_candidates(cs, k - 1);
        assert forall|i: int| 0 <= i < large_candidates(cs, k).len() implies #[trigger] large_candidates(cs, k)[i] < k by {
            if i < p.len() {
                assert(large_candidates(cs, k)[i] == p[i]);
            }
        }
    }
}

/// Whether the two hash lists share at least 70% of the longer one's windows
/// (counted with multiplicity); false when either is empty.
pub fn windows_confident(a: &Vec<u64>, b: &Vec<u64>) -> (r: bool)
    ensures
        r == confident(a@, b@),
{
    if a.len() == 0 || b.len() == 0 {
        return false;
    }
    let matching = window_matches(a, b);
    let total = if a.len() >= b.len() {
        a.len()
    } else {
        b.len()
    };
    10 * (matching as u128) >= 7 * (total as u128)
}

/// Near-duplicate function pairs among the candidates: candidates with fewer
/// than `MIN_AST_NODES` body nodes are dropped, the rest put in candidate
/// order, and each pair `a` before `b` with distinct names, equal AST-kind
/// sequences and confident token windows gives a finding located at `a`.
pub fn detect(candidates: &Vec<FunctionCandidate>) -> (r: Vec<Finding>)
    ensures
        views(r@) == report_order(near_duplicate_findings(candidates@)),
{
    let ghost cs = candidates@;
    let mut large: Vec<usize> = Vec::new();
    let mut k: usize = 0;
    while k < candidates.len()
        invariant
            cs == candidates@,
            k <= candidates.len(),
            large@ == large_candidates(cs, k as int),
        decreases candidates.len() - k,
    {
        if candidates[k].ast_kinds.len() >= MIN_AST_NODES {
            large.push(k);
        }
        k += 1;
    }
    proof {
        lemma_large_candidates_ok(cs, cs.len() as int);
    }
    let ctx = ByCandidate { cands: candidates };
    let order = stable_sort(&ctx, large);
    proof {
        crate::order::lemma_stable_sorted_multiset(large_candidates(cs, cs.len() as int), candidate_leq(cs));
        lemma_order_in_range(large_candidates(cs, cs.len() as int), candidate_leq(cs), cs.len() as int);
    }
    let n = order.len();
    let mut findings: Vec<Finding> = Vec::new();
    let mut i: usize = 0;
    while i < n
        invariant
            cs == candidates@,
            n == order.len(),
            order@ == candidate_sequence(cs),
            forall|q: int| 0 <= q < n ==> #[trigger] order@[q] < cs.len(),
            i <= n,
            views(findings@) == pair_findings(cs, order@, i as int),
        decreases n - i,
    {
        let a = &candidates[order[i]];
        let mut j: usize = i + 1;
        let ghost base = views(findings@);
        while j < n
            invariant
                cs == candidates@,
                n == order.len(),
                forall|q: int| 0 <= q < n ==> #[trigger] order@[q] < cs.len(),
                i < n,
                i + 1 <= j <= n,
                *a == cs[order@[i as int] as int],
                views(findings@) == base + row_findings(cs, order@, i as int, j as int),
            decreases n - j,
        {
            let b = &candidates[order[j]];
            let ghost before = views(findings@);
            if !str_eq(a.name.as_str(), b.name.as_str()) && a.ast_kinds.len() >= MIN_AST_NODES
                && b.ast_kinds.len() >= MIN_AST_NODES && kinds_equal(&a.ast_kinds, &b.ast_kinds)
                && windows_confident(&a.window_hashes, &b.window_hashes) {
                let f = Finding {
                    shape: Shape::NearDuplicate,
                    location: Location { file: a.display.clone(), line: a.line, span_start: a.span_start },
                    subject: a.name.clone(),
                    evidence: Evidence::Path {
                        nodes: vec![
                            PathNode { label: a.name.clone(), annotation: None, is_subject: true },
                            PathNode { label: b.name.clone(), annotation: None, is_subject: false },
                        ],
                    },
                };
                assert(f@ == pair_finding(*a, *b)) by {
                    assert(f@.nodes =~= pair_finding(*a, *b).nodes);
                }
                findings.push(f);
                assert(views(findings@) =~= before.push(f@));
            }
            assert(views(findings@) =~= base + row_findings(cs, order@, i as int, j + 1));
            j += 1;
        }
        assert(views(findings@) =~= pair_findings(cs, order@, i + 1));
        i += 1;
    }
    crate::finding::sort_findings(findings)
}

proof fn lemma_order_in_range(s: Seq<usize>, leq: spec_fn(usize, usize) -> bool, n: int)
    requires
        forall|i: int| 0 <= i < s.len() ==> #[trigger] s[i] < n,
        stable_sorted(s, leq).to_multiset() == s.to_multiset(),
    ensures
        forall|i: int| 0 <= i < stable_sorted(s, leq).len() ==> #[trigger] stable_sorted(s, leq)[i] < n,
{
    let t = stable_sorted(s, leq);
    assert forall|i: int| 0 <= i < t.len() implies #[trigger] t[i] < n by {
        t.to_multiset_ensures();
        s.to_multiset_ensures();
        assert(t.to_multiset().count(t[i]) > 0);
        assert(s.contains(t[i]));
    }
}

/// Whether two AST-kind sequences are equal.
fn kinds_equal(a: &Vec<u32>, b: &Vec<u32>) -> (r: bool)
    ensures
        r == (a@ == b@),
{
    if a.len() != b.len() {
        return false;
    }
    let mut i: usize = 0;
    while i < a.len()
        invariant
            a.len() == b.len(),
            i <= a.len(),
            forall|k: int| 0 <= k < i ==> a@[k] == b@[k],
        decreases a.len() - i,
    {
        if a[i] != b[i] {
            return false;
        }
        i += 1;
    }
    assert(a@ =~= b@);
    true
}

/// Candidates `order[i]` and `order[j]` are near-duplicates and `f` is their finding.
pub open spec fn found_pair(cs: Seq<FunctionCandidate>, order: Seq<usize>, f: FindingView, i: int, j: int) -> bool {
    near_duplicates(cs[order[i] as int], cs[order[j] as int]) && f == pair_finding(cs[order[i] as int], cs[order[j] as int])
}

proof fn lemma_row_findings(cs: Seq<FunctionCandidate>, order: Seq<usize>, i: int, m: int)
    requires
        0 <= i,
        m <= order.len(),
    ensures
        forall|f: FindingView| #[trigger] row_findings(cs, order, i, m).contains(f) <==> exists|j: int| i < j < m && #[trigger] found_pair(cs, order, f, i, j),
    decreases m - i,
{
    if m > i + 1 {
        let p = row_findings(cs, order, i, m - 1);
        let r = row_findings(cs, order, i, m);
        lemma_row_findings(cs, order, i, m - 1);
        let (a, b) = (cs[order[i] as int], cs[order[m - 1] as int]);
        assert forall|f: FindingView| #[trigger] r.contains(f) <==> exists|j: int| i < j < m && #[trigger] found_pair(cs, order, f, i, j) by {
            if near_duplicates(a, b) {
                assert(r == p.push(pair_finding(a, b)));
                if r.contains(f) {
                    let k = choose|k: int| 0 <= k < r.len() && r[k] == f;
                    if k < p.len() {
                        assert(p[k] == f);
                        assert(p.contains(f));
                    } else {
                        assert(found_pair(cs, order, f, i, m - 1));
                    }
                }
                if exists|j: int| i < j < m && #[trigger] found_pair(cs, order, f, i, j) {
                    let j = choose|j: int| i < j < m && #[trigger] found_pair(cs, order, f, i, j);
                    if j < m - 1 {
                        assert(p.contains(f));
                        let k = choose|k: int| 0 <= k < p.len() && p[k] == f;
                        assert(r[k] == f);
                    } else {
                        assert(r[p.len() as int] == f);
                    }
                }
            } else {
                assert(r == p);
                if exists|j: int| i < j < m && #[trigger] found_pair(cs, order, f, i, j) {
                    let j = choose|j: int| i < j < m && #[trigger] found_pair(cs, order, f, i, j);
                    assert(j < m - 1);
                }
            }
        }
    }
}

proof fn lemma_pair_findings(cs: Seq<FunctionCandidate>, order: Seq<usize>, k: int)
    requires
        k <= order.len(),
    ensures
        forall|f: FindingView| #[trigger] pair_findings(cs, order, k).contains(f) <==> exists|i: int, j: int|
            0 <= i < k && i < j < order.len() && #[trigger] found_pair(cs, order, f, i, j),
    decreases k,
{
    if k > 0 {
        let p = pair_findings(cs, order, k - 1);
        let q = row_findings(cs, order, k - 1, order.len() as int);
        let r = pair_findings(cs, order, k);
        lemma_pair_findings(cs, order, k - 1);
        lemma_row_findings(cs, order, k - 1, order.len() as int);
        assert(r == p + q);
        assert forall|f: FindingView| #[trigger] r.contains(f) <==> exists|i: int, j: int|
            0 <= i < k && i < j < order.len() && #[trigger] found_pair(cs, order, f, i, j) by {
            if r.contains(f) {
                let n = choose|n: int| 0 <= n < r.len() && r[n] == f;
                if n < p.len() {
                    assert(p[n] == f);
                    assert(p.contains(f));
                } else {
                    assert(q[n - p.len()] == f);
                    assert(q.contains(f));
                }
            }
            if exists|i: int, j: int| 0 <= i < k && i < j < order.len() && #[trigger] found_pair(cs, order, f, i, j) {
                let (i, j) = choose|i: int, j: int| 0 <= i < k && i < j < order.len() && #[trigger] found_pair(cs, order, f, i, j);
                if i < k - 1 {
                    assert(p.contains(f));
                    let n = choose|n: int| 0 <= n < p.len() && p[n] == f;
                    assert(r[n] == f);
                } else {
                    assert(q.contains(f));
                    let n = choose|n: int| 0 <= n < q.len() && q[n] == f;
                    assert(r[p.len() + n] == f);
                }
            }
        }
    }
}

proof fn lemma_large_members(cs: Seq<FunctionCandidate>, k: int)
    requires
        0 <= k <= cs.len(),
        cs.len() <= usize::MAX,
    ensures
        forall|x: usize| #[trigger] large_candidates(cs, k).contains(x) <==> x < k && cs[x as int].ast_kinds@.len() >= MIN_AST_NODES,
    decreases k,
{
    if k > 0 {
        let p = large_candidates(cs, k - 1);
        let r = large_candidates(cs, k);
        lemma_large_members(cs, k - 1);
        assert forall|x: usize| #[trigger] r.contains(x) <==> x < k && cs[x as int].ast_kinds@.len() >= MIN_AST_NODES by {
            if cs[k - 1].ast_kinds@.len() >= MIN_AST_NODES {
                assert(r == p.push((k - 1) as usize));
                if r.contains(x) {
                    let n = choose|n: int| 0 <= n < r.len() && r[n] == x;
                    if n < p.len() {
                        assert(p[n] == x);
                        assert(p.contains(x));
                    }
                }
                if x < k && cs[x as int].ast_kinds@.len() >= MIN_AST_NODES {
                    if x < k - 1 {
                        assert(p.contains(x));
                        let n = choose|n: int| 0 <= n < p.len() && p[n] == x;
                        assert(r[n] == x);
                    } else {
                        assert(r[p.len() as int] == x);
                    }
                }
            } else {
                assert(r == p);
            }
        }
    }
}

/// The candidate order holds exactly the candidates with at least
/// `MIN_AST_NODES` nodes, and a finding is reported exactly for each pair of
/// near-duplicates in that order, located at the earlier of the two.
pub proof fn law_near_duplicate_pairs(cs: Seq<FunctionCandidate>)
    requires
        cs.len() <= usize::MAX,
    ensures
        forall|x: usize| #[trigger] candidate_sequence(cs).contains(x) <==> x < cs.len() && cs[x as int].ast_kinds@.len() >= MIN_AST_NODES,
        forall|f: FindingView| #[trigger] near_duplicate_findings(cs).contains(f) <==> exists|i: int, j: int|
            0 <= i < j < candidate_sequence(cs).len() && #[trigger] found_pair(cs, candidate_sequence(cs), f, i, j),
{
    let e = large_candidates(cs, cs.len() as int);
    let order = candidate_sequence(cs);
    lemma_large_members(cs, cs.len() as int);
    crate::order::lemma_sorted_keeps(e, candidate_leq(cs));
    crate::order::lemma_sorted_contains(e, candidate_leq(cs));
    assert forall|x: usize| #[trigger] order.contains(x) implies e.contains(x) by {
        let n = choose|n: int| 0 <= n < order.len() && order[n] == x;
        assert(e.contains(order[n]));
    }
    lemma_pair_findings(cs, order, order.len() as int);
}

/// Near-duplicates are found anywhere in the program, whatever file each
/// function is in: every function with at least `MIN_AST_NODES` AST nodes is
/// compared, and a pair, the earlier one first, is reported exactly when
/// the names differ, the AST kinds are equal, and both have windows of which
/// the two share at least 70% of the longer list.
pub proof fn law_near_duplicates_anywhere(cs: Seq<FunctionCandidate>)
    requires
        cs.len() <= usize::MAX,
    ensures
        forall|x: usize| #[trigger] candidate_sequence(cs).contains(x) <==> x < cs.len() && cs[x as int].ast_kinds@.len() >= MIN_AST_NODES,
        forall|i: int, j: int|
            0 <= i < j < candidate_sequence(cs).len() && ({
                let a = cs[candidate_sequence(cs)[i] as int];
                let b = cs[candidate_sequence(cs)[j] as int];
                let (wa, wb) = (a.window_hashes@, b.window_hashes@);
                &&& a.name@ != b.name@
                &&& a.ast_kinds@ == b.ast_kinds@
                &&& wa.len() > 0 && wb.len() > 0
                &&& 10 * wa.to_multiset().intersection_with(wb.to_multiset()).len() >= 7 * if wa.len() >= wb.len() {
                    wa.len()
                } else {
                    wb.len()
                }
            }) ==> #[trigger] near_duplicate_findings(cs).contains(
                pair_finding(cs[candidate_sequence(cs)[i] as int], cs[candidate_sequence(cs)[j] as int]),
            ),
        forall|f: FindingView| #[trigger] near_duplicate_findings(cs).contains(f) ==> exists|i: int, j: int|
            0 <= i < j < candidate_sequence(cs).len() && cs[candidate_sequence(cs)[i] as int].name@ != cs[candidate_sequence(cs)[j] as int].name@ && cs[candidate_sequence(cs)[i] as int].ast_kinds@ == cs[candidate_sequence(cs)[j] as int].ast_kinds@
                && cs[candidate_sequence(cs)[i] as int].ast_kinds@.len() >= MIN_AST_NODES && f == #[trigger] pair_finding(cs[candidate_sequence(cs)[i] as int], cs[candidate_sequence(cs)[j] as int]),
{
    law_near_duplicate_pairs(cs);
    let order = candidate_sequence(cs);
    let fs = near_duplicate_findings(cs);
    assert forall|i: int, j: int|
        0 <= i < j < order.len() && ({
            let a = cs[order[i] as int];
            let b = cs[order[j] as int];
            let (wa, wb) = (a.window_hashes@, b.window_hashes@);
            &&& a.name@ != b.name@
            &&& a.ast_kinds@ == b.ast_kinds@
            &&& wa.len() > 0 && wb.len() > 0
            &&& 10 * wa.to_multiset().intersection_with(wb.to_multiset()).len() >= 7 * if wa.len() >= wb.len() {
                wa.len()
            } else {
                wb.len()
            }
        }) implies #[trigger] fs.contains(pair_finding(cs[order[i] as int], cs[order[j] as int])) by {
        assert(order.contains(order[i]));
        assert(order.contains(order[j]));
        assert(found_pair(cs, order, pair_finding(cs[order[i] as int], cs[order[j] as int]), i, j));
    }
    assert forall|f: FindingView| #[trigger] fs.contains(f) implies exists|i: int, j: int|
        0 <= i < j < order.len() && cs[order[i] as int].name@ != cs[order[j] as int].name@ && cs[order[i] as int].ast_kinds@ == cs[order[j] as int].ast_kinds@
                && cs[order[i] as int].ast_kinds@.len() >= MIN_AST_NODES && f == #[trigger] pair_finding(cs[order[i] as int], cs[order[j] as int]) by {
        let (i, j) = choose|i: int, j: int| 0 <= i < j < order.len() && #[trigger] found_pair(cs, order, f, i, j);
        assert(f == pair_finding(cs[order[i] as int], cs[order[j] as int]));
    }
}

} // verus!
