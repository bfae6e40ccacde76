//! The pure parts of the tsgo session: node handles, the binary node table
//! of a source file, base64, and locating nodes by offset.

use vstd::prelude::*;
use vstd::string::StringSliceAdditionalSpecFns;

use crate::error::Error;
use crate::parse::{chars_within, count_within, lemma_chars_within_range, utf16_len};
use crate::text::{append_decimal, append_str, chars_of, decimal, digit_char, string_from};

verus! {

/// The syntax kind number of a call expression.
pub const KIND_CALL_EXPRESSION: u32 = 214;

/// Where the node table offset sits in a source file's binary form.
pub const HEADER_OFFSET_NODES: usize = 40;

/// Bytes per node in the node table.
pub const NODE_LEN: usize = 28;

/// A node of tsgo's syntax tree: its index in the node table, its kind and
/// its UTF-16 span.
#[derive(Debug, Clone, Copy)]
pub struct TsNode {
    pub index: u32,
    pub kind: u32,
    pub pos: u32,
    pub end: u32,
}

/// An open snapshot and the project in it.
#[derive(Debug)]
pub struct Snapshot {
    pub id: i64,
    pub project: String,
}

/// A resolved call signature: where it is declared, when known.
#[derive(Debug)]
pub struct Signature {
    pub declaration: Option<String>,
}

impl Signature {
    /// Whether the signature names a declaration.
    pub fn is_resolved(&self) -> (r: bool)
        ensures
            r == (self.declaration is Some && self.declaration->0@.len() > 0),
    {
        match &self.declaration {
            Some(d) => chars_of(d.as_str()).len() > 0,
            None => false,
        }
    }
}

/// The handle tsgo uses for a node: `index.kind.path`.
pub open spec fn handle_text(index: u32, kind: u32, path: Seq<char>) -> Seq<char> {
    decimal(index as nat) + "."@ + decimal(kind as nat) + "."@ + path
}

/// The handle of a node.
pub fn node_handle(index: u32, kind: u32, canonical_path: &str) -> (r: String)
    ensures
        r@ == handle_text(index, kind, canonical_path@),
{
    let mut out = String::new();
    append_decimal(&mut out, index as u64);
    append_str(&mut out, ".");
    append_decimal(&mut out, kind as u64);
    append_str(&mut out, ".");
    append_str(&mut out, canonical_path);
    proof {
        reveal_strlit(".");
    }
    out
}

/// Whether `c` is an ASCII digit.
pub open spec fn is_digit(c: char) -> bool {
    '0' <= c && c <= '9'
}

/// The value of a string of decimal digits.
pub open spec fn digits_value(s: Seq<char>) -> nat
    decreases s.len(),
{
    if s.len() == 0 {
        0
    } else {
        10 * digits_value(s.drop_last()) + ((s.last() as u32) - ('0' as u32)) as nat
    }
}

/// Whether every character of `d` is a digit.
pub open spec fn all_digits(d: Seq<char>) -> bool {
    forall|i: int| 0 <= i < d.len() ==> is_digit(#[trigger] d[i])
}

/// `s` without a leading `+`.
pub open spec fn unsigned_part(s: Seq<char>) -> Seq<char> {
    if s.len() > 0 && s[0] == '+' {
        s.drop_first()
    } else {
        s
    }
}

/// The `u32` a string denotes: an optional `+`, then one or more digits, of
/// a value that fits.
pub open spec fn parsed_u32(s: Seq<char>) -> Option<u32> {
    let d = unsigned_part(s);
    if d.len() > 0 && all_digits(d) && digits_value(d) <= u32::MAX {
        Some(digits_value(d) as u32)
    } else {
        None
    }
}

proof fn lemma_digits_monotone(s: Seq<char>, k: int)
    requires
        0 <= k <= s.len(),
        forall|i: int| 0 <= i < s.len() ==> is_digit(#[trigger] s[i]),
    ensures
        digits_value(s.take(k)) <= digits_value(s),
    decreases s.len() - k,
{
    if k < s.len() {
        lemma_digits_monotone(s, k + 1);
        assert(s.take(k + 1).drop_last() =~= s.take(k));
    } else {
        assert(s.take(k) =~= s);
    }
}

proof fn lemma_parsed_none(s: Seq<char>, d: Seq<char>)
    requires
        d == unsigned_part(s),
        !all_digits(d) || digits_value(d) > u32::MAX,
    ensures
        parsed_u32(s) is None,
{
}

/// The `u32` in `cs[from..to]`.
fn parse_u32_range(cs: &Vec<char>, from: usize, to: usize) -> (r: Option<u32>)
    requires
        from <= to <= cs.len(),
    ensures
        r == parsed_u32(cs@.subrange(from as int, to as int)),
{
    let ghost s = cs@.subrange(from as int, to as int);
    let mut start = from;
    if start < to && cs[start] == '+' {
        start += 1;
    }
    let ghost d = cs@.subrange(start as int, to as int);
    assert(d =~= unsigned_part(s));
    if start == to {
        return None;
    }
    let mut value: u64 = 0;
    let mut i = start;
    while i < to
        invariant
            from <= start < to <= cs.len(),
            start <= i <= to,
            s == cs@.subrange(from as int, to as int),
            d == cs@.subrange(start as int, to as int),
            d == unsigned_part(s),
            forall|k: int| start <= k < i ==> is_digit(#[trigger] cs@[k]),
            value == digits_value(cs@.subrange(start as int, i as int)),
            value <= u32::MAX,
        decreases to - i,
    {
        let c = cs[i];
        if !('0' <= c && c <= '9') {
            assert(d[i - start] == c);
            assert(!is_digit(d[i - start]));
            assert(!all_digits(d));
            proof {
                lemma_parsed_none(s, d);
            }
            return None;
        }
        let ghost prev = cs@.subrange(start as int, i as int);
        assert(cs@.subrange(start as int, i + 1).drop_last() =~= prev);
        let next: u64 = value * 10 + ((c as u32) - ('0' as u32)) as u64;
        assert(digits_value(cs@.subrange(start as int, i + 1)) == next);
        if next > 0xFFFF_FFFF {
            proof {
                assert forall|k: int| 0 <= k < (i + 1 - start) implies is_digit(#[trigger] cs@.subrange(start as int, i + 1)[k]) by {
                    assert(cs@.subrange(start as int, i + 1)[k] == cs@[start + k]);
                }
                if all_digits(d) {
                    lemma_digits_monotone(d, i + 1 - start);
                    assert(d.take(i + 1 - start) =~= cs@.subrange(start as int, i + 1));
                    assert(digits_value(d) > u32::MAX);
                }
                lemma_parsed_none(s, d);
            }
            return None;
        }
        value = next;
        i += 1;
    }
    assert(d =~= cs@.subrange(start as int, i as int));
    Some(value as u32)
}

/// The first `c` in `cs` at or after `from`.
fn find_char(cs: &Vec<char>, from: usize, c: char) -> (r: Option<usize>)
    requires
        from <= cs.len(),
    ensures
        match r {
            Some(k) => from <= k < cs.len() && cs@[k as int] == c && forall|q: int| from <= q < k ==> cs@[q] != c,
            None => forall|q: int| from <= q < cs.len() ==> cs@[q] != c,
        },
{
    let mut i = from;
    while i < cs.len()
        invariant
            from <= i <= cs.len(),
            forall|q: int| from <= q < i ==> cs@[q] != c,
        decreases cs.len() - i,
    {
        if cs[i] == c {
            return Some(i);
        }
        i += 1;
    }
    None
}

/// The first position of `c` in `s` at or after `from`, or -1.
pub open spec fn first_from(s: Seq<char>, from: int, c: char) -> int
    decreases s.len() - from,
{
    if from >= s.len() || from < 0 {
        -1
    } else if s[from] == c {
        from
    } else {
        first_from(s, from + 1, c)
    }
}

/// A handle read back: the index before the first dot, the kind up to the
/// second dot, the path after it.
pub open spec fn parsed_handle(h: Seq<char>) -> Option<(u32, u32, Seq<char>)> {
    let first = first_from(h, 0, '.');
    let second = first_from(h, first + 1, '.');
    if first < 0 || second < 0 {
        None
    } else {
        match (parsed_u32(h.take(first)), parsed_u32(h.subrange(first + 1, second))) {
            (Some(index), Some(kind)) => Some((index, kind, h.skip(second + 1))),
            _ => None,
        }
    }
}

proof fn lemma_first_from(s: Seq<char>, from: int, c: char)
    requires
        0 <= from <= s.len(),
    ensures
        first_from(s, from, c) == -1 ==> forall|q: int| from <= q < s.len() ==> s[q] != c,
        first_from(s, from, c) != -1 ==> from <= first_from(s, from, c) < s.len() && s[first_from(s, from, c)] == c
            && forall|q: int| from <= q < first_from(s, from, c) ==> s[q] != c,
    decreases s.len() - from,
{
    if from < s.len() && s[from] != c {
        lemma_first_from(s, from + 1, c);
    }
}

/// Reads a node handle back into index, kind and path.
pub fn parse_handle(handle: &str) -> (r: Option<(u32, u32, String)>)
    ensures
        match r {
            Some((i, k, p)) => parsed_handle(handle@) == Some((i, k, p@)),
            None => parsed_handle(handle@) is None,
        },
{
    let cs = chars_of(handle);
    proof {
        lemma_first_from(cs@, 0, '.');
    }
    let first = match find_char(&cs, 0, '.') {
        Some(k) => k,
        None => {
            return None;
        },
    };
    assert(first_from(cs@, 0, '.') == first) by {
        if first_from(cs@, 0, '.') != first as int {
            assert(false);
        }
    }
    proof {
        lemma_first_from(cs@, first + 1, '.');
    }
    let second = match find_char(&cs, first + 1, '.') {
        Some(k) => k,
        None => {
            return None;
        },
    };
    assert(first_from(cs@, first + 1, '.') == second) by {
        if first_from(cs@, first + 1, '.') != second as int {
            assert(false);
        }
    }
    assert(cs@.subrange(0, first as int) =~= cs@.take(first as int));
    let index = match parse_u32_range(&cs, 0, first) {
        Some(v) => v,
        None => {
            return None;
        },
    };
    let kind = match parse_u32_range(&cs, first + 1, second) {
        Some(v) => v,
        None => {
            return None;
        },
    };
    let mut rest: Vec<char> = Vec::new();
    let mut i = second + 1;
    while i < cs.len()
        invariant
            second + 1 <= i <= cs.len(),
            rest@ == cs@.subrange(second + 1, i as int),
        decreases cs.len() - i,
    {
        rest.push(cs[i]);
        assert(rest@ =~= cs@.subrange(second + 1, i + 1));
        i += 1;
    }
    assert(rest@ =~= cs@.skip(second + 1));
    Some((index, kind, string_from(&rest)))
}

proof fn lemma_decimal(n: nat)
    ensures
        decimal(n).len() >= 1,
        all_digits(decimal(n)),
        digits_value(decimal(n)) == n,
        !decimal(n).contains('.'),
        decimal(n)[0] != '+',
    decreases n,
{
    let d = n % 10;
    assert(d < 10);
    assert(is_digit(digit_char(d)) && (digit_char(d) as u32) - ('0' as u32) == d) by {
        if d == 0 {
        } else if d == 1 {
        } else if d == 2 {
        } else if d == 3 {
        } else if d == 4 {
        } else if d == 5 {
        } else if d == 6 {
        } else if d == 7 {
        } else if d == 8 {
        } else {
        }
    }
    if n >= 10 {
        lemma_decimal(n / 10);
        let p = decimal(n / 10);
        let q = decimal(n);
        assert(q == p.push(digit_char(d)));
        assert(q.drop_last() =~= p);
        assert(q.last() == digit_char(d));
        assert(digits_value(q) == 10 * digits_value(p) + d);
        assert(n == 10 * (n / 10) + d);
        assert forall|i: int| 0 <= i < q.len() implies is_digit(#[trigger] q[i]) by {
            if i < p.len() {
                assert(q[i] == p[i]);
            }
        }
        assert(!q.contains('.')) by {
            if q.contains('.') {
                let i = choose|i: int| 0 <= i < q.len() && q[i] == '.';
                assert(is_digit(q[i]));
            }
        }
        assert(q[0] == p[0]);
    } else {
        assert(decimal(n) == seq![digit_char(d)]);
        assert(decimal(n).drop_last() =~= Seq::<char>::empty());
        assert(decimal(n).last() == digit_char(d));
        assert(digits_value(decimal(n)) == 10 * digits_value(Seq::<char>::empty()) + d);
        assert(!decimal(n).contains('.')) by {
            if decimal(n).contains('.') {
                assert(decimal(n)[0] == digit_char(d));
            }
        }
    }
}

proof fn lemma_first_dot(p: Seq<char>, rest: Seq<char>, from: int)
    requires
        !p.contains('.'),
        0 <= from <= p.len(),
    ensures
        first_from(p + seq!['.'] + rest, from, '.') == p.len(),
    decreases p.len() - from,
{
    let s = p + seq!['.'] + rest;
    if from < p.len() {
        assert(s[from] == p[from]);
        lemma_first_dot(p, rest, from + 1);
    } else {
        assert(s[from] == '.');
    }
}

/// Reading a node's handle gives back its index, its kind and its path.
pub proof fn law_handle_roundtrip(index: u32, kind: u32, path: Seq<char>)
    ensures
        parsed_handle(handle_text(index, kind, path)) == Some((index, kind, path)),
{
    reveal_strlit(".");
    let a = decimal(index as nat);
    let b = decimal(kind as nat);
    lemma_decimal(index as nat);
    lemma_decimal(kind as nat);
    let h = handle_text(index, kind, path);
    assert(h =~= a + seq!['.'] + (b + seq!['.'] + path));
    lemma_first_dot(a, b + seq!['.'] + path, 0);
    let first = a.len() as int;
    let tail = b + seq!['.'] + path;
    assert(h =~= (a + seq!['.'] + b) + seq!['.'] + path);
    assert forall|i: int| first + 1 <= i < first + 1 + b.len() implies h[i] != '.' by {
        assert(h[i] == b[i - first - 1]);
        if h[i] == '.' {
            assert(b.contains('.'));
        }
    }
    lemma_first_from(h, first + 1, '.');
    assert(h[first + 1 + b.len()] == '.');
    let second = first_from(h, first + 1, '.');
    assert(second == first + 1 + b.len()) by {
        if second == -1 {
            assert(h[first + 1 + b.len()] != '.');
        } else if second < first + 1 + b.len() {
            assert(h[second] != '.');
        } else if second > first + 1 + b.len() {
            assert(h[first + 1 + b.len()] != '.');
        }
    }
    assert(h.take(first) =~= a);
    assert(h.subrange(first + 1, second) =~= b);
    assert(h.skip(second + 1) =~= path);
    assert(unsigned_part(a) == a);
    assert(unsigned_part(b) == b);
}

/// Whether a node of one of `kinds` spans UTF-16 offset `u`.
pub open spec fn spans(n: TsNode, kinds: Seq<u32>, u: u32) -> bool {
    kinds.contains(n.kind) && n.pos <= u && u < n.end
}

/// Among the first `k` nodes, the first of least width that spans `u`.
pub open spec fn tightest(nodes: Seq<TsNode>, kinds: Seq<u32>, u: u32, k: int) -> Option<int>
    decreases k,
{
    if k <= 0 {
        None
    } else {
        let p = tightest(nodes, kinds, u, k - 1);
        let n = nodes[k - 1];
        if spans(n, kinds, u) && (p is None || n.end - n.pos < nodes[p->0].end - nodes[p->0].pos) {
            Some(k - 1)
        } else {
            p
        }
    }
}

proof fn lemma_tightest_range(nodes: Seq<TsNode>, kinds: Seq<u32>, u: u32, k: int)
    requires
        k <= nodes.len(),
    ensures
        match tightest(nodes, kinds, u, k) {
            Some(i) => 0 <= i < k,
            None => true,
        },
    decreases k,
{
    if k > 0 {
        lemma_tightest_range(nodes, kinds, u, k - 1);
    }
}

fn kind_listed(kinds: &[u32], kind: u32) -> (r: bool)
    ensures
        r == kinds@.contains(kind),
{
    let mut i: usize = 0;
    while i < kinds.len()
        invariant
            i <= kinds.len(),
            forall|q: int| 0 <= q < i ==> kinds@[q] != kind,
        decreases kinds.len() - i,
    {
        if kinds[i] == kind {
            assert(kinds@[i as int] == kind);
            return true;
        }
        i += 1;
    }
    false
}

/// The narrowest node of one of `kinds` that spans UTF-16 offset `utf16`
/// (the first such when several are equally narrow).
pub fn tightest_containing<'a>(nodes: &'a [TsNode], kinds: &[u32], utf16: u32) -> (r: Option<&'a TsNode>)
    ensures
        match tightest(nodes@, kinds@, utf16, nodes@.len() as int) {
            Some(i) => r == Some(&nodes@[i]),
            None => r is None,
        },
{
    let mut best: Option<usize> = None;
    let mut i: usize = 0;
    while i < nodes.len()
        invariant
            i <= nodes.len(),
            best == (match tightest(nodes@, kinds@, utf16, i as int) {
                Some(b) => Some(b as usize),
                None => None::<usize>,
            }),
            match best {
                Some(b) => b < i && nodes@[b as int].pos <= utf16 < nodes@[b as int].end,
                None => true,
            },
        decreases nodes.len() - i,
    {
        proof {
            lemma_tightest_range(nodes@, kinds@, utf16, i as int);
        }
        let n = nodes[i];
        if kind_listed(kinds, n.kind) && n.pos <= utf16 && utf16 < n.end {
            let better = match best {
                None => true,
                Some(b) => n.end - n.pos < nodes[b].end - nodes[b].pos,
            };
            if better {
                best = Some(i);
            }
        }
        i += 1;
    }
    proof {
        lemma_tightest_range(nodes@, kinds@, utf16, nodes@.len() as int);
    }
    match best {
        Some(b) => Some(&nodes[b]),
        None => None,
    }
}

/// The first node with the given index.
pub open spec fn first_with_index(nodes: Seq<TsNode>, index: u32) -> Option<int>
    decreases nodes.len(),
{
    if nodes.len() == 0 {
        None
    } else if nodes[0].index == index {
        Some(0)
    } else {
        match first_with_index(nodes.drop_first(), index) {
            Some(i) => Some(i + 1),
            None => None,
        }
    }
}

/// The first node with the given index.
pub fn node_by_index(nodes: &[TsNode], index: u32) -> (r: Option<&TsNode>)
    ensures
        match first_with_index(nodes@, index) {
            Some(i) => r == Some(&nodes@[i]),
            None => r is None,
        },
{
    let mut i: usize = 0;
    assert(nodes@.skip(0) =~= nodes@);
    while i < nodes.len()
        invariant
            i <= nodes.len(),
            first_with_index(nodes@, index) == (match first_with_index(nodes@.skip(i as int), index) {
                Some(k) => Some(k + i),
                None => None::<int>,
            }),
        decreases nodes.len() - i,
    {
        assert(nodes@.skip(i as int)[0] == nodes@[i as int]);
        assert(nodes@.skip(i as int).drop_first() =~= nodes@.skip(i + 1));
        if nodes[i].index == index {
            return Some(&nodes[i]);
        }
        i += 1;
    }
    assert(nodes@.skip(i as int) =~= Seq::<TsNode>::empty());
    None
}

proof fn lemma_utf16_len_bound(s: Seq<char>)
    ensures
        0 <= utf16_len(s) <= 2 * s.len(),
    decreases s.len(),
{
    if s.len() > 0 {
        lemma_utf16_len_bound(s.drop_last());
    }
}

/// The UTF-16 offset of byte offset `utf8` in `source` (an offset inside a
/// character counts as that character's start), truncated to 32 bits.
pub fn utf16_offset(source: &str, utf8: u32) -> (r: u32)
    ensures
        r == utf16_len(source@.take(chars_within(source@, utf8 as int))) as u32,
{
    let cs = chars_of(source);
    let k = count_within(&cs, utf8 as usize);
    proof {
        lemma_chars_within_range(cs@, utf8 as int);
    }
    let mut units: u128 = 0;
    let mut i: usize = 0;
    assert(cs@.take(0) =~= Seq::<char>::empty());
    while i < k
        invariant
            k <= cs.len(),
            i <= k,
            units == utf16_len(cs@.take(i as int)),
        decreases k - i,
    {
        proof {
            lemma_utf16_len_bound(cs@.take(i as int));
            assert(cs@.take(i + 1).drop_last() =~= cs@.take(i as int));
        }
        if (cs[i] as u32) < 0x10000 {
            units = units + 1;
        } else {
            units = units + 2;
        }
        i += 1;
    }
    #[verifier::truncate]
    (units as u32)
}

/// The little-endian 32-bit word at `at`.
pub open spec fn le_word(b: Seq<u8>, at: int) -> int {
    b[at] + 256 * b[at + 1] + 65536 * b[at + 2] + 16777216 * b[at + 3]
}

/// A signed 32-bit word taken as a position: negative values become 0.
pub open spec fn clamped(w: int) -> u32 {
    if w < 0x8000_0000 {
        w as u32
    } else {
        0
    }
}

/// Node `i` of the node table at `offset`.
pub open spec fn table_node(b: Seq<u8>, offset: int, i: int) -> TsNode {
    let base = offset + i * NODE_LEN;
    TsNode {
        index: i as u32,
        kind: le_word(b, base) as u32,
        pos: clamped(le_word(b, base + 4)),
        end: clamped(le_word(b, base + 8)),
    }
}

/// The nodes of table entries `1..k` (entry 0 is a sentinel), leaving out
/// entries cut short by the end of the data and entries of kind 0xFFFFFFFF.
pub open spec fn table_nodes(b: Seq<u8>, offset: int, k: int) -> Seq<TsNode>
    decreases k,
{
    if k <= 1 {
        Seq::empty()
    } else {
        let p = table_nodes(b, offset, k - 1);
        let base = offset + (k - 1) * NODE_LEN;
        if base + 12 <= b.len() && le_word(b, base) != 0xFFFF_FFFF {
            p.push(table_node(b, offset, k - 1))
        } else {
            p
        }
    }
}

fn word_at(b: &[u8], at: usize) -> (r: u64)
    requires
        at + 4 <= b@.len(),
    ensures
        r == le_word(b@, at as int),
        r <= 0xFFFF_FFFF,
{
    b[at] as u64 + 256 * (b[at + 1] as u64) + 65536 * (b[at + 2] as u64) + 16777216 * (b[at + 3] as u64)
}

fn clamp_word(w: u64) -> (r: u32)
    requires
        w <= 0xFFFF_FFFF,
    ensures
        r == clamped(w as int),
{
    if w < 0x8000_0000 {
        w as u32
    } else {
        0
    }
}

/// The nodes of a source file's binary form: the node table's offset is the
/// word at byte 40, and each 28-byte entry after the first gives kind, start
/// and end.
pub fn parse_nodes(bytes: &[u8]) -> (r: Result<Vec<TsNode>, Error>)
    ensures
        bytes@.len() < HEADER_OFFSET_NODES + 4 ==> (r matches Err(Error::Tsgo(m)) && m@ == "source file binary too small"@),
        bytes@.len() >= HEADER_OFFSET_NODES + 4 && le_word(bytes@, HEADER_OFFSET_NODES as int) > bytes@.len() ==> (r matches Err(
            Error::Tsgo(m),
        ) && m@ == "invalid node table offset"@),
        bytes@.len() >= HEADER_OFFSET_NODES + 4 && le_word(bytes@, HEADER_OFFSET_NODES as int) <= bytes@.len() ==> (r matches Ok(
            nodes,
        ) && nodes@ == table_nodes(
            bytes@,
            le_word(bytes@, HEADER_OFFSET_NODES as int),
            (bytes@.len() - le_word(bytes@, HEADER_OFFSET_NODES as int)) / (NODE_LEN as int),
        )),
{
    if bytes.len() < HEADER_OFFSET_NODES + 4 {
        let mut m = String::new();
        append_str(&mut m, "source file binary too small");
        proof {
            reveal_strlit("source file binary too small");
        }
        return Err(Error::Tsgo(m));
    }
    let w = word_at(bytes, HEADER_OFFSET_NODES);
    if w > bytes.len() as u64 {
        let mut m = String::new();
        append_str(&mut m, "invalid node table offset");
        proof {
            reveal_strlit("invalid node table offset");
        }
        return Err(Error::Tsgo(m));
    }
    let offset = w as usize;
    let count = (bytes.len() - offset) / NODE_LEN;
    let ghost len = bytes@.len() as int;
    assert(count * 28 <= len - offset) by (nonlinear_arith)
        requires
            count == (len - offset) / 28,
            offset <= len,
    ;
    let mut nodes: Vec<TsNode> = Vec::new();
    let mut i: usize = 1;
    while i < count
        invariant
            len == bytes@.len(),
            len == bytes.len(),
            offset <= len,
            count * 28 <= len - offset,
            (count == 0 && i == 1) || (1 <= i <= count),
            nodes@ == table_nodes(bytes@, offset as int, i as int),
        decreases count - i,
    {
        assert(i * 28 + 28 <= len - offset) by (nonlinear_arith)
            requires
                i < count,
                count * 28 <= len - offset,
        ;
        let base = offset + i * NODE_LEN;
        let kind = word_at(bytes, base);
        if kind != 0xFFFF_FFFF {
            let pos = clamp_word(word_at(bytes, base + 4));
            let end = clamp_word(word_at(bytes, base + 8));
            nodes.push(TsNode { index: i as u32, kind: kind as u32, pos, end });
        }
        i += 1;
    }
    proof {
        if count <= 1 {
            assert(table_nodes(bytes@, offset as int, count as int) =~= Seq::<TsNode>::empty());
        }
    }
    Ok(nodes)
}

/// The 6-bit value of a base64 character.
pub open spec fn sextet(c: u8) -> Option<u8> {
    if 65 <= c <= 90 {
        Some((c - 65) as u8)
    } else if 97 <= c <= 122 {
        Some((c - 97 + 26) as u8)
    } else if 48 <= c <= 57 {
        Some((c - 48 + 52) as u8)
    } else if c == 43 {
        Some(62)
    } else if c == 47 {
        Some(63)
    } else {
        None
    }
}

/// Padding and ASCII whitespace, which decoding passes over.
pub open spec fn skipped(c: u8) -> bool {
    c == 61 || c == 32 || c == 9 || c == 10 || c == 12 || c == 13
}

/// The 6-bit values of the significant characters; `None` at a character
/// that is neither significant nor passed over.
pub open spec fn sextets(b: Seq<u8>) -> Option<Seq<u8>>
    decreases b.len(),
{
    if b.len() == 0 {
        Some(Seq::empty())
    } else {
        match sextets(b.drop_last()) {
            None => None,
            Some(p) => if skipped(b.last()) {
                Some(p)
            } else {
                match sextet(b.last()) {
                    None => None,
                    Some(v) => Some(p.push(v)),
                }
            },
        }
    }
}

/// The bytes that 6-bit values encode: three per group of four; a final
/// group of two gives one byte, of three gives two, of one is an error.
pub open spec fn decoded(v: Seq<u8>) -> Option<Seq<u8>>
    decreases v.len(),
{
    if v.len() == 0 {
        Some(Seq::empty())
    } else if v.len() == 1 {
        None
    } else if v.len() == 2 {
        Some(seq![(v[0] * 4 + v[1] / 16) as u8])
    } else if v.len() == 3 {
        Some(seq![(v[0] * 4 + v[1] / 16) as u8, ((v[1] % 16) * 16 + v[2] / 4) as u8])
    } else {
        match decoded(v.skip(4)) {
            None => None,
            Some(rest) => Some(
                seq![
                    (v[0] * 4 + v[1] / 16) as u8,
                    ((v[1] % 16) * 16 + v[2] / 4) as u8,
                    ((v[2] % 4) * 64 + v[3]) as u8,
                ] + rest,
            ),
        }
    }
}

/// What decoding a base64 text gives.
pub open spec fn base64_decoded(b: Seq<u8>) -> Option<Seq<u8>> {
    match sextets(b) {
        None => None,
        Some(v) => decoded(v),
    }
}

fn sextet_of(c: u8) -> (r: Option<u8>)
    ensures
        r == sextet(c),
        match r {
            Some(v) => v < 64,
            None => true,
        },
{
    if 65 <= c && c <= 90 {
        Some(c - 65)
    } else if 97 <= c && c <= 122 {
        Some(c - 97 + 26)
    } else if 48 <= c && c <= 57 {
        Some(c - 48 + 52)
    } else if c == 43 {
        Some(62)
    } else if c == 47 {
        Some(63)
    } else {
        None
    }
}

fn invalid_base64() -> (e: Error)
    ensures
        e matches Error::Tsgo(m) && m@ == "invalid base64 in getSourceFile"@,
{
    let mut m = String::new();
    append_str(&mut m, "invalid base64 in getSourceFile");
    proof {
        reveal_strlit("invalid base64 in getSourceFile");
    }
    Error::Tsgo(m)
}

/// Decodes base64 text; padding and ASCII whitespace are passed over.
pub fn decode_base64(input: &str) -> (r: Result<Vec<u8>, Error>)
    ensures
        match base64_decoded(input.spec_bytes()) {
            Some(out) => r matches Ok(v) && v@ == out,
            None => r matches Err(Error::Tsgo(m)) && m@ == "invalid base64 in getSourceFile"@,
        },
{
    let bytes = input.as_bytes();
    let mut vals: Vec<u8> = Vec::new();
    let mut i: usize = 0;
    assert(bytes@.take(0) =~= Seq::<u8>::empty());
    while i < bytes.len()
        invariant
            bytes@ == input.spec_bytes(),
            i <= bytes@.len(),
            sextets(bytes@.take(i as int)) == Some(vals@),
            forall|k: int| 0 <= k < vals@.len() ==> #[trigger] vals@[k] < 64,
        decreases bytes@.len() - i,
    {
        let c = bytes[i];
        assert(bytes@.take(i + 1).drop_last() =~= bytes@.take(i as int));
        assert(bytes@.take(i + 1).last() == c);
        if !(c == 61 || c == 32 || c == 9 || c == 10 || c == 12 || c == 13) {
            match sextet_of(c) {
                Some(v) => {
                    vals.push(v);
                },
                None => {
                    proof {
                        lemma_sextets_none(bytes@, i as int + 1);
                    }
                    return Err(invalid_base64());
                },
            }
        }
        i += 1;
    }
    assert(bytes@.take(bytes@.len() as int) =~= bytes@);
    let ghost v = vals@;
    let mut out: Vec<u8> = Vec::new();
    let mut g: usize = 0;
    assert(v.skip(0) =~= v);
    while vals.len() - g >= 4
        invariant
            v == vals@,
            forall|k: int| 0 <= k < v.len() ==> #[trigger] v[k] < 64,
            g <= vals.len(),
            decoded(v) == (match decoded(v.skip(g as int)) {
                Some(rest) => Some(out@ + rest),
                None => None::<Seq<u8>>,
            }),
        decreases vals.len() - g,
    {
        let (a, b, c, d) = (vals[g] as u32, vals[g + 1] as u32, vals[g + 2] as u32, vals[g + 3] as u32);
        let ghost tail = v.skip(g as int);
        assert(tail.skip(4) =~= v.skip(g + 4));
        assert(tail[0] == a && tail[1] == b && tail[2] == c && tail[3] == d);
        let ghost before = out@;
        out.push((a * 4 + b / 16) as u8);
        out.push(((b % 16) * 16 + c / 4) as u8);
        out.push(((c % 4) * 64 + d) as u8);
        assert(out@ =~= before + seq![
            (tail[0] * 4 + tail[1] / 16) as u8,
            ((tail[1] % 16) * 16 + tail[2] / 4) as u8,
            ((tail[2] % 4) * 64 + tail[3]) as u8,
        ]);
        proof {
            if let Some(rest) = decoded(v.skip(g + 4)) {
                assert(out@ + rest =~= before + (seq![
                    (tail[0] * 4 + tail[1] / 16) as u8,
                    ((tail[1] % 16) * 16 + tail[2] / 4) as u8,
                    ((tail[2] % 4) * 64 + tail[3]) as u8,
                ] + rest));
            }
        }
        g += 4;
    }
    let left = vals.len() - g;
    let ghost tail = v.skip(g as int);
    if left == 1 {
        return Err(invalid_base64());
    } else if left == 2 {
        let (a, b) = (vals[g] as u32, vals[g + 1] as u32);
        assert(tail[0] == a && tail[1] == b);
        out.push((a * 4 + b / 16) as u8);
    } else if left == 3 {
        let (a, b, c) = (vals[g] as u32, vals[g + 1] as u32, vals[g + 2] as u32);
        assert(tail[0] == a && tail[1] == b && tail[2] == c);
        let ghost before = out@;
        out.push((a * 4 + b / 16) as u8);
        out.push(((b % 16) * 16 + c / 4) as u8);
        assert(out@ =~= before + seq![(tail[0] * 4 + tail[1] / 16) as u8, ((tail[1] % 16) * 16 + tail[2] / 4) as u8]);
    } else {
        assert(tail =~= Seq::<u8>::empty());
    }
    assert(decoded(v) == Some(out@)) by {
        if left == 2 {
            assert(out@ =~= (out@.take(out@.len() - 1)) + seq![(tail[0] * 4 + tail[1] / 16) as u8]);
        }
    }
    Ok(out)
}

proof fn lemma_sextets_none(b: Seq<u8>, k: int)
    requires
        0 < k <= b.len(),
        sextets(b.take(k)) is None,
    ensures
        sextets(b) is None,
    decreases b.len() - k,
{
    if k < b.len() {
        assert(b.take(k + 1).drop_last() =~= b.take(k));
        lemma_sextets_none(b, k + 1);
    } else {
        assert(b.take(k) =~= b);
    }
}

/// The npm package that holds the native TypeScript compiler for an
/// operating system and an architecture, as Rust names them.
pub open spec fn platform_package_name(os: Seq<char>, arch: Seq<char>) -> Option<Seq<char>> {
    let prefix = if os == "macos"@ {
        Some("typescript-darwin-"@)
    } else if os == "linux"@ {
        Some("typescript-linux-"@)
    } else if os == "windows"@ {
        Some("typescript-win32-"@)
    } else {
        None
    };
    let suffix = if arch == "aarch64"@ {
        Some("arm64"@)
    } else if arch == "x86_64"@ {
        Some("x64"@)
    } else {
        None
    };
    match (prefix, suffix) {
        (Some(p), Some(q)) => Some(p + q),
        _ => None,
    }
}

/// The npm package that holds the native TypeScript compiler for `os` and
/// `arch`; `None` for a platform it is not published for.
pub fn platform_package(os: &str, arch: &str) -> (r: Option<String>)
    ensures
        match platform_package_name(os@, arch@) {
            Some(name) => r is Some && r->0@ == name,
            None => r is None,
        },
{
    proof {
        reveal_strlit("macos");
        reveal_strlit("linux");
        reveal_strlit("windows");
        reveal_strlit("aarch64");
        reveal_strlit("x86_64");
        reveal_strlit("typescript-darwin-");
        reveal_strlit("typescript-linux-");
        reveal_strlit("typescript-win32-");
        reveal_strlit("arm64");
        reveal_strlit("x64");
    }
    let prefix = if crate::text::str_eq(os, "macos") {
        "typescript-darwin-"
    } else if crate::text::str_eq(os, "linux") {
        "typescript-linux-"
    } else if crate::text::str_eq(os, "windows") {
        "typescript-win32-"
    } else {
        return None;
    };
    let suffix = if crate::text::str_eq(arch, "aarch64") {
        "arm64"
    } else if crate::text::str_eq(arch, "x86_64") {
        "x64"
    } else {
        return None;
    };
    let mut r = String::new();
    append_str(&mut r, prefix);
    append_str(&mut r, suffix);
    Some(r)
}

} // verus!
