//! Paths of one TypeScript program: Unix-style path components, the
//! program-file and test-file predicates, display paths and glob prefixes.

use vstd::prelude::*;

use crate::text::{
    chars_eq, chars_of, ends_with, lex_order, lemma_lex_order_equal, lemma_lex_order_flip,
    lemma_lex_order_trans, push_char, string_from, Rel, compare_chars,
};

verus! {

/// One TypeScript program: the `.ts` / `.tsx` files a tsconfig includes.
pub struct Program {
    pub root: String,
    pub tsconfig_path: String,
    pub files: Vec<String>,
}

/// Component kinds, in the order in which paths compare them.
pub const ROOT: u8 = 0;

pub const CUR: u8 = 1;

pub const PARENT: u8 = 2;

pub const NORMAL: u8 = 3;

/// A path component: its kind and, for a normal component, its name.
pub type Comp = (u8, Seq<char>);

/// The pieces of `s` between `/` separators (empty pieces included).
pub open spec fn split_slash(s: Seq<char>) -> Seq<Seq<char>>
    decreases s.len(),
{
    if s.len() == 0 {
        seq![Seq::<char>::empty()]
    } else {
        let p = split_slash(s.drop_last());
        if s.last() == '/' {
            p.push(Seq::<char>::empty())
        } else {
            p.update(p.len() - 1, p[p.len() - 1].push(s.last()))
        }
    }
}

pub proof fn lemma_split_slash_nonempty(s: Seq<char>)
    ensures
        split_slash(s).len() >= 1,
    decreases s.len(),
{
    if s.len() > 0 {
        lemma_split_slash_nonempty(s.drop_last());
    }
}

/// The component that one piece between separators stands for, if any:
/// empty pieces and `.` are skipped, `..` is the parent.
pub open spec fn piece_comp(seg: Seq<char>) -> Option<Comp> {
    if seg.len() == 0 || seg == seq!['.'] {
        None
    } else if seg == seq!['.', '.'] {
        Some((PARENT, Seq::<char>::empty()))
    } else {
        Some((NORMAL, seg))
    }
}

pub open spec fn piece_comps(segs: Seq<Seq<char>>) -> Seq<Comp>
    decreases segs.len(),
{
    if segs.len() == 0 {
        Seq::empty()
    } else {
        let p = piece_comps(segs.drop_last());
        match piece_comp(segs.last()) {
            Some(c) => p.push(c),
            None => p,
        }
    }
}

/// The components of a Unix path, as `std::path::Path::components` yields them:
/// a leading `/` is the root, a leading `.` piece is the current directory,
/// and every other piece that is neither empty nor `.` follows in order.
pub open spec fn components(s: Seq<char>) -> Seq<Comp> {
    let segs = split_slash(s);
    let head = if s.len() > 0 && s[0] == '/' {
        seq![(ROOT, Seq::<char>::empty())]
    } else if segs[0] == seq!['.'] {
        seq![(CUR, Seq::<char>::empty())]
    } else {
        Seq::<Comp>::empty()
    };
    head + piece_comps(segs)
}

/// Order of two components: by kind, then by name.
pub open spec fn comp_order(x: Comp, y: Comp) -> Rel {
    if x.0 < y.0 {
        Rel::Less
    } else if x.0 > y.0 {
        Rel::Greater
    } else {
        lex_order(x.1, y.1)
    }
}

/// Lexicographic order of component sequences.
pub open spec fn comps_order(a: Seq<Comp>, b: Seq<Comp>) -> Rel
    decreases a.len(),
{
    if a.len() == 0 {
        if b.len() == 0 {
            Rel::Equal
        } else {
            Rel::Less
        }
    } else if b.len() == 0 {
        Rel::Greater
    } else {
        match comp_order(a[0], b[0]) {
            Rel::Equal => comps_order(a.drop_first(), b.drop_first()),
            r => r,
        }
    }
}

/// The order in which `std::path::Path` compares two paths.
pub open spec fn path_order(a: Seq<char>, b: Seq<char>) -> Rel {
    comps_order(components(a), components(b))
}

pub proof fn lemma_comp_order_props(x: Comp, y: Comp, z: Comp)
    ensures
        (comp_order(x, y) == Rel::Equal) <==> (x == y),
        comp_order(x, y) == Rel::Less <==> comp_order(y, x) == Rel::Greater,
        comp_order(x, y) == Rel::Less && comp_order(y, z) == Rel::Less ==> comp_order(x, z)
            == Rel::Less,
{
    lemma_lex_order_equal(x.1, y.1);
    lemma_lex_order_flip(x.1, y.1);
    if comp_order(x, y) == Rel::Less && comp_order(y, z) == Rel::Less && x.0 == y.0 && y.0
        == z.0 {
        lemma_lex_order_trans(x.1, y.1, z.1);
    }
}

pub proof fn lemma_comps_order_equal(a: Seq<Comp>, b: Seq<Comp>)
    ensures
        (comps_order(a, b) == Rel::Equal) <==> (a == b),
    decreases a.len(),
{
    if a.len() == 0 && b.len() == 0 {
        assert(a =~= b);
    }
    if a.len() > 0 && b.len() > 0 {
        lemma_comp_order_props(a[0], b[0], b[0]);
        lemma_comps_order_equal(a.drop_first(), b.drop_first());
        if a[0] == b[0] && a.drop_first() == b.drop_first() {
            assert(a =~= seq![a[0]] + a.drop_first());
            assert(b =~= seq![b[0]] + b.drop_first());
        }
        if a == b {
            assert(a.drop_first() =~= b.drop_first());
        }
    }
}

pub proof fn lemma_comps_order_flip(a: Seq<Comp>, b: Seq<Comp>)
    ensures
        comps_order(a, b) == Rel::Less <==> comps_order(b, a) == Rel::Greater,
    decreases a.len(),
{
    if a.len() > 0 && b.len() > 0 {
        lemma_comp_order_props(a[0], b[0], b[0]);
        lemma_comp_order_props(b[0], a[0], a[0]);
        lemma_comps_order_flip(a.drop_first(), b.drop_first());
    }
}

pub proof fn lemma_comps_order_trans(a: Seq<Comp>, b: Seq<Comp>, c: Seq<Comp>)
    requires
        comps_order(a, b) == Rel::Less,
        comps_order(b, c) == Rel::Less,
    ensures
        comps_order(a, c) == Rel::Less,
    decreases a.len(),
{
    if a.len() > 0 && b.len() > 0 && c.len() > 0 {
        lemma_comp_order_props(a[0], b[0], c[0]);
        lemma_comp_order_props(a[0], c[0], b[0]);
        lemma_comp_order_props(b[0], c[0], a[0]);
        if comp_order(a[0], b[0]) == Rel::Equal && comp_order(b[0], c[0]) == Rel::Equal {
            lemma_comps_order_trans(a.drop_first(), b.drop_first(), c.drop_first());
        }
    }
}

/// The text by which a component stands in a display path.
pub open spec fn comp_text(c: Comp) -> Seq<char> {
    if c.0 == ROOT {
        seq!['/']
    } else if c.0 == CUR {
        seq!['.']
    } else if c.0 == PARENT {
        seq!['.', '.']
    } else {
        c.1
    }
}

/// Component texts joined by `/`.
pub open spec fn join_comps(cs: Seq<Comp>) -> Seq<char>
    decreases cs.len(),
{
    if cs.len() == 0 {
        Seq::empty()
    } else if cs.len() == 1 {
        comp_text(cs[0])
    } else {
        join_comps(cs.drop_last()) + seq!['/'] + comp_text(cs.last())
    }
}

/// `cs` without the components of `prefix`, when `prefix` is a component prefix of it.
pub open spec fn strip_comps(cs: Seq<Comp>, prefix: Seq<Comp>) -> Option<Seq<Comp>> {
    if prefix.len() <= cs.len() && cs.take(prefix.len() as int) == prefix {
        Some(cs.skip(prefix.len() as int))
    } else {
        None
    }
}

/// The components of `file` relative to `root`, or all of them when `file`
/// is not under `root`.
pub open spec fn relative_comps(root: Seq<char>, file: Seq<char>) -> Seq<Comp> {
    match strip_comps(components(file), components(root)) {
        Some(r) => r,
        None => components(file),
    }
}

/// The display form of `file`: its components relative to `root`, joined by `/`.
pub open spec fn display_of(root: Seq<char>, file: Seq<char>) -> Seq<char> {
    join_comps(relative_comps(root, file))
}

/// The last component's name, when the last component is a normal one.
pub open spec fn file_name(cs: Seq<Comp>) -> Seq<char> {
    if cs.len() > 0 && cs.last().0 == NORMAL {
        cs.last().1
    } else {
        Seq::empty()
    }
}

/// Index of the last `.` in `name`, or -1.
pub open spec fn last_dot(name: Seq<char>) -> int
    decreases name.len(),
{
    if name.len() == 0 {
        -1
    } else if name.last() == '.' {
        name.len() - 1
    } else {
        last_dot(name.drop_last())
    }
}

pub proof fn lemma_last_dot_range(name: Seq<char>)
    ensures
        -1 <= last_dot(name) < name.len(),
        last_dot(name) >= 0 ==> name[last_dot(name)] == '.',
        forall|k: int| last_dot(name) < k < name.len() ==> name[k] != '.',
    decreases name.len(),
{
    if name.len() > 0 && name.last() != '.' {
        lemma_last_dot_range(name.drop_last());
        assert forall|k: int| last_dot(name) < k < name.len() implies name[k] != '.' by {
            if k < name.len() - 1 {
                assert(name.drop_last()[k] == name[k]);
            }
        }
    }
}

/// The extension of a file name, as `Path::extension` gives it: the text after
/// the last `.`, unless there is no `.` or the only one leads the name.
pub open spec fn extension(name: Seq<char>) -> Option<Seq<char>> {
    let k = last_dot(name);
    if k <= 0 {
        None
    } else {
        Some(name.skip(k + 1))
    }
}

/// The stem of a file name, as `Path::file_stem` gives it.
pub open spec fn file_stem(name: Seq<char>) -> Seq<char> {
    let k = last_dot(name);
    if k <= 0 {
        name
    } else {
        name.take(k)
    }
}

pub open spec fn ext_is(name: Seq<char>, e: Seq<char>) -> bool {
    extension(name) == Some(e)
}

/// A TypeScript source file of the program: `.ts`, `.tsx`, `.mts` or `.cts`,
/// and not a declaration file.
pub open spec fn program_file(path: Seq<char>) -> bool {
    let name = file_name(components(path));
    &&& !ends_with(name, seq!['.', 'd', '.', 't', 's'])
    &&& !ends_with(name, seq!['.', 'd', '.', 't', 's', 'x'])
    &&& (ext_is(name, seq!['t', 's']) || ext_is(name, seq!['t', 's', 'x']) || ext_is(
        name,
        seq!['m', 't', 's'],
    ) || ext_is(name, seq!['c', 't', 's']))
}

/// A JavaScript file: `.js`, `.jsx`, `.mjs` or `.cjs`.
pub open spec fn js_file(path: Seq<char>) -> bool {
    let name = file_name(components(path));
    ext_is(name, seq!['j', 's']) || ext_is(name, seq!['j', 's', 'x']) || ext_is(
        name,
        seq!['m', 'j', 's'],
    ) || ext_is(name, seq!['c', 'j', 's'])
}

/// File names that mark a test file.
pub open spec fn test_name(name: Seq<char>) -> bool {
    ||| ends_with(name, ".test.ts"@)
    ||| ends_with(name, ".test.tsx"@)
    ||| ends_with(name, ".test.mts"@)
    ||| ends_with(name, ".test.cts"@)
    ||| ends_with(name, ".spec.ts"@)
    ||| ends_with(name, ".spec.tsx"@)
    ||| ends_with(name, ".spec.mts"@)
    ||| ends_with(name, ".spec.cts"@)
    ||| name == "test.ts"@
    ||| name == "test.tsx"@
    ||| name == "spec.ts"@
    ||| name == "spec.tsx"@
}

/// Directory names that mark a test file.
pub open spec fn test_dir(c: Comp) -> bool {
    c.0 == NORMAL && (c.1 == "__tests__"@ || c.1 == "tests"@ || c.1 == "test"@)
}

/// The test-file predicate: a test file name, or a test directory among the
/// directories of the path relative to the program root.
pub open spec fn test_file(root: Seq<char>, file: Seq<char>) -> bool {
    let rel = relative_comps(root, file);
    test_name(file_name(components(file))) || exists|i: int|
        0 <= i < rel.len() - 1 && #[trigger] test_dir(rel[i])
}

/// Exec form of a component sequence.
pub open spec fn comps_view(v: Seq<(u8, Vec<char>)>) -> Seq<Comp> {
    v.map_values(|c: (u8, Vec<char>)| (c.0, c.1@))
}

fn is_dot(seg: &Vec<char>) -> (r: bool)
    ensures
        r == (seg@ == seq!['.']),
{
    if seg.len() == 1 && seg[0] == '.' {
        assert(seg@ =~= seq!['.']);
        true
    } else {
        false
    }
}

fn is_dot_dot(seg: &Vec<char>) -> (r: bool)
    ensures
        r == (seg@ == seq!['.', '.']),
{
    if seg.len() == 2 && seg[0] == '.' && seg[1] == '.' {
        assert(seg@ =~= seq!['.', '.']);
        true
    } else {
        false
    }
}

/// The pieces of `s` between `/` separators.
pub fn split_pieces(s: &Vec<char>) -> (r: Vec<Vec<char>>)
    ensures
        r@.map_values(|v: Vec<char>| v@) == split_slash(s@),
{
    let mut r: Vec<Vec<char>> = Vec::new();
    let mut cur: Vec<char> = Vec::new();
    let mut i: usize = 0;
    assert(s@.take(0) =~= Seq::<char>::empty());
    assert(r@.map_values(|v: Vec<char>| v@).push(cur@) =~= split_slash(s@.take(0)));
    while i < s.len()
        invariant
            i <= s.len(),
            r@.map_values(|v: Vec<char>| v@).push(cur@) == split_slash(s@.take(i as int)),
        decreases s.len() - i,
    {
        let c = s[i];
        let ghost before = r@.map_values(|v: Vec<char>| v@).push(cur@);
        proof {
            assert(s@.take(i + 1).drop_last() =~= s@.take(i as int));
            lemma_split_slash_nonempty(s@.take(i as int));
        }
        if c == '/' {
            r.push(cur);
            cur = Vec::new();
            assert(r@.map_values(|v: Vec<char>| v@).push(cur@) =~= before.push(
                Seq::<char>::empty(),
            ));
        } else {
            cur.push(c);
            assert(r@.map_values(|v: Vec<char>| v@).push(cur@) =~= before.update(
                before.len() - 1,
                before[before.len() - 1].push(c),
            ));
        }
        i += 1;
    }
    assert(s@.take(s.len() as int) =~= s@);
    r.push(cur);
    r
}

/// The components of the path `s`.
pub fn components_of(s: &Vec<char>) -> (r: Vec<(u8, Vec<char>)>)
    ensures
        comps_view(r@) == components(s@),
{
    let segs = split_pieces(s);
    let ghost sv = segs@.map_values(|v: Vec<char>| v@);
    proof {
        lemma_split_slash_nonempty(s@);
    }
    let mut r: Vec<(u8, Vec<char>)> = Vec::new();
    if s.len() > 0 && s[0] == '/' {
        r.push((ROOT, Vec::new()));
    } else if is_dot(&segs[0]) {
        r.push((CUR, Vec::new()));
    }
    let ghost head = comps_view(r@);
    assert(head =~= components(s@).take(head.len() as int)) by {
        assert(sv[0] == segs@[0]@);
    }
    let mut i: usize = 0;
    assert(sv.take(0) =~= Seq::<Seq<char>>::empty());
    assert(comps_view(r@) =~= head + piece_comps(sv.take(0)));
    while i < segs.len()
        invariant
            i <= segs.len(),
            sv == segs@.map_values(|v: Vec<char>| v@),
            comps_view(r@) == head + piece_comps(sv.take(i as int)),
        decreases segs.len() - i,
    {
        let seg = &segs[i];
        let ghost before = comps_view(r@);
        let ghost pc = piece_comps(sv.take(i as int));
        assert(sv.take(i + 1).drop_last() =~= sv.take(i as int));
        assert(sv.take(i + 1).last() == seg@);
        if seg.len() == 0 || is_dot(seg) {
            assert(piece_comp(seg@) is None);
        } else if is_dot_dot(seg) {
            let e: Vec<char> = Vec::new();
            assert(e@ =~= Seq::<char>::empty());
            r.push((PARENT, e));
            assert(comps_view(r@) =~= before.push((PARENT, Seq::<char>::empty())));
            assert(piece_comp(seg@) == Some((PARENT, Seq::<char>::empty())));
            assert(comps_view(r@) =~= head + pc.push((PARENT, Seq::<char>::empty())));
        } else {
            let mut copy: Vec<char> = Vec::new();
            let mut j: usize = 0;
            while j < seg.len()
                invariant
                    j <= seg.len(),
                    copy@ == seg@.take(j as int),
                decreases seg.len() - j,
            {
                copy.push(seg[j]);
                assert(seg@.take(j + 1) =~= seg@.take(j as int).push(seg@[j as int]));
                j += 1;
            }
            assert(seg@.take(seg.len() as int) =~= seg@);
            r.push((NORMAL, copy));
            assert(comps_view(r@) =~= before.push((NORMAL, seg@)));
            assert(piece_comp(seg@) == Some((NORMAL, seg@)));
            assert(comps_view(r@) =~= head + pc.push((NORMAL, seg@)));
        }
        i += 1;
    }
    assert(sv.take(segs.len() as int) =~= sv);
    assert(sv == split_slash(s@));
    r
}

/// Three-way comparison of two component sequences.
pub fn compare_comps(a: &Vec<(u8, Vec<char>)>, b: &Vec<(u8, Vec<char>)>) -> (r: Rel)
    ensures
        r == comps_order(comps_view(a@), comps_view(b@)),
{
    let ghost av = comps_view(a@);
    let ghost bv = comps_view(b@);
    let mut i: usize = 0;
    assert(av.skip(0) =~= av);
    assert(bv.skip(0) =~= bv);
    while i < a.len() && i < b.len()
        invariant
            i <= a.len(),
            i <= b.len(),
            av == comps_view(a@),
            bv == comps_view(b@),
            comps_order(av, bv) == comps_order(av.skip(i as int), bv.skip(i as int)),
        decreases a.len() - i,
    {
        let (ka, ref ta) = a[i];
        let (kb, ref tb) = b[i];
        assert(av.skip(i as int)[0] == av[i as int]);
        assert(bv.skip(i as int)[0] == bv[i as int]);
        if ka < kb {
            return Rel::Less;
        } else if ka > kb {
            return Rel::Greater;
        }
        let t = compare_chars(ta, tb);
        match t {
            Rel::Equal => {},
            _ => {
                return t;
            },
        }
        assert(av.skip(i as int).drop_first() =~= av.skip(i + 1));
        assert(bv.skip(i as int).drop_first() =~= bv.skip(i + 1));
        i += 1;
    }
    if i < a.len() {
        Rel::Greater
    } else if i < b.len() {
        Rel::Less
    } else {
        Rel::Equal
    }
}

/// Three-way comparison of two paths, component by component.
pub fn compare_paths(a: &str, b: &str) -> (r: Rel)
    ensures
        r == path_order(a@, b@),
{
    let ca = components_of(&chars_of(a));
    let cb = components_of(&chars_of(b));
    compare_comps(&ca, &cb)
}

/// Whether two paths have the same components.
pub fn same_path(a: &str, b: &str) -> (r: bool)
    ensures
        r == (components(a@) == components(b@)),
{
    let ca = components_of(&chars_of(a));
    let cb = components_of(&chars_of(b));
    let o = compare_comps(&ca, &cb);
    proof {
        lemma_comps_order_equal(comps_view(ca@), comps_view(cb@));
    }
    match o {
        Rel::Equal => true,
        _ => false,
    }
}

fn comp_eq(a: &(u8, Vec<char>), b: &(u8, Vec<char>)) -> (r: bool)
    ensures
        r == ((a.0, a.1@) == (b.0, b.1@)),
{
    a.0 == b.0 && chars_eq(&a.1, &b.1)
}

/// Components of `cs` after `prefix`, when `prefix` is a component prefix of `cs`.
pub(crate) fn strip_prefix_comps(cs: &Vec<(u8, Vec<char>)>, prefix: &Vec<(u8, Vec<char>)>) -> (r: Option<usize>)
    ensures
        match strip_comps(comps_view(cs@), comps_view(prefix@)) {
            Some(rest) => r == Some(prefix.len()) && rest == comps_view(cs@).skip(
                prefix.len() as int,
            ),
            None => r is None,
        },
{
    let ghost cv = comps_view(cs@);
    let ghost pv = comps_view(prefix@);
    if prefix.len() > cs.len() {
        return None;
    }
    let mut i: usize = 0;
    while i < prefix.len()
        invariant
            prefix.len() <= cs.len(),
            i <= prefix.len(),
            cv == comps_view(cs@),
            pv == comps_view(prefix@),
            forall|k: int| 0 <= k < i ==> cv[k] == pv[k],
        decreases prefix.len() - i,
    {
        if !comp_eq(&cs[i], &prefix[i]) {
            assert(cv.take(prefix.len() as int)[i as int] != pv[i as int]);
            return None;
        }
        i += 1;
    }
    assert(cv.take(prefix.len() as int) =~= pv);
    Some(prefix.len())
}

/// Appends the display text of one component.
fn push_comp_text(out: &mut String, c: &(u8, Vec<char>))
    ensures
        final(out)@ == old(out)@ + comp_text((c.0, c.1@)),
{
    if c.0 == ROOT {
        push_char(out, '/');
        assert(old(out)@.push('/') =~= old(out)@ + seq!['/']);
    } else if c.0 == CUR {
        push_char(out, '.');
        assert(old(out)@.push('.') =~= old(out)@ + seq!['.']);
    } else if c.0 == PARENT {
        push_char(out, '.');
        push_char(out, '.');
        assert(old(out)@.push('.').push('.') =~= old(out)@ + seq!['.', '.']);
    } else {
        crate::text::append_chars(out, &c.1);
    }
}

/// The components `cs[from..]` joined by `/`.
pub fn join_from(cs: &Vec<(u8, Vec<char>)>, from: usize) -> (r: String)
    requires
        from <= cs.len(),
    ensures
        r@ == join_comps(comps_view(cs@).skip(from as int)),
{
    let r = join_range(cs, from, cs.len());
    assert(comps_view(cs@).subrange(from as int, cs.len() as int) =~= comps_view(cs@).skip(from as int));
    r
}

/// The components `cs[from..to]` joined by `/`.
pub fn join_range(cs: &Vec<(u8, Vec<char>)>, from: usize, to: usize) -> (r: String)
    requires
        from <= to <= cs.len(),
    ensures
        r@ == join_comps(comps_view(cs@).subrange(from as int, to as int)),
{
    let ghost cv = comps_view(cs@);
    let mut out = String::new();
    let mut i = from;
    assert(cv.subrange(from as int, to as int).take(0) =~= Seq::<Comp>::empty());
    while i < to
        invariant
            from <= i <= to,
            to <= cs.len(),
            cv == comps_view(cs@),
            out@ == join_comps(cv.subrange(from as int, to as int).take(i - from)),
        decreases to - i,
    {
        let ghost prev = cv.subrange(from as int, to as int).take(i - from);
        let ghost next = cv.subrange(from as int, to as int).take(i - from + 1);
        assert(next.drop_last() =~= prev);
        assert(next.last() == cv[i as int]);
        if i > from {
            push_char(&mut out, '/');
            push_comp_text(&mut out, &cs[i]);
            assert(out@ =~= join_comps(prev) + seq!['/'] + comp_text(cv[i as int]));
        } else {
            push_comp_text(&mut out, &cs[i]);
            assert(out@ =~= comp_text(next[0]));
        }
        i += 1;
    }
    assert(cv.subrange(from as int, to as int).take(to - from) =~= cv.subrange(from as int, to as int));
    out
}

/// The display form of `file`: relative to `root` when under it, with `/` separators.
pub fn display_path(root: &str, file: &str) -> (r: String)
    ensures
        r@ == display_of(root@, file@),
{
    let fc = components_of(&chars_of(file));
    let rc = components_of(&chars_of(root));
    match strip_prefix_comps(&fc, &rc) {
        Some(k) => join_from(&fc, k),
        None => {
            let r = join_from(&fc, 0);
            assert(comps_view(fc@).skip(0) =~= comps_view(fc@));
            r
        },
    }
}

/// The name of the last component, when it is a normal one.
pub(crate) fn file_name_of(cs: &Vec<(u8, Vec<char>)>) -> (r: Vec<char>)
    ensures
        r@ == file_name(comps_view(cs@)),
{
    if cs.len() > 0 && cs[cs.len() - 1].0 == NORMAL {
        cs[cs.len() - 1].1.clone()
    } else {
        Vec::new()
    }
}

fn last_dot_of(name: &Vec<char>) -> (r: Option<usize>)
    ensures
        match r {
            Some(k) => last_dot(name@) == k,
            None => last_dot(name@) == -1,
        },
{
    let mut i = name.len();
    proof {
        assert(name@.take(name.len() as int) =~= name@);
    }
    while i > 0
        invariant
            i <= name.len(),
            last_dot(name@) == last_dot(name@.take(i as int)),
        decreases i,
    {
        assert(name@.take(i as int).drop_last() =~= name@.take(i - 1));
        assert(name@.take(i as int).last() == name@[i - 1]);
        if name[i - 1] == '.' {
            return Some(i - 1);
        }
        i -= 1;
    }
    None
}

/// The extension of a file name.
fn extension_of(name: &Vec<char>) -> (r: Option<Vec<char>>)
    ensures
        match extension(name@) {
            Some(e) => r is Some && r->0@ == e,
            None => r is None,
        },
{
    let d = last_dot_of(name);
    proof {
        lemma_last_dot_range(name@);
    }
    let k = match d {
        Some(k) => k,
        None => 0,
    };
    if k == 0 {
        None
    } else {
        assert(k < name.len());
        let mut e: Vec<char> = Vec::new();
        let mut i = k + 1;
        while i < name.len()
            invariant
                0 < k < name.len(),
                k + 1 <= i <= name.len(),
                e@ == name@.subrange(k + 1, i as int),
            decreases name.len() - i,
        {
            e.push(name[i]);
            assert(name@.subrange(k + 1, i + 1) =~= name@.subrange(k + 1, i as int).push(
                name@[i as int],
            ));
            i += 1;
        }
        assert(name@.subrange(k + 1, name.len() as int) =~= name@.skip(k + 1));
        Some(e)
    }
}

/// The stem of a file name.
pub fn stem_of(name: &Vec<char>) -> (r: Vec<char>)
    ensures
        r@ == file_stem(name@),
{
    let d = last_dot_of(name);
    proof {
        lemma_last_dot_range(name@);
    }
    let k = match d {
        Some(k) => k,
        None => 0,
    };
    if k == 0 {
        let mut e: Vec<char> = Vec::new();
        let mut i: usize = 0;
        while i < name.len()
            invariant
                i <= name.len(),
                e@ == name@.take(i as int),
            decreases name.len() - i,
        {
            e.push(name[i]);
            assert(name@.take(i + 1) =~= name@.take(i as int).push(name@[i as int]));
            i += 1;
        }
        assert(name@.take(name.len() as int) =~= name@);
        e
    } else {
        let mut e: Vec<char> = Vec::new();
        let mut i: usize = 0;
        while i < k
            invariant
                0 <= i <= k,
                k < name.len(),
                e@ == name@.take(i as int),
            decreases k - i,
        {
            e.push(name[i]);
            assert(name@.take(i + 1) =~= name@.take(i as int).push(name@[i as int]));
            i += 1;
        }
        e
    }
}

fn ext_matches(e: &Option<Vec<char>>, t: &str) -> (r: bool)
    ensures
        r == (e is Some && e->0@ == t@),
{
    match e {
        Some(v) => {
            let ct = chars_of(t);
            chars_eq(v, &ct)
        },
        None => false,
    }
}

proof fn lemma_ext_is(name: Seq<char>, e: Option<Vec<char>>, t: Seq<char>)
    requires
        match extension(name) {
            Some(x) => e is Some && e->0@ == x,
            None => e is None,
        },
    ensures
        ext_is(name, t) == (e is Some && e->0@ == t),
{
}

/// The file name of a path, when it is short enough to index.
fn path_file_name(path: &str) -> (r: Vec<char>)
    ensures
        r@ == file_name(components(path@)),
{
    let cs = components_of(&chars_of(path));
    file_name_of(&cs)
}

/// Whether `path` is a TypeScript program file.
pub fn is_program_file(path: &str) -> (r: bool)
    ensures
        r == program_file(path@),
{
    let name = path_file_name(path);
    if crate::text::chars_end_with_str(&name, ".d.ts") || crate::text::chars_end_with_str(&name, ".d.tsx") {
        proof {
            reveal_strlit(".d.ts");
            reveal_strlit(".d.tsx");
            assert(".d.ts"@ =~= seq!['.', 'd', '.', 't', 's']);
            assert(".d.tsx"@ =~= seq!['.', 'd', '.', 't', 's', 'x']);
        }
        return false;
    }
    proof {
        reveal_strlit(".d.ts");
        reveal_strlit(".d.tsx");
        assert(".d.ts"@ =~= seq!['.', 'd', '.', 't', 's']);
        assert(".d.tsx"@ =~= seq!['.', 'd', '.', 't', 's', 'x']);
    }
    let e = extension_of(&name);
    proof {
        reveal_strlit("ts");
        reveal_strlit("tsx");
        reveal_strlit("mts");
        reveal_strlit("cts");
        assert("ts"@ =~= seq!['t', 's']);
        assert("tsx"@ =~= seq!['t', 's', 'x']);
        assert("mts"@ =~= seq!['m', 't', 's']);
        assert("cts"@ =~= seq!['c', 't', 's']);
        lemma_ext_is(name@, e, seq!['t', 's']);
        lemma_ext_is(name@, e, seq!['t', 's', 'x']);
        lemma_ext_is(name@, e, seq!['m', 't', 's']);
        lemma_ext_is(name@, e, seq!['c', 't', 's']);
    }
    ext_matches(&e, "ts") || ext_matches(&e, "tsx") || ext_matches(&e, "mts") || ext_matches(
        &e,
        "cts",
    )
}

/// Whether `path` is a JavaScript file.
pub fn is_js_file(path: &str) -> (r: bool)
    ensures
        r == js_file(path@),
{
    let name = path_file_name(path);
    let e = extension_of(&name);
    proof {
        reveal_strlit("js");
        reveal_strlit("jsx");
        reveal_strlit("mjs");
        reveal_strlit("cjs");
        assert("js"@ =~= seq!['j', 's']);
        assert("jsx"@ =~= seq!['j', 's', 'x']);
        assert("mjs"@ =~= seq!['m', 'j', 's']);
        assert("cjs"@ =~= seq!['c', 'j', 's']);
        lemma_ext_is(name@, e, seq!['j', 's']);
        lemma_ext_is(name@, e, seq!['j', 's', 'x']);
        lemma_ext_is(name@, e, seq!['m', 'j', 's']);
        lemma_ext_is(name@, e, seq!['c', 'j', 's']);
    }
    ext_matches(&e, "js") || ext_matches(&e, "jsx") || ext_matches(&e, "mjs") || ext_matches(
        &e,
        "cjs",
    )
}

pub(crate) fn name_is(name: &Vec<char>, t: &str) -> (r: bool)
    ensures
        r == (name@ == t@),
{
    let ct = chars_of(t);
    chars_eq(name, &ct)
}

fn is_test_name(name: &Vec<char>) -> (r: bool)
    ensures
        r == test_name(name@),
{
    crate::text::chars_end_with_str(name, ".test.ts") || crate::text::chars_end_with_str(
        name,
        ".test.tsx",
    ) || crate::text::chars_end_with_str(name, ".test.mts") || crate::text::chars_end_with_str(
        name,
        ".test.cts",
    ) || crate::text::chars_end_with_str(name, ".spec.ts") || crate::text::chars_end_with_str(
        name,
        ".spec.tsx",
    ) || crate::text::chars_end_with_str(name, ".spec.mts") || crate::text::chars_end_with_str(
        name,
        ".spec.cts",
    ) || name_is(name, "test.ts") || name_is(name, "test.tsx") || name_is(name, "spec.ts")
        || name_is(name, "spec.tsx")
}

fn is_test_dir(c: &(u8, Vec<char>)) -> (r: bool)
    ensures
        r == test_dir((c.0, c.1@)),
{
    c.0 == NORMAL && (name_is(&c.1, "__tests__") || name_is(&c.1, "tests") || name_is(
        &c.1,
        "test",
    ))
}

/// Test-file predicate: a file named like a test (`*.test.ts`, `*.spec.tsx`,
/// `test.ts`, ...), or one with a `__tests__`, `tests` or `test` directory
/// in its path relative to the program root.
pub fn is_test_file(root: &str, file: &str) -> (r: bool)
    ensures
        r == test_file(root@, file@),
{
    let fc = components_of(&chars_of(file));
    let rc = components_of(&chars_of(root));
    let name = file_name_of(&fc);
    if is_test_name(&name) {
        return true;
    }
    let start = match strip_prefix_comps(&fc, &rc) {
        Some(k) => k,
        None => 0,
    };
    let ghost rel = relative_comps(root@, file@);
    proof {
        assert(comps_view(fc@).skip(0) =~= comps_view(fc@));
    }
    assert(rel == comps_view(fc@).skip(start as int));
    let mut i = start;
    let limit = if fc.len() == 0 {
        0
    } else {
        fc.len() - 1
    };
    while i < limit
        invariant
            start <= fc.len(),
            limit == if fc.len() == 0 {
                0
            } else {
                fc.len() - 1
            },
            start <= i,
            i <= limit || i == start,
            rel == comps_view(fc@).skip(start as int),
            rel == relative_comps(root@, file@),
            forall|k: int| 0 <= k < i - start ==> !test_dir(#[trigger] rel[k]),
        decreases limit - i,
    {
        assert(rel[i - start] == comps_view(fc@)[i as int]);
        if is_test_dir(&fc[i]) {
            assert(rel.len() == fc.len() - start);
            assert(test_dir(rel[i - start]));
            assert(0 <= i - start < rel.len() - 1);
            let ghost j = i - start;
            assert(exists|j: int| 0 <= j < rel.len() - 1 && #[trigger] test_dir(rel[j]));
            assert(rel == relative_comps(root@, file@));
            return true;
        }
        i += 1;
    }
    assert forall|k: int| 0 <= k < rel.len() - 1 implies !test_dir(#[trigger] rel[k]) by {
        assert(k < i - start);
    }
    false
}

/// `b` joined onto `a` the way `PathBuf::push` joins it.
pub open spec fn join_path(a: Seq<char>, b: Seq<char>) -> Seq<char> {
    if b.len() > 0 && b[0] == '/' {
        b
    } else if a.len() > 0 && a.last() != '/' {
        a + seq!['/'] + b
    } else {
        a + b
    }
}

/// `b` joined onto `a`.
pub fn join(a: &str, b: &str) -> (r: String)
    ensures
        r@ == join_path(a@, b@),
{
    let ca = chars_of(a);
    let cb = chars_of(b);
    if cb.len() > 0 && cb[0] == '/' {
        string_from(&cb)
    } else {
        let mut out = string_from(&ca);
        if ca.len() > 0 && ca[ca.len() - 1] != '/' {
            push_char(&mut out, '/');
        }
        crate::text::append_chars(&mut out, &cb);
        out
    }
}

/// The characters before the first glob character (`*`, `?` or `[`).
pub open spec fn before_glob(s: Seq<char>) -> Seq<char>
    decreases s.len(),
{
    if s.len() == 0 {
        s
    } else if s[0] == '*' || s[0] == '?' || s[0] == '[' {
        Seq::empty()
    } else {
        seq![s[0]] + before_glob(s.drop_first())
    }
}

/// `s` without trailing `/` characters.
pub open spec fn trim_slashes(s: Seq<char>) -> Seq<char>
    decreases s.len(),
{
    if s.len() > 0 && s.last() == '/' {
        trim_slashes(s.drop_last())
    } else {
        s
    }
}

/// The directory that a tsconfig include/exclude pattern names before its
/// first glob character, joined onto `root`.
pub open spec fn glob_prefix_of(root: Seq<char>, pattern: Seq<char>) -> Seq<char> {
    let prefix = trim_slashes(before_glob(pattern));
    if prefix.len() == 0 {
        root
    } else {
        join_path(root, prefix)
    }
}

/// The directory that a tsconfig include/exclude pattern names before its first glob.
pub fn glob_prefix(root: &str, pattern: &str) -> (r: String)
    ensures
        r@ == glob_prefix_of(root@, pattern@),
{
    let cp = chars_of(pattern);
    let prefix = glob_head(&cp);
    if prefix.len() == 0 {
        let ca = chars_of(root);
        string_from(&ca)
    } else {
        let ps = string_from(&prefix);
        join(root, ps.as_str())
    }
}

/// The characters of a pattern before its first glob character, without trailing `/`.
fn glob_head(cp: &Vec<char>) -> (prefix: Vec<char>)
    ensures
        prefix@ == trim_slashes(before_glob(cp@)),
{
    let mut i: usize = 0;
    proof {
        assert(cp@.take(0) + before_glob(cp@.skip(0)) =~= before_glob(cp@)) by {
            assert(cp@.skip(0) =~= cp@);
        }
    }
    while i < cp.len() && cp[i] != '*' && cp[i] != '?' && cp[i] != '['
        invariant
            i <= cp.len(),
            before_glob(cp@) == cp@.take(i as int) + before_glob(cp@.skip(i as int)),
        decreases cp.len() - i,
    {
        assert(cp@.skip(i as int).drop_first() =~= cp@.skip(i + 1));
        assert(cp@.take(i + 1) =~= cp@.take(i as int) + seq![cp@[i as int]]);
        i += 1;
    }
    let mut j = i;
    assert(before_glob(cp@) =~= cp@.take(i as int));
    while j > 0 && cp[j - 1] == '/'
        invariant
            j <= i <= cp.len(),
            trim_slashes(cp@.take(i as int)) == trim_slashes(cp@.take(j as int)),
        decreases j,
    {
        assert(cp@.take(j as int).drop_last() =~= cp@.take(j - 1));
        j -= 1;
    }
    let mut prefix: Vec<char> = Vec::new();
    let mut k: usize = 0;
    while k < j
        invariant
            j <= cp.len(),
            k <= j,
            prefix@ == cp@.take(k as int),
        decreases j - k,
    {
        prefix.push(cp[k]);
        assert(cp@.take(k + 1) =~= cp@.take(k as int).push(cp@[k as int]));
        k += 1;
    }
    assert(trim_slashes(cp@.take(j as int)) == cp@.take(j as int));
    prefix
}

/// `abs` is `prefix` or lies under it, component-wise.
pub open spec fn under(abs: Seq<char>, prefix: Seq<char>) -> bool {
    strip_comps(components(abs), components(prefix)) is Some
}

fn is_under(abs: &str, prefix: &str) -> (r: bool)
    ensures
        r == under(abs@, prefix@),
{
    let ca = components_of(&chars_of(abs));
    let cp = components_of(&chars_of(prefix));
    strip_prefix_comps(&ca, &cp).is_some()
}

/// Whether `abs` falls under a tsconfig include pattern.
pub open spec fn include_matches(abs: Seq<char>, root: Seq<char>, pattern: Seq<char>) -> bool {
    let prefix = glob_prefix_of(root, pattern);
    components(prefix) == components(root) || under(abs, prefix)
}

/// Whether `abs` falls under a tsconfig include pattern.
pub fn matches_include(abs: &str, root: &str, pattern: &str) -> (r: bool)
    ensures
        r == include_matches(abs@, root@, pattern@),
{
    let prefix = glob_prefix(root, pattern);
    if same_path(prefix.as_str(), root) {
        return true;
    }
    is_under(abs, prefix.as_str())
}

/// Whether `abs` falls under one of the tsconfig exclude patterns (an exclude
/// naming the root itself excludes nothing).
pub open spec fn is_excluded(abs: Seq<char>, root: Seq<char>, excludes: Seq<Seq<char>>) -> bool {
    exists|i: int|
        0 <= i < excludes.len() && #[trigger] components(glob_prefix_of(root, excludes[i]))
            != components(root) && under(abs, glob_prefix_of(root, excludes[i]))
}

/// Whether `abs` falls under one of the tsconfig exclude patterns.
pub fn excluded(abs: &str, root: &str, excludes: &Vec<String>) -> (r: bool)
    ensures
        r == is_excluded(abs@, root@, excludes@.map_values(|e: String| e@)),
{
    let ghost ev = excludes@.map_values(|e: String| e@);
    let mut i: usize = 0;
    while i < excludes.len()
        invariant
            i <= excludes.len(),
            ev == excludes@.map_values(|e: String| e@),
            forall|k: int|
                0 <= k < i ==> !(#[trigger] components(glob_prefix_of(root@, ev[k]))
                    != components(root@) && under(abs@, glob_prefix_of(root@, ev[k]))),
        decreases excludes.len() - i,
    {
        let prefix = glob_prefix(root, excludes[i].as_str());
        assert(ev[i as int] == excludes@[i as int]@);
        if !same_path(prefix.as_str(), root) && is_under(abs, prefix.as_str()) {
            return true;
        }
        i += 1;
    }
    false
}

/// A Windows verbatim path (`\\?\...`) without its prefix; other paths unchanged.
pub open spec fn without_verbatim(p: Seq<char>) -> Seq<char> {
    if crate::text::starts_with(p, seq!['\\', '\\', '?', '\\']) {
        p.skip(4)
    } else {
        p
    }
}

/// A path without a Windows verbatim prefix.
pub fn strip_verbatim(path: &str) -> (r: String)
    ensures
        r@ == without_verbatim(path@),
{
    let cs = chars_of(path);
    if cs.len() >= 4 && cs[0] == '\\' && cs[1] == '\\' && cs[2] == '?' && cs[3] == '\\' {
        assert(cs@.take(4) =~= seq!['\\', '\\', '?', '\\']);
        let mut out = String::new();
        let mut i: usize = 4;
        while i < cs.len()
            invariant
                4 <= i <= cs.len(),
                out@ == cs@.subrange(4, i as int),
            decreases cs.len() - i,
        {
            push_char(&mut out, cs[i]);
            assert(out@ =~= cs@.subrange(4, i + 1));
            i += 1;
        }
        assert(cs@.subrange(4, cs.len() as int) =~= cs@.skip(4));
        out
    } else {
        proof {
            if crate::text::starts_with(path@, seq!['\\', '\\', '?', '\\']) {
                assert(cs@.take(4)[0] == cs@[0]);
                assert(cs@.take(4)[1] == cs@[1]);
                assert(cs@.take(4)[2] == cs@[2]);
                assert(cs@.take(4)[3] == cs@[3]);
            }
        }
        string_from(&cs)
    }
}

/// Whether two paths are the same: equal components or equal text.
pub open spec fn same_file(a: Seq<char>, b: Seq<char>) -> bool {
    components(a) == components(b) || a == b
}

/// Whether two paths are the same: equal components or equal text.
pub fn paths_equal(a: &str, b: &str) -> (r: bool)
    ensures
        r == same_file(a@, b@),
{
    same_path(a, b) || crate::text::str_eq(a, b)
}

/// Paths ordered as paths compare.
pub struct PathText;

impl crate::order::KeyOrder<String> for PathText {
    open spec fn admits(&self, x: String) -> bool {
        true
    }

    open spec fn leq(&self) -> spec_fn(String, String) -> bool {
        |a: String, b: String| path_order(a@, b@) != Rel::Greater
    }

    fn le(&self, a: &String, b: &String) -> (r: bool) {
        match compare_paths(a.as_str(), b.as_str()) {
            Rel::Greater => false,
            _ => true,
        }
    }
}

/// Drops each path with the components of the one before it.
pub open spec fn dedup_paths(s: Seq<Seq<char>>) -> Seq<Seq<char>>
    decreases s.len(),
{
    if s.len() <= 1 {
        s
    } else {
        let d = dedup_paths(s.drop_last());
        if components(s.last()) == components(s[s.len() - 2]) {
            d
        } else {
            d.push(s.last())
        }
    }
}

/// The files of a program: sorted as paths compare, repeats dropped.
pub open spec fn tidy_files_spec(files: Seq<String>) -> Seq<Seq<char>> {
    dedup_paths(
        crate::order::stable_sorted(files, |a: String, b: String| path_order(a@, b@) != Rel::Greater).map_values(
            |s: String| s@,
        ),
    )
}

/// Sorts the files of a program as paths compare and drops repeats.
pub fn tidy_files(files: Vec<String>) -> (r: Vec<String>)
    ensures
        r@.map_values(|s: String| s@) == tidy_files_spec(files@),
{
    let ghost f0 = files@;
    let sorted = crate::order::stable_sort(&PathText, files);
    let ghost sv = sorted@.map_values(|s: String| s@);
    let mut out: Vec<String> = Vec::new();
    let mut i: usize = 0;
    assert(sv.take(0) =~= Seq::<Seq<char>>::empty());
    while i < sorted.len()
        invariant
            sv == sorted@.map_values(|s: String| s@),
            i <= sorted.len(),
            out@.map_values(|s: String| s@) == dedup_paths(sv.take(i as int)),
        decreases sorted.len() - i,
    {
        let ghost t = sv.take(i + 1);
        assert(t.drop_last() =~= sv.take(i as int));
        assert(t.last() == sorted@[i as int]@);
        let ghost before = out@.map_values(|s: String| s@);
        if i == 0 || !same_path(sorted[i - 1].as_str(), sorted[i].as_str()) {
            out.push(sorted[i].clone());
            assert(out@.map_values(|s: String| s@) =~= before.push(sorted@[i as int]@));
            if i > 0 {
                assert(t[t.len() - 2] == sorted@[i - 1]@);
            } else {
                assert(dedup_paths(t) =~= t);
            }
        } else {
            assert(t[t.len() - 2] == sorted@[i - 1]@);
        }
        i += 1;
    }
    assert(sv.take(sorted.len() as int) =~= sv);
    out
}

/// The patterns a tsconfig takes files from: those given when there are any;
/// everything when neither `include` nor `files` is given; else none.
pub open spec fn include_patterns_spec(patterns: Option<Seq<String>>, has_files: bool) -> Seq<Seq<char>> {
    match patterns {
        Some(inc) => if inc.len() > 0 {
            inc.map_values(|s: String| s@)
        } else {
            Seq::empty()
        },
        None => if !has_files {
            seq!["**/*"@]
        } else {
            Seq::empty()
        },
    }
}

/// The patterns a tsconfig takes files from.
pub fn include_patterns(patterns: &Option<Vec<String>>, has_files: bool) -> (r: Vec<String>)
    ensures
        r@.map_values(|s: String| s@) == include_patterns_spec(
            match patterns {
                Some(v) => Some(v@),
                None => None,
            },
            has_files,
        ),
{
    let mut out: Vec<String> = Vec::new();
    match patterns {
        Some(inc) => {
            let mut i: usize = 0;
            while i < inc.len()
                invariant
                    i <= inc.len(),
                    out@.map_values(|s: String| s@) == inc@.take(i as int).map_values(|s: String| s@),
                decreases inc.len() - i,
            {
                out.push(inc[i].clone());
                assert(inc@.take(i + 1).map_values(|s: String| s@) =~= inc@.take(i as int).map_values(|s: String| s@).push(
                    inc@[i as int]@,
                ));
                assert(out@.map_values(|s: String| s@) =~= inc@.take(i + 1).map_values(|s: String| s@));
                i += 1;
            }
            assert(inc@.take(inc.len() as int) =~= inc@);
            if inc.len() == 0 {
                assert(out@.map_values(|s: String| s@) =~= Seq::<Seq<char>>::empty());
            }
        },
        None => {
            if !has_files {
                let mut all = String::new();
                crate::text::append_str(&mut all, "**/*");
                proof {
                    reveal_strlit("**/*");
                }
                out.push(all);
                assert(out@.map_values(|s: String| s@) =~= seq!["**/*"@]);
            } else {
                assert(out@.map_values(|s: String| s@) =~= Seq::<Seq<char>>::empty());
            }
        },
    }
    out
}

} // verus!
