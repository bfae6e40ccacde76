//! Entry points: files named `index`, `main` or `cli` at the root or directly
//! under `src/`, and the files that `package.json`'s `main`, `bin` and
//! `exports` fields name, tried under the paths a build usually maps them to.

use vstd::prelude::*;

use crate::program::{
    components, components_of, comps_view, file_name, file_name_of, file_stem, join, join_path, name_is,
    relative_comps, stem_of, strip_prefix_comps, test_file, is_test_file, NORMAL,
};
use crate::program::{is_program_file, paths_equal, program_file, same_file};
use crate::text::{append_str, chars_end_with_str, chars_of, chars_start_with, copy_string, ends_with, starts_with, str_eq, string_from};

verus! {

/// Position of the last `c` in `s`, or -1.
pub open spec fn last_index_of(s: Seq<char>, c: char) -> int
    decreases s.len(),
{
    if s.len() == 0 {
        -1
    } else if s.last() == c {
        s.len() - 1
    } else {
        last_index_of(s.drop_last(), c)
    }
}

/// The text after the last `/` (all of `s` when it has none).
pub open spec fn last_segment(s: Seq<char>) -> Seq<char> {
    s.skip(last_index_of(s, '/') + 1)
}

/// `p` with a JavaScript extension (`.js`, `.jsx`, `.mjs`, `.cjs`) replaced by
/// `ext`; with `ext` appended when its last segment has no dot; else unchanged.
pub open spec fn replaced_js_extension(p: Seq<char>, ext: Seq<char>) -> Seq<char> {
    if ends_with(p, ".js"@) {
        p.take(p.len() - 3) + ext
    } else if ends_with(p, ".jsx"@) {
        p.take(p.len() - 4) + ext
    } else if ends_with(p, ".mjs"@) {
        p.take(p.len() - 4) + ext
    } else if ends_with(p, ".cjs"@) {
        p.take(p.len() - 4) + ext
    } else if !last_segment(p).contains('.') {
        p + ext
    } else {
        p
    }
}

proof fn lemma_last_index_of(s: Seq<char>, c: char)
    ensures
        -1 <= last_index_of(s, c) < s.len(),
        last_index_of(s, c) >= 0 ==> s[last_index_of(s, c)] == c,
        forall|k: int| last_index_of(s, c) < k < s.len() ==> s[k] != c,
    decreases s.len(),
{
    if s.len() > 0 && s.last() != c {
        lemma_last_index_of(s.drop_last(), c);
        assert forall|k: int| last_index_of(s, c) < k < s.len() implies s[k] != c by {
            if k < s.len() - 1 {
                assert(s[k] == s.drop_last()[k]);
            }
        }
    }
}

fn contains_char(s: &Vec<char>, from: usize, c: char) -> (r: bool)
    requires
        from <= s.len(),
    ensures
        r == s@.skip(from as int).contains(c),
{
    let mut i = from;
    while i < s.len()
        invariant
            from <= i <= s.len(),
            forall|k: int| from <= k < i ==> s@[k] != c,
        decreases s.len() - i,
    {
        if s[i] == c {
            assert(s@.skip(from as int)[i - from] == c);
            return true;
        }
        i += 1;
    }
    assert forall|k: int| 0 <= k < s@.skip(from as int).len() implies s@.skip(from as int)[k] != c by {
        assert(s@.skip(from as int)[k] == s@[from + k]);
    }
    false
}

fn prefix_string(s: &Vec<char>, n: usize) -> (r: String)
    requires
        n <= s.len(),
    ensures
        r@ == s@.take(n as int),
{
    let mut out = String::new();
    let mut i: usize = 0;
    while i < n
        invariant
            n <= s.len(),
            i <= n,
            out@ == s@.take(i as int),
        decreases n - i,
    {
        crate::text::push_char(&mut out, s[i]);
        assert(s@.take(i + 1) =~= s@.take(i as int).push(s@[i as int]));
        i += 1;
    }
    out
}

/// `path_str` with its JavaScript extension replaced by `new_ext`, or
/// `new_ext` appended when the last segment has no extension.
pub fn replace_js_extension(path_str: &str, new_ext: &str) -> (r: String)
    ensures
        r@ == replaced_js_extension(path_str@, new_ext@),
{
    let p = chars_of(path_str);
    proof {
        reveal_strlit(".js");
        reveal_strlit(".jsx");
        reveal_strlit(".mjs");
        reveal_strlit(".cjs");
    }
    let cut: usize = if chars_end_with_str(&p, ".js") {
        3
    } else if chars_end_with_str(&p, ".jsx") || chars_end_with_str(&p, ".mjs") || chars_end_with_str(&p, ".cjs") {
        4
    } else {
        0
    };
    if cut > 0 {
        let mut out = prefix_string(&p, p.len() - cut);
        append_str(&mut out, new_ext);
        return out;
    }
    let mut j = p.len();
    while j > 0 && p[j - 1] != '/'
        invariant
            j <= p.len(),
            forall|k: int| j <= k < p.len() ==> p@[k] != '/',
        decreases j,
    {
        j -= 1;
    }
    proof {
        lemma_last_index_of(p@, '/');
        if j > 0 {
            assert(p@[j - 1] == '/');
        }
        assert(last_index_of(p@, '/') == j - 1);
    }
    let mut out = string_from(&p);
    if !contains_char(&p, j, '.') {
        append_str(&mut out, new_ext);
    }
    out
}

/// Whether a file is an entry point by its name: not a test, named `index`,
/// `main` or `cli` (any extension), directly at the root or under `src/`.
pub open spec fn named_entry(root: Seq<char>, file: Seq<char>) -> bool {
    let rel = relative_comps(root, file);
    let stem = file_stem(file_name(components(file)));
    &&& !test_file(root, file)
    &&& (rel.len() <= 1 || (rel.len() == 2 && rel[0] == (NORMAL, "src"@)))
    &&& (stem == "index"@ || stem == "main"@ || stem == "cli"@)
}

/// Whether a file is an entry point by its name.
pub fn is_named_entry(root: &str, file: &str) -> (r: bool)
    ensures
        r == named_entry(root@, file@),
{
    if is_test_file(root, file) {
        return false;
    }
    let fc = components_of(&chars_of(file));
    let rc = components_of(&chars_of(root));
    let start = match strip_prefix_comps(&fc, &rc) {
        Some(k) => k,
        None => 0,
    };
    assert(comps_view(fc@).skip(0) =~= comps_view(fc@));
    let ghost rel = relative_comps(root@, file@);
    assert(rel == comps_view(fc@).skip(start as int));
    let rel_len = fc.len() - start;
    proof {
        reveal_strlit("src");
        reveal_strlit("index");
        reveal_strlit("main");
        reveal_strlit("cli");
    }
    let place = rel_len <= 1 || (rel_len == 2 && fc[start].0 == NORMAL && name_is(&fc[start].1, "src"));
    assert(rel_len == 2 ==> rel[0] == (fc@[start as int].0, fc@[start as int].1@));
    let stem = stem_of(&file_name_of(&fc));
    place && (name_is(&stem, "index") || name_is(&stem, "main") || name_is(&stem, "cli"))
}

/// The extensions tried in place of a JavaScript one.
pub open spec fn ts_exts() -> Seq<Seq<char>> {
    seq![".ts"@, ".tsx"@, ".mts"@, ".cts"@]
}

/// The build-output prefixes mapped back to sources.
pub open spec fn out_prefixes() -> Seq<Seq<char>> {
    seq!["dist/"@, "build/"@, "lib/"@, "out/"@, "./dist/"@, "./build/"@, "./lib/"@, "./out/"@]
}

/// `p` under `base`, with each TypeScript extension in place of its JavaScript one.
pub open spec fn with_ts_exts(base: Seq<char>, p: Seq<char>) -> Seq<Seq<char>> {
    ts_exts().map_values(|e: Seq<char>| join_path(base, replaced_js_extension(p, e)))
}

/// The paths tried for a candidate that starts with `prefix`: the rest under
/// `src/`, then for each extension the replaced rest under `src/` and under the root.
pub open spec fn prefix_paths(root: Seq<char>, c: Seq<char>, prefix: Seq<char>) -> Seq<Seq<char>> {
    if starts_with(c, prefix) {
        let rest = c.skip(prefix.len() as int);
        let src = join_path(root, "src"@);
        seq![join_path(src, rest)] + Seq::new(8, |k: int| if k % 2 == 0 {
            join_path(src, replaced_js_extension(rest, ts_exts()[k / 2]))
        } else {
            join_path(root, replaced_js_extension(rest, ts_exts()[k / 2]))
        })
    } else {
        Seq::empty()
    }
}

/// The paths tried for the prefixes `out_prefixes()[..k]`, in order.
pub open spec fn all_prefix_paths(root: Seq<char>, c: Seq<char>, k: int) -> Seq<Seq<char>>
    decreases k,
{
    if k <= 0 {
        Seq::empty()
    } else {
        all_prefix_paths(root, c, k - 1) + prefix_paths(root, c, out_prefixes()[k - 1])
    }
}

/// The paths tried, in order, for a `package.json` candidate before asking
/// the resolver: as given, with TypeScript extensions, and mapped from
/// build-output directories back to sources.
pub open spec fn candidate_paths(root: Seq<char>, c: Seq<char>) -> Seq<Seq<char>> {
    seq![join_path(root, c)] + with_ts_exts(root, c) + all_prefix_paths(root, c, 8)
}

fn ts_ext(k: usize) -> (r: &'static str)
    requires
        k < 4,
    ensures
        r@ == ts_exts()[k as int],
{
    proof {
        reveal_strlit(".ts");
        reveal_strlit(".tsx");
        reveal_strlit(".mts");
        reveal_strlit(".cts");
    }
    if k == 0 {
        ".ts"
    } else if k == 1 {
        ".tsx"
    } else if k == 2 {
        ".mts"
    } else {
        ".cts"
    }
}

fn out_prefix(k: usize) -> (r: &'static str)
    requires
        k < 8,
    ensures
        r@ == out_prefixes()[k as int],
{
    proof {
        reveal_strlit("dist/");
        reveal_strlit("build/");
        reveal_strlit("lib/");
        reveal_strlit("out/");
        reveal_strlit("./dist/");
        reveal_strlit("./build/");
        reveal_strlit("./lib/");
        reveal_strlit("./out/");
    }
    if k == 0 {
        "dist/"
    } else if k == 1 {
        "build/"
    } else if k == 2 {
        "lib/"
    } else if k == 3 {
        "out/"
    } else if k == 4 {
        "./dist/"
    } else if k == 5 {
        "./build/"
    } else if k == 6 {
        "./lib/"
    } else {
        "./out/"
    }
}

fn push_prefix_paths(out: &mut Vec<String>, root: &str, c: &str, prefix: &str)
    ensures
        final(out)@.map_values(|s: String| s@) == old(out)@.map_values(|s: String| s@) + prefix_paths(root@, c@, prefix@),
{
    let cc = chars_of(c);
    let cp = chars_of(prefix);
    let ghost o = old(out)@.map_values(|s: String| s@);
    if !chars_start_with(&cc, &cp) {
        assert(out@.map_values(|s: String| s@) =~= o + prefix_paths(root@, c@, prefix@));
        return;
    }
    let mut rest_chars: Vec<char> = Vec::new();
    let mut i = cp.len();
    while i < cc.len()
        invariant
            cp.len() <= i <= cc.len(),
            rest_chars@ == cc@.subrange(cp.len() as int, i as int),
        decreases cc.len() - i,
    {
        rest_chars.push(cc[i]);
        assert(rest_chars@ =~= cc@.subrange(cp.len() as int, i + 1));
        i += 1;
    }
    assert(rest_chars@ =~= c@.skip(prefix@.len() as int));
    let rest = string_from(&rest_chars);
    proof {
        reveal_strlit("src");
    }
    let src = join(root, "src");
    out.push(join(src.as_str(), rest.as_str()));
    let mut k: usize = 0;
    let ghost rs = rest@;
    let ghost tail = Seq::new(8, |q: int| if q % 2 == 0 {
        join_path(src@, replaced_js_extension(rs, ts_exts()[q / 2]))
    } else {
        join_path(root@, replaced_js_extension(rs, ts_exts()[q / 2]))
    });
    assert(out@.map_values(|s: String| s@) =~= o + seq![join_path(src@, rs)] + tail.take(0));
    while k < 4
        invariant
            k <= 4,
            rs == rest@,
            tail == Seq::new(8, |q: int| if q % 2 == 0 {
                join_path(src@, replaced_js_extension(rs, ts_exts()[q / 2]))
            } else {
                join_path(root@, replaced_js_extension(rs, ts_exts()[q / 2]))
            }),
            out@.map_values(|s: String| s@) == o + seq![join_path(src@, rs)] + tail.take(2 * k as int),
        decreases 4 - k,
    {
        let replaced = replace_js_extension(rest.as_str(), ts_ext(k));
        let ghost before = out@.map_values(|s: String| s@);
        out.push(join(src.as_str(), replaced.as_str()));
        out.push(join(root, replaced.as_str()));
        assert(tail[2 * k as int] == join_path(src@, replaced@));
        assert(tail[2 * k + 1] == join_path(root@, replaced@));
        assert(out@.map_values(|s: String| s@) =~= before.push(join_path(src@, replaced@)).push(join_path(root@, replaced@)));
        assert(tail.take(2 * k + 2) =~= tail.take(2 * k as int).push(tail[2 * k as int]).push(tail[2 * k + 1]));
        assert(out@.map_values(|s: String| s@) =~= o + seq![join_path(src@, rs)] + tail.take(2 * k + 2));
        k += 1;
    }
    assert(tail.take(8) =~= tail);
}

/// The paths to try, in order, for a candidate named by `package.json`.
pub fn entry_candidate_paths(root: &str, candidate: &str) -> (r: Vec<String>)
    ensures
        r@.map_values(|s: String| s@) == candidate_paths(root@, candidate@),
{
    let mut out: Vec<String> = Vec::new();
    out.push(join(root, candidate));
    let mut k: usize = 0;
    assert(out@.map_values(|s: String| s@) =~= seq![join_path(root@, candidate@)] + with_ts_exts(root@, candidate@).take(0));
    while k < 4
        invariant
            k <= 4,
            out@.map_values(|s: String| s@) == seq![join_path(root@, candidate@)] + with_ts_exts(root@, candidate@).take(k as int),
        decreases 4 - k,
    {
        let replaced = replace_js_extension(candidate, ts_ext(k));
        let ghost before = out@.map_values(|s: String| s@);
        out.push(join(root, replaced.as_str()));
        assert(with_ts_exts(root@, candidate@)[k as int] == join_path(root@, replaced@));
        assert(out@.map_values(|s: String| s@) =~= before.push(join_path(root@, replaced@)));
        assert(with_ts_exts(root@, candidate@).take(k + 1) =~= with_ts_exts(root@, candidate@).take(k as int).push(
            with_ts_exts(root@, candidate@)[k as int],
        ));
        k += 1;
    }
    assert(with_ts_exts(root@, candidate@).take(4) =~= with_ts_exts(root@, candidate@));
    let ghost head = seq![join_path(root@, candidate@)] + with_ts_exts(root@, candidate@);
    let mut q: usize = 0;
    assert(head + all_prefix_paths(root@, candidate@, 0) =~= head);
    while q < 8
        invariant
            q <= 8,
            out@.map_values(|s: String| s@) == head + all_prefix_paths(root@, candidate@, q as int),
        decreases 8 - q,
    {
        push_prefix_paths(&mut out, root, candidate, out_prefix(q));
        assert(head + all_prefix_paths(root@, candidate@, q + 1) =~= head + all_prefix_paths(root@, candidate@, q as int)
            + prefix_paths(root@, candidate@, out_prefixes()[q as int]));
        q += 1;
    }
    out
}

/// The specifier the resolver is asked for a candidate: relative as given
/// when it starts with `.` or `/`, else prefixed with `./`.
pub open spec fn resolver_specifier(c: Seq<char>) -> Seq<char> {
    if c.len() > 0 && (c[0] == '.' || c[0] == '/') {
        c
    } else {
        "./"@ + c
    }
}

/// The specifier to resolve for a candidate named by `package.json`.
pub fn specifier_for(candidate: &str) -> (r: String)
    ensures
        r@ == resolver_specifier(candidate@),
{
    let cc = chars_of(candidate);
    let mut out = String::new();
    proof {
        reveal_strlit("./");
    }
    if !(cc.len() > 0 && (cc[0] == '.' || cc[0] == '/')) {
        append_str(&mut out, "./");
    }
    append_str(&mut out, candidate);
    out
}

/// A JSON value, objects keeping their keys in the order given.
#[derive(Debug)]
pub enum JsonValue {
    Null,
    Bool(bool),
    Number,
    String(String),
    Array(Vec<JsonValue>),
    Object(Vec<(String, JsonValue)>),
}

/// Every string in a value of `exports`, depth first, in order.
pub open spec fn export_strings(v: JsonValue) -> Seq<Seq<char>>
    decreases v,
{
    match v {
        JsonValue::String(s) => seq![s@],
        JsonValue::Array(items) => list_strings(items@),
        JsonValue::Object(entries) => entry_strings(entries@),
        _ => Seq::empty(),
    }
}

/// The strings of a list of values, in order.
pub open spec fn list_strings(items: Seq<JsonValue>) -> Seq<Seq<char>>
    decreases items,
{
    if items.len() == 0 {
        Seq::empty()
    } else {
        list_strings(items.drop_last()) + export_strings(items.last())
    }
}

/// The strings of the values of an object, in order.
pub open spec fn entry_strings(entries: Seq<(String, JsonValue)>) -> Seq<Seq<char>>
    decreases entries,
{
    if entries.len() == 0 {
        Seq::empty()
    } else {
        entry_strings(entries.drop_last()) + export_strings(entries.last().1)
    }
}

/// The contents of a list of strings.
pub open spec fn strings_view(v: Seq<String>) -> Seq<Seq<char>> {
    v.map_values(|s: String| s@)
}

/// Appends every string in an `exports` value, depth first.
pub fn collect_export_strings(val: &JsonValue, out: &mut Vec<String>)
    ensures
        strings_view(final(out)@) == strings_view(old(out)@) + export_strings(*val),
    decreases val,
{
    let ghost o = strings_view(out@);
    match val {
        JsonValue::String(s) => {
            out.push(s.clone());
            assert(strings_view(out@) =~= o + export_strings(*val));
        },
        JsonValue::Array(items) => {
            let mut i: usize = 0;
            assert(items@.take(0) =~= Seq::<JsonValue>::empty());
            assert(o + list_strings(Seq::empty()) =~= o);
            while i < items.len()
                invariant
                    *val == JsonValue::Array(*items),
                    i <= items.len(),
                    strings_view(out@) == o + list_strings(items@.take(i as int)),
                decreases items.len() - i,
            {
                assert(items@.take(i + 1).drop_last() =~= items@.take(i as int));
                assert(items@.take(i + 1).last() == items@[i as int]);
                proof {
                    assert(decreases_to!(*val => (*val)->Array_0));
                    assert(decreases_to!(items => items@));
                    assert(decreases_to!(items@ => items@[i as int]));
                }
                collect_export_strings(&items[i], out);
                assert(strings_view(out@) =~= o + list_strings(items@.take(i + 1)));
                i += 1;
            }
            assert(items@.take(items.len() as int) =~= items@);
        },
        JsonValue::Object(entries) => {
            let mut i: usize = 0;
            assert(entries@.take(0) =~= Seq::<(String, JsonValue)>::empty());
            assert(o + entry_strings(Seq::empty()) =~= o);
            while i < entries.len()
                invariant
                    *val == JsonValue::Object(*entries),
                    i <= entries.len(),
                    strings_view(out@) == o + entry_strings(entries@.take(i as int)),
                decreases entries.len() - i,
            {
                assert(entries@.take(i + 1).drop_last() =~= entries@.take(i as int));
                assert(entries@.take(i + 1).last() == entries@[i as int]);
                proof {
                    assert(decreases_to!(*val => (*val)->Object_0));
                    assert(decreases_to!(entries => entries@));
                    assert(decreases_to!(entries@ => entries@[i as int]));
                    assert(decreases_to!(entries@[i as int] => entries@[i as int].1));
                }
                collect_export_strings(&entries[i].1, out);
                assert(strings_view(out@) =~= o + entry_strings(entries@.take(i + 1)));
                i += 1;
            }
            assert(entries@.take(entries.len() as int) =~= entries@);
        },
        _ => {
            assert(strings_view(out@) =~= o + export_strings(*val));
        },
    }
}

/// The value under `key` in an object; `None` for other values or a missing key.
pub open spec fn field(v: JsonValue, key: Seq<char>) -> Option<JsonValue> {
    match v {
        JsonValue::Object(entries) => entry_lookup(entries@, key),
        _ => None,
    }
}

/// The first entry under `key`.
pub open spec fn entry_lookup(entries: Seq<(String, JsonValue)>, key: Seq<char>) -> Option<JsonValue>
    decreases entries.len(),
{
    if entries.len() == 0 {
        None
    } else if entries[0].0@ == key {
        Some(entries[0].1)
    } else {
        entry_lookup(entries.drop_first(), key)
    }
}

fn field_exec<'a>(v: &'a JsonValue, key: &str) -> (r: Option<&'a JsonValue>)
    ensures
        match r {
            Some(x) => field(*v, key@) == Some(*x),
            None => field(*v, key@) is None,
        },
{
    match v {
        JsonValue::Object(entries) => {
            let mut i: usize = 0;
            assert(entries@.skip(0) =~= entries@);
            while i < entries.len()
                invariant
                    *v == JsonValue::Object(*entries),
                    i <= entries.len(),
                    entry_lookup(entries@, key@) == entry_lookup(entries@.skip(i as int), key@),
                decreases entries.len() - i,
            {
                assert(entries@.skip(i as int)[0] == entries@[i as int]);
                if crate::text::str_eq(entries[i].0.as_str(), key) {
                    assert(entry_lookup(entries@.skip(i as int), key@) == Some(entries@[i as int].1));
                    return Some(&entries[i].1);
                }
                assert(entries@.skip(i as int).drop_first() =~= entries@.skip(i + 1));
                i += 1;
            }
            None
        },
        _ => None,
    }
}

/// The strings among the values of an object, in order.
pub open spec fn string_values(entries: Seq<(String, JsonValue)>) -> Seq<Seq<char>>
    decreases entries.len(),
{
    if entries.len() == 0 {
        Seq::empty()
    } else {
        let p = string_values(entries.drop_last());
        match entries.last().1 {
            JsonValue::String(s) => p.push(s@),
            _ => p,
        }
    }
}

/// The entry-point candidates a `package.json` names, in order: `main` (a
/// string), `bin` (a string, or the strings among an object's values), then
/// every string under `exports`.
pub open spec fn package_candidates(json: JsonValue) -> Seq<Seq<char>> {
    let main = match field(json, "main"@) {
        Some(JsonValue::String(s)) => seq![s@],
        _ => Seq::empty(),
    };
    let bin = match field(json, "bin"@) {
        Some(JsonValue::String(s)) => seq![s@],
        Some(JsonValue::Object(m)) => string_values(m@),
        _ => Seq::empty(),
    };
    let exports = match field(json, "exports"@) {
        Some(e) => export_strings(e),
        None => Seq::empty(),
    };
    main + bin + exports
}

/// The entry-point candidates a parsed `package.json` names.
pub fn package_entry_candidates(json: &JsonValue) -> (r: Vec<String>)
    ensures
        strings_view(r@) == package_candidates(*json),
{
    let mut out: Vec<String> = Vec::new();
    proof {
        reveal_strlit("main");
        reveal_strlit("bin");
        reveal_strlit("exports");
    }
    if let Some(JsonValue::String(s)) = field_exec(json, "main") {
        out.push(s.clone());
    }
    let ghost after_main = strings_view(out@);
    match field_exec(json, "bin") {
        Some(JsonValue::String(s)) => {
            out.push(s.clone());
        },
        Some(JsonValue::Object(m)) => {
            let mut i: usize = 0;
            assert(m@.take(0) =~= Seq::<(String, JsonValue)>::empty());
            while i < m.len()
                invariant
                    i <= m.len(),
                    strings_view(out@) == after_main + string_values(m@.take(i as int)),
                decreases m.len() - i,
            {
                assert(m@.take(i + 1).drop_last() =~= m@.take(i as int));
                assert(m@.take(i + 1).last() == m@[i as int]);
                let ghost before = strings_view(out@);
                if let JsonValue::String(s) = &m[i].1 {
                    out.push(s.clone());
                    assert(strings_view(out@) =~= before.push(s@));
                }
                assert(strings_view(out@) =~= after_main + string_values(m@.take(i + 1)));
                i += 1;
            }
            assert(m@.take(m.len() as int) =~= m@);
        },
        _ => {},
    }
    if let Some(e) = field_exec(json, "exports") {
        collect_export_strings(e, &mut out);
    }
    assert(strings_view(out@) =~= package_candidates(*json));
    out
}

/// Whether `canon` names one of the program's files.
pub open spec fn in_program(files: Seq<String>, canon: Seq<char>) -> bool {
    exists|i: int| 0 <= i < files.len() && #[trigger] same_file(files[i]@, canon)
}

/// Admits the canonical path `canon` as an entry point when it is a program
/// file of the program: it is recorded once, and the answer says whether it
/// was admitted.
pub fn admit_entry(files: &Vec<String>, entry_points: &mut Vec<String>, canon: String) -> (r: bool)
    ensures
        r == (program_file(canon@) && in_program(files@, canon@)),
        strings_view(final(entry_points)@) == if r && !strings_view(old(entry_points)@).contains(canon@) {
            strings_view(old(entry_points)@).push(canon@)
        } else {
            strings_view(old(entry_points)@)
        },
{
    if !is_program_file(canon.as_str()) {
        return false;
    }
    let mut found = false;
    let mut i: usize = 0;
    while i < files.len()
        invariant
            i <= files.len(),
            found == exists|j: int| 0 <= j < i && #[trigger] same_file(files@[j]@, canon@),
        decreases files.len() - i,
    {
        if paths_equal(files[i].as_str(), canon.as_str()) {
            found = true;
        }
        i += 1;
    }
    if !found {
        return false;
    }
    let ghost old_view = strings_view(entry_points@);
    let mut present = false;
    let mut k: usize = 0;
    while k < entry_points.len()
        invariant
            k <= entry_points.len(),
            old_view == strings_view(entry_points@),
            present == exists|j: int| 0 <= j < k && entry_points@[j]@ == canon@,
        decreases entry_points.len() - k,
    {
        if str_eq(entry_points[k].as_str(), canon.as_str()) {
            present = true;
        }
        k += 1;
    }
    proof {
        if present {
            let j = choose|j: int| 0 <= j < entry_points@.len() && entry_points@[j]@ == canon@;
            assert(old_view[j] == canon@);
        } else {
            assert forall|j: int| 0 <= j < old_view.len() implies old_view[j] != canon@ by {
                assert(old_view[j] == entry_points@[j]@);
            }
        }
    }
    if !present {
        let ghost c = canon@;
        entry_points.push(canon);
        assert(strings_view(entry_points@) =~= old_view.push(c));
    }
    true
}

#[verifier::external_type_specification]
#[verifier::external_body]
pub struct ExJsonValue(serde_json::Value);

/// What `serde_json` makes of a text read as one JSON value; `None` when the
/// text is not JSON.
pub uninterp spec fn parsed_json(text: Seq<char>) -> Option<JsonValue>;

/// `serde_json::from_str::<serde_json::Value>`, the value converted variant
/// by variant (objects in the order serde_json's map walks its keys).
/// Trusted: that the result is what the name `parsed_json` gives for the text.
#[verifier::external_body]
pub fn parse_json(text: &str) -> (r: Option<JsonValue>)
    ensures
        r == parsed_json(text@),
{
    serde_json::from_str::<serde_json::Value>(text).ok().map(|v| json_value(&v))
}

/// Converts a `serde_json::Value`, one arm per variant; a number keeps no value.
#[verifier::external_body]
fn json_value(v: &serde_json::Value) -> JsonValue {
    match v {
        serde_json::Value::Null => JsonValue::Null,
        serde_json::Value::Bool(b) => JsonValue::Bool(*b),
        serde_json::Value::Number(_) => JsonValue::Number,
        serde_json::Value::String(s) => JsonValue::String(s.clone()),
        serde_json::Value::Array(items) => JsonValue::Array(items.iter().map(json_value).collect()),
        serde_json::Value::Object(map) => JsonValue::Object(map.iter().map(|(k, v)| (k.clone(), json_value(v))).collect()),
    }
}

/// The entry-point candidates that the text of a `package.json` names; none
/// when the text is not JSON.
pub fn package_json_candidates(text: &str) -> (r: Vec<String>)
    ensures
        match parsed_json(text@) {
            Some(v) => strings_view(r@) == package_candidates(v),
            None => r@.len() == 0,
        },
{
    match parse_json(text) {
        Some(v) => package_entry_candidates(&v),
        None => Vec::new(),
    }
}

/// The program files that are entry points by their name, in order.
pub fn named_entries(root: &str, files: &Vec<String>) -> (r: Vec<String>)
    ensures
        strings_view(r@) == strings_view(files@).filter(|f: Seq<char>| named_entry(root@, f)),
{
    let mut out: Vec<String> = Vec::new();
    let mut i: usize = 0;
    while i < files.len()
        invariant
            i <= files.len(),
            strings_view(out@) == strings_view(files@.take(i as int)).filter(|f: Seq<char>| named_entry(root@, f)),
        decreases files.len() - i,
    {
        let ghost before = out@;
        let ghost t = strings_view(files@.take(i as int));
        assert(strings_view(files@.take(i + 1)) =~= t.push(files@[i as int]@));
        assert(t.push(files@[i as int]@).drop_last() =~= t);
        reveal(Seq::filter);
        if is_named_entry(root, files[i].as_str()) {
            out.push(copy_string(&files[i]));
            assert(strings_view(out@) =~= strings_view(before).push(files@[i as int]@));
        }
        i += 1;
    }
    assert(files@.take(files.len() as int) =~= files@);
    out
}

/// The path that `std::path::Path::with_extension` makes of `path` and `ext`.
pub uninterp spec fn with_extension_of(path: Seq<char>, ext: Seq<char>) -> Seq<char>;

/// `std::path::Path::with_extension`: the path with the extension of its
/// file name replaced by `ext`. Trusted: that the result is what the name
/// `with_extension_of` gives for the two texts (std computes it from them
/// alone). std panics on an extension that holds a path separator, so none
/// is admitted.
#[verifier::external_body]
fn path_with_extension(path: &str, ext: &str) -> (r: String)
    requires
        forall|i: int| 0 <= i < ext@.len() ==> #[trigger] ext@[i] != '/' && ext@[i] != '\\',
    ensures
        r@ == with_extension_of(path@, ext@),
{
    std::path::Path::new(path).with_extension(ext).to_string_lossy().into_owned()
}

/// What the resolver found for a candidate, then that path with each
/// TypeScript extension in place of its own.
pub open spec fn resolved_paths(p: Seq<char>) -> Seq<Seq<char>> {
    seq![
        p,
        with_extension_of(p, "ts"@),
        with_extension_of(p, "tsx"@),
        with_extension_of(p, "mts"@),
        with_extension_of(p, "cts"@),
    ]
}

/// Where the search for one `package.json` entry candidate stands: the
/// paths to try, how many were tried, whether the resolver was asked, and
/// the specifier to ask it for.
#[derive(Debug)]
pub struct EntrySearch {
    pub paths: Vec<String>,
    pub next: usize,
    pub resolver_asked: bool,
    pub specifier: String,
}

/// What to do next in the search.
#[derive(Debug)]
pub enum EntryAction {
    /// Admit this path if it is a program file.
    Try(String),
    /// Ask the resolver for this specifier from the program root.
    Resolve(String),
    /// The search is over.
    Finish,
}

/// What came of the last action.
#[derive(Debug)]
pub enum EntryEvent {
    /// The path tried was admitted, or not.
    Tried(bool),
    /// The path the resolver gave, if any.
    Resolved(Option<String>),
}

/// The search for candidate `candidate` under `root`: first the paths a build
/// usually maps it to, then the resolver.
pub fn entry_search(root: &str, candidate: &str) -> (r: EntrySearch)
    ensures
        strings_view(r.paths@) == candidate_paths(root@, candidate@),
        r.next == 0,
        !r.resolver_asked,
        r.specifier@ == resolver_specifier(candidate@),
{
    let paths = entry_candidate_paths(root, candidate);
    proof {
        assert(strings_view(paths@) =~= paths@.map_values(|s: String| s@));
    }
    EntrySearch { paths, next: 0, resolver_asked: false, specifier: specifier_for(candidate) }
}

/// An action as plain values: `None` for the end, `(true, path)` for a
/// path to try, `(false, specifier)` for the resolver.
pub open spec fn action_view(a: EntryAction) -> Option<(bool, Seq<char>)> {
    match a {
        EntryAction::Try(p) => Some((true, p@)),
        EntryAction::Resolve(sp) => Some((false, sp@)),
        EntryAction::Finish => None,
    }
}

/// The action after a failed step: the next path to try; else the
/// resolver, once; else the end.
pub open spec fn advance_view(paths: Seq<Seq<char>>, next: int, asked: bool, specifier: Seq<char>) -> Option<
    (bool, Seq<char>),
> {
    if next < paths.len() {
        Some((true, paths[next]))
    } else if !asked {
        Some((false, specifier))
    } else {
        None
    }
}

impl EntrySearch {
    /// The next path to try; else the resolver, once; else the end.
    pub fn advance(&mut self) -> (a: EntryAction)
        ensures
            action_view(a) == advance_view(strings_view(old(self).paths@), old(self).next as int, old(self).resolver_asked, old(self).specifier@),
            final(self).specifier == old(self).specifier,
            final(self).paths@ == old(self).paths@,
            final(self).next == if old(self).next < old(self).paths.len() {
                (old(self).next + 1) as usize
            } else {
                old(self).next
            },
            final(self).resolver_asked == (old(self).resolver_asked || old(self).next >= old(self).paths.len()),
    {
        if self.next < self.paths.len() {
            let p = copy_string(&self.paths[self.next]);
            self.next = self.next + 1;
            EntryAction::Try(p)
        } else if !self.resolver_asked {
            self.resolver_asked = true;
            EntryAction::Resolve(copy_string(&self.specifier))
        } else {
            EntryAction::Finish
        }
    }

    /// The next action, given what came of the last one: an admitted path
    /// or no resolver answer ends the search; a resolver answer adds its
    /// paths to try; then the search goes on as `advance` does.
    pub fn step(&mut self, event: EntryEvent) -> (a: EntryAction)
        ensures
            final(self).specifier == old(self).specifier,
            match event {
                EntryEvent::Tried(true) => action_view(a) is None,
                EntryEvent::Resolved(None) => action_view(a) is None,
                EntryEvent::Tried(false) => action_view(a) == advance_view(
                    strings_view(old(self).paths@),
                    old(self).next as int,
                    old(self).resolver_asked,
                    old(self).specifier@,
                ),
                EntryEvent::Resolved(Some(p)) => strings_view(final(self).paths@) == strings_view(old(self).paths@)
                    + resolved_paths(p@) && action_view(a) == advance_view(
                    strings_view(old(self).paths@) + resolved_paths(p@),
                    old(self).next as int,
                    old(self).resolver_asked,
                    old(self).specifier@,
                ),
            },
    {
        match event {
            EntryEvent::Tried(true) => EntryAction::Finish,
            EntryEvent::Tried(false) => self.advance(),
            EntryEvent::Resolved(None) => EntryAction::Finish,
            EntryEvent::Resolved(Some(p)) => {
                let ghost before = strings_view(self.paths@);
                let exts: [&str; 4] = ["ts", "tsx", "mts", "cts"];
                let mut added: Vec<String> = Vec::new();
                added.push(copy_string(&p));
                let mut k: usize = 0;
                while k < 4
                    invariant
                        k <= 4,
                        exts@ == seq!["ts", "tsx", "mts", "cts"],
                        strings_view(added@) == resolved_paths(p@).take(k + 1),
                    decreases 4 - k,
                {
                    proof {
                        reveal_strlit("ts");
                        reveal_strlit("tsx");
                        reveal_strlit("mts");
                        reveal_strlit("cts");
                        assert(exts@[0] == "ts");
                        assert(exts@[1] == "tsx");
                        assert(exts@[2] == "mts");
                        assert(exts@[3] == "cts");
                    }
                    let q = path_with_extension(p.as_str(), exts[k]);
                    let ghost before_added = strings_view(added@);
                    added.push(q);
                    assert(resolved_paths(p@)[k + 1] == with_extension_of(p@, exts@[k as int]@)) by {
                        assert(exts@[0] == "ts");
                        assert(exts@[1] == "tsx");
                        assert(exts@[2] == "mts");
                        assert(exts@[3] == "cts");
                    }
                    assert(strings_view(added@) == before_added.push(q@));
                    proof {
                        reveal_strlit("ts");
                        reveal_strlit("tsx");
                        reveal_strlit("mts");
                        reveal_strlit("cts");
                    }
                    assert(strings_view(added@) =~= resolved_paths(p@).take(k + 2));
                    k += 1;
                }
                assert(resolved_paths(p@).take(5) =~= resolved_paths(p@));
                self.paths.append(&mut added);
                assert(strings_view(self.paths@) =~= before + resolved_paths(p@));
                self.advance()
            },
        }
    }
}

} // verus!
