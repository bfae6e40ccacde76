//! Building the module graph from the parsed modules and the resolver's
//! answer for each import.

use vstd::prelude::*;

use crate::graph::{keys_view, path_index_leq, ByPath, Consumers, Module, ModuleGraph};
use crate::order::{dedup_adjacent, dedup_indices, stable_sort, stable_sorted};
use crate::parse::{ImportedName, ParsedExport, ParsedImport, ParsedModule};
use crate::program::{components, display_of, display_path, is_js_file, is_program_file, is_test_file, js_file, program_file, same_path, test_file};
use crate::reach::adj_view;
use crate::text::str_eq;

verus! {

/// One row of the consumers table: exporter, export name, importers.
pub type Row = (usize, Seq<char>, Seq<usize>);

/// The consumers table by its contents.
pub open spec fn table_view(t: Seq<Consumers>) -> Seq<Row> {
    t.map_values(|c: Consumers| (c.exporter, c.name@, c.importers@))
}

/// The row holding key (`exporter`, `name`), searched from the end; -1 when none does.
pub open spec fn key_index(t: Seq<Row>, exporter: usize, name: Seq<char>) -> int
    decreases t.len(),
{
    if t.len() == 0 {
        -1
    } else if t.last().0 == exporter && t.last().1 == name {
        t.len() - 1
    } else {
        key_index(t.drop_last(), exporter, name)
    }
}

/// Records `importer` as a consumer of export `name` of `exporter`.
pub open spec fn add_consumer(t: Seq<Row>, exporter: usize, name: Seq<char>, importer: usize) -> Seq<Row> {
    let k = key_index(t, exporter, name);
    if k >= 0 {
        t.update(k, (exporter, name, t[k].2.push(importer)))
    } else {
        t.push((exporter, name, seq![importer]))
    }
}

/// Records `importer` as a consumer of each of `exports` of `exporter`, in order.
pub open spec fn add_exports(t: Seq<Row>, exporter: usize, exports: Seq<ParsedExport>, importer: usize) -> Seq<Row>
    decreases exports.len(),
{
    if exports.len() == 0 {
        t
    } else {
        add_consumer(add_exports(t, exporter, exports.drop_last(), importer), exporter, exports.last().name@, importer)
    }
}

/// Records what one imported name consumes; a namespace import consumes every export.
pub open spec fn add_imported(t: Seq<Row>, exporter: usize, importer: usize, exports: Seq<ParsedExport>, n: ImportedName) -> Seq<Row> {
    match n {
        ImportedName::Named(s) => add_consumer(t, exporter, s@, importer),
        ImportedName::Default => add_consumer(t, exporter, "default"@, importer),
        ImportedName::Namespace => add_exports(t, exporter, exports, importer),
        ImportedName::StarReexport => t,
    }
}

/// Records what all names of one import consume.
pub open spec fn add_all_imported(
    t: Seq<Row>,
    exporter: usize,
    importer: usize,
    exports: Seq<ParsedExport>,
    names: Seq<ImportedName>,
) -> Seq<Row>
    decreases names.len(),
{
    if names.len() == 0 {
        t
    } else {
        add_imported(add_all_imported(t, exporter, importer, exports, names.drop_last()), exporter, importer, exports, names.last())
    }
}

/// One (importer, target) pair per star re-export among `names`.
pub open spec fn stars(importer: usize, target: usize, names: Seq<ImportedName>) -> Seq<(usize, usize)>
    decreases names.len(),
{
    if names.len() == 0 {
        Seq::empty()
    } else {
        let p = stars(importer, target, names.drop_last());
        if names.last() is StarReexport {
            p.push((importer, target))
        } else {
            p
        }
    }
}

/// The first module whose path has the components of `path`.
pub open spec fn module_index(mods: Seq<ParsedModule>, path: Seq<char>) -> Option<usize>
    decreases mods.len(),
{
    if mods.len() == 0 {
        None
    } else {
        match module_index(mods.drop_last(), path) {
            Some(i) => Some(i),
            None => if components(mods.last().abs@) == components(path) {
                Some((mods.len() - 1) as usize)
            } else {
                None
            },
        }
    }
}

/// The module an import resolved to: a program file (not JavaScript) that
/// is one of the modules.
pub open spec fn import_target(mods: Seq<ParsedModule>, resolved: Option<String>) -> Option<usize> {
    match resolved {
        None => None,
        Some(p) => if js_file(p@) || !program_file(p@) {
            None
        } else {
            module_index(mods, p@)
        },
    }
}

/// State while imports are read: file dependencies, consumers, pending star re-exports.
pub type ImportState = (Seq<Seq<usize>>, Seq<Row>, Seq<(usize, usize)>);

/// Reads import `imp` of module `i`, which resolved to `resolved`.
pub open spec fn import_step(s: ImportState, mods: Seq<ParsedModule>, i: int, imp: ParsedImport, resolved: Option<String>) -> ImportState {
    match import_target(mods, resolved) {
        None => s,
        Some(t) => (
            s.0.update(i, s.0[i].push(t)),
            add_all_imported(s.1, t, i as usize, mods[t as int].exports@, imp.names@),
            s.2 + stars(i as usize, t, imp.names@),
        ),
    }
}

/// Reads the first `k` imports of module `i`.
pub open spec fn module_step(s: ImportState, mods: Seq<ParsedModule>, targets: Seq<Vec<Option<String>>>, i: int, k: int) -> ImportState
    decreases k,
{
    if k <= 0 {
        s
    } else {
        import_step(module_step(s, mods, targets, i, k - 1), mods, i, mods[i].imports@[k - 1], targets[i]@[k - 1])
    }
}

/// Reads the imports of the first `m` modules.
pub open spec fn read_imports(mods: Seq<ParsedModule>, targets: Seq<Vec<Option<String>>>, m: int) -> ImportState
    decreases m,
{
    if m <= 0 {
        (Seq::new(mods.len(), |i: int| Seq::<usize>::empty()), Seq::empty(), Seq::empty())
    } else {
        module_step(read_imports(mods, targets, m - 1), mods, targets, m - 1, mods[m - 1].imports@.len() as int)
    }
}

/// The exports whose name is not `default`, in order.
pub open spec fn non_default(es: Seq<ParsedExport>) -> Seq<ParsedExport>
    decreases es.len(),
{
    if es.len() == 0 {
        Seq::empty()
    } else {
        let p = non_default(es.drop_last());
        if es.last().name@ != "default"@ {
            p.push(es.last())
        } else {
            p
        }
    }
}

/// Whether some export in `es` has this name.
pub open spec fn has_name(es: Seq<ParsedExport>, name: Seq<char>) -> bool {
    exists|i: int| 0 <= i < es.len() && #[trigger] es[i].name@ == name
}

/// `dest` followed by the exports of `add` whose name it does not hold yet.
pub open spec fn merge_exports(dest: Seq<ParsedExport>, add: Seq<ParsedExport>) -> Seq<ParsedExport>
    decreases add.len(),
{
    if add.len() == 0 {
        dest
    } else {
        let p = merge_exports(dest, add.drop_last());
        if has_name(p, add.last().name@) {
            p
        } else {
            p.push(add.last())
        }
    }
}

/// State while star re-exports are applied: dependencies, consumers, exports per module.
pub type StarState = (Seq<Seq<usize>>, Seq<Row>, Seq<Seq<ParsedExport>>);

/// `importer` re-exports everything but `default` of `target`: it depends on
/// it, consumes those exports, and gains those it does not export itself.
pub open spec fn star_step(s: StarState, importer: usize, target: usize) -> StarState {
    let re = non_default(s.2[target as int]);
    (
        s.0.update(importer as int, s.0[importer as int].push(target)),
        add_exports(s.1, target, re, importer),
        s.2.update(importer as int, merge_exports(s.2[importer as int], re)),
    )
}

/// Applies the first `k` star re-exports.
pub open spec fn apply_stars(s: StarState, ps: Seq<(usize, usize)>, k: int) -> StarState
    decreases k,
{
    if k <= 0 {
        s
    } else {
        let p = ps[k - 1];
        star_step(apply_stars(s, ps, k - 1), p.0, p.1)
    }
}

/// The module graph's tables after every import and star re-export.
pub open spec fn linked(mods: Seq<ParsedModule>, targets: Seq<Vec<Option<String>>>) -> StarState {
    let r = read_imports(mods, targets, mods.len() as int);
    apply_stars((r.0, r.1, mods.map_values(|m: ParsedModule| m.exports@)), r.2, r.2.len() as int)
}

/// Module paths.
pub open spec fn module_paths(mods: Seq<ParsedModule>) -> Seq<Seq<char>> {
    mods.map_values(|m: ParsedModule| m.abs@)
}

/// A list of module indices ordered by path, repeats next to each other dropped.
pub open spec fn tidy(list: Seq<usize>, paths: Seq<Seq<char>>) -> Seq<usize> {
    dedup_adjacent(stable_sorted(list, path_index_leq(paths)))
}

/// Whether some entry path names the same file as `path`.
pub open spec fn is_entry(entries: Seq<String>, path: Seq<char>) -> bool {
    exists|k: int| 0 <= k < entries.len() && components(#[trigger] entries[k]@) == components(path)
}

/// The resolver's answers have one entry per import of each module.
pub open spec fn targets_fit(mods: Seq<ParsedModule>, targets: Seq<Vec<Option<String>>>) -> bool {
    &&& targets.len() == mods.len()
    &&& forall|i: int| 0 <= i < mods.len() ==> #[trigger] targets[i]@.len() == mods[i].imports@.len()
}

/// Every value in the table names a module, and each key occurs once.
pub open spec fn table_ok(t: Seq<Row>, n: int) -> bool {
    &&& forall|c: int| 0 <= c < t.len() ==> #[trigger] t[c].0 < n
    &&& forall|c: int, k: int| 0 <= c < t.len() && 0 <= k < t[c].2.len() ==> #[trigger] t[c].2[k] < n
    &&& forall|c: int, d: int| 0 <= c < t.len() && 0 <= d < t.len() && #[trigger] t[c].0 == #[trigger] t[d].0 && t[c].1 == t[d].1 ==> c == d
}

/// Every list holds module indices.
pub open spec fn lists_ok(l: Seq<Seq<usize>>, n: int) -> bool {
    forall|i: int, k: int| 0 <= i < l.len() && 0 <= k < l[i].len() ==> #[trigger] l[i][k] < n
}

pub(crate) proof fn lemma_key_index(t: Seq<Row>, exporter: usize, name: Seq<char>)
    ensures
        -1 <= key_index(t, exporter, name) < t.len(),
        key_index(t, exporter, name) >= 0 ==> t[key_index(t, exporter, name)].0 == exporter && t[key_index(
            t,
            exporter,
            name,
        )].1 == name,
        key_index(t, exporter, name) < 0 ==> forall|c: int| 0 <= c < t.len() ==> !(#[trigger] t[c].0 == exporter && t[c].1 == name),
    decreases t.len(),
{
    if t.len() > 0 {
        lemma_key_index(t.drop_last(), exporter, name);
        if !(t.last().0 == exporter && t.last().1 == name) {
            assert forall|c: int| 0 <= c < t.len() - 1 implies #[trigger] t[c] == t.drop_last()[c] by {}
        }
    }
}

fn find_key(t: &Vec<Consumers>, exporter: usize, name: &str) -> (r: Option<usize>)
    ensures
        match r {
            Some(k) => key_index(table_view(t@), exporter, name@) == k,
            None => key_index(table_view(t@), exporter, name@) == -1,
        },
{
    let ghost tv = table_view(t@);
    let mut j = t.len();
    assert(tv.take(j as int) =~= tv);
    while j > 0
        invariant
            tv == table_view(t@),
            j <= t.len(),
            key_index(tv, exporter, name@) == key_index(tv.take(j as int), exporter, name@),
        decreases j,
    {
        let c = &t[j - 1];
        assert(tv.take(j as int).last() == tv[j - 1]);
        assert(tv.take(j as int).drop_last() =~= tv.take(j - 1));
        if c.exporter == exporter && str_eq(c.name.as_str(), name) {
            return Some(j - 1);
        }
        j -= 1;
    }
    None
}

fn add_consumer_exec(t: &mut Vec<Consumers>, exporter: usize, name: &str, importer: usize, Ghost(n): Ghost<int>)
    ensures
        table_view(final(t)@) == add_consumer(table_view(old(t)@), exporter, name@, importer),
        table_ok(table_view(old(t)@), n) && exporter < n && importer < n ==> table_ok(table_view(final(t)@), n),
{
    let ghost tv = table_view(t@);
    proof {
        lemma_key_index(tv, exporter, name@);
    }
    match find_key(t, exporter, name) {
        Some(k) => {
            let mut row = t.remove(k);
            row.importers.push(importer);
            t.insert(k, row);
            assert(table_view(t@) =~= add_consumer(tv, exporter, name@, importer));
        },
        None => {
            let mut key = String::new();
            crate::text::append_str(&mut key, name);
            let mut importers: Vec<usize> = Vec::new();
            importers.push(importer);
            assert(importers@ =~= seq![importer]);
            assert(key@ =~= name@);
            t.push(Consumers { exporter, name: key, importers });
            assert(table_view(t@) =~= tv.push((exporter, name@, seq![importer])));
            assert(table_view(t@) =~= add_consumer(tv, exporter, name@, importer));
        },
    }
}

fn add_exports_exec(t: &mut Vec<Consumers>, exporter: usize, exports: &Vec<ParsedExport>, importer: usize, Ghost(n): Ghost<int>)
    ensures
        table_view(final(t)@) == add_exports(table_view(old(t)@), exporter, exports@, importer),
        table_ok(table_view(old(t)@), n) && exporter < n && importer < n ==> table_ok(table_view(final(t)@), n),
{
    let ghost t0 = table_view(t@);
    let mut i: usize = 0;
    assert(exports@.take(0) =~= Seq::<ParsedExport>::empty());
    while i < exports.len()
        invariant
            i <= exports.len(),
            table_view(t@) == add_exports(t0, exporter, exports@.take(i as int), importer),
            table_ok(t0, n) && exporter < n && importer < n ==> table_ok(table_view(t@), n),
        decreases exports.len() - i,
    {
        assert(exports@.take(i + 1).drop_last() =~= exports@.take(i as int));
        assert(exports@.take(i + 1).last() == exports@[i as int]);
        add_consumer_exec(t, exporter, exports[i].name.as_str(), importer, Ghost(n));
        i += 1;
    }
    assert(exports@.take(exports.len() as int) =~= exports@);
}

/// Records what the names of one import consume; star re-exports are queued.
fn add_names_exec(
    t: &mut Vec<Consumers>,
    pending: &mut Vec<(usize, usize)>,
    exporter: usize,
    importer: usize,
    exports: &Vec<ParsedExport>,
    names: &Vec<ImportedName>,
    Ghost(n): Ghost<int>,
)
    ensures
        table_view(final(t)@) == add_all_imported(table_view(old(t)@), exporter, importer, exports@, names@),
        final(pending)@ == old(pending)@ + stars(importer, exporter, names@),
        table_ok(table_view(old(t)@), n) && exporter < n && importer < n ==> table_ok(table_view(final(t)@), n),
{
    let ghost t0 = table_view(t@);
    let ghost p0 = pending@;
    let mut i: usize = 0;
    assert(names@.take(0) =~= Seq::<ImportedName>::empty());
    assert(p0 + stars(importer, exporter, Seq::empty()) =~= p0);
    while i < names.len()
        invariant
            i <= names.len(),
            table_view(t@) == add_all_imported(t0, exporter, importer, exports@, names@.take(i as int)),
            pending@ == p0 + stars(importer, exporter, names@.take(i as int)),
            table_ok(t0, n) && exporter < n && importer < n ==> table_ok(table_view(t@), n),
        decreases names.len() - i,
    {
        assert(names@.take(i + 1).drop_last() =~= names@.take(i as int));
        assert(names@.take(i + 1).last() == names@[i as int]);
        let ghost before = pending@;
        match &names[i] {
            ImportedName::Named(s) => {
                add_consumer_exec(t, exporter, s.as_str(), importer, Ghost(n));
            },
            ImportedName::Default => {
                add_consumer_exec(t, exporter, "default", importer, Ghost(n));
            },
            ImportedName::Namespace => {
                add_exports_exec(t, exporter, exports, importer, Ghost(n));
            },
            ImportedName::StarReexport => {
                pending.push((importer, exporter));
                assert(pending@ =~= p0 + stars(importer, exporter, names@.take(i + 1)));
            },
        }
        i += 1;
    }
    assert(names@.take(names.len() as int) =~= names@);
}

fn module_index_exec(mods: &Vec<ParsedModule>, path: &str) -> (r: Option<usize>)
    ensures
        r == module_index(mods@, path@),
{
    let mut i: usize = 0;
    assert(mods@.take(0) =~= Seq::<ParsedModule>::empty());
    while i < mods.len()
        invariant
            i <= mods.len(),
            module_index(mods@.take(i as int), path@) is None,
        decreases mods.len() - i,
    {
        assert(mods@.take(i + 1).drop_last() =~= mods@.take(i as int));
        assert(mods@.take(i + 1).last() == mods@[i as int]);
        if same_path(mods[i].abs.as_str(), path) {
            proof {
                lemma_module_index_prefix(mods@, path@, i + 1);
            }
            return Some(i);
        }
        i += 1;
    }
    assert(mods@.take(mods.len() as int) =~= mods@);
    None
}

proof fn lemma_module_index_prefix(mods: Seq<ParsedModule>, path: Seq<char>, k: int)
    requires
        0 < k <= mods.len(),
        module_index(mods.take(k), path) is Some,
    ensures
        module_index(mods, path) == module_index(mods.take(k), path),
    decreases mods.len() - k,
{
    if k < mods.len() {
        assert(mods.take(k + 1).drop_last() =~= mods.take(k));
        lemma_module_index_prefix(mods, path, k + 1);
    } else {
        assert(mods.take(k) =~= mods);
    }
}

pub(crate) proof fn lemma_module_index_range(mods: Seq<ParsedModule>, path: Seq<char>)
    ensures
        match module_index(mods, path) {
            Some(i) => i < mods.len(),
            None => true,
        },
    decreases mods.len(),
{
    if mods.len() > 0 {
        lemma_module_index_range(mods.drop_last(), path);
    }
}

/// The module found for a path names the same file.
pub(crate) proof fn lemma_module_index_names(mods: Seq<ParsedModule>, path: Seq<char>)
    requires
        mods.len() <= usize::MAX,
    ensures
        match module_index(mods, path) {
            Some(i) => i < mods.len() && components(mods[i as int].abs@) == components(path),
            None => true,
        },
    decreases mods.len(),
{
    if mods.len() > 0 {
        lemma_module_index_names(mods.drop_last(), path);
        if let Some(i) = module_index(mods.drop_last(), path) {
            assert(mods.drop_last()[i as int] == mods[i as int]);
        }
    }
}

fn import_target_exec(mods: &Vec<ParsedModule>, resolved: &Option<String>) -> (r: Option<usize>)
    ensures
        r == import_target(mods@, *resolved),
        match r {
            Some(t) => t < mods.len(),
            None => true,
        },
{
    proof {
        if let Some(p) = resolved {
            lemma_module_index_range(mods@, p@);
        }
    }
    match resolved {
        None => None,
        Some(p) => {
            if is_js_file(p.as_str()) || !is_program_file(p.as_str()) {
                None
            } else {
                module_index_exec(mods, p.as_str())
            }
        },
    }
}

fn copy_export(e: &ParsedExport) -> (r: ParsedExport)
    ensures
        r == *e,
{
    ParsedExport { name: e.name.clone(), display: e.display.clone(), line: e.line, span_start: e.span_start }
}

fn non_default_exec(es: &Vec<ParsedExport>) -> (r: Vec<ParsedExport>)
    ensures
        r@ == non_default(es@),
{
    let mut out: Vec<ParsedExport> = Vec::new();
    let mut i: usize = 0;
    assert(es@.take(0) =~= Seq::<ParsedExport>::empty());
    while i < es.len()
        invariant
            i <= es.len(),
            out@ == non_default(es@.take(i as int)),
        decreases es.len() - i,
    {
        assert(es@.take(i + 1).drop_last() =~= es@.take(i as int));
        assert(es@.take(i + 1).last() == es@[i as int]);
        proof {
            reveal_strlit("default");
        }
        if !str_eq(es[i].name.as_str(), "default") {
            out.push(copy_export(&es[i]));
        }
        i += 1;
    }
    assert(es@.take(es.len() as int) =~= es@);
    out
}

fn has_name_exec(es: &Vec<ParsedExport>, name: &str) -> (r: bool)
    ensures
        r == has_name(es@, name@),
{
    let mut i: usize = 0;
    while i < es.len()
        invariant
            i <= es.len(),
            forall|k: int| 0 <= k < i ==> es@[k].name@ != name@,
        decreases es.len() - i,
    {
        if str_eq(es[i].name.as_str(), name) {
            return true;
        }
        i += 1;
    }
    false
}

fn merge_exports_exec(dest: &mut Vec<ParsedExport>, add: &Vec<ParsedExport>)
    ensures
        final(dest)@ == merge_exports(old(dest)@, add@),
{
    let ghost d0 = dest@;
    let mut i: usize = 0;
    assert(add@.take(0) =~= Seq::<ParsedExport>::empty());
    while i < add.len()
        invariant
            i <= add.len(),
            dest@ == merge_exports(d0, add@.take(i as int)),
        decreases add.len() - i,
    {
        assert(add@.take(i + 1).drop_last() =~= add@.take(i as int));
        assert(add@.take(i + 1).last() == add@[i as int]);
        if !has_name_exec(dest, add[i].name.as_str()) {
            dest.push(copy_export(&add[i]));
        }
        i += 1;
    }
    assert(add@.take(add.len() as int) =~= add@);
}

/// Sorts a list of module indices by path and drops repeats next to each other.
fn tidy_exec(ctx: &ByPath, list: Vec<usize>, Ghost(paths): Ghost<Seq<Seq<char>>>) -> (r: Vec<usize>)
    requires
        keys_view(ctx.keys@) == paths,
        forall|k: int| 0 <= k < list.len() ==> #[trigger] list@[k] < paths.len(),
    ensures
        r@ == tidy(list@, paths),
        forall|k: int| 0 <= k < r.len() ==> #[trigger] r@[k] < paths.len(),
{
    let ghost l = list@;
    let sorted = stable_sort(ctx, list);
    proof {
        crate::order::lemma_sorted_contains(l, path_index_leq(paths));
        crate::order::lemma_dedup_contains(sorted@);
    }
    let r = dedup_indices(sorted);
    proof {
        assert forall|k: int| 0 <= k < r.len() implies #[trigger] r@[k] < paths.len() by {
            assert(sorted@.contains(r@[k]));
            let j = choose|j: int| 0 <= j < sorted@.len() && sorted@[j] == r@[k];
            assert(l.contains(sorted@[j]));
        }
    }
    r
}

/// Links the modules: for every import that resolved to a module, the
/// importer depends on it and consumes the names it imports; star
/// re-exports are applied afterwards, in the order they were read.
fn link(mods: &Vec<ParsedModule>, targets: &Vec<Vec<Option<String>>>) -> (r: (Vec<Vec<usize>>, Vec<Consumers>, Vec<Vec<ParsedExport>>))
    requires
        targets_fit(mods@, targets@),
    ensures
        adj_view(r.0@) == linked(mods@, targets@).0,
        table_view(r.1@) == linked(mods@, targets@).1,
        r.2@.map_values(|v: Vec<ParsedExport>| v@) == linked(mods@, targets@).2,
        lists_ok(adj_view(r.0@), mods.len() as int),
        table_ok(table_view(r.1@), mods.len() as int),
        r.0.len() == mods.len(),
        r.2.len() == mods.len(),
{
    let n = mods.len();
    let ghost nn = n as int;
    let mut deps: Vec<Vec<usize>> = Vec::new();
    let mut i: usize = 0;
    while i < n
        invariant
            n == mods.len(),
            i <= n,
            deps.len() == i,
            forall|k: int| 0 <= k < i ==> #[trigger] deps@[k]@ == Seq::<usize>::empty(),
        decreases n - i,
    {
        deps.push(Vec::new());
        i += 1;
    }
    assert(adj_view(deps@) =~= read_imports(mods@, targets@, 0).0);
    let mut table: Vec<Consumers> = Vec::new();
    let mut pending: Vec<(usize, usize)> = Vec::new();
    let mut m: usize = 0;
    while m < n
        invariant
            n == mods.len(),
            nn == n,
            targets_fit(mods@, targets@),
            m <= n,
            deps.len() == n,
            adj_view(deps@) == read_imports(mods@, targets@, m as int).0,
            table_view(table@) == read_imports(mods@, targets@, m as int).1,
            pending@ == read_imports(mods@, targets@, m as int).2,
            lists_ok(adj_view(deps@), nn),
            table_ok(table_view(table@), nn),
            forall|k: int| 0 <= k < pending.len() ==> #[trigger] pending@[k].0 < n && pending@[k].1 < n,
        decreases n - m,
    {
        let module = &mods[m];
        let ts = &targets[m];
        let ghost s0 = read_imports(mods@, targets@, m as int);
        let mut j: usize = 0;
        while j < module.imports.len()
            invariant
                n == mods.len(),
                nn == n,
                m < n,
                *module == mods@[m as int],
                *ts == targets@[m as int],
                ts.len() == module.imports.len(),
                j <= module.imports.len(),
                deps.len() == n,
                adj_view(deps@) == module_step(s0, mods@, targets@, m as int, j as int).0,
                table_view(table@) == module_step(s0, mods@, targets@, m as int, j as int).1,
                pending@ == module_step(s0, mods@, targets@, m as int, j as int).2,
                lists_ok(adj_view(deps@), nn),
                table_ok(table_view(table@), nn),
                forall|k: int| 0 <= k < pending.len() ==> #[trigger] pending@[k].0 < n && pending@[k].1 < n,
            decreases module.imports.len() - j,
        {
            let imp = &module.imports[j];
            let ghost before = (adj_view(deps@), table_view(table@), pending@);
            match import_target_exec(mods, &ts[j]) {
                None => {},
                Some(t) => {
                    let ghost p_before = pending@;
                    assert(forall|k: int| 0 <= k < p_before.len() ==> #[trigger] p_before[k].0 < n && p_before[k].1 < n);
                    let mut list: Vec<usize> = Vec::new();
                    std::mem::swap(&mut list, &mut deps[m]);
                    list.push(t);
                    deps.set(m, list);
                    assert(adj_view(deps@) =~= before.0.update(m as int, before.0[m as int].push(t)));
                    let ghost p0 = pending@;
                    add_names_exec(&mut table, &mut pending, t, m, &mods[t].exports, &imp.names, Ghost(nn));
                    proof {
                        lemma_pairs_ok(p0, m, t, imp.names@, n as int);
                        assert forall|a: int, b: int| 0 <= a < adj_view(deps@).len() && 0 <= b < adj_view(deps@)[a].len() implies #[trigger] adj_view(deps@)[a][b] < nn by {
                            if a == m && b == before.0[a].len() {
                            } else {
                                assert(adj_view(deps@)[a][b] == before.0[a][b]);
                            }
                        }
                    }
                },
            }
            j += 1;
        }
        m += 1;
    }
    let ghost r = read_imports(mods@, targets@, n as int);
    // Star re-exports.
    let mut exports: Vec<Vec<ParsedExport>> = Vec::new();
    let mut e: usize = 0;
    while e < n
        invariant
            n == mods.len(),
            e <= n,
            exports.len() == e,
            forall|k: int| 0 <= k < e ==> #[trigger] exports@[k]@ == mods@[k].exports@,
        decreases n - e,
    {
        let mut v: Vec<ParsedExport> = Vec::new();
        let src = &mods[e].exports;
        let mut q: usize = 0;
        while q < src.len()
            invariant
                q <= src.len(),
                v@ == src@.take(q as int),
            decreases src.len() - q,
        {
            v.push(copy_export(&src[q]));
            assert(v@ =~= src@.take(q + 1));
            q += 1;
        }
        assert(src@.take(src.len() as int) =~= src@);
        exports.push(v);
        e += 1;
    }
    let ghost s_init: StarState = (r.0, r.1, mods@.map_values(|x: ParsedModule| x.exports@));
    assert(exports@.map_values(|v: Vec<ParsedExport>| v@) =~= s_init.2);
    let mut k: usize = 0;
    while k < pending.len()
        invariant
            n == mods.len(),
            nn == n,
            pending@ == r.2,
            forall|q: int| 0 <= q < pending.len() ==> #[trigger] pending@[q].0 < n && pending@[q].1 < n,
            k <= pending.len(),
            deps.len() == n,
            exports.len() == n,
            adj_view(deps@) == apply_stars(s_init, r.2, k as int).0,
            table_view(table@) == apply_stars(s_init, r.2, k as int).1,
            exports@.map_values(|v: Vec<ParsedExport>| v@) == apply_stars(s_init, r.2, k as int).2,
            lists_ok(adj_view(deps@), nn),
            table_ok(table_view(table@), nn),
        decreases pending.len() - k,
    {
        let (importer, target) = pending[k];
        let ghost before = (adj_view(deps@), table_view(table@), exports@.map_values(|v: Vec<ParsedExport>| v@));
        let mut list: Vec<usize> = Vec::new();
        std::mem::swap(&mut list, &mut deps[importer]);
        list.push(target);
        deps.set(importer, list);
        assert(adj_view(deps@) =~= before.0.update(importer as int, before.0[importer as int].push(target)));
        assert(exports@[target as int]@ == before.2[target as int]);
        let re = non_default_exec(&exports[target]);
        add_exports_exec(&mut table, target, &re, importer, Ghost(nn));
        let mut dest: Vec<ParsedExport> = Vec::new();
        std::mem::swap(&mut dest, &mut exports[importer]);
        merge_exports_exec(&mut dest, &re);
        exports.set(importer, dest);
        assert(exports@.map_values(|v: Vec<ParsedExport>| v@) =~= before.2.update(
            importer as int,
            merge_exports(before.2[importer as int], re@),
        ));
        proof {
            assert forall|a: int, b: int| 0 <= a < adj_view(deps@).len() && 0 <= b < adj_view(deps@)[a].len() implies #[trigger] adj_view(deps@)[a][b] < nn by {
                if a == importer && b == before.0[a].len() {
                } else {
                    assert(adj_view(deps@)[a][b] == before.0[a][b]);
                }
            }
        }
        k += 1;
    }
    (deps, table, exports)
}

proof fn lemma_pairs_ok(p0: Seq<(usize, usize)>, importer: usize, target: usize, names: Seq<ImportedName>, n: int)
    requires
        forall|k: int| 0 <= k < p0.len() ==> #[trigger] p0[k].0 < n && p0[k].1 < n,
        importer < n,
        target < n,
    ensures
        forall|k: int| 0 <= k < (p0 + stars(importer, target, names)).len() ==> #[trigger] (p0 + stars(importer, target, names))[k].0 < n
            && (p0 + stars(importer, target, names))[k].1 < n,
{
    lemma_stars_pairs(importer, target, names);
    let q = p0 + stars(importer, target, names);
    assert forall|k: int| 0 <= k < q.len() implies #[trigger] q[k].0 < n && q[k].1 < n by {
        if k < p0.len() {
            assert(q[k] == p0[k]);
        } else {
            assert(q[k] == stars(importer, target, names)[k - p0.len()]);
        }
    }
}

pub(crate) proof fn lemma_stars_pairs(importer: usize, target: usize, names: Seq<ImportedName>)
    ensures
        forall|k: int| 0 <= k < stars(importer, target, names).len() ==> #[trigger] stars(importer, target, names)[k] == (importer, target),
    decreases names.len(),
{
    if names.len() > 0 {
        lemma_stars_pairs(importer, target, names.drop_last());
        let p = stars(importer, target, names.drop_last());
        assert forall|k: int| 0 <= k < stars(importer, target, names).len() implies #[trigger] stars(importer, target, names)[k] == (importer, target) by {
            if k < p.len() {
                assert(stars(importer, target, names)[k] == p[k]);
            }
        }
    }
}

impl ModuleGraph {
    /// The module graph of the parsed modules. `targets[i][j]` is the path
    /// that import `j` of module `i` resolved to, if any; `entries` are the
    /// discovered entry points.
    pub fn build(root: &str, parsed: &Vec<ParsedModule>, targets: &Vec<Vec<Option<String>>>, entries: &Vec<String>) -> (r: ModuleGraph)
        requires
            targets_fit(parsed@, targets@),
        ensures
            r.wf(),
            r.root@ == root@,
            r.n() == parsed.len(),
            forall|i: int| 0 <= i < parsed.len() ==> (#[trigger] r.modules@[i]).abs@ == parsed@[i].abs@
                && r.modules@[i].display@ == display_of(root@, parsed@[i].abs@)
                && r.modules@[i].exports@ == linked(parsed@, targets@).2[i],
            table_view(r.consumers@) == linked(parsed@, targets@).1.map_values(
                |row: Row| (row.0, row.1, tidy(row.2, module_paths(parsed@))),
            ),
            r.deps() == linked(parsed@, targets@).0.map_values(|l: Seq<usize>| tidy(l, module_paths(parsed@))),
            r.entry_points@ == Seq::new(parsed.len() as nat, |i: int| is_entry(entries@, parsed@[i].abs@)),
            r.test_files@ == Seq::new(parsed.len() as nat, |i: int| test_file(root@, parsed@[i].abs@)),
    {
        let n = parsed.len();
        let ghost nn = n as int;
        let ghost paths = module_paths(parsed@);
        let ghost l = linked(parsed@, targets@);
        let (deps, table, mut exports) = link(parsed, targets);
        let mut keys: Vec<String> = Vec::new();
        let mut i: usize = 0;
        while i < n
            invariant
                n == parsed.len(),
                i <= n,
                keys.len() == i,
                forall|k: int| 0 <= k < i ==> #[trigger] keys@[k]@ == parsed@[k].abs@,
            decreases n - i,
        {
            keys.push(parsed[i].abs.clone());
            i += 1;
        }
        let ctx = ByPath { keys };
        assert(keys_view(ctx.keys@) =~= paths);
        // Tidy the dependency lists.
        let mut file_dependencies: Vec<Vec<usize>> = Vec::new();
        let mut d: usize = 0;
        while d < deps.len()
            invariant
                deps.len() == n,
                n == parsed.len(),
                nn == n,
                keys_view(ctx.keys@) == paths,
                paths.len() == n,
                adj_view(deps@) == l.0,
                lists_ok(l.0, nn),
                d <= n,
                file_dependencies.len() == d,
                forall|k: int| 0 <= k < d ==> #[trigger] file_dependencies@[k]@ == tidy(l.0[k], paths),
                lists_ok(adj_view(file_dependencies@), nn),
            decreases n - d,
        {
            let list = crate::single_use_chain::copy_indices(&deps[d]);
            assert(list@ == l.0[d as int]);
            let t = tidy_exec(&ctx, list, Ghost(paths));
            let ghost before = adj_view(file_dependencies@);
            file_dependencies.push(t);
            assert forall|a: int, b: int| 0 <= a < adj_view(file_dependencies@).len() && 0 <= b < adj_view(file_dependencies@)[a].len() implies #[trigger] adj_view(file_dependencies@)[a][b] < nn by {
                if a < d {
                    assert(adj_view(file_dependencies@)[a] == before[a]);
                }
            }
            d += 1;
        }
        assert(adj_view(file_dependencies@) =~= l.0.map_values(|x: Seq<usize>| tidy(x, paths)));
        // Tidy the importer lists.
        let mut consumers: Vec<Consumers> = Vec::new();
        let mut c: usize = 0;
        while c < table.len()
            invariant
                n == parsed.len(),
                nn == n,
                keys_view(ctx.keys@) == paths,
                paths.len() == n,
                table_view(table@) == l.1,
                table_ok(l.1, nn),
                c <= table.len(),
                table_view(consumers@) == l.1.take(c as int).map_values(|row: Row| (row.0, row.1, tidy(row.2, paths))),
                table_ok(table_view(consumers@), nn),
            decreases table.len() - c,
        {
            let row = &table[c];
            assert(l.1[c as int] == (row.exporter, row.name@, row.importers@));
            let list = crate::single_use_chain::copy_indices(&row.importers);
            assert forall|q: int| 0 <= q < list.len() implies #[trigger] list@[q] < paths.len() by {
                assert(l.1[c as int].2[q] < nn);
            }
            let t = tidy_exec(&ctx, list, Ghost(paths));
            let ghost before = table_view(consumers@);
            let name = row.name.clone();
            consumers.push(Consumers { exporter: row.exporter, name, importers: t });
            assert(table_view(consumers@) =~= before.push((row.exporter, row.name@, tidy(row.importers@, paths))));
            assert(table_view(consumers@) =~= l.1.take(c + 1).map_values(|row: Row| (row.0, row.1, tidy(row.2, paths))));
            proof {
                let tv = table_view(consumers@);
                assert forall|a: int, b: int| 0 <= a < tv.len() && 0 <= b < tv.len() && #[trigger] tv[a].0 == #[trigger] tv[b].0 && tv[a].1 == tv[b].1 implies a == b by {
                    assert(tv[a].0 == l.1[a].0 && tv[a].1 == l.1[a].1);
                    assert(tv[b].0 == l.1[b].0 && tv[b].1 == l.1[b].1);
                }
                assert forall|a: int, b: int| 0 <= a < tv.len() && 0 <= b < tv[a].2.len() implies #[trigger] tv[a].2[b] < nn by {
                    if a < c {
                        assert(tv[a] == before[a]);
                    }
                }
            }
            c += 1;
        }
        assert(l.1.take(table.len() as int) =~= l.1);
        // Modules, entry points and test files.
        let mut modules: Vec<Module> = Vec::new();
        let mut entry_points: Vec<bool> = Vec::new();
        let mut test_files: Vec<bool> = Vec::new();
        let mut m: usize = 0;
        while m < n
            invariant
                n == parsed.len(),
                exports.len() == n,
                forall|k: int| m <= k < n ==> (#[trigger] exports@[k])@ == l.2[k],
                m <= n,
                modules.len() == m,
                entry_points@ == Seq::new(m as nat, |i: int| is_entry(entries@, parsed@[i].abs@)),
                test_files@ == Seq::new(m as nat, |i: int| test_file(root@, parsed@[i].abs@)),
                forall|i: int| 0 <= i < m ==> (#[trigger] modules@[i]).abs@ == parsed@[i].abs@
                    && modules@[i].display@ == display_of(root@, parsed@[i].abs@)
                    && modules@[i].exports@ == l.2[i],
            decreases n - m,
        {
            let abs = parsed[m].abs.clone();
            let display = display_path(root, abs.as_str());
            let mut ex: Vec<ParsedExport> = Vec::new();
            std::mem::swap(&mut ex, &mut exports[m]);
            assert forall|k: int| m < k < n implies (#[trigger] exports@[k])@ == l.2[k] by {}
            let is_test = is_test_file(root, abs.as_str());
            let entry = entry_match(entries, abs.as_str());
            modules.push(Module { abs, display, exports: ex });
            entry_points.push(entry);
            test_files.push(is_test);
            assert(entry_points@ =~= Seq::new((m + 1) as nat, |i: int| is_entry(entries@, parsed@[i].abs@)));
            assert(test_files@ =~= Seq::new((m + 1) as nat, |i: int| test_file(root@, parsed@[i].abs@)));
            m += 1;
        }
        let mut root_s = String::new();
        crate::text::append_str(&mut root_s, root);
        let g = ModuleGraph { root: root_s, modules, consumers, file_dependencies, entry_points, test_files };
        proof {
            let tv = table_view(g.consumers@);
            assert forall|a: int| 0 <= a < g.consumers.len() implies #[trigger] g.consumers@[a].exporter < g.n() by {
                assert(tv[a].0 < nn);
            }
            assert forall|a: int, b: int| 0 <= a < g.consumers.len() && 0 <= b < g.consumers@[a].importers.len() implies #[trigger] g.consumers@[a].importers@[b] < g.n() by {
                assert(tv[a].2[b] < nn);
            }
            assert forall|a: int, b: int| 0 <= a < g.consumers.len() && 0 <= b < g.consumers.len() && #[trigger] g.consumers@[a].exporter == #[trigger] g.consumers@[b].exporter && g.consumers@[a].name@ == g.consumers@[b].name@ implies a == b by {
                assert(tv[a].0 == tv[b].0 && tv[a].1 == tv[b].1);
            }
            assert forall|a: int, b: int| 0 <= a < g.deps().len() && 0 <= b < g.deps()[a].len() implies #[trigger] g.deps()[a][b] < g.deps().len() by {
                assert(adj_view(g.file_dependencies@)[a][b] < nn);
            }
        }
        g
    }
}

/// Whether some entry path names the same file as `path`.
fn entry_match(entries: &Vec<String>, path: &str) -> (r: bool)
    ensures
        r == is_entry(entries@, path@),
{
    let mut k: usize = 0;
    while k < entries.len()
        invariant
            k <= entries.len(),
            forall|q: int| 0 <= q < k ==> components(#[trigger] entries@[q]@) != components(path@),
        decreases entries.len() - k,
    {
        if same_path(entries[k].as_str(), path) {
            return true;
        }
        k += 1;
    }
    false
}

proof fn lemma_path_index_leq_total(paths: Seq<Seq<char>>)
    ensures
        crate::order::total_preorder(path_index_leq(paths)),
{
    let leq = path_index_leq(paths);
    assert forall|a: usize, b: usize| #[trigger] leq(a, b) || #[trigger] leq(b, a) by {
        crate::program::lemma_comps_order_flip(components(paths[b as int]), components(paths[a as int]));
    }
    assert forall|a: usize, b: usize, c: usize| #[trigger] leq(a, b) && #[trigger] leq(b, c) implies leq(a, c) by {
        let (x, y, z) = (components(paths[a as int]), components(paths[b as int]), components(paths[c as int]));
        crate::program::lemma_comps_order_equal(x, y);
        crate::program::lemma_comps_order_equal(y, z);
        if crate::program::comps_order(x, y) == crate::text::Rel::Less && crate::program::comps_order(y, z) == crate::text::Rel::Less {
            crate::program::lemma_comps_order_trans(x, y, z);
        }
    }
}

/// A tidied list of modules (as every dependency list and every consumer's
/// importer list of the module graph is) is ordered by path with no module
/// next to itself; when it names modules only (as in a well-formed graph)
/// and the modules' paths differ, no module occurs twice.
pub proof fn law_tidy_lists_ordered(list: Seq<usize>, paths: Seq<Seq<char>>)
    ensures
        crate::order::is_sorted(tidy(list, paths), path_index_leq(paths)),
        forall|k: int| 0 <= k < tidy(list, paths).len() - 1 ==> #[trigger] tidy(list, paths)[k] != tidy(list, paths)[k + 1],
        (forall|k: int| 0 <= k < tidy(list, paths).len() ==> #[trigger] tidy(list, paths)[k] < paths.len()) && (forall|a: int, b: int|
            0 <= a < paths.len() && 0 <= b < paths.len() && a != b ==> components(#[trigger] paths[a]) != components(
                #[trigger] paths[b],
            )) ==> tidy(list, paths).no_duplicates(),
{
    let leq = path_index_leq(paths);
    let s = stable_sorted(list, leq);
    lemma_path_index_leq_total(paths);
    crate::order::lemma_stable_sorted_is_sorted(list, leq);
    crate::order::lemma_dedup_sorted(s, leq);
    let t = tidy(list, paths);
    if (forall|k: int| 0 <= k < t.len() ==> #[trigger] t[k] < paths.len()) && (forall|a: int, b: int|
        0 <= a < paths.len() && 0 <= b < paths.len() && a != b ==> components(#[trigger] paths[a]) != components(
            #[trigger] paths[b],
        )) {
        assert forall|i: int, j: int| 0 <= i < j < t.len() implies t[i] != t[j] by {
            if t[i] == t[j] {
                let (x, y) = (components(paths[t[i] as int]), components(paths[t[i + 1] as int]));
                assert(leq(t[i], t[i + 1]));
                if i + 1 < j {
                    assert(leq(t[i + 1], t[j]));
                }
                crate::program::lemma_comps_order_flip(x, y);
                crate::program::lemma_comps_order_equal(x, y);
                assert(x == y);
                assert(t[i] != t[i + 1]);
            }
        }
    }
}

} // verus!
