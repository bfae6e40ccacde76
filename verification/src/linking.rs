//! What the module graph keeps of each import that resolved to a module.

use vstd::prelude::*;

use crate::graph::path_index_leq;
use crate::graph_build::{
    add_all_imported, add_consumer, add_exports, add_imported, apply_stars, has_name, import_step, import_target, key_index,
    lemma_key_index, lemma_module_index_names, lemma_module_index_range, lemma_stars_pairs, linked, merge_exports, module_paths, module_step, non_default,
    read_imports, stars, star_step, targets_fit, tidy, ImportState, Row, StarState,
};
use crate::order::{lemma_dedup_keeps, lemma_sorted_keeps, stable_sorted};
use crate::parse::{ImportedName, ParsedExport, ParsedModule};
use crate::program::{components, js_file, program_file};

verus! {

/// Some row of the consumers table with key (`exporter`, `name`) lists `importer`.
pub open spec fn row_has(t: Seq<Row>, exporter: usize, name: Seq<char>, importer: usize) -> bool {
    exists|c: int| 0 <= c < t.len() && (#[trigger] t[c]).0 == exporter && t[c].1 == name && t[c].2.contains(importer)
}

/// Every importer that `a` lists under a key, `b` lists under it too.
pub open spec fn rows_grow(a: Seq<Row>, b: Seq<Row>) -> bool {
    forall|e: usize, n: Seq<char>, i: usize| #[trigger] row_has(a, e, n, i) ==> row_has(b, e, n, i)
}

/// Every list of `b` holds what the same list of `a` holds.
pub open spec fn lists_grow<T>(a: Seq<Seq<T>>, b: Seq<Seq<T>>) -> bool {
    &&& a.len() == b.len()
    &&& forall|x: int, y: T| 0 <= x < a.len() && #[trigger] a[x].contains(y) ==> b[x].contains(y)
}

/// `b` holds every element of `a`.
pub open spec fn holds_all<T>(a: Seq<T>, b: Seq<T>) -> bool {
    forall|y: T| #[trigger] a.contains(y) ==> b.contains(y)
}

/// Every pair names one of `n` modules twice.
pub open spec fn pairs_in(ps: Seq<(usize, usize)>, n: int) -> bool {
    forall|k: int| 0 <= k < ps.len() ==> (#[trigger] ps[k]).0 < n && ps[k].1 < n
}

proof fn lemma_add_consumer(t: Seq<Row>, exporter: usize, name: Seq<char>, importer: usize)
    ensures
        rows_grow(t, add_consumer(t, exporter, name, importer)),
        row_has(add_consumer(t, exporter, name, importer), exporter, name, importer),
{
    lemma_key_index(t, exporter, name);
    let k = key_index(t, exporter, name);
    let r = add_consumer(t, exporter, name, importer);
    if k >= 0 {
        let l = t[k].2.push(importer);
        assert(r[k] == (exporter, name, l));
        assert(l[l.len() - 1] == importer);
        assert(r[k].2.contains(importer));
        assert forall|e: usize, n: Seq<char>, i: usize| #[trigger] row_has(t, e, n, i) implies row_has(r, e, n, i) by {
            let c = choose|c: int| 0 <= c < t.len() && (#[trigger] t[c]).0 == e && t[c].1 == n && t[c].2.contains(i);
            if c == k {
                let q = choose|q: int| 0 <= q < t[c].2.len() && t[c].2[q] == i;
                assert(l[q] == i);
                assert(r[c].2.contains(i));
            } else {
                assert(r[c] == t[c]);
            }
        }
    } else {
        let c0 = t.len() as int;
        assert(r[c0] == (exporter, name, seq![importer]));
        assert(seq![importer][0] == importer);
        assert(r[c0].2.contains(importer));
        assert forall|e: usize, n: Seq<char>, i: usize| #[trigger] row_has(t, e, n, i) implies row_has(r, e, n, i) by {
            let c = choose|c: int| 0 <= c < t.len() && (#[trigger] t[c]).0 == e && t[c].1 == n && t[c].2.contains(i);
            assert(r[c] == t[c]);
        }
    }
}

proof fn lemma_add_exports(t: Seq<Row>, exporter: usize, exports: Seq<ParsedExport>, importer: usize)
    ensures
        rows_grow(t, add_exports(t, exporter, exports, importer)),
        forall|q: int| 0 <= q < exports.len() ==> row_has(add_exports(t, exporter, exports, importer), exporter, (#[trigger] exports[q]).name@, importer),
    decreases exports.len(),
{
    if exports.len() > 0 {
        let p = add_exports(t, exporter, exports.drop_last(), importer);
        let r = add_exports(t, exporter, exports, importer);
        lemma_add_exports(t, exporter, exports.drop_last(), importer);
        lemma_add_consumer(p, exporter, exports.last().name@, importer);
        assert forall|e: usize, n: Seq<char>, i: usize| #[trigger] row_has(t, e, n, i) implies row_has(r, e, n, i) by {
            assert(row_has(p, e, n, i));
        }
        assert forall|q: int| 0 <= q < exports.len() implies row_has(r, exporter, (#[trigger] exports[q]).name@, importer) by {
            if q < exports.len() - 1 {
                assert(exports.drop_last()[q] == exports[q]);
                assert(row_has(p, exporter, exports[q].name@, importer));
            }
        }
    }
}

proof fn lemma_add_all_imported(t: Seq<Row>, exporter: usize, importer: usize, exports: Seq<ParsedExport>, names: Seq<ImportedName>)
    ensures
        rows_grow(t, add_all_imported(t, exporter, importer, exports, names)),
    decreases names.len(),
{
    if names.len() > 0 {
        let p = add_all_imported(t, exporter, importer, exports, names.drop_last());
        let r = add_all_imported(t, exporter, importer, exports, names);
        lemma_add_all_imported(t, exporter, importer, exports, names.drop_last());
        match names.last() {
            ImportedName::Named(s) => lemma_add_consumer(p, exporter, s@, importer),
            ImportedName::Default => lemma_add_consumer(p, exporter, "default"@, importer),
            ImportedName::Namespace => lemma_add_exports(p, exporter, exports, importer),
            ImportedName::StarReexport => {},
        }
        assert(r == add_imported(p, exporter, importer, exports, names.last()));
        assert forall|e: usize, n: Seq<char>, i: usize| #[trigger] row_has(t, e, n, i) implies row_has(r, e, n, i) by {
            assert(row_has(p, e, n, i));
        }
    }
}

proof fn lemma_stars_some(importer: usize, target: usize, names: Seq<ImportedName>)
    requires
        names.contains(ImportedName::StarReexport),
    ensures
        stars(importer, target, names).contains((importer, target)),
    decreases names.len(),
{
    let p = stars(importer, target, names.drop_last());
    if names.last() is StarReexport {
        assert(stars(importer, target, names) == p.push((importer, target)));
        assert(stars(importer, target, names)[p.len() as int] == (importer, target));
    } else {
        let q = choose|q: int| 0 <= q < names.len() && names[q] == ImportedName::StarReexport;
        assert(q < names.len() - 1);
        assert(names.drop_last()[q] == ImportedName::StarReexport);
        lemma_stars_some(importer, target, names.drop_last());
        let k = choose|k: int| 0 <= k < p.len() && p[k] == (importer, target);
        assert(stars(importer, target, names)[k] == (importer, target));
    }
}

proof fn lemma_import_step(s: ImportState, mods: Seq<ParsedModule>, i: int, imp: crate::parse::ParsedImport, resolved: Option<String>)
    requires
        s.0.len() == mods.len(),
        0 <= i < mods.len(),
        pairs_in(s.2, mods.len() as int),
    ensures
        lists_grow(s.0, import_step(s, mods, i, imp, resolved).0),
        rows_grow(s.1, import_step(s, mods, i, imp, resolved).1),
        holds_all(s.2, import_step(s, mods, i, imp, resolved).2),
        pairs_in(import_step(s, mods, i, imp, resolved).2, mods.len() as int),
        import_target(mods, resolved) is Some ==> import_step(s, mods, i, imp, resolved).0[i].contains(
            import_target(mods, resolved)->Some_0,
        ),
        import_target(mods, resolved) is Some && imp.names@.contains(ImportedName::StarReexport) ==> import_step(
            s,
            mods,
            i,
            imp,
            resolved,
        ).2.contains((i as usize, import_target(mods, resolved)->Some_0)),
{
    let r = import_step(s, mods, i, imp, resolved);
    match import_target(mods, resolved) {
        None => {},
        Some(t) => {
            if let Some(p) = resolved {
                lemma_module_index_range(mods, p@);
            }
            let l = s.0[i].push(t);
            assert(r.0[i] == l);
            assert(l[l.len() - 1] == t);
            assert forall|x: int, y: usize| 0 <= x < s.0.len() && #[trigger] s.0[x].contains(y) implies r.0[x].contains(y) by {
                if x == i {
                    let q = choose|q: int| 0 <= q < s.0[x].len() && s.0[x][q] == y;
                    assert(l[q] == y);
                }
            }
            lemma_add_all_imported(s.1, t, i as usize, mods[t as int].exports@, imp.names@);
            let st = stars(i as usize, t, imp.names@);
            lemma_stars_pairs(i as usize, t, imp.names@);
            assert forall|y: (usize, usize)| #[trigger] s.2.contains(y) implies r.2.contains(y) by {
                let q = choose|q: int| 0 <= q < s.2.len() && s.2[q] == y;
                assert(r.2[q] == y);
            }
            assert forall|k: int| 0 <= k < r.2.len() implies (#[trigger] r.2[k]).0 < mods.len() && r.2[k].1 < mods.len() by {
                if k < s.2.len() {
                    assert(r.2[k] == s.2[k]);
                } else {
                    assert(r.2[k] == st[k - s.2.len()]);
                }
            }
            if imp.names@.contains(ImportedName::StarReexport) {
                lemma_stars_some(i as usize, t, imp.names@);
                let k = choose|k: int| 0 <= k < st.len() && st[k] == (i as usize, t);
                assert(r.2[s.2.len() + k] == (i as usize, t));
            }
        },
    }
}

/// What the import tables keep of import `j` of module `i`: the module it
/// resolved to is a dependency, and a star re-export of it is pending.
pub open spec fn kept(s: ImportState, mods: Seq<ParsedModule>, targets: Seq<Vec<Option<String>>>, i: int, j: int) -> bool {
    match import_target(mods, targets[i]@[j]) {
        None => true,
        Some(t) => s.0[i].contains(t) && (mods[i].imports@[j].names@.contains(ImportedName::StarReexport) ==> s.2.contains(
            (i as usize, t),
        )),
    }
}

proof fn lemma_kept_grows(a: ImportState, b: ImportState, mods: Seq<ParsedModule>, targets: Seq<Vec<Option<String>>>, i: int, j: int)
    requires
        lists_grow(a.0, b.0),
        holds_all(a.2, b.2),
        0 <= i < a.0.len(),
        kept(a, mods, targets, i, j),
    ensures
        kept(b, mods, targets, i, j),
{
    match import_target(mods, targets[i]@[j]) {
        None => {},
        Some(t) => {
            assert(a.0[i].contains(t));
            if mods[i].imports@[j].names@.contains(ImportedName::StarReexport) {
                assert(a.2.contains((i as usize, t)));
            }
        },
    }
}

proof fn lemma_module_step(s: ImportState, mods: Seq<ParsedModule>, targets: Seq<Vec<Option<String>>>, i: int, k: int)
    requires
        s.0.len() == mods.len(),
        0 <= i < mods.len(),
        pairs_in(s.2, mods.len() as int),
        k >= 0,
    ensures
        lists_grow(s.0, module_step(s, mods, targets, i, k).0),
        rows_grow(s.1, module_step(s, mods, targets, i, k).1),
        holds_all(s.2, module_step(s, mods, targets, i, k).2),
        pairs_in(module_step(s, mods, targets, i, k).2, mods.len() as int),
        forall|j: int| 0 <= j < k ==> #[trigger] kept(module_step(s, mods, targets, i, k), mods, targets, i, j),
    decreases k,
{
    if k > 0 {
        let p = module_step(s, mods, targets, i, k - 1);
        let r = module_step(s, mods, targets, i, k);
        lemma_module_step(s, mods, targets, i, k - 1);
        lemma_import_step(p, mods, i, mods[i].imports@[k - 1], targets[i]@[k - 1]);
        assert forall|x: int, y: usize| 0 <= x < s.0.len() && #[trigger] s.0[x].contains(y) implies r.0[x].contains(y) by {
            assert(p.0[x].contains(y));
        }
        assert forall|e: usize, n: Seq<char>, q: usize| #[trigger] row_has(s.1, e, n, q) implies row_has(r.1, e, n, q) by {
            assert(row_has(p.1, e, n, q));
        }
        assert forall|y: (usize, usize)| #[trigger] s.2.contains(y) implies r.2.contains(y) by {
            assert(p.2.contains(y));
        }
        assert forall|j: int| 0 <= j < k implies #[trigger] kept(r, mods, targets, i, j) by {
            if j < k - 1 {
                assert(kept(p, mods, targets, i, j));
                lemma_kept_grows(p, r, mods, targets, i, j);
            }
        }
    }
}

proof fn lemma_read_imports(mods: Seq<ParsedModule>, targets: Seq<Vec<Option<String>>>, m: int)
    requires
        0 <= m <= mods.len(),
    ensures
        read_imports(mods, targets, m).0.len() == mods.len(),
        pairs_in(read_imports(mods, targets, m).2, mods.len() as int),
        forall|i: int, j: int| 0 <= i < m && 0 <= j < mods[i].imports@.len() ==> #[trigger] kept(read_imports(mods, targets, m), mods, targets, i, j),
    decreases m,
{
    if m > 0 {
        let p = read_imports(mods, targets, m - 1);
        let r = read_imports(mods, targets, m);
        let len = mods[m - 1].imports@.len() as int;
        lemma_read_imports(mods, targets, m - 1);
        lemma_module_step(p, mods, targets, m - 1, len);
        assert forall|i: int, j: int| 0 <= i < m && 0 <= j < mods[i].imports@.len() implies #[trigger] kept(r, mods, targets, i, j) by {
            if i < m - 1 {
                assert(kept(p, mods, targets, i, j));
                lemma_kept_grows(p, r, mods, targets, i, j);
            } else {
                assert(kept(module_step(p, mods, targets, m - 1, len), mods, targets, i, j));
            }
        }
    }
}

proof fn lemma_non_default(es: Seq<ParsedExport>)
    ensures
        forall|e: ParsedExport| es.contains(e) && e.name@ != "default"@ ==> #[trigger] non_default(es).contains(e),
    decreases es.len(),
{
    if es.len() > 0 {
        let p = non_default(es.drop_last());
        let r = non_default(es);
        lemma_non_default(es.drop_last());
        assert forall|e: ParsedExport| es.contains(e) && e.name@ != "default"@ implies #[trigger] r.contains(e) by {
            let q = choose|q: int| 0 <= q < es.len() && es[q] == e;
            if q < es.len() - 1 {
                assert(es.drop_last()[q] == e);
                assert(es.drop_last().contains(e));
                assert(p.contains(e));
                let k = choose|k: int| 0 <= k < p.len() && p[k] == e;
                if es.last().name@ != "default"@ {
                    assert(r == p.push(es.last()));
                    assert(r[k] == e);
                } else {
                    assert(r == p);
                }
            } else {
                assert(r == p.push(e));
                assert(r[p.len() as int] == e);
            }
        }
    }
}

proof fn lemma_merge_exports(dest: Seq<ParsedExport>, add: Seq<ParsedExport>)
    ensures
        holds_all(dest, merge_exports(dest, add)),
        forall|q: int| 0 <= q < add.len() ==> has_name(merge_exports(dest, add), (#[trigger] add[q]).name@),
    decreases add.len(),
{
    if add.len() > 0 {
        let p = merge_exports(dest, add.drop_last());
        let r = merge_exports(dest, add);
        lemma_merge_exports(dest, add.drop_last());
        let n = add.last().name@;
        if has_name(p, n) {
            assert(r == p);
        } else {
            assert(r == p.push(add.last()));
            assert(r[p.len() as int].name@ == n);
        }
        assert forall|k: int| 0 <= k < p.len() implies #[trigger] r[k] == p[k] by {}
        assert forall|y: ParsedExport| #[trigger] dest.contains(y) implies r.contains(y) by {
            assert(p.contains(y));
            let k = choose|k: int| 0 <= k < p.len() && p[k] == y;
            assert(r[k] == y);
        }
        assert forall|q: int| 0 <= q < add.len() implies has_name(r, (#[trigger] add[q]).name@) by {
            if q < add.len() - 1 {
                assert(add.drop_last()[q] == add[q]);
                assert(has_name(p, add[q].name@));
                let k = choose|k: int| 0 <= k < p.len() && #[trigger] p[k].name@ == add[q].name@;
                assert(r[k] == p[k]);
            }
        }
    }
}

proof fn lemma_has_name_grows(a: Seq<ParsedExport>, b: Seq<ParsedExport>, n: Seq<char>)
    requires
        holds_all(a, b),
        has_name(a, n),
    ensures
        has_name(b, n),
{
    let k = choose|k: int| 0 <= k < a.len() && #[trigger] a[k].name@ == n;
    assert(a.contains(a[k]));
    assert(b.contains(a[k]));
    let q = choose|q: int| 0 <= q < b.len() && b[q] == a[k];
    assert(b[q].name@ == n);
}

proof fn lemma_star_step(s: StarState, importer: usize, target: usize)
    requires
        s.0.len() == s.2.len(),
        importer < s.0.len(),
        target < s.0.len(),
    ensures
        lists_grow(s.0, star_step(s, importer, target).0),
        rows_grow(s.1, star_step(s, importer, target).1),
        lists_grow(s.2, star_step(s, importer, target).2),
        star_step(s, importer, target).0[importer as int].contains(target),
        forall|e: ParsedExport| #[trigger] s.2[target as int].contains(e) && e.name@ != "default"@ ==> row_has(
            star_step(s, importer, target).1,
            target,
            e.name@,
            importer,
        ) && has_name(star_step(s, importer, target).2[importer as int], e.name@),
{
    let r = star_step(s, importer, target);
    let i = importer as int;
    let re = non_default(s.2[target as int]);
    let l = s.0[i].push(target);
    assert(r.0[i] == l);
    assert(l[l.len() - 1] == target);
    assert forall|x: int, y: usize| 0 <= x < s.0.len() && #[trigger] s.0[x].contains(y) implies r.0[x].contains(y) by {
        if x == i {
            let q = choose|q: int| 0 <= q < s.0[x].len() && s.0[x][q] == y;
            assert(l[q] == y);
        }
    }
    lemma_add_exports(s.1, target, re, importer);
    lemma_merge_exports(s.2[i], re);
    lemma_non_default(s.2[target as int]);
    assert forall|x: int, y: ParsedExport| 0 <= x < s.2.len() && #[trigger] s.2[x].contains(y) implies r.2[x].contains(y) by {}
    assert forall|e: ParsedExport| #[trigger] s.2[target as int].contains(e) && e.name@ != "default"@ implies row_has(r.1, target, e.name@, importer)
        && has_name(r.2[i], e.name@) by {
        assert(re.contains(e));
        let q = choose|q: int| 0 <= q < re.len() && re[q] == e;
        assert(row_has(r.1, target, re[q].name@, importer));
        assert(has_name(merge_exports(s.2[i], re), re[q].name@));
    }
}

proof fn lemma_apply_stars(s: StarState, ps: Seq<(usize, usize)>, k: int)
    requires
        s.0.len() == s.2.len(),
        pairs_in(ps, s.0.len() as int),
        0 <= k <= ps.len(),
    ensures
        lists_grow(s.0, apply_stars(s, ps, k).0),
        rows_grow(s.1, apply_stars(s, ps, k).1),
        lists_grow(s.2, apply_stars(s, ps, k).2),
        forall|p: int| 0 <= p < k ==> apply_stars(s, ps, k).0[(#[trigger] ps[p]).0 as int].contains(ps[p].1),
        forall|p: int, e: ParsedExport| 0 <= p < k && #[trigger] s.2[ps[p].1 as int].contains(e) && e.name@ != "default"@ ==> row_has(
            apply_stars(s, ps, k).1,
            ps[p].1,
            e.name@,
            ps[p].0,
        ) && has_name(apply_stars(s, ps, k).2[ps[p].0 as int], e.name@),
    decreases k,
{
    if k > 0 {
        let a = apply_stars(s, ps, k - 1);
        let r = apply_stars(s, ps, k);
        let last = ps[k - 1];
        lemma_apply_stars(s, ps, k - 1);
        lemma_star_step(a, last.0, last.1);
        assert forall|x: int, y: usize| 0 <= x < s.0.len() && #[trigger] s.0[x].contains(y) implies r.0[x].contains(y) by {
            assert(a.0[x].contains(y));
        }
        assert forall|e: usize, n: Seq<char>, q: usize| #[trigger] row_has(s.1, e, n, q) implies row_has(r.1, e, n, q) by {
            assert(row_has(a.1, e, n, q));
        }
        assert forall|x: int, y: ParsedExport| 0 <= x < s.2.len() && #[trigger] s.2[x].contains(y) implies r.2[x].contains(y) by {
            assert(a.2[x].contains(y));
        }
        assert forall|p: int| 0 <= p < k implies r.0[(#[trigger] ps[p]).0 as int].contains(ps[p].1) by {
            if p < k - 1 {
                assert(a.0[ps[p].0 as int].contains(ps[p].1));
            }
        }
        assert forall|p: int, e: ParsedExport| 0 <= p < k && #[trigger] s.2[ps[p].1 as int].contains(e) && e.name@ != "default"@ implies row_has(
            r.1,
            ps[p].1,
            e.name@,
            ps[p].0,
        ) && has_name(r.2[ps[p].0 as int], e.name@) by {
            let (i, t) = (ps[p].0, ps[p].1);
            if p < k - 1 {
                assert(row_has(a.1, t, e.name@, i));
                assert(has_name(a.2[i as int], e.name@));
                lemma_has_name_grows(a.2[i as int], r.2[i as int], e.name@);
            } else {
                assert(a.2[t as int].contains(e));
            }
        }
    }
}

/// An import counts when the resolver's path is a program file, not
/// JavaScript, that names a module of the program. Every such import makes
/// that module one of the importer's file dependencies, whatever names it binds (none
/// at all for an import made for its side effects). A star re-export also
/// makes the importer a consumer of each export of the target but `default`,
/// and the importer then exports a name for each of them.
pub proof fn law_resolved_imports_link(mods: Seq<ParsedModule>, targets: Seq<Vec<Option<String>>>, i: int, j: int)
    requires
        mods.len() <= usize::MAX,
        targets_fit(mods, targets),
        0 <= i < mods.len(),
        0 <= j < mods[i].imports@.len(),
        import_target(mods, targets[i]@[j]) is Some,
    ensures
        ({
            let t = import_target(mods, targets[i]@[j])->Some_0;
            let l = linked(mods, targets);
            &&& t < mods.len()
            &&& targets[i]@[j] is Some
            &&& program_file(targets[i]@[j]->Some_0@) && !js_file(targets[i]@[j]->Some_0@)
            &&& components(mods[t as int].abs@) == components(targets[i]@[j]->Some_0@)
            &&& tidy(l.0[i], module_paths(mods)).contains(t)
            &&& mods[i].imports@[j].names@.contains(ImportedName::StarReexport) ==> forall|q: int|
                0 <= q < mods[t as int].exports@.len() && (#[trigger] mods[t as int].exports@[q]).name@ != "default"@ ==> (exists|c: int|
                0 <= c < l.1.len() && (#[trigger] l.1[c]).0 == t && l.1[c].1 == mods[t as int].exports@[q].name@ && tidy(
                l.1[c].2,
                module_paths(mods),
            ).contains(i as usize)) && has_name(l.2[i], mods[t as int].exports@[q].name@)
        }),
{
    let t = import_target(mods, targets[i]@[j])->Some_0;
    let n = mods.len() as int;
    let paths = module_paths(mods);
    let leq = path_index_leq(paths);
    if let Some(p) = targets[i]@[j] {
        lemma_module_index_names(mods, p@);
    }
    let r = read_imports(mods, targets, n);
    lemma_read_imports(mods, targets, n);
    assert(kept(r, mods, targets, i, j));
    let s0: StarState = (r.0, r.1, mods.map_values(|m: ParsedModule| m.exports@));
    lemma_apply_stars(s0, r.2, r.2.len() as int);
    let l = linked(mods, targets);
    assert(l == apply_stars(s0, r.2, r.2.len() as int));
    assert(l.0[i].contains(t));
    lemma_sorted_keeps(l.0[i], leq);
    lemma_dedup_keeps(stable_sorted(l.0[i], leq));
    if mods[i].imports@[j].names@.contains(ImportedName::StarReexport) {
        assert(r.2.contains((i as usize, t)));
        let p = choose|p: int| 0 <= p < r.2.len() && r.2[p] == (i as usize, t);
        assert forall|q: int| 0 <= q < mods[t as int].exports@.len() && (#[trigger] mods[t as int].exports@[q]).name@ != "default"@ implies (exists|c: int|
            0 <= c < l.1.len() && (#[trigger] l.1[c]).0 == t && l.1[c].1 == mods[t as int].exports@[q].name@ && tidy(
            l.1[c].2,
            paths,
        ).contains(i as usize)) && has_name(l.2[i], mods[t as int].exports@[q].name@) by {
            let e = mods[t as int].exports@[q];
            assert(s0.2[t as int] == mods[t as int].exports@);
            assert(s0.2[r.2[p].1 as int].contains(e));
            assert(row_has(l.1, t, e.name@, i as usize));
            let c = choose|c: int| 0 <= c < l.1.len() && (#[trigger] l.1[c]).0 == t && l.1[c].1 == e.name@ && l.1[c].2.contains(i as usize);
            lemma_sorted_keeps(l.1[c].2, leq);
            lemma_dedup_keeps(stable_sorted(l.1[c].2, leq));
            assert(tidy(l.1[c].2, paths).contains(i as usize));
            assert(has_name(l.2[r.2[p].0 as int], e.name@));
            assert(r.2[p].0 as int == i);
        }
    }
}

/// No two exports share a name.
pub open spec fn names_distinct(es: Seq<ParsedExport>) -> bool {
    forall|i: int, j: int| 0 <= i < j < es.len() ==> (#[trigger] es[i]).name@ != (#[trigger] es[j]).name@
}

proof fn lemma_merge_keeps(dest: Seq<ParsedExport>, add: Seq<ParsedExport>)
    ensures
        merge_exports(dest, add).len() >= dest.len(),
        merge_exports(dest, add).take(dest.len() as int) == dest,
        names_distinct(dest) ==> names_distinct(merge_exports(dest, add)),
    decreases add.len(),
{
    if add.len() > 0 {
        let p = merge_exports(dest, add.drop_last());
        let r = merge_exports(dest, add);
        lemma_merge_keeps(dest, add.drop_last());
        let n = add.last().name@;
        if has_name(p, n) {
            assert(r == p);
        } else {
            assert(r == p.push(add.last()));
            assert(r.take(dest.len() as int) =~= p.take(dest.len() as int));
            if names_distinct(dest) {
                assert forall|i: int, j: int| 0 <= i < j < r.len() implies (#[trigger] r[i]).name@ != (#[trigger] r[j]).name@ by {
                    if j == r.len() - 1 {
                        assert(r[i] == p[i]);
                        if r[i].name@ == n {
                            assert(has_name(p, n));
                        }
                    } else {
                        assert(r[i] == p[i] && r[j] == p[j]);
                    }
                }
            }
        }
    }
}

proof fn lemma_stars_keep(s: StarState, ps: Seq<(usize, usize)>, k: int)
    requires
        s.0.len() == s.2.len(),
        pairs_in(ps, s.0.len() as int),
        0 <= k <= ps.len(),
    ensures
        apply_stars(s, ps, k).0.len() == s.0.len(),
        apply_stars(s, ps, k).2.len() == s.2.len(),
        forall|x: int| 0 <= x < s.2.len() ==> (#[trigger] apply_stars(s, ps, k).2[x]).len() >= s.2[x].len()
            && apply_stars(s, ps, k).2[x].take(s.2[x].len() as int) == s.2[x],
        forall|x: int| 0 <= x < s.2.len() && names_distinct(s.2[x]) ==> names_distinct(#[trigger] apply_stars(s, ps, k).2[x]),
    decreases k,
{
    if k > 0 {
        let a = apply_stars(s, ps, k - 1);
        let r = apply_stars(s, ps, k);
        let (i, t) = (ps[k - 1].0, ps[k - 1].1);
        lemma_stars_keep(s, ps, k - 1);
        let re = non_default(a.2[t as int]);
        lemma_merge_keeps(a.2[i as int], re);
        assert forall|x: int| 0 <= x < s.2.len() implies (#[trigger] r.2[x]).len() >= s.2[x].len() && r.2[x].take(s.2[x].len() as int) == s.2[x] by {
            if x == i as int {
                assert(r.2[x] == merge_exports(a.2[x], re));
                assert(r.2[x].take(s.2[x].len() as int) =~= r.2[x].take(a.2[x].len() as int).take(s.2[x].len() as int));
                assert(a.2[x].take(s.2[x].len() as int) == s.2[x]);
            } else {
                assert(r.2[x] == a.2[x]);
            }
        }
        assert forall|x: int| 0 <= x < s.2.len() && names_distinct(s.2[x]) implies names_distinct(#[trigger] r.2[x]) by {
            assert(names_distinct(a.2[x]));
            if x != i as int {
                assert(r.2[x] == a.2[x]);
            }
        }
    }
}

/// A star re-export adds exports after those a module has of its own and
/// never under a name the module already exports: each module's exports in
/// the module graph start with its own, and when its own have distinct
/// names, all of them do.
pub proof fn law_star_exports_keep_names(mods: Seq<ParsedModule>, targets: Seq<Vec<Option<String>>>, i: int)
    requires
        0 <= i < mods.len(),
    ensures
        linked(mods, targets).2[i].take(mods[i].exports@.len() as int) == mods[i].exports@,
        names_distinct(mods[i].exports@) ==> names_distinct(linked(mods, targets).2[i]),
{
    let n = mods.len() as int;
    let r = read_imports(mods, targets, n);
    lemma_read_imports(mods, targets, n);
    let s0: StarState = (r.0, r.1, mods.map_values(|m: ParsedModule| m.exports@));
    lemma_stars_keep(s0, r.2, r.2.len() as int);
    assert(linked(mods, targets) == apply_stars(s0, r.2, r.2.len() as int));
    assert(s0.2[i] == mods[i].exports@);
}

} // verus!
