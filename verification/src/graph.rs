//! The module graph: modules, who consumes which export, file dependencies,
//! entry points and test files.

use vstd::prelude::*;

use crate::order::{stable_sort, stable_sorted, KeyOrder};
use crate::parse::ParsedExport;
use crate::program::{components, components_of, display_of, display_path, join_comps, join_range, path_order, comps_view, compare_paths, ROOT};
use crate::reach::{adj_ok, adj_view};
use crate::text::{chars_of, Rel};

verus! {

/// A module of the program.
#[derive(Debug)]
pub struct Module {
    pub abs: String,
    pub display: String,
    pub exports: Vec<ParsedExport>,
}

/// The importers of one export of one module.
#[derive(Debug)]
pub struct Consumers {
    /// Index of the exporting module.
    pub exporter: usize,
    /// The export name.
    pub name: String,
    /// Indices of the importing modules.
    pub importers: Vec<usize>,
}

/// Modules are indexed by their position in `modules`; the per-module tables
/// (`file_dependencies`, `entry_points`, `test_files`) follow the same indices.
#[derive(Debug)]
pub struct ModuleGraph {
    pub root: String,
    pub modules: Vec<Module>,
    /// (exporter, export name) -> importers
    pub consumers: Vec<Consumers>,
    /// File-level dependencies: importer -> imported modules
    pub file_dependencies: Vec<Vec<usize>>,
    /// Discovered entry points (package.json fields + root/src index/main/cli files)
    pub entry_points: Vec<bool>,
    /// Files identified as tests by the test-file predicate
    pub test_files: Vec<bool>,
}

/// The directory that groups the consumers of an export: the parent of the
/// importer's display path, or `.` when it has none.
pub open spec fn group_dir(root: Seq<char>, importer: Seq<char>) -> Seq<char> {
    let c = components(display_of(root, importer));
    if c.len() > 0 && c.last().0 != ROOT {
        join_comps(c.drop_last())
    } else {
        seq!['.']
    }
}

impl ModuleGraph {
    /// Number of modules.
    pub open spec fn n(&self) -> nat {
        self.modules@.len()
    }

    /// The per-module tables have one entry per module and name modules only.
    pub open spec fn wf(&self) -> bool {
        &&& self.file_dependencies.len() == self.n()
        &&& self.entry_points.len() == self.n()
        &&& self.test_files.len() == self.n()
        &&& adj_ok(self.deps())
        &&& forall|c: int| 0 <= c < self.consumers.len() ==> #[trigger] self.consumers@[c].exporter < self.n()
        &&& forall|c: int, k: int| 0 <= c < self.consumers.len() && 0 <= k < self.consumers@[c].importers.len()
            ==> #[trigger] self.consumers@[c].importers@[k] < self.n()
        &&& consumer_keys_unique(*self)
    }

    /// The file dependencies as adjacency lists.
    pub open spec fn deps(&self) -> Seq<Seq<usize>> {
        adj_view(self.file_dependencies@)
    }

    /// Display paths of the modules.
    pub open spec fn displays(&self) -> Seq<Seq<char>> {
        self.modules@.map_values(|m: Module| m.display@)
    }

    /// Module indices in display-path order.
    pub open spec fn display_order(&self) -> Seq<usize> {
        stable_sorted(Seq::new(self.n(), |i: int| i as usize), path_index_leq(self.displays()))
    }

    /// The directory grouping the consumers of an export by this importer.
    pub fn consumer_group_dir(&self, importer: &str) -> (r: String)
        ensures
            r@ == group_dir(self.root@, importer@),
    {
        let display = display_path(self.root.as_str(), importer);
        let c = components_of(&chars_of(display.as_str()));
        if c.len() > 0 && c[c.len() - 1].0 != ROOT {
            let r = join_range(&c, 0, c.len() - 1);
            assert(comps_view(c@).subrange(0, c.len() - 1) =~= comps_view(c@).drop_last());
            r
        } else {
            let mut r = String::new();
            crate::text::push_char(&mut r, '.');
            assert(r@ =~= seq!['.']);
            r
        }
    }

    /// Module indices in display-path order.
    pub fn modules_by_display(&self) -> (r: Vec<usize>)
        ensures
            r@ == self.display_order(),
    {
        let mut keys: Vec<String> = Vec::new();
        let mut idx: Vec<usize> = Vec::new();
        let mut i: usize = 0;
        while i < self.modules.len()
            invariant
                i <= self.modules.len(),
                keys.len() == i,
                idx@ == Seq::new(i as nat, |k: int| k as usize),
                forall|k: int| 0 <= k < i ==> #[trigger] keys@[k]@ == self.modules@[k].display@,
            decreases self.modules.len() - i,
        {
            keys.push(self.modules[i].display.clone());
            idx.push(i);
            assert(idx@ =~= Seq::new((i + 1) as nat, |k: int| k as usize));
            i += 1;
        }
        let ctx = ByPath { keys };
        assert(keys_view(ctx.keys@) =~= self.displays());
        stable_sort(&ctx, idx)
    }
}

/// Each (exporter, name) key appears at most once among the consumer entries.
pub open spec fn consumer_keys_unique(g: ModuleGraph) -> bool {
    forall|c: int, d: int|
        0 <= c < g.consumers.len() && 0 <= d < g.consumers.len() && #[trigger] g.consumers@[c].exporter
            == #[trigger] g.consumers@[d].exporter && g.consumers@[c].name@ == g.consumers@[d].name@ ==> c == d
}

/// The display order lists each module index once.
pub proof fn lemma_display_order(g: ModuleGraph)
    ensures
        g.display_order().len() == g.n(),
        forall|k: int| 0 <= k < g.display_order().len() ==> #[trigger] g.display_order()[k] < g.n(),
        g.display_order().to_multiset() == Seq::new(g.n(), |i: int| i as usize).to_multiset(),
{
    let s = Seq::new(g.n(), |i: int| i as usize);
    let o = g.display_order();
    crate::order::lemma_stable_sorted_multiset(s, path_index_leq(g.displays()));
    o.to_multiset_ensures();
    s.to_multiset_ensures();
    assert forall|k: int| 0 <= k < o.len() implies #[trigger] o[k] < g.n() by {
        assert(o.to_multiset().count(o[k]) > 0);
        assert(s.to_multiset().count(o[k]) > 0);
        assert(s.contains(o[k]));
    }
}

/// Paths of a table of strings.
pub open spec fn keys_view(keys: Seq<String>) -> Seq<Seq<char>> {
    keys.map_values(|s: String| s@)
}

/// Indices ordered by the paths they name in `keys`.
pub open spec fn path_index_leq(keys: Seq<Seq<char>>) -> spec_fn(usize, usize) -> bool {
    |a: usize, b: usize| path_order(keys[a as int], keys[b as int]) != Rel::Greater
}

/// Indices into a table of paths, ordered as the paths compare.
pub struct ByPath {
    pub keys: Vec<String>,
}

impl KeyOrder<usize> for ByPath {
    open spec fn admits(&self, x: usize) -> bool {
        x < self.keys.len()
    }

    open spec fn leq(&self) -> spec_fn(usize, usize) -> bool {
        path_index_leq(keys_view(self.keys@))
    }

    fn le(&self, a: &usize, b: &usize) -> (r: bool) {
        match compare_paths(self.keys[*a].as_str(), self.keys[*b].as_str()) {
            Rel::Greater => false,
            _ => true,
        }
    }
}

} // verus!
