//! The registry's index: one entry per package identifier, telling where
//! the package's file lies.

use vstd::prelude::*;
use crate::paths;
use crate::types::{IndexEntry, Package, clone_opt, opt_view};

verus! {

/// What an index entry holds, as plain values.
pub struct IndexEntryView {
    pub id: Seq<char>,
    pub title: Seq<char>,
    pub author: Seq<char>,
    pub year: Option<u16>,
    pub format: Option<Seq<char>>,
    pub packages_path: Seq<char>,
}

impl View for IndexEntry {
    type V = IndexEntryView;

    open spec fn view(&self) -> IndexEntryView {
        IndexEntryView {
            id: self.id@,
            title: self.title@,
            author: self.author@,
            year: self.year,
            format: opt_view(self.format),
            packages_path: self.packages_path@,
        }
    }
}

/// The views of a sequence of entries.
pub open spec fn entry_views(es: Seq<IndexEntry>) -> Seq<IndexEntryView> {
    es.map_values(|e: IndexEntry| e@)
}

/// The position of the first entry with identifier `id`, or the number of
/// entries when there is none.
pub open spec fn position_of(es: Seq<IndexEntryView>, id: Seq<char>) -> nat
    decreases es.len(),
{
    if es.len() == 0 {
        0
    } else if es[0].id == id {
        0
    } else {
        1 + position_of(es.drop_first(), id)
    }
}

/// The first entry with identifier `id`, if any.
pub open spec fn lookup(es: Seq<IndexEntryView>, id: Seq<char>) -> Option<IndexEntryView> {
    if position_of(es, id) < es.len() {
        Some(es[position_of(es, id) as int])
    } else {
        None
    }
}

/// `es` with `e` recorded: the first entry with `e`'s identifier is
/// replaced by `e`; when there is none, `e` is added at the end.
pub open spec fn spec_upsert(es: Seq<IndexEntryView>, e: IndexEntryView) -> Seq<IndexEntryView> {
    let i = position_of(es, e.id);
    if i < es.len() {
        es.update(i as int, e)
    } else {
        es.push(e)
    }
}

/// The path recorded for a package file: relative to the registry when it
/// lies inside it, as given otherwise.
pub open spec fn recorded_path(repo_path: Seq<char>, pkg_path: Seq<char>) -> Seq<char> {
    match paths::spec_relative(pkg_path, repo_path) {
        Some(r) => r,
        None => pkg_path,
    }
}

/// The index entry that describes `pkg`, whose file lies at `path`.
pub open spec fn entry_of(pkg: Package, path: Seq<char>) -> IndexEntryView {
    IndexEntryView {
        id: pkg.id@,
        title: pkg.title@,
        author: pkg.author@,
        year: pkg.year,
        format: opt_view(pkg.format),
        packages_path: path,
    }
}

proof fn lemma_position_of(es: Seq<IndexEntryView>, id: Seq<char>, i: int)
    requires
        0 <= i <= es.len(),
        forall|k: int| 0 <= k < i ==> #[trigger] es[k].id != id,
        i == es.len() || es[i].id == id,
    ensures
        position_of(es, id) == i,
    decreases i,
{
    if i > 0 {
        let t = es.drop_first();
        assert forall|k: int| 0 <= k < i - 1 implies #[trigger] t[k].id != id by {
            assert(t[k] == es[k + 1]);
        }
        lemma_position_of(t, id, i - 1);
    }
}

/// `position_of` is within the sequence, holds the identifier when it is
/// not at the end, and no earlier entry holds it.
pub proof fn lemma_position_of_bounds(es: Seq<IndexEntryView>, id: Seq<char>)
    ensures
        position_of(es, id) <= es.len(),
        position_of(es, id) < es.len() ==> es[position_of(es, id) as int].id == id,
        forall|k: int| 0 <= k < position_of(es, id) ==> #[trigger] es[k].id != id,
    decreases es.len(),
{
    if es.len() > 0 && es[0].id != id {
        let t = es.drop_first();
        lemma_position_of_bounds(t, id);
        assert forall|k: int| 0 <= k < position_of(es, id) implies #[trigger] es[k].id != id by {
            if k > 0 {
                assert(es[k] == t[k - 1]);
            }
        }
    }
}

/// Records `pkg`, whose file lies at `pkg_path`, in the index `entries` of
/// the registry at `repo_path`: the first entry with the package's
/// identifier gets its title, author, year, format and path; when there is
/// none, a new entry is added at the end.
pub fn update_with_package(
    entries: &mut Vec<IndexEntry>,
    repo_path: &str,
    pkg: &Package,
    pkg_path: &str,
)
    ensures
        entry_views(final(entries)@) == spec_upsert(
            entry_views(old(entries)@),
            entry_of(*pkg, recorded_path(repo_path@, pkg_path@)),
        ),
{
    let rel = match paths::relative_to(pkg_path, repo_path) {
        Some(r) => r,
        None => String::from_str(pkg_path),
    };
    let entry = IndexEntry {
        id: pkg.id.clone(),
        title: pkg.title.clone(),
        author: pkg.author.clone(),
        year: pkg.year,
        format: clone_opt(&pkg.format),
        packages_path: rel,
    };
    let ghost ev = entry_views(old(entries)@);
    let ghost e = entry_of(*pkg, recorded_path(repo_path@, pkg_path@));
    assert(entry@ == e);
    let n = entries.len();
    let mut i: usize = 0;
    while i < n
        invariant
            n == entries@.len(),
            entries@ == old(entries)@,
            ev == entry_views(entries@),
            e.id == pkg.id@,
            i <= n,
            forall|k: int| 0 <= k < i ==> #[trigger] ev[k].id != e.id,
        ensures
            i <= n,
            forall|k: int| 0 <= k < i ==> #[trigger] ev[k].id != e.id,
            i == n || ev[i as int].id == e.id,
        decreases n - i,
    {
        assert(ev[i as int] == entries@[i as int]@);
        if entries[i].id == pkg.id {
            break;
        }
        i = i + 1;
    }
    proof {
        lemma_position_of(ev, e.id, i as int);
    }
    if i < n {
        entries.set(i, entry);
        assert(entry_views(entries@) =~= ev.update(i as int, e));
    } else {
        entries.push(entry);
        assert(entry_views(entries@) =~= ev.push(e));
    }
}

/// Records `pkg` in the index `entries` of the registry at `repo_path`,
/// with its file where `package_path` puts it, and gives that path.
pub fn record_package(entries: &mut Vec<IndexEntry>, repo_path: &str, pkg: &Package) -> (path: String)
    ensures
        path@ == paths::spec_package_path(repo_path@, pkg.author@, pkg.title@, pkg.year),
        entry_views(final(entries)@) == spec_upsert(
            entry_views(old(entries)@),
            entry_of(*pkg, paths::package_relative_path(pkg.author@, pkg.title@, pkg.year)),
        ),
        lookup(entry_views(final(entries)@), pkg.id@) == Some(
            entry_of(*pkg, paths::package_relative_path(pkg.author@, pkg.title@, pkg.year)),
        ),
{
    let path = paths::package_path(repo_path, pkg.author.as_str(), pkg.title.as_str(), pkg.year);
    update_with_package(entries, repo_path, pkg, path.as_str());
    proof {
        lemma_recorded_package_location(entry_views(old(entries)@), repo_path@, *pkg);
        paths::lemma_package_path_relative(repo_path@, pkg.author@, pkg.title@, pkg.year);
    }
    path
}

/// Rebuilding the index from the package files is not done yet: this
/// leaves the index as it is and reports success.
pub fn rebuild_index(repo_path: &str) -> (r: Result<(), String>)
    ensures
        r is Ok,
{
    let _ = repo_path;
    Ok(())
}

// ---------------------------------------------------------------------------
// Laws of the index
// ---------------------------------------------------------------------------

/// Reading back what was recorded: after `e` is recorded, looking up its
/// identifier gives `e`.
pub proof fn lemma_lookup_after_upsert(es: Seq<IndexEntryView>, e: IndexEntryView)
    ensures
        lookup(spec_upsert(es, e), e.id) == Some(e),
{
    lemma_position_of_bounds(es, e.id);
    let i = position_of(es, e.id);
    let r = spec_upsert(es, e);
    if i < es.len() {
        assert forall|k: int| 0 <= k < i implies #[trigger] r[k].id != e.id by {
            assert(r[k] == es[k]);
        }
        lemma_position_of(r, e.id, i as int);
    } else {
        assert forall|k: int| 0 <= k < es.len() implies #[trigger] r[k].id != e.id by {
            assert(r[k] == es[k]);
        }
        lemma_position_of(r, e.id, es.len() as int);
    }
}

/// Recording `e` leaves what every other identifier looks up to unchanged.
pub proof fn lemma_lookup_other_after_upsert(
    es: Seq<IndexEntryView>,
    e: IndexEntryView,
    id: Seq<char>,
)
    requires
        id != e.id,
    ensures
        lookup(spec_upsert(es, e), id) == lookup(es, id),
{
    lemma_position_of_bounds(es, e.id);
    lemma_position_of_bounds(es, id);
    let i = position_of(es, e.id);
    let j = position_of(es, id);
    let r = spec_upsert(es, e);
    assert forall|k: int| 0 <= k < j implies #[trigger] r[k].id != id by {
        if k < es.len() {
            if k == i {
                assert(r[k] == e);
            } else {
                assert(r[k] == es[k]);
            }
        }
    }
    if j < es.len() {
        assert(j != i);
        assert(r[j as int] == es[j as int]);
        lemma_position_of(r, id, j as int);
    } else {
        if i < es.len() {
            lemma_position_of(r, id, j as int);
        } else {
            assert(r[es.len() as int] == e);
            assert forall|k: int| 0 <= k < r.len() implies #[trigger] r[k].id != id by {
                if k < es.len() {
                    assert(r[k] == es[k]);
                }
            }
            lemma_position_of(r, id, r.len() as int);
        }
    }
}

/// No two entries share an identifier.
pub open spec fn unique_ids(es: Seq<IndexEntryView>) -> bool {
    forall|a: int, b: int| 0 <= a < b < es.len() ==> #[trigger] es[a].id != #[trigger] es[b].id
}

/// Recording keeps identifiers unique.
pub proof fn lemma_upsert_keeps_ids_unique(es: Seq<IndexEntryView>, e: IndexEntryView)
    requires
        unique_ids(es),
    ensures
        unique_ids(spec_upsert(es, e)),
{
    lemma_position_of_bounds(es, e.id);
    let i = position_of(es, e.id);
    let r = spec_upsert(es, e);
    assert forall|a: int, b: int| 0 <= a < b < r.len() implies #[trigger] r[a].id != #[trigger] r[b].id by {
        if i < es.len() {
            if a == i {
                assert(r[b] == es[b]);
                assert(es[a].id == e.id);
            } else if b == i {
                assert(r[a] == es[a]);
                assert(es[b].id == e.id);
            } else {
                assert(r[a] == es[a]);
                assert(r[b] == es[b]);
            }
        } else {
            assert(r[a] == es[a]);
            if b < es.len() {
                assert(r[b] == es[b]);
            } else {
                assert(r[b] == e);
            }
        }
    }
}

/// The index grows by one entry exactly when the identifier was not in it.
pub proof fn lemma_upsert_len(es: Seq<IndexEntryView>, e: IndexEntryView)
    ensures
        spec_upsert(es, e).len() == if lookup(es, e.id) is Some {
            es.len()
        } else {
            es.len() + 1
        },
{
}

/// Recording the same entry twice is the same as recording it once.
pub proof fn lemma_upsert_idempotent(es: Seq<IndexEntryView>, e: IndexEntryView)
    ensures
        spec_upsert(spec_upsert(es, e), e) == spec_upsert(es, e),
{
    lemma_lookup_after_upsert(es, e);
    let r = spec_upsert(es, e);
    lemma_position_of_bounds(r, e.id);
    let j = position_of(r, e.id);
    assert(r[j as int] == e);
    assert(r.update(j as int, e) =~= r);
}

/// A package recorded with the file path that `package_path` gives it under
/// the registry is found again under its identifier, with its metadata and
/// the path `packages/<author slug>/<file name>` relative to the registry.
pub proof fn lemma_recorded_package_location(es: Seq<IndexEntryView>, repo_path: Seq<char>, pkg: Package)
    ensures
        lookup(
            spec_upsert(
                es,
                entry_of(
                    pkg,
                    recorded_path(
                        repo_path,
                        paths::spec_package_path(repo_path, pkg.author@, pkg.title@, pkg.year),
                    ),
                ),
            ),
            pkg.id@,
        ) == Some(entry_of(pkg, paths::package_relative_path(pkg.author@, pkg.title@, pkg.year))),
{
    paths::lemma_package_path_relative(repo_path, pkg.author@, pkg.title@, pkg.year);
    let e = entry_of(pkg, paths::package_relative_path(pkg.author@, pkg.title@, pkg.year));
    lemma_lookup_after_upsert(es, e);
}

} // verus!
