//! What a walk records, step by step.

use vstd::prelude::*;

use crate::encoding::path_bytes;
use crate::path::PathView;
use crate::rule_laws::law_ignored_goes_by_the_relative_path;
use crate::rules::IgnoredSet;
use crate::snapshot::{goes_well, item_fault, recorded, visit_of};
use crate::snapshot::{EntryKind, MtimeReading, Visit, WalkFault, WalkItem};

verus! {

/// What becomes of an entry: the root is left out, and what the rules ignore is remembered as
/// such; a directory and a regular file are recorded by their paths below the root, and anything
/// else is left out. What does not lie under the root ends the walk.
pub proof fn law_what_becomes_of_an_entry(
    rules: Option<IgnoredSet>,
    root: PathView,
    rel: PathView,
    path: PathView,
    is_dir: bool,
    is_file: bool,
)
    ensures
        rel.len() == 0 ==> visit_of(rules, root, root + rel, is_dir, is_file) is Skip,
        rel.len() > 0 && (rules matches Some(set) && set.contains((path_bytes(rel), is_dir)))
            ==> visit_of(rules, root, root + rel, is_dir, is_file) == Visit::Ignored(rel),
        rel.len() > 0 && (rules matches Some(set) ==> !set.contains((path_bytes(rel), is_dir)))
            ==> visit_of(rules, root, root + rel, is_dir, is_file) == if is_dir {
            Visit::Directory(rel)
        } else if is_file {
            Visit::File(rel)
        } else {
            Visit::Skip
        },
        visit_of(rules, root, path, is_dir, is_file) is NotUnderRoot <==> !root.is_prefix_of(path),
{
    let p = root + rel;
    assert(p.skip(root.len() as int) =~= rel);
    assert(p.subrange(0, root.len() as int) =~= root);
    assert(rel.len() == 0 ==> p =~= root);
    assert(root.subrange(0, root.len() as int) =~= root);
    if rules is Some {
        law_ignored_goes_by_the_relative_path(rules->0, root, rel, is_dir);
    }
}

/// A walk without faults gives a snapshot: where no step failed, every entry lies under the root,
/// and every file that is not ignored has a time, whichever, all goes well.
pub proof fn law_faultless_walks_go_well(
    rules: Option<IgnoredSet>,
    root: PathView,
    items: Seq<WalkItem>,
)
    requires
        forall|i: int|
            0 <= i < items.len() ==> (#[trigger] items[i] matches WalkItem::Entry { path, kind }
                && root.is_prefix_of(path@) && (kind matches EntryKind::File(reading)
                ==> reading is At || path@ == root || (rules matches Some(set) && set.contains(
                (path_bytes(path@.skip(root.len() as int)), false),
            )))),
    ensures
        goes_well(rules, root, items, items.len() as int),
        forall|i: int| 0 <= i < items.len() ==> item_fault(rules, root, #[trigger] items[i]) is None,
{
}

/// Each fault comes of its cause and of nothing else: a walk that failed, an entry that does not
/// lie under the root, and a file, neither the root nor ignored, whose metadata or whose time
/// could not be had.
pub proof fn law_faults_have_their_causes(
    rules: Option<IgnoredSet>,
    root: PathView,
    item: WalkItem,
)
    ensures
        item_fault(rules, root, item) == Some(WalkFault::WalkFailed) <==> item is Failed,
        item_fault(rules, root, item) == Some(WalkFault::NotUnderRoot) <==> item is Entry
            && !root.is_prefix_of(item->path@),
        item_fault(rules, root, item) == Some(WalkFault::NoMetadata) <==> item is Entry
            && root.is_prefix_of(item->path@) && item->path@ != root && item->kind
            == EntryKind::File(MtimeReading::NoMetadata) && (rules matches Some(set)
            ==> !set.contains((path_bytes(item->path@.skip(root.len() as int)), false))),
        item_fault(rules, root, item) == Some(WalkFault::NoTime) <==> item is Entry
            && root.is_prefix_of(item->path@) && item->path@ != root && item->kind
            == EntryKind::File(MtimeReading::NoTime) && (rules matches Some(set)
            ==> !set.contains((path_bytes(item->path@.skip(root.len() as int)), false))),
{
    assert(root.subrange(0, root.len() as int) =~= root);
}

/// One more step goes well exactly when it has no fault.
pub proof fn law_walks_go_well_step_by_step(
    rules: Option<IgnoredSet>,
    root: PathView,
    items: Seq<WalkItem>,
    n: int,
)
    requires
        0 <= n < items.len(),
    ensures
        goes_well(rules, root, items, 0),
        goes_well(rules, root, items, n + 1) <==> goes_well(rules, root, items, n) && item_fault(
            rules,
            root,
            items[n],
        ) is None,
{
}

proof fn lemma_step_records(
    rules: Option<IgnoredSet>,
    root: PathView,
    items: Seq<WalkItem>,
    n: nat,
    rel: PathView,
)
    requires
        0 < n <= items.len(),
    ensures
        ({
            let before = recorded(rules, root, items, (n - 1) as nat);
            let after = recorded(rules, root, items, n);
            let item = items[n - 1];
            let here = item is Entry && rel.len() > 0 && item->path@ == root + rel;
            let is_dir = item->kind is Directory;
            let taken = rules matches Some(set) && set.contains((path_bytes(rel), is_dir));
            &&& after.dirs.contains(rel) <==> before.dirs.contains(rel) || here && !taken && is_dir
            &&& after.files.contains_key(rel) <==> before.files.contains_key(rel) || here && !taken
                && item->kind is File
            &&& after.ignored.contains(rel) <==> before.ignored.contains(rel) || here && taken
            &&& here && !taken && item->kind is File ==> after.files[rel]
                == item->kind->File_0->At_0@
            &&& !(here && !taken && item->kind is File) && before.files.contains_key(rel)
                ==> after.files[rel] == before.files[rel]
        }),
{
    let item = items[n - 1];
    if item is Entry {
        let path = item->path@;
        let own = path.skip(root.len() as int);
        let (d, f) = (item->kind is Directory, item->kind is File);
        law_what_becomes_of_an_entry(rules, root, own, path, d, f);
        law_what_becomes_of_an_entry(rules, root, rel, path, d, f);
        if root.is_prefix_of(path) {
            assert(path =~= root + own);
        }
        assert((root + rel).skip(root.len() as int) =~= rel);
        assert((root + rel).subrange(0, root.len() as int) =~= root);
    }
}

/// A snapshot holds a directory exactly when the walk came to it below the root and no rule
/// ignores it, a file likewise, and as ignored exactly what the walk came to below the root and
/// the rules ignore.
pub proof fn law_snapshot_holds_what_the_walk_met(
    rules: Option<IgnoredSet>,
    root: PathView,
    items: Seq<WalkItem>,
    n: nat,
    rel: PathView,
)
    requires
        n <= items.len(),
    ensures
        recorded(rules, root, items, n).dirs.contains(rel) <==> rel.len() > 0 && exists|i: int|
            0 <= i < n && #[trigger] items[i] is Entry && items[i]->path@ == root + rel
                && items[i]->kind is Directory && (rules matches Some(set) ==> !set.contains(
                (path_bytes(rel), true),
            )),
        recorded(rules, root, items, n).files.contains_key(rel) <==> rel.len() > 0 && exists|i: int|
            0 <= i < n && #[trigger] items[i] is Entry && items[i]->path@ == root + rel
                && items[i]->kind is File && (rules matches Some(set) ==> !set.contains(
                (path_bytes(rel), false),
            )),
        recorded(rules, root, items, n).ignored.contains(rel) <==> rel.len() > 0 && exists|i: int|
            0 <= i < n && #[trigger] items[i] is Entry && items[i]->path@ == root + rel && (
            rules matches Some(set) && set.contains(
                (path_bytes(rel), items[i]->kind is Directory),
            )),
    decreases n,
{
    if n > 0 {
        let m = (n - 1) as nat;
        law_snapshot_holds_what_the_walk_met(rules, root, items, m, rel);
        lemma_step_records(rules, root, items, n, rel);
        let before = recorded(rules, root, items, m);
        assert(items[m as int] == items[n - 1]);
        if before.dirs.contains(rel) {
            let i = choose|i: int|
                0 <= i < m && #[trigger] items[i] is Entry && items[i]->path@ == root + rel
                    && items[i]->kind is Directory && (rules matches Some(set) ==> !set.contains(
                    (path_bytes(rel), true),
                ));
            assert(0 <= i < n && items[i] is Entry);
        }
        if before.files.contains_key(rel) {
            let i = choose|i: int|
                0 <= i < m && #[trigger] items[i] is Entry && items[i]->path@ == root + rel
                    && items[i]->kind is File && (rules matches Some(set) ==> !set.contains(
                    (path_bytes(rel), false),
                ));
            assert(0 <= i < n && items[i] is Entry);
        }
        if before.ignored.contains(rel) {
            let i = choose|i: int|
                0 <= i < m && #[trigger] items[i] is Entry && items[i]->path@ == root + rel && (
                rules matches Some(set) && set.contains(
                    (path_bytes(rel), items[i]->kind is Directory),
                ));
            assert(0 <= i < n && items[i] is Entry);
        }
    }
}

/// A file has the time that was read of it last.
pub proof fn law_snapshot_has_the_time_read_last(
    rules: Option<IgnoredSet>,
    root: PathView,
    items: Seq<WalkItem>,
    n: nat,
    i: int,
    rel: PathView,
)
    requires
        0 <= i < n <= items.len(),
        rel.len() > 0,
        items[i] is Entry,
        items[i]->path@ == root + rel,
        items[i]->kind is File,
        rules matches Some(set) ==> !set.contains((path_bytes(rel), false)),
        forall|j: int|
            i < j < n && #[trigger] items[j] is Entry && items[j]->path@ == root + rel
                ==> !(items[j]->kind is File),
    ensures
        recorded(rules, root, items, n).files.contains_key(rel),
        items[i]->kind->File_0 matches MtimeReading::At(time) ==> recorded(
            rules,
            root,
            items,
            n,
        ).files[rel] == time.secs * 1_000_000_000 + time.nanos,
    decreases n,
{
    lemma_step_records(rules, root, items, n, rel);
    if i < n - 1 {
        law_snapshot_has_the_time_read_last(rules, root, items, (n - 1) as nat, i, rel);
        assert(items[n - 1] is Entry && items[n - 1]->path@ == root + rel ==> !(items[n - 1]->kind
            is File));
    }
}

/// More steps never take away what was recorded, and no step no record.
pub proof fn law_records_grow(
    rules: Option<IgnoredSet>,
    root: PathView,
    items: Seq<WalkItem>,
    n: nat,
    m: nat,
)
    requires
        n <= m <= items.len(),
    ensures
        recorded(rules, root, items, 0).dirs == Set::<PathView>::empty(),
        recorded(rules, root, items, 0).files == Map::<PathView, int>::empty(),
        recorded(rules, root, items, 0).ignored == Set::<PathView>::empty(),
        recorded(rules, root, items, n).dirs.subset_of(recorded(rules, root, items, m).dirs),
        recorded(rules, root, items, n).files.dom().subset_of(
            recorded(rules, root, items, m).files.dom(),
        ),
        recorded(rules, root, items, n).ignored.subset_of(recorded(rules, root, items, m).ignored),
    decreases m,
{
    if n < m {
        law_records_grow(rules, root, items, n, (m - 1) as nat);
    }
}

} // verus!
