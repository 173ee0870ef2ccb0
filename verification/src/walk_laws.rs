//! What a snapshot tells of the walk that it records.

use vstd::prelude::*;

use crate::convergence::lemma_prefix_transitive;
use crate::laws::{is_called_for, law_tasks_are_called_for, proper, to_copy, to_create};
use crate::mirror::{lemma_below_is_tree, lemma_seen_is_tree};
use crate::model::{is_seen_of, is_tree};
use crate::model::Tree;
use crate::path::{descends, join_view, law_join_is_under_root, well_placed, wf_path};
use crate::path::PathView;
use crate::plan::extra_dirs;
use crate::plan::SyncOptions;
use crate::rules::ignored;
use crate::rules::IgnoredSet;
use crate::session::sync_tasks;
use crate::session::Task;
use crate::snapshot::{item_visit, recorded};
use crate::snapshot::{EntryKind, MtimeReading, SnapshotView, Visit, WalkItem};

verus! {

/// Step `i` of the walk records the directory `rel`.
pub open spec fn records_dir(
    rules: Option<IgnoredSet>,
    root: PathView,
    items: Seq<WalkItem>,
    i: int,
    rel: PathView,
) -> bool {
    item_visit(rules, root, items[i]) == Visit::Directory(rel)
}

/// Step `i` of the walk records the file `rel`.
pub open spec fn records_file(
    rules: Option<IgnoredSet>,
    root: PathView,
    items: Seq<WalkItem>,
    i: int,
    rel: PathView,
) -> bool {
    item_visit(rules, root, items[i]) == Visit::File(rel)
}

/// Step `i` of the walk comes to the ignored path `rel`.
pub open spec fn records_ignored(
    rules: Option<IgnoredSet>,
    root: PathView,
    items: Seq<WalkItem>,
    i: int,
    rel: PathView,
) -> bool {
    item_visit(rules, root, items[i]) == Visit::Ignored(rel)
}

/// A snapshot holds exactly the directories, files and ignored paths that the walk came to and
/// recorded.
pub proof fn law_snapshot_holds_what_was_recorded(
    rules: Option<IgnoredSet>,
    root: PathView,
    items: Seq<WalkItem>,
    n: nat,
    rel: PathView,
)
    requires
        n <= items.len(),
    ensures
        recorded(rules, root, items, n).dirs.contains(rel) <==> exists|i: int|
            0 <= i < n && #[trigger] records_dir(rules, root, items, i, rel),
        recorded(rules, root, items, n).files.contains_key(rel) <==> exists|i: int|
            0 <= i < n && #[trigger] records_file(rules, root, items, i, rel),
        recorded(rules, root, items, n).ignored.contains(rel) <==> exists|i: int|
            0 <= i < n && #[trigger] records_ignored(rules, root, items, i, rel),
    decreases n,
{
    if n > 0 {
        let m = (n - 1) as nat;
        law_snapshot_holds_what_was_recorded(rules, root, items, m, rel);
        let (before, after) = (recorded(rules, root, items, m), recorded(rules, root, items, n));
        let (new_dir, new_file, new_ignored) = (
            records_dir(rules, root, items, m as int, rel),
            records_file(rules, root, items, m as int, rel),
            records_ignored(rules, root, items, m as int, rel),
        );
        assert(after.dirs.contains(rel) <==> before.dirs.contains(rel) || new_dir);
        assert(after.files.contains_key(rel) <==> before.files.contains_key(rel) || new_file);
        assert(after.ignored.contains(rel) <==> before.ignored.contains(rel) || new_ignored);
        if before.dirs.contains(rel) {
            let i = choose|i: int|
                0 <= i < m && #[trigger] records_dir(rules, root, items, i, rel);
            assert(0 <= i < n && records_dir(rules, root, items, i, rel));
        }
        if before.files.contains_key(rel) {
            let i = choose|i: int|
                0 <= i < m && #[trigger] records_file(rules, root, items, i, rel);
            assert(0 <= i < n && records_file(rules, root, items, i, rel));
        }
        if before.ignored.contains(rel) {
            let i = choose|i: int|
                0 <= i < m && #[trigger] records_ignored(rules, root, items, i, rel);
            assert(0 <= i < n && records_ignored(rules, root, items, i, rel));
        }
    }
}

/// A file has the time that the last step that recorded it read.
pub proof fn law_last_time_stands(
    rules: Option<IgnoredSet>,
    root: PathView,
    items: Seq<WalkItem>,
    n: nat,
    i: int,
    rel: PathView,
)
    requires
        0 <= i < n <= items.len(),
        records_file(rules, root, items, i, rel),
        forall|j: int| i < j < n ==> !(#[trigger] records_file(rules, root, items, j, rel)),
    ensures
        recorded(rules, root, items, n).files[rel] == items[i]->kind->File_0->At_0@,
    decreases n,
{
    if i < n - 1 {
        assert(!records_file(rules, root, items, n - 1, rel));
        law_last_time_stands(rules, root, items, (n - 1) as nat, i, rel);
    }
}

/// What the rules ignore is neither a directory nor a file of the snapshot.
pub proof fn law_ignored_is_left_out(
    rules: Option<IgnoredSet>,
    root: PathView,
    items: Seq<WalkItem>,
    n: nat,
    rel: PathView,
)
    requires
        n <= items.len(),
    ensures
        ignored(rules, root, root + rel, true) ==> !recorded(rules, root, items, n).dirs.contains(
            rel,
        ),
        ignored(rules, root, root + rel, false) ==> !recorded(
            rules,
            root,
            items,
            n,
        ).files.contains_key(rel),
{
    law_snapshot_holds_what_was_recorded(rules, root, items, n, rel);
    if recorded(rules, root, items, n).dirs.contains(rel) {
        let i = choose|i: int| 0 <= i < n && #[trigger] records_dir(rules, root, items, i, rel);
        lemma_recorded_path(rules, root, items[i], rel);
    }
    if recorded(rules, root, items, n).files.contains_key(rel) {
        let i = choose|i: int| 0 <= i < n && #[trigger] records_file(rules, root, items, i, rel);
        lemma_recorded_path(rules, root, items[i], rel);
    }
}

/// An entry that is recorded, as ignored or not, lies at its relative path below the root and is
/// not the root.
proof fn lemma_recorded_path(
    rules: Option<IgnoredSet>,
    root: PathView,
    item: WalkItem,
    rel: PathView,
)
    requires
        item_visit(rules, root, item) == Visit::Directory(rel) || item_visit(rules, root, item)
            == Visit::File(rel) || item_visit(rules, root, item) == Visit::Ignored(rel),
    ensures
        item is Entry,
        item->path@ == root + rel,
        rel.len() > 0,
        rel == item->path@.skip(root.len() as int),
        ignored(rules, root, item->path@, item->kind is Directory) <==> item_visit(
            rules,
            root,
            item,
        ) is Ignored,
{
    let path = item->path@;
    assert(root.is_prefix_of(path));
    assert(path =~= root + rel);
    if rel.len() == 0 {
        assert(path =~= root);
    }
}

/// The walk never goes below a directory that the rules ignore.
pub open spec fn walks_around(
    rules: Option<IgnoredSet>,
    root: PathView,
    items: Seq<WalkItem>,
) -> bool {
    forall|i: int, k: int|
        0 <= i < items.len() && #[trigger] items[i] is Entry && root.len() < k
            < items[i]->path@.len() ==> !ignored(
            rules,
            root,
            #[trigger] items[i]->path@.take(k),
            true,
        )
}

/// Nothing below a directory that the rules ignore is in the snapshot, if the walk goes around
/// such directories.
pub proof fn law_ignored_subtree_is_left_out(
    rules: Option<IgnoredSet>,
    root: PathView,
    items: Seq<WalkItem>,
    n: nat,
    rel: PathView,
    k: int,
)
    requires
        n <= items.len(),
        walks_around(rules, root, items),
        0 < k < rel.len(),
        ignored(rules, root, root + rel.take(k), true),
    ensures
        !recorded(rules, root, items, n).dirs.contains(rel),
        !recorded(rules, root, items, n).files.contains_key(rel),
{
    law_snapshot_holds_what_was_recorded(rules, root, items, n, rel);
    let s = recorded(rules, root, items, n);
    if s.dirs.contains(rel) || s.files.contains_key(rel) {
        let i = if s.dirs.contains(rel) {
            choose|i: int| 0 <= i < n && #[trigger] records_dir(rules, root, items, i, rel)
        } else {
            choose|i: int| 0 <= i < n && #[trigger] records_file(rules, root, items, i, rel)
        };
        lemma_recorded_path(rules, root, items[i], rel);
        let path = items[i]->path@;
        assert(items[i] is Entry);
        assert(path.take(root.len() + k) =~= root + rel.take(k));
    }
}

/// A path can be the root of a walk, absolute or relative: it is neither empty nor a prefix alone.
pub open spec fn is_anchored(root: PathView) -> bool {
    root.len() > 0 && !(root.len() == 1 && root[0] is Prefix)
}

proof fn lemma_recorded_leads_down(
    rules: Option<IgnoredSet>,
    root: PathView,
    item: WalkItem,
    rel: PathView,
)
    requires
        item_visit(rules, root, item) == Visit::Directory(rel) || item_visit(rules, root, item)
            == Visit::File(rel),
        is_anchored(root),
        wf_path(item->path@),
    ensures
        rel.len() > 0,
        descends(rel),
{
    lemma_recorded_path(rules, root, item, rel);
    let path = item->path@;
    assert(path[0] == root[0]);
    assert forall|j: int| 0 <= j < rel.len() implies (#[trigger] rel[j] is Normal || rel[j]
        is ParentDir) by {
        let m = root.len() + j;
        assert(rel[j] == path[m]);
        assert(well_placed(path, m));
    }
}

/// A snapshot holds paths that lead down from the root of the walk.
pub proof fn law_snapshots_are_proper(
    rules: Option<IgnoredSet>,
    root: PathView,
    items: Seq<WalkItem>,
    n: nat,
)
    requires
        n <= items.len(),
        is_anchored(root),
        forall|i: int|
            0 <= i < items.len() && #[trigger] items[i] is Entry ==> wf_path(items[i]->path@),
    ensures
        proper(recorded(rules, root, items, n)),
{
    let s = recorded(rules, root, items, n);
    assert forall|rel: PathView| #[trigger] s.dirs.contains(rel) implies rel.len() > 0 && descends(
        rel,
    ) by {
        law_snapshot_holds_what_was_recorded(rules, root, items, n, rel);
        let i = choose|i: int| 0 <= i < n && #[trigger] records_dir(rules, root, items, i, rel);
        assert(items[i] is Entry);
        lemma_recorded_leads_down(rules, root, items[i], rel);
    }
    assert forall|rel: PathView| #[trigger] s.files.contains_key(rel) implies rel.len() > 0
        && descends(rel) by {
        law_snapshot_holds_what_was_recorded(rules, root, items, n, rel);
        let i = choose|i: int| 0 <= i < n && #[trigger] records_file(rules, root, items, i, rel);
        assert(items[i] is Entry);
        lemma_recorded_leads_down(rules, root, items[i], rel);
    }
}

pub proof fn lemma_recorded_is_finite(
    rules: Option<IgnoredSet>,
    root: PathView,
    items: Seq<WalkItem>,
    n: nat,
)
    ensures
        recorded(rules, root, items, n).finite(),
    decreases n,
{
    if n > 0 {
        lemma_recorded_is_finite(rules, root, items, (n - 1) as nat);
    }
}

/// A walk of the tree at `root`, with its rules.
pub struct Walk {
    pub rules: Option<IgnoredSet>,
    pub root: PathView,
    pub items: Seq<WalkItem>,
}

impl Walk {
    /// The root can be walked, and all entries have well-formed paths.
    pub open spec fn is_sound(self) -> bool {
        &&& is_anchored(self.root)
        &&& forall|i: int|
            0 <= i < self.items.len() && #[trigger] self.items[i] is Entry ==> wf_path(
                self.items[i]->path@,
            )
    }

    /// The snapshot that the whole walk records.
    pub open spec fn snapshot(self) -> SnapshotView {
        recorded(self.rules, self.root, self.items, self.items.len())
    }

    /// The rules of the walk ignore what is at `rel` below the root.
    pub open spec fn ignores(self, rel: PathView, is_dir: bool) -> bool {
        ignored(self.rules, self.root, self.root + rel, is_dir)
    }

    /// Something above `rel` is ignored, as a directory.
    pub open spec fn ignores_above(self, rel: PathView) -> bool {
        exists|k: int| 0 < k < rel.len() && self.ignores(#[trigger] rel.take(k), true)
    }

    /// What is at `rel` below the root is ignored, or something above it is.
    pub open spec fn excludes(self, rel: PathView, is_dir: bool) -> bool {
        self.ignores(rel, is_dir) || self.ignores_above(rel)
    }

    /// Step `i` comes to the root, or tells what the file system holds. Of an ignored file it need
    /// not tell the time, and where it comes to something else, such as a link, the file system
    /// holds neither a directory nor a regular file.
    pub open spec fn tells(self, t: Tree, i: int) -> bool {
        &&& self.items[i] matches WalkItem::Entry { path, kind }
        &&& path@ != self.root ==> {
            &&& self.root.is_prefix_of(path@)
            &&& match kind {
                EntryKind::Directory => t.dirs.contains(path@),
                EntryKind::File(MtimeReading::At(time)) => t.files.contains_key(path@)
                    && t.files[path@].time == time,
                EntryKind::File(_) => t.files.contains_key(path@) && ignored(
                    self.rules,
                    self.root,
                    path@,
                    false,
                ),
                EntryKind::Other => !t.dirs.contains(path@) && (t.files.contains_key(path@)
                    ==> ignored(self.rules, self.root, path@, false)),
            }
        }
    }

    /// Step `i` comes to `rel` below the root.
    pub open spec fn comes_to(self, i: int, rel: PathView) -> bool {
        self.items[i] matches WalkItem::Entry { path, .. } && path@ == self.root + rel
    }

    /// The walk lists what the file system holds below the root: every step tells what is there,
    /// none is below an ignored directory, and nothing else is left out.
    pub open spec fn lists(self, t: Tree) -> bool {
        &&& forall|i: int| 0 <= i < self.items.len() ==> #[trigger] self.tells(t, i)
        &&& walks_around(self.rules, self.root, self.items)
        &&& forall|rel: PathView|
            rel.len() > 0 && #[trigger] t.holds(self.root + rel) && !self.ignores_above(rel)
                ==> exists|i: int| 0 <= i < self.items.len() && #[trigger] self.comes_to(i, rel)
    }

    /// The walk comes to nothing but directories and regular files.
    pub open spec fn meets_no_others(self, t: Tree) -> bool {
        forall|i: int|
            0 <= i < self.items.len() && (#[trigger] self.items[i]) is Entry
                && self.items[i]->path@ != self.root ==> t.holds(self.items[i]->path@)
    }

    /// A step that comes to something below the root.
    proof fn lemma_step(self, t: Tree, i: int, rel: PathView)
        requires
            t.wf(),
            self.lists(t),
            0 <= i < self.items.len(),
            rel.len() > 0,
            self.comes_to(i, rel),
        ensures
            !self.ignores_above(rel),
            t.dirs.contains(self.root + rel) <==> self.items[i]->kind is Directory,
            t.files.contains_key(self.root + rel) && !self.ignores(rel, false)
                ==> self.items[i]->kind == EntryKind::File(
                MtimeReading::At(t.files[self.root + rel].time),
            ),
            item_visit(self.rules, self.root, self.items[i]) == if self.ignores(
                rel,
                t.dirs.contains(self.root + rel),
            ) {
                Visit::Ignored(rel)
            } else if t.dirs.contains(self.root + rel) {
                Visit::Directory(rel)
            } else if t.files.contains_key(self.root + rel) {
                Visit::File(rel)
            } else {
                Visit::Skip
            },
    {
        let p = self.root + rel;
        let item = self.items[i];
        assert(self.tells(t, i));
        assert(p != self.root);
        assert(p.skip(self.root.len() as int) =~= rel);
        if self.ignores_above(rel) {
            let k = choose|k: int| 0 < k < rel.len() && self.ignores(#[trigger] rel.take(k), true);
            assert(p.take(self.root.len() + k) =~= self.root + rel.take(k));
            assert(self.items[i] is Entry);
            assert(!ignored(
                self.rules,
                self.root,
                self.items[i]->path@.take(self.root.len() + k),
                true,
            ));
        }
    }
}

/// What a walk records of a tree that it lists: the directories and the files that are not
/// excluded, and what is ignored itself, but for what lies below something ignored.
pub proof fn law_walk_shows_the_tree(w: Walk, t: Tree, rel: PathView)
    requires
        t.wf(),
        w.lists(t),
    ensures
        w.snapshot().dirs.contains(rel) <==> t.below(w.root).dirs.contains(rel) && !w.excludes(
            rel,
            true,
        ),
        w.snapshot().files.contains_key(rel) <==> t.below(w.root).files.contains_key(rel)
            && !w.excludes(rel, false),
        w.snapshot().files.contains_key(rel) ==> w.snapshot().files[rel] == t.below(
            w.root,
        ).files[rel],
        w.snapshot().ignored.contains(rel) ==> rel.len() > 0 && w.ignores(
            rel,
            t.dirs.contains(w.root + rel),
        ) && !w.ignores_above(rel),
        t.holds(w.root + rel) && rel.len() > 0 ==> (w.snapshot().ignored.contains(rel)
            <==> w.ignores(rel, t.dirs.contains(w.root + rel)) && !w.ignores_above(rel)),
{
    let (rules, root, items) = (w.rules, w.root, w.items);
    let n = items.len();
    let p = root + rel;
    let s = w.snapshot();
    law_snapshot_holds_what_was_recorded(rules, root, items, n, rel);
    if s.dirs.contains(rel) || s.files.contains_key(rel) || s.ignored.contains(rel) {
        let i = if s.dirs.contains(rel) {
            choose|i: int| 0 <= i < n && #[trigger] records_dir(rules, root, items, i, rel)
        } else if s.files.contains_key(rel) {
            choose|i: int| 0 <= i < n && #[trigger] records_file(rules, root, items, i, rel)
        } else {
            choose|i: int| 0 <= i < n && #[trigger] records_ignored(rules, root, items, i, rel)
        };
        lemma_recorded_path(rules, root, items[i], rel);
        assert(w.comes_to(i, rel));
        w.lemma_step(t, i, rel);
        if s.files.contains_key(rel) {
            let j = choose|j: int|
                0 <= j < n && #[trigger] records_file(rules, root, items, j, rel);
            lemma_recorded_path(rules, root, items[j], rel);
            assert(w.comes_to(j, rel));
            w.lemma_step(t, j, rel);
            lemma_recorded_time(w, t, n, rel);
        }
        if s.ignored.contains(rel) {
            let j = choose|j: int|
                0 <= j < n && #[trigger] records_ignored(rules, root, items, j, rel);
            lemma_recorded_path(rules, root, items[j], rel);
            assert(w.comes_to(j, rel));
            w.lemma_step(t, j, rel);
        }
    }
    if rel.len() > 0 && t.holds(p) && !w.ignores_above(rel) {
        let i = choose|i: int| 0 <= i < items.len() && #[trigger] w.comes_to(i, rel);
        w.lemma_step(t, i, rel);
        assert(t.dirs.contains(p) && !w.ignores(rel, true) ==> records_dir(
            rules,
            root,
            items,
            i,
            rel,
        ));
        assert(t.files.contains_key(p) && !w.ignores(rel, false) ==> records_file(
            rules,
            root,
            items,
            i,
            rel,
        ));
        assert(w.ignores(rel, t.dirs.contains(p)) ==> records_ignored(rules, root, items, i, rel));
    }
}

/// Every recorded time is that of the file.
proof fn lemma_recorded_time(w: Walk, t: Tree, n: nat, rel: PathView)
    requires
        t.wf(),
        w.lists(t),
        n <= w.items.len(),
        recorded(w.rules, w.root, w.items, n).files.contains_key(rel),
    ensures
        recorded(w.rules, w.root, w.items, n).files[rel] == t.files[w.root + rel].time@,
    decreases n,
{
    if n > 0 {
        let m = (n - 1) as nat;
        if records_file(w.rules, w.root, w.items, m as int, rel) {
            lemma_recorded_path(w.rules, w.root, w.items[m as int], rel);
            assert(w.comes_to(m as int, rel));
            w.lemma_step(t, m as int, rel);
        } else {
            lemma_recorded_time(w, t, m, rel);
        }
    }
}

/// Of what is excluded, the part that is not below anything ignored.
pub proof fn lemma_first_ignored(w: Walk, t: Tree, rel: PathView) -> (e: PathView)
    requires
        t.wf(),
        rel.len() > 0,
        t.holds(w.root + rel),
        w.excludes(rel, t.dirs.contains(w.root + rel)),
    ensures
        e.len() > 0,
        e.is_prefix_of(rel),
        t.holds(w.root + e),
        w.ignores(e, t.dirs.contains(w.root + e)),
        !w.ignores_above(e),
    decreases rel.len(),
{
    let p = w.root + rel;
    if w.ignores_above(rel) {
        let k = choose|k: int| 0 < k < rel.len() && w.ignores(#[trigger] rel.take(k), true);
        let d = rel.take(k);
        assert(d =~= rel.subrange(0, k));
        assert((w.root + d) =~= p.subrange(0, (w.root + d).len() as int));
        assert((w.root + d).is_prefix_of(p));
        assert(w.root + d != p);
        assert(t.dirs.contains(w.root + d));
        let e = lemma_first_ignored(w, t, d);
        lemma_prefix_transitive(e, d, rel);
        e
    } else {
        assert(rel.subrange(0, rel.len() as int) =~= rel);
        rel
    }
}

/// The snapshot of a walk that lists a tree is what is seen of it: a path of the tree is hidden
/// exactly when it is excluded. It is a tree itself, and without rules it is the whole tree.
pub proof fn law_snapshot_is_seen_of_the_tree(w: Walk, t: Tree)
    requires
        t.wf(),
        w.lists(t),
    ensures
        is_seen_of(w.snapshot(), t.below(w.root)),
        is_tree(w.snapshot()),
        forall|rel: PathView|
            rel.len() > 0 && #[trigger] t.holds(w.root + rel) ==> (w.snapshot().hides(rel)
                <==> w.excludes(rel, t.dirs.contains(w.root + rel))),
        w.rules is None ==> w.snapshot() == t.below(w.root),
{
    let (s, whole) = (w.snapshot(), t.below(w.root));
    assert forall|rel: PathView| rel.len() > 0 && #[trigger] t.holds(w.root + rel) implies (s.hides(
        rel,
    ) <==> w.excludes(rel, t.dirs.contains(w.root + rel))) by {
        if s.hides(rel) {
            let e = choose|e: PathView| #[trigger] s.ignored.contains(e) && e.is_prefix_of(rel);
            law_walk_shows_the_tree(w, t, e);
            if e != rel {
                assert(e.len() < rel.len()) by {
                    if e.len() == rel.len() {
                        assert(rel.subrange(0, rel.len() as int) =~= rel);
                    }
                }
                assert(rel.take(e.len() as int) =~= e);
                let (q, p) = (w.root + e, w.root + rel);
                assert(q =~= p.subrange(0, q.len() as int));
                assert(q.is_prefix_of(p));
                assert(t.dirs.contains(q));
                assert(w.ignores(rel.take(e.len() as int), true));
            }
        }
        if w.excludes(rel, t.dirs.contains(w.root + rel)) {
            let e = lemma_first_ignored(w, t, rel);
            law_walk_shows_the_tree(w, t, e);
            assert(s.ignored.contains(e));
        }
    }
    assert forall|rel: PathView| #[trigger] s.dirs.contains(rel) <==> whole.dirs.contains(rel)
        && !s.hides(rel) by {
        law_walk_shows_the_tree(w, t, rel);
        assert(whole.dirs.contains(rel) ==> t.holds(w.root + rel));
    }
    assert forall|rel: PathView| #[trigger] s.files.contains_key(rel) <==> whole.files.contains_key(
        rel,
    ) && !s.hides(rel) by {
        law_walk_shows_the_tree(w, t, rel);
        assert(whole.files.contains_key(rel) ==> t.holds(w.root + rel) && !t.dirs.contains(
            w.root + rel,
        ));
    }
    assert forall|rel: PathView| #[trigger] s.files.contains_key(rel) implies s.files[rel]
        == whole.files[rel] by {
        law_walk_shows_the_tree(w, t, rel);
    }
    lemma_below_is_tree(t, w.root);
    lemma_seen_is_tree(s, whole);
    if w.rules is None {
        assert forall|rel: PathView| !s.ignored.contains(rel) by {
            law_walk_shows_the_tree(w, t, rel);
        }
        assert(forall|rel: PathView| !s.hides(rel));
        assert(s.ignored =~= Set::empty());
        assert(s.dirs =~= whole.dirs);
        assert(s.files =~= whole.files);
    }
}

/// With rules, a snapshot is the one without less exactly what is ignored or lies below an ignored
/// directory. So no rule brings back what is below an ignored directory.
pub proof fn law_rules_take_out_what_is_excluded(w: Walk, all: Walk, t: Tree, rel: PathView)
    requires
        t.wf(),
        w.lists(t),
        all.lists(t),
        all.root == w.root,
        all.rules is None,
    ensures
        w.snapshot().dirs.contains(rel) <==> all.snapshot().dirs.contains(rel) && !w.excludes(
            rel,
            true,
        ),
        w.snapshot().files.contains_key(rel) <==> all.snapshot().files.contains_key(rel)
            && !w.excludes(rel, false),
        w.snapshot().files.contains_key(rel) ==> w.snapshot().files[rel]
            == all.snapshot().files[rel],
{
    law_walk_shows_the_tree(w, t, rel);
    law_walk_shows_the_tree(all, t, rel);
}

/// The task itself is none of a path that the rules ignore: it copies no such file of the source,
/// creates no such directory, and deletes no such path of the target.
pub open spec fn names_nothing_ignored(source: Walk, target: Walk, task: Task<PathView>) -> bool {
    let n = target.root.len() as int;
    match task {
        Task::Announce(_) => true,
        Task::ForetellDir(p) => !source.ignores(p.skip(n), true),
        Task::Copy { kind: _, src: _, dst } => !source.ignores(dst.skip(n), false),
        Task::CreateDir(p) => !source.ignores(p.skip(n), true),
        Task::DeleteFile(p) => !target.ignores(p.skip(n), false),
        Task::DeleteDir(p) => !target.ignores(p.skip(n), true),
    }
}

/// No task is one of a path that the rules ignore.
pub proof fn law_no_task_names_anything_ignored(
    source: Walk,
    target: Walk,
    opts: SyncOptions,
    task: Task<PathView>,
)
    requires
        source.is_sound(),
        target.is_sound(),
        sync_tasks(
            source.root,
            target.root,
            source.snapshot(),
            target.snapshot(),
            opts,
        ).contains(task),
    ensures
        names_nothing_ignored(source, target, task),
{
    let (src, dst) = (source.snapshot(), target.snapshot());
    law_snapshots_are_proper(source.rules, source.root, source.items, source.items.len());
    law_snapshots_are_proper(target.rules, target.root, target.items, target.items.len());
    lemma_task_names_a_path(source, target, opts, task);
    if !(task is Announce) {
        let rel = choose|rel: PathView| #[trigger] is_task_of(source, target, opts, task, rel);
        assert(src.holds(rel) || dst.holds(rel));
        law_join_is_under_root(target.root, rel);
        law_ignored_is_left_out(source.rules, source.root, source.items, source.items.len(), rel);
        law_ignored_is_left_out(target.rules, target.root, target.items, target.items.len(), rel);
    }
}

/// The task is one of the relative path `rel`, which the snapshots call for.
pub open spec fn is_task_of(
    source: Walk,
    target: Walk,
    opts: SyncOptions,
    task: Task<PathView>,
    rel: PathView,
) -> bool {
    let (src, dst) = (source.snapshot(), target.snapshot());
    match task {
        Task::Announce(_) => false,
        Task::ForetellDir(p) => to_create(src, dst, opts, rel) && p == target.root + rel,
        Task::Copy { kind: _, src: from, dst: to } => {
            &&& to_copy(src, dst, opts, rel)
            &&& from == source.root + rel
            &&& to == target.root + rel
        },
        Task::CreateDir(p) => to_create(src, dst, opts, rel) && p == target.root + rel,
        Task::DeleteFile(p) => dst.files.contains_key(rel) && !src.files.contains_key(rel) && p
            == target.root + rel,
        Task::DeleteDir(p) => extra_dirs(src, dst).contains(rel) && p == target.root + rel,
    }
}

/// Every task but an announcement is one of a relative path that the snapshots call for.
pub proof fn lemma_task_names_a_path(
    source: Walk,
    target: Walk,
    opts: SyncOptions,
    task: Task<PathView>,
)
    requires
        source.is_sound(),
        target.is_sound(),
        sync_tasks(
            source.root,
            target.root,
            source.snapshot(),
            target.snapshot(),
            opts,
        ).contains(task),
    ensures
        task is Announce || exists|rel: PathView| #[trigger]
            is_task_of(source, target, opts, task, rel) && rel.len() > 0 && descends(rel),
{
    let (src, dst) = (source.snapshot(), target.snapshot());
    lemma_recorded_is_finite(source.rules, source.root, source.items, source.items.len());
    lemma_recorded_is_finite(target.rules, target.root, target.items, target.items.len());
    law_snapshots_are_proper(source.rules, source.root, source.items, source.items.len());
    law_snapshots_are_proper(target.rules, target.root, target.items, target.items.len());
    law_tasks_are_called_for(source.root, target.root, src, dst, opts, task);
    assert(is_called_for(source.root, target.root, src, dst, opts, task));
    match task {
        Task::Announce(_) => {},
        Task::Copy { kind: _, src: from, dst: to } => {
            let rel = choose|rel: PathView| #[trigger]
                to_copy(src, dst, opts, rel) && from == join_view(source.root, rel) && to
                    == join_view(target.root, rel);
            assert(src.files.contains_key(rel));
            law_join_is_under_root(source.root, rel);
            law_join_is_under_root(target.root, rel);
            assert(is_task_of(source, target, opts, task, rel));
        },
        Task::CreateDir(p) | Task::ForetellDir(p) => {
            let rel = choose|rel: PathView| #[trigger]
                to_create(src, dst, opts, rel) && p == join_view(target.root, rel);
            assert(src.dirs.contains(rel));
            law_join_is_under_root(target.root, rel);
            assert(is_task_of(source, target, opts, task, rel));
        },
        Task::DeleteFile(p) => {
            let rel = choose|rel: PathView| #[trigger]
                dst.files.contains_key(rel) && !src.files.contains_key(rel) && p == join_view(
                    target.root,
                    rel,
                );
            law_join_is_under_root(target.root, rel);
            assert(is_task_of(source, target, opts, task, rel));
        },
        Task::DeleteDir(p) => {
            let rel = choose|rel: PathView| #[trigger]
                extra_dirs(src, dst).contains(rel) && p == join_view(target.root, rel);
            assert(dst.dirs.contains(rel));
            law_join_is_under_root(target.root, rel);
            assert(is_task_of(source, target, opts, task, rel));
        },
    }
}

} // verus!
