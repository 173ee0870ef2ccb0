//! The promise of a sync: afterwards the target holds what the source holds, and what is ignored
//! is as it was.

use vstd::prelude::*;
use vstd::relations::*;
use vstd::seq_lib::*;

use crate::convergence::{
    all_ready, apply_all, clear_above, copy_tasks, create_tasks, delete_dir_tasks,
    delete_file_tasks, is_above_one, is_above_parent, is_one_below, is_under_one,
    law_session_applies_its_tasks, lead_apart, lemma_above_splits, lemma_apply_concat, lemma_copies,
    lemma_creations, lemma_dir_deletions, lemma_file_deletions, lemma_held_is_clear,
    lemma_prefix_below_root,
    lemma_prefix_transitive, lemma_roots_apart,
};
use crate::laws::{
    forecast, forecasts, law_dry_run_tells_the_tasks, law_tasks_are_called_for,
    lemma_extra_dirs_are_finite, lemma_replaced_is_foretold, proper, sync_session, to_create, told,
};
use crate::listing::{
    ascending, before, deep_order, lemma_deep_order_is_total, lemma_shallow_order_is_total,
    lemma_sorted_listing_is_ascending, shallow_order,
};
use crate::model::{ancestry, is_blocked, is_seen_of, is_tree, run};
use crate::model::Tree;
use crate::order::lemma_to_sorted_seq;
use crate::path::{
    descends, join_view, law_join_is_under_root, law_join_keeps_order, lemma_path_order_is_total,
    path_order,
};
use crate::path::PathView;
use crate::plan::{
    below, extra_dirs, first_part, is_missing, is_obstacle, is_vacated, lemma_filter_contains,
    lemma_filter_push, lemma_pair_order_is_total, obstacle_filter, obstructs, pair_order,
    pairs_below, plan_for, second_part, stale_files,
};
use crate::plan::{PlanView, SyncOptions};
use crate::session::{all_foretold, copies, plan_tasks, sync_tasks};
use crate::session::{Announcement, Answer, CopyKind, Notice, Task};
use crate::snapshot::SnapshotView;
use crate::time::newer;
use crate::time::Timestamp;

verus! {

/// The file `rel` of the target comes from the source.
pub open spec fn comes_from_source(
    src: SnapshotView,
    dst: SnapshotView,
    opts: SyncOptions,
    rel: PathView,
) -> bool {
    ||| opts.new && src.files.contains_key(rel) && !dst.files.contains_key(rel)
    ||| opts.overwrite && stale_files(src, dst, opts.tolerance@).contains(rel)
}

/// What a sync makes of the target tree `whole`, of which `dst` is seen. What only the target
/// holds stays unless deleting is on; even then what is ignored stays, and the directories above
/// it. What only the source holds comes where creating is on; a file that both hold takes over
/// the source's time where it is stale and overwriting is on.
pub open spec fn synced(
    src: SnapshotView,
    dst: SnapshotView,
    whole: SnapshotView,
    opts: SyncOptions,
) -> SnapshotView {
    SnapshotView {
        dirs: Set::new(
            |p: PathView|
                {
                    ||| whole.dirs.contains(p) && !(opts.delete && extra_dirs(src, dst).contains(p))
                    ||| opts.new && src.dirs.contains(p)
                },
        ),
        files: Map::new(
            |p: PathView|
                {
                    ||| whole.files.contains_key(p) && !(opts.delete && dst.files.contains_key(p)
                        && !src.files.contains_key(p))
                    ||| opts.new && src.files.contains_key(p)
                },
            |p: PathView|
                if comes_from_source(src, dst, opts, p) {
                    src.files[p]
                } else {
                    whole.files[p]
                },
        ),
        ignored: Set::empty(),
    }
}

/// A path that is a directory in one tree and a file in the other can give way: it can be deleted,
/// and nothing ignored is below it.
pub open spec fn clashes_give_way(src: SnapshotView, dst: SnapshotView, opts: SyncOptions) -> bool {
    &&& forall|p: PathView| #[trigger]
        src.files.contains_key(p) && dst.dirs.contains(p) ==> opts.delete && !dst.shelters(p)
    &&& forall|p: PathView| #[trigger]
        src.dirs.contains(p) && dst.files.contains_key(p) ==> opts.delete
}

/// Nothing keeps a sync from creating what it has to: clashes give way, nothing that is ignored in
/// the target has the place of something of the source, and no file is in the place of a target
/// that gets something, or above it.
pub open spec fn way_is_clear(
    target: PathView,
    t: Tree,
    src: SnapshotView,
    dst: SnapshotView,
    opts: SyncOptions,
) -> bool {
    opts.new ==> {
        &&& clashes_give_way(src, dst, opts)
        &&& forall|p: PathView| #[trigger] src.holds(p) ==> !dst.hides(p)
        &&& (exists|p: PathView| #[trigger] src.holds(p)) ==> forall|q: PathView| #[trigger]
            ancestry(target).contains(q) ==> !t.files.contains_key(q)
    }
}

/// Neither root is the other or above it.
pub open spec fn roots_apart(source: PathView, target: PathView) -> bool {
    !source.is_prefix_of(target) && !target.is_prefix_of(source)
}

/// `src` and `dst` are what is seen of the file system below the two roots.
pub open spec fn lies_at(
    source: PathView,
    target: PathView,
    t: Tree,
    src: SnapshotView,
    dst: SnapshotView,
) -> bool {
    &&& t.wf()
    &&& is_seen_of(src, t.below(source))
    &&& is_seen_of(dst, t.below(target))
    &&& src.finite()
    &&& dst.finite()
    &&& proper(src)
    &&& proper(dst)
    &&& target.len() > 0
}

/// The relative paths that a plan overwrites, creates, copies and deletes.
pub open spec fn overwrite_rels(src: SnapshotView, dst: SnapshotView, opts: SyncOptions) -> Seq<
    PathView,
> {
    if opts.overwrite {
        stale_files(src, dst, opts.tolerance@).to_sorted_seq(path_order())
    } else {
        Seq::empty()
    }
}

pub open spec fn new_dir_rels(src: SnapshotView, dst: SnapshotView, opts: SyncOptions) -> Seq<
    PathView,
> {
    if opts.new {
        src.dirs.difference(dst.dirs).to_sorted_seq(shallow_order())
    } else {
        Seq::empty()
    }
}

pub open spec fn new_file_rels(src: SnapshotView, dst: SnapshotView, opts: SyncOptions) -> Seq<
    PathView,
> {
    if opts.new {
        src.files.dom().difference(dst.files.dom()).to_sorted_seq(path_order())
    } else {
        Seq::empty()
    }
}

pub open spec fn delete_file_rels(src: SnapshotView, dst: SnapshotView, opts: SyncOptions) -> Seq<
    PathView,
> {
    if opts.delete {
        dst.files.dom().difference(src.files.dom()).to_sorted_seq(path_order())
    } else {
        Seq::empty()
    }
}

pub open spec fn delete_dir_rels(src: SnapshotView, dst: SnapshotView, opts: SyncOptions) -> Seq<
    PathView,
> {
    if opts.delete {
        extra_dirs(src, dst).to_sorted_seq(deep_order())
    } else {
        Seq::empty()
    }
}

/// What is at `rel` has to go before something can be created.
pub open spec fn goes_first(
    src: SnapshotView,
    dst: SnapshotView,
    opts: SyncOptions,
    rel: PathView,
) -> bool {
    opts.new && opts.delete && obstructs(src, dst, rel)
}

/// The relative paths for which `goes_first` has this answer.
pub open spec fn turn_filter(
    src: SnapshotView,
    dst: SnapshotView,
    opts: SyncOptions,
    answer: bool,
) -> spec_fn(PathView) -> bool {
    |rel: PathView| goes_first(src, dst, opts, rel) == answer
}

proof fn lemma_overwrite_rels(src: SnapshotView, dst: SnapshotView, opts: SyncOptions)
    requires
        src.finite(),
    ensures
        ascending(overwrite_rels(src, dst, opts)),
        forall|p: PathView| #[trigger]
            overwrite_rels(src, dst, opts).contains(p) <==> opts.overwrite && stale_files(
                src,
                dst,
                opts.tolerance@,
            ).contains(p),
{
    let stale = stale_files(src, dst, opts.tolerance@);
    assert(stale.subset_of(src.files.dom()));
    vstd::set_lib::lemma_set_subset_finite(src.files.dom(), stale);
    lemma_sorted_listing_is_ascending(stale);
}

proof fn lemma_other_rels(src: SnapshotView, dst: SnapshotView, opts: SyncOptions)
    requires
        src.finite(),
        dst.finite(),
    ensures
        forall|p: PathView| #[trigger]
            new_dir_rels(src, dst, opts).contains(p) <==> opts.new && src.dirs.contains(p)
                && !dst.dirs.contains(p),
        forall|p: PathView| #[trigger]
            new_file_rels(src, dst, opts).contains(p) <==> opts.new && src.files.contains_key(p)
                && !dst.files.contains_key(p),
        forall|p: PathView| #[trigger]
            delete_file_rels(src, dst, opts).contains(p) <==> opts.delete
                && dst.files.contains_key(p) && !src.files.contains_key(p),
        forall|p: PathView| #[trigger]
            delete_dir_rels(src, dst, opts).contains(p) <==> opts.delete && extra_dirs(
                src,
                dst,
            ).contains(p),
{
    lemma_path_order_is_total();
    lemma_shallow_order_is_total();
    lemma_deep_order_is_total();
    lemma_extra_dirs_are_finite(src, dst);
    lemma_to_sorted_seq(src.dirs.difference(dst.dirs), shallow_order());
    lemma_to_sorted_seq(src.files.dom().difference(dst.files.dom()), path_order());
    lemma_to_sorted_seq(dst.files.dom().difference(src.files.dom()), path_order());
    lemma_to_sorted_seq(extra_dirs(src, dst), deep_order());
}

/// The lists of a sync, by relative paths.
struct Lists {
    overwrite: Seq<PathView>,
    files_first: Seq<PathView>,
    dirs_first: Seq<PathView>,
    new_dirs: Seq<PathView>,
    new_files: Seq<PathView>,
    files_last: Seq<PathView>,
    dirs_last: Seq<PathView>,
}

spec fn lists(src: SnapshotView, dst: SnapshotView, opts: SyncOptions) -> Lists {
    let (yes, no) = (turn_filter(src, dst, opts, true), turn_filter(src, dst, opts, false));
    Lists {
        overwrite: overwrite_rels(src, dst, opts),
        files_first: delete_file_rels(src, dst, opts).filter(yes),
        dirs_first: delete_dir_rels(src, dst, opts).filter(yes),
        new_dirs: new_dir_rels(src, dst, opts),
        new_files: new_file_rels(src, dst, opts),
        files_last: delete_file_rels(src, dst, opts).filter(no),
        dirs_last: delete_dir_rels(src, dst, opts).filter(no),
    }
}

/// What is in the lists.
proof fn lemma_lists(src: SnapshotView, dst: SnapshotView, opts: SyncOptions)
    requires
        src.finite(),
        dst.finite(),
    ensures
        ({
            let l = lists(src, dst, opts);
            &&& forall|p: PathView| #[trigger]
                l.overwrite.contains(p) <==> opts.overwrite && stale_files(
                    src,
                    dst,
                    opts.tolerance@,
                ).contains(p)
            &&& forall|p: PathView| #[trigger]
                l.files_first.contains(p) <==> opts.delete && dst.files.contains_key(p)
                    && !src.files.contains_key(p) && goes_first(src, dst, opts, p)
            &&& forall|p: PathView| #[trigger]
                l.dirs_first.contains(p) <==> opts.delete && extra_dirs(src, dst).contains(p)
                    && goes_first(src, dst, opts, p)
            &&& forall|p: PathView| #[trigger]
                l.new_dirs.contains(p) <==> opts.new && src.dirs.contains(p) && !dst.dirs.contains(
                    p,
                )
            &&& forall|p: PathView| #[trigger]
                l.new_files.contains(p) <==> opts.new && src.files.contains_key(p)
                    && !dst.files.contains_key(p)
            &&& forall|p: PathView| #[trigger]
                l.files_last.contains(p) <==> opts.delete && dst.files.contains_key(p)
                    && !src.files.contains_key(p) && !goes_first(src, dst, opts, p)
            &&& forall|p: PathView| #[trigger]
                l.dirs_last.contains(p) <==> opts.delete && extra_dirs(src, dst).contains(p)
                    && !goes_first(src, dst, opts, p)
        }),
{
    let l = lists(src, dst, opts);
    let (yes, no) = (turn_filter(src, dst, opts, true), turn_filter(src, dst, opts, false));
    let (f, d) = (delete_file_rels(src, dst, opts), delete_dir_rels(src, dst, opts));
    lemma_overwrite_rels(src, dst, opts);
    lemma_other_rels(src, dst, opts);
    assert forall|p: PathView| #[trigger] l.files_first.contains(p) <==> f.contains(p) && yes(p) by {
        lemma_filter_contains(f, p, yes);
    }
    assert forall|p: PathView| #[trigger] l.dirs_first.contains(p) <==> d.contains(p) && yes(p) by {
        lemma_filter_contains(d, p, yes);
    }
    assert forall|p: PathView| #[trigger] l.files_last.contains(p) <==> f.contains(p) && no(p) by {
        lemma_filter_contains(f, p, no);
    }
    assert forall|p: PathView| #[trigger] l.dirs_last.contains(p) <==> d.contains(p) && no(p) by {
        lemma_filter_contains(d, p, no);
    }
}

/// Files are overwritten in the order of their relative paths.
pub proof fn law_overwrites_go_by_relative_path(
    source: PathView,
    target: PathView,
    src: SnapshotView,
    dst: SnapshotView,
    opts: SyncOptions,
)
    requires
        src.finite(),
        proper(src),
    ensures
        plan_for(source, target, src, dst, opts, opts.tolerance@).overwrite_pairs == pairs_below(
            source,
            target,
            overwrite_rels(src, dst, opts),
        ),
{
    let rels = overwrite_rels(src, dst, opts);
    let pairs = pairs_below(source, target, rels);
    if opts.overwrite {
        lemma_overwrite_rels(src, dst, opts);
        let le = pair_order();
        assert forall|i: int, j: int| 0 <= i < j < pairs.len() implies #[trigger] le(
            pairs[i],
            pairs[j],
        ) by {
            assert(before(rels[i], rels[j]));
            assert(rels.contains(rels[i]) && rels.contains(rels[j]));
            assert(src.files.contains_key(rels[i]) && src.files.contains_key(rels[j]));
            law_join_keeps_order(source, rels[i], rels[j]);
            law_join_keeps_order(target, rels[i], rels[j]);
        }
        lemma_pair_order_is_total();
        pairs.lemma_sort_by_ensures(le);
        lemma_sorted_unique(pairs, pairs.sort_by(le), le);
    } else {
        assert(pairs =~= Seq::empty());
    }
}

proof fn lemma_copies_below(
    source: PathView,
    target: PathView,
    kind: CopyKind,
    rels: Seq<PathView>,
)
    requires
        forall|rel: PathView| #[trigger] rels.contains(rel) ==> descends(rel),
    ensures
        copies(kind, pairs_below(source, target, rels)) == copy_tasks(source, target, kind, rels),
{
    let (a, b) = (
        copies(kind, pairs_below(source, target, rels)),
        copy_tasks(source, target, kind, rels),
    );
    assert forall|i: int| 0 <= i < rels.len() implies a[i] == b[i] by {
        assert(rels.contains(rels[i]));
        law_join_is_under_root(source, rels[i]);
        law_join_is_under_root(target, rels[i]);
    }
    assert(a =~= b);
}

proof fn lemma_below_is_append(target: PathView, rels: Seq<PathView>, i: int)
    requires
        0 <= i < rels.len(),
        forall|rel: PathView| #[trigger] rels.contains(rel) ==> descends(rel),
    ensures
        below(target, rels)[i] == target + rels[i],
{
    assert(rels.contains(rels[i]));
    law_join_is_under_root(target, rels[i]);
}

/// What goes first of a list of places are the places of what goes first.
proof fn lemma_filter_below(
    target: PathView,
    src: SnapshotView,
    dst: SnapshotView,
    opts: SyncOptions,
    rels: Seq<PathView>,
    answer: bool,
)
    requires
        forall|rel: PathView| #[trigger] rels.contains(rel) ==> descends(rel),
    ensures
        below(target, rels).filter(obstacle_filter(target, src, dst, opts, answer)) == below(
            target,
            rels.filter(turn_filter(src, dst, opts, answer)),
        ),
    decreases rels.len(),
{
    let (f, g) = (
        obstacle_filter(target, src, dst, opts, answer),
        turn_filter(src, dst, opts, answer),
    );
    if rels.len() == 0 {
        reveal(Seq::filter);
        assert(below(target, rels) =~= Seq::empty());
        assert(below(target, rels.filter(g)) =~= Seq::empty());
    } else {
        let (rest, last) = (rels.drop_last(), rels.last());
        assert(rels =~= rest.push(last));
        assert(rels.contains(last));
        assert forall|rel: PathView| #[trigger] rest.contains(rel) implies descends(rel) by {
            let k = choose|k: int| 0 <= k < rest.len() && rest[k] == rel;
            assert(rels[k] == rel);
            assert(rels.contains(rel));
        }
        lemma_filter_below(target, src, dst, opts, rest, answer);
        law_join_is_under_root(target, last);
        let p = target + last;
        assert(below(target, rels) =~= below(target, rest).push(p));
        assert(is_obstacle(target, src, dst, opts, p) == goes_first(src, dst, opts, last));
        lemma_filter_push(below(target, rest), p, f);
        lemma_filter_push(rest, last, g);
        if g(last) {
            assert(below(target, rest.filter(g).push(last)) =~= below(target, rest.filter(g)).push(p));
        }
    }
}

proof fn lemma_deletions_below(target: PathView, rels: Seq<PathView>)
    requires
        forall|rel: PathView| #[trigger] rels.contains(rel) ==> descends(rel),
    ensures
        below(target, rels).map_values(|p: PathView| Task::DeleteFile(p)) == delete_file_tasks(
            target,
            rels,
        ),
        below(target, rels).map_values(|p: PathView| Task::DeleteDir(p)) == delete_dir_tasks(
            target,
            rels,
        ),
        below(target, rels).map_values(|p: PathView| Task::CreateDir(p)) == create_tasks(
            target,
            rels,
        ),
{
    assert forall|i: int| 0 <= i < rels.len() implies below(target, rels)[i] == target + rels[i] by {
        lemma_below_is_append(target, rels, i);
    }
    assert(below(target, rels).map_values(|p: PathView| Task::DeleteFile(p)) =~= delete_file_tasks(
        target,
        rels,
    ));
    assert(below(target, rels).map_values(|p: PathView| Task::DeleteDir(p)) =~= delete_dir_tasks(
        target,
        rels,
    ));
    assert(below(target, rels).map_values(|p: PathView| Task::CreateDir(p)) =~= create_tasks(
        target,
        rels,
    ));
}

/// The tasks of a sync, by the relative paths that they concern.
proof fn lemma_tasks_by_relative_path(
    source: PathView,
    target: PathView,
    src: SnapshotView,
    dst: SnapshotView,
    opts: SyncOptions,
)
    requires
        src.finite(),
        dst.finite(),
        proper(src),
        proper(dst),
    ensures
        ({
            let plan = plan_for(source, target, src, dst, opts, opts.tolerance@);
            let l = lists(src, dst, opts);
            &&& plan_tasks(first_part(plan, target, src, dst, opts), opts) == copy_tasks(
                source,
                target,
                CopyKind::Overwrite,
                l.overwrite,
            ) + (delete_file_tasks(target, l.files_first) + delete_dir_tasks(target, l.dirs_first))
            &&& plan_tasks(second_part(plan, target, src, dst, opts), opts) == create_tasks(
                target,
                l.new_dirs,
            ) + (copy_tasks(source, target, CopyKind::New, l.new_files) + (delete_file_tasks(
                target,
                l.files_last,
            ) + delete_dir_tasks(target, l.dirs_last)))
        }),
{
    let plan = plan_for(source, target, src, dst, opts, opts.tolerance@);
    let l = lists(src, dst, opts);
    law_overwrites_go_by_relative_path(source, target, src, dst, opts);
    lemma_overwrite_rels(src, dst, opts);
    lemma_other_rels(src, dst, opts);
    lemma_lists(src, dst, opts);
    let (f, d) = (delete_file_rels(src, dst, opts), delete_dir_rels(src, dst, opts));
    assert forall|rel: PathView| #[trigger] l.overwrite.contains(rel) implies descends(rel) by {
        assert(src.files.contains_key(rel));
    }
    assert forall|rel: PathView| #[trigger] d.contains(rel) implies descends(rel) by {
        assert(dst.dirs.contains(rel));
    }
    lemma_copies_below(source, target, CopyKind::Overwrite, l.overwrite);
    lemma_copies_below(source, target, CopyKind::New, l.new_files);
    lemma_filter_below(target, src, dst, opts, f, true);
    lemma_filter_below(target, src, dst, opts, f, false);
    lemma_filter_below(target, src, dst, opts, d, true);
    lemma_filter_below(target, src, dst, opts, d, false);
    assert(plan.delete_files =~= below(target, f));
    assert(plan.delete_dirs =~= below(target, d));
    assert(plan.new_dirs =~= below(target, l.new_dirs));
    assert(plan.new_pairs =~= pairs_below(source, target, l.new_files));
    lemma_deletions_below(target, l.files_first);
    assert forall|rel: PathView| #[trigger] l.dirs_first.contains(rel) || #[trigger]
        l.dirs_last.contains(rel) implies descends(rel) by {
        assert(dst.dirs.contains(rel));
    }
    lemma_deletions_below(target, l.dirs_first);
    lemma_deletions_below(target, l.files_last);
    lemma_deletions_below(target, l.dirs_last);
    lemma_deletions_below(target, l.new_dirs);
    let (a, b) = (
        first_part(plan, target, src, dst, opts),
        second_part(plan, target, src, dst, opts),
    );
    assert(copies(CopyKind::New, Seq::empty()) =~= Seq::empty());
    assert(copies(CopyKind::Overwrite, Seq::empty()) =~= Seq::empty());
    lemma_empty_filters(src, dst, opts);
    assert(plan_tasks(a, opts) =~= copy_tasks(source, target, CopyKind::Overwrite, l.overwrite) + (
    delete_file_tasks(target, l.files_first) + delete_dir_tasks(target, l.dirs_first)));
    assert(plan_tasks(b, opts) =~= create_tasks(target, l.new_dirs) + (copy_tasks(
        source,
        target,
        CopyKind::New,
        l.new_files,
    ) + (delete_file_tasks(target, l.files_last) + delete_dir_tasks(target, l.dirs_last))));
}

/// With an option off its lists are empty.
proof fn lemma_empty_filters(src: SnapshotView, dst: SnapshotView, opts: SyncOptions)
    ensures
        ({
            let l = lists(src, dst, opts);
            &&& !opts.overwrite ==> l.overwrite == Seq::<PathView>::empty()
            &&& !opts.new ==> l.new_dirs == Seq::<PathView>::empty() && l.new_files == Seq::<
                PathView,
            >::empty()
            &&& !opts.delete ==> {
                &&& l.files_first == Seq::<PathView>::empty()
                &&& l.dirs_first == Seq::<PathView>::empty()
                &&& l.files_last == Seq::<PathView>::empty()
                &&& l.dirs_last == Seq::<PathView>::empty()
            }
        }),
{
    reveal(Seq::filter);
}

/// What a file system holds below a path is a tree.
pub proof fn lemma_below_is_tree(t: Tree, root: PathView)
    requires
        t.wf(),
    ensures
        is_tree(t.below(root)),
{
    let s = t.below(root);
    assert forall|a: PathView, b: PathView|
        #![trigger a.is_prefix_of(b), s.dirs.contains(b)]
        s.dirs.contains(b) && a.len() > 0 && a.is_prefix_of(b) implies s.dirs.contains(a) by {
        lemma_prefix_below_root(root, a, b);
        assert(t.holds(root + b));
        assert((root + a).is_prefix_of(root + b));
    }
    assert forall|a: PathView, b: PathView|
        #![trigger a.is_prefix_of(b), s.files.contains_key(b)]
        s.files.contains_key(b) && a.len() > 0 && a.is_prefix_of(b) && a
            != b implies s.dirs.contains(a) by {
        lemma_prefix_below_root(root, a, b);
        assert(t.holds(root + b));
        assert((root + a).is_prefix_of(root + b));
    }
    assert forall|p: PathView| #[trigger] s.dirs.contains(p) implies !s.files.contains_key(p) by {
        assert(t.dirs.contains(root + p));
    }
}

/// What is above the place of a source path in the target is above the target, or is the place
/// of a source directory, or is that place itself.
proof fn lemma_above_place(
    target: PathView,
    src: SnapshotView,
    rel: PathView,
    q: PathView,
)
    requires
        is_tree(src),
        src.dirs.contains(rel) || src.files.contains_key(rel),
        ancestry(target + rel).contains(q),
    ensures
        ancestry(target).contains(q) || q == target + rel || exists|d: PathView| #[trigger]
            src.dirs.contains(d) && q == target + d,
{
    lemma_above_splits(target, rel, q);
    if !q.is_prefix_of(target) {
        let k = q.len() - target.len();
        let d = rel.take(k);
        assert(d.is_prefix_of(rel));
        if d != rel {
            assert(src.dirs.contains(d));
        }
    }
}

/// What is seen of a tree is a tree.
pub proof fn lemma_seen_is_tree(s: SnapshotView, whole: SnapshotView)
    requires
        is_seen_of(s, whole),
        is_tree(whole),
    ensures
        is_tree(s),
{
    assert forall|a: PathView, b: PathView| #[trigger]
        a.is_prefix_of(b) && !s.hides(b) implies !s.hides(a) by {
        if s.hides(a) {
            let e = choose|e: PathView| #[trigger] s.ignored.contains(e) && e.is_prefix_of(a);
            lemma_prefix_transitive(e, a, b);
        }
    }
}

/// All that lies at or below an extra directory can be seen, and is extra too.
proof fn lemma_below_extra(
    src: SnapshotView,
    dst: SnapshotView,
    whole: SnapshotView,
    g: PathView,
    rel: PathView,
)
    requires
        is_seen_of(dst, whole),
        is_tree(whole),
        is_tree(src),
        g.len() > 0,
        extra_dirs(src, dst).contains(g),
        g.is_prefix_of(rel),
    ensures
        !dst.hides(rel),
        !src.dirs.contains(rel),
        rel != g ==> !src.files.contains_key(rel),
        whole.dirs.contains(rel) ==> extra_dirs(src, dst).contains(rel),
{
    if dst.hides(rel) {
        let e = choose|e: PathView| #[trigger] dst.ignored.contains(e) && e.is_prefix_of(rel);
        if e.len() <= g.len() {
            lemma_prefixes_compare(e, g, rel);
            assert(dst.hides(g));
        } else {
            lemma_prefixes_compare(g, e, rel);
            assert(dst.shelters(g));
        }
    }
    if dst.shelters(rel) {
        let e = choose|e: PathView| #[trigger]
            dst.ignored.contains(e) && rel.is_prefix_of(e) && rel != e;
        lemma_prefix_transitive(g, rel, e);
        if g == e {
            assert(e.len() <= rel.len());
            assert(rel.subrange(0, rel.len() as int) =~= rel);
            assert(rel =~= e);
        }
        assert(dst.shelters(g));
    }
}

/// Of two paths above one path, the one with fewer components is above the other.
proof fn lemma_prefixes_compare(a: PathView, b: PathView, p: PathView)
    requires
        a.is_prefix_of(p),
        b.is_prefix_of(p),
        a.len() <= b.len(),
    ensures
        a.is_prefix_of(b),
{
    assert forall|i: int| 0 <= i < a.len() implies a[i] == b[i] by {
        assert(a[i] == p.subrange(0, a.len() as int)[i]);
        assert(b[i] == p.subrange(0, b.len() as int)[i]);
    }
    assert(a =~= b.subrange(0, a.len() as int));
}

/// A sync between two roots that are apart.
struct Scene {
    source: PathView,
    target: PathView,
    t: Tree,
    src: SnapshotView,
    dst: SnapshotView,
    opts: SyncOptions,
}

impl Scene {
    spec fn is_set(self) -> bool {
        &&& lies_at(self.source, self.target, self.t, self.src, self.dst)
        &&& roots_apart(self.source, self.target)
        &&& way_is_clear(self.target, self.t, self.src, self.dst, self.opts)
    }

    spec fn lists(self) -> Lists {
        lists(self.src, self.dst, self.opts)
    }

    /// Behind the overwriting.
    spec fn tree1(self) -> Tree {
        apply_all(self.t, self.step1())
    }

    /// Behind the deletion of files that are in the way.
    spec fn tree2(self) -> Tree {
        apply_all(self.tree1(), self.step2())
    }

    /// Behind the deletion of directories that are in the way.
    spec fn tree3(self) -> Tree {
        apply_all(self.tree2(), self.step3())
    }

    /// Behind the creation of directories.
    spec fn tree4(self) -> Tree {
        apply_all(self.tree3(), self.step4())
    }

    /// Behind the copying of new files.
    spec fn tree5(self) -> Tree {
        apply_all(self.tree4(), self.step5())
    }

    /// Behind the deletion of the other files.
    spec fn tree6(self) -> Tree {
        apply_all(self.tree5(), self.step6())
    }

    /// Behind the deletion of the other directories.
    spec fn tree7(self) -> Tree {
        apply_all(self.tree6(), self.step7())
    }

    spec fn step1(self) -> Seq<Task<PathView>> {
        copy_tasks(self.source, self.target, CopyKind::Overwrite, self.lists().overwrite)
    }

    spec fn step2(self) -> Seq<Task<PathView>> {
        delete_file_tasks(self.target, self.lists().files_first)
    }

    spec fn step3(self) -> Seq<Task<PathView>> {
        delete_dir_tasks(self.target, self.lists().dirs_first)
    }

    spec fn step4(self) -> Seq<Task<PathView>> {
        create_tasks(self.target, self.lists().new_dirs)
    }

    spec fn step5(self) -> Seq<Task<PathView>> {
        copy_tasks(self.source, self.target, CopyKind::New, self.lists().new_files)
    }

    spec fn step6(self) -> Seq<Task<PathView>> {
        delete_file_tasks(self.target, self.lists().files_last)
    }

    spec fn step7(self) -> Seq<Task<PathView>> {
        delete_dir_tasks(self.target, self.lists().dirs_last)
    }

    /// All steps, and the end.
    spec fn steps(self) -> Seq<Task<PathView>> {
        self.step1() + (self.step2() + (self.step3() + (self.step4() + (self.step5() + (self.step6()
            + (self.step7() + done()))))))
    }

    /// All three are trees.
    proof fn lemma_trees(self)
        requires
            self.is_set(),
        ensures
            is_tree(self.src),
            is_tree(self.dst),
            is_tree(self.t.below(self.target)),
    {
        lemma_below_is_tree(self.t, self.source);
        lemma_below_is_tree(self.t, self.target);
        lemma_seen_is_tree(self.src, self.t.below(self.source));
        lemma_seen_is_tree(self.dst, self.t.below(self.target));
    }

    /// Overwriting gives stale files the source's, and changes nothing else.
    proof fn lemma_tree1(self)
        requires
            self.is_set(),
        ensures
            all_ready(self.t, self.step1()),
            ({
                let (t, u, rels) = (self.t, self.tree1(), self.lists().overwrite);
                &&& u.wf()
                &&& u.dirs == t.dirs
                &&& u.files.dom() == t.files.dom()
                &&& forall|p: PathView|
                    !is_one_below(self.target, rels, p) ==> #[trigger] u.files[p] == t.files[p]
                &&& forall|rel: PathView| #[trigger]
                    rels.contains(rel) ==> u.files[self.target + rel] == t.files[self.source + rel]
            }),
    {
        let (source, target, t, src, dst) = (
            self.source,
            self.target,
            self.t,
            self.src,
            self.dst,
        );
        let rels = self.lists().overwrite;
        let u = self.tree1();
        lemma_lists(src, dst, self.opts);
        self.lemma_trees();
        assert forall|rel: PathView| #[trigger] rels.contains(rel) implies t.files.contains_key(
            source + rel,
        ) && t.files.contains_key(target + rel) && !t.dirs.contains(target + rel) && clear_above(
            t,
            target + rel,
        ) by {
            assert(src.files.contains_key(rel) && dst.files.contains_key(rel));
            assert(t.below(source).files.contains_key(rel));
            assert(t.below(target).files.contains_key(rel));
            let p = target + rel;
            assert(t.holds(p));
            assert forall|q: PathView| #[trigger]
                ancestry(p.drop_last()).contains(q) implies !t.files.contains_key(q)
                && t.dirs.contains(q) by {
                lemma_parent_is_above(p);
                lemma_prefix_transitive(q, p.drop_last(), p);
                assert(q != p);
                assert(t.dirs.contains(q));
            }
        }
        assert(lead_apart(rels)) by {
            assert forall|a: PathView, b: PathView| #[trigger]
                rels.contains(a) && #[trigger] rels.contains(b) && a.is_prefix_of(b) implies a
                == b by {
                assert(src.files.contains_key(a) && src.files.contains_key(b));
            }
            assert forall|a: PathView| #[trigger] rels.contains(a) implies a.len() > 0 && descends(
                a,
            ) by {
                assert(src.files.contains_key(a));
            }
        }
        lemma_copies(t, source, target, CopyKind::Overwrite, rels);
        assert forall|q: PathView| is_above_parent(target, rels, q) implies t.dirs.contains(q) by {
            let rel = choose|rel: PathView| #[trigger]
                rels.contains(rel) && ancestry((target + rel).drop_last()).contains(q);
            let p = target + rel;
            assert(t.files.contains_key(p));
            assert(t.holds(p));
            lemma_parent_is_above(p);
            lemma_prefix_transitive(q, p.drop_last(), p);
        }
        assert(u.dirs =~= t.dirs);
        assert forall|p: PathView| is_one_below(target, rels, p) implies t.files.contains_key(
            p,
        ) by {}
        assert(u.files.dom() =~= t.files.dom());
    }

    /// Clearing the way deletes what is in it, and nothing else.
    proof fn lemma_tree3(self)
        requires
            self.is_set(),
        ensures
            all_ready(self.tree1(), self.step2()),
            all_ready(self.tree2(), self.step3()),
            ({
                let (t, u, l) = (self.t, self.tree3(), self.lists());
                &&& u.wf()
                &&& forall|p: PathView| #[trigger]
                    u.dirs.contains(p) <==> t.dirs.contains(p) && !is_under_one(
                        self.target,
                        l.dirs_first,
                        p,
                    )
                &&& forall|p: PathView| #[trigger]
                    u.files.contains_key(p) <==> t.files.contains_key(p) && !is_one_below(
                        self.target,
                        l.files_first,
                        p,
                    ) && !is_under_one(self.target, l.dirs_first, p)
                &&& forall|p: PathView|
                    u.files.contains_key(p) ==> #[trigger] u.files[p] == self.tree1().files[p]
            }),
    {
        let (target, t, src, dst) = (self.target, self.t, self.src, self.dst);
        let l = self.lists();
        let (t1, t2) = (self.tree1(), self.tree2());
        self.lemma_tree1();
        self.lemma_trees();
        lemma_lists(src, dst, self.opts);
        assert forall|p: PathView| #[trigger] is_one_below(target, l.files_first, p) implies
            !t1.dirs.contains(p) && clear_above(t1, p) by {
            let rel = choose|rel: PathView| #[trigger]
                l.files_first.contains(rel) && p == target + rel;
            assert(dst.files.contains_key(rel));
            assert(t.below(target).files.contains_key(rel));
            assert(t1.files.dom().contains(p) == t.files.dom().contains(p));
            lemma_held_is_clear(t1, p);
        }
        lemma_file_deletions(t1, target, l.files_first);
        assert forall|p: PathView| #[trigger] is_one_below(target, l.dirs_first, p) implies
            !is_blocked(t2, p) by {
            let rel = choose|rel: PathView| #[trigger]
                l.dirs_first.contains(rel) && p == target + rel;
            assert(dst.dirs.contains(rel));
            assert(t.below(target).dirs.contains(rel));
            assert(t2.dirs.contains(p));
            lemma_held_is_clear(t2, p);
        }
        lemma_dir_deletions(t2, target, l.dirs_first);
        let u = self.tree3();
        assert forall|p: PathView| #[trigger] u.files.contains_key(p) <==> t.files.contains_key(p)
            && !is_one_below(target, l.files_first, p) && !is_under_one(
            target,
            l.dirs_first,
            p,
        ) by {
            assert(t1.files.dom().contains(p) == t.files.dom().contains(p));
        }
    }

    /// With creating on, no file is left in the place of a source directory.
    proof fn lemma_no_file_for_dir(self, d: PathView)
        requires
            self.is_set(),
            self.opts.new,
            self.src.dirs.contains(d),
        ensures
            !self.tree3().files.contains_key(self.target + d),
    {
        let (src, dst, l) = (self.src, self.dst, self.lists());
        let p = self.target + d;
        self.lemma_tree3();
        self.lemma_trees();
        lemma_lists(src, dst, self.opts);
        if self.t.files.contains_key(p) {
            assert(src.holds(d));
            assert(self.t.below(self.target).files.contains_key(d));
            assert(dst.files.contains_key(d));
            assert(d.take(d.len() as int) =~= d);
            assert(is_vacated(src, dst, d.take(d.len() as int)));
            assert(goes_first(src, dst, self.opts, d));
            assert(l.files_first.contains(d));
            assert(is_one_below(self.target, l.files_first, p));
        }
    }

    /// With creating on, no directory is left in the place of a new file.
    proof fn lemma_no_dir_for_file(self, f: PathView)
        requires
            self.is_set(),
            self.opts.new,
            self.src.files.contains_key(f),
        ensures
            !self.tree3().dirs.contains(self.target + f),
    {
        let (src, dst, l) = (self.src, self.dst, self.lists());
        let p = self.target + f;
        self.lemma_tree3();
        self.lemma_trees();
        lemma_lists(src, dst, self.opts);
        if self.t.dirs.contains(p) {
            assert(src.holds(f));
            assert(self.t.below(self.target).dirs.contains(f));
            assert(dst.dirs.contains(f));
            assert(f.take(f.len() as int) =~= f);
            assert(is_vacated(src, dst, f.take(f.len() as int)));
            assert(goes_first(src, dst, self.opts, f));
            assert(extra_dirs(src, dst).contains(f));
            assert(l.dirs_first.contains(f));
            assert(p.subrange(0, p.len() as int) =~= p);
            assert(is_under_one(self.target, l.dirs_first, p));
        }
    }

    /// Where something is created, no file is above.
    proof fn lemma_no_file_above(self, rel: PathView, q: PathView)
        requires
            self.is_set(),
            self.opts.new,
            self.src.holds(rel),
            ancestry(self.target + rel).contains(q),
            q != self.target + rel || self.src.dirs.contains(rel),
        ensures
            !self.tree3().files.contains_key(q),
    {
        self.lemma_tree3();
        self.lemma_trees();
        lemma_above_place(self.target, self.src, rel, q);
        if ancestry(self.target).contains(q) {
            assert(!self.t.files.contains_key(q));
        } else if q == self.target + rel {
            self.lemma_no_file_for_dir(rel);
        } else {
            let d = choose|d: PathView| #[trigger]
                self.src.dirs.contains(d) && q == self.target + d;
            self.lemma_no_file_for_dir(d);
        }
    }

    /// Creating the directories that the target lacks adds them and what is above them.
    proof fn lemma_tree4(self)
        requires
            self.is_set(),
        ensures
            all_ready(self.tree3(), self.step4()),
            ({
                let u = self.tree4();
                &&& u.wf()
                &&& u.files == self.tree3().files
                &&& forall|q: PathView| #[trigger]
                    u.dirs.contains(q) <==> self.tree3().dirs.contains(q) || is_above_one(
                        self.target,
                        self.lists().new_dirs,
                        q,
                    )
            }),
    {
        let (target, src, dst) = (self.target, self.src, self.dst);
        let rels = self.lists().new_dirs;
        let u = self.tree3();
        self.lemma_tree3();
        lemma_lists(src, dst, self.opts);
        assert forall|q: PathView| #[trigger] is_above_one(target, rels, q) implies
            !u.files.contains_key(q) by {
            let rel = choose|rel: PathView| #[trigger]
                rels.contains(rel) && ancestry(target + rel).contains(q);
            assert(src.dirs.contains(rel));
            self.lemma_no_file_above(rel, q);
        }
        lemma_creations(u, target, rels);
    }

    /// The source is as it was before anything is created.
    proof fn lemma_source_in_tree3(self, rel: PathView)
        requires
            self.is_set(),
            self.t.files.contains_key(self.source + rel),
        ensures
            self.tree3().files.contains_key(self.source + rel),
            self.tree3().files[self.source + rel] == self.t.files[self.source + rel],
    {
        let p = self.source + rel;
        let l = self.lists();
        self.lemma_tree1();
        self.lemma_tree3();
        self.lemma_apart(rel);
        assert(!is_one_below(self.target, l.overwrite, p));
        assert(!is_one_below(self.target, l.files_first, p));
        assert(!is_under_one(self.target, l.dirs_first, p));
    }

    /// No place in the target is at, above or below a place in the source.
    proof fn lemma_apart(self, rel: PathView)
        requires
            roots_apart(self.source, self.target),
        ensures
            forall|rels: Seq<PathView>|
                !(#[trigger] is_one_below(self.target, rels, self.source + rel)),
            forall|rels: Seq<PathView>|
                !(#[trigger] is_above_one(self.target, rels, self.source + rel)),
            forall|rels: Seq<PathView>|
                !(#[trigger] is_under_one(self.target, rels, self.source + rel)),
    {
        let (source, target) = (self.source, self.target);
        let p = source + rel;
        assert forall|rels: Seq<PathView>| !(#[trigger] is_one_below(target, rels, p)) by {
            if is_one_below(target, rels, p) {
                let other = choose|other: PathView| #[trigger]
                    rels.contains(other) && p == target + other;
                lemma_roots_apart(source, target, rel, other);
            }
        }
        assert forall|rels: Seq<PathView>| !(#[trigger] is_above_one(target, rels, p)) by {
            if is_above_one(target, rels, p) {
                let other = choose|other: PathView| #[trigger]
                    rels.contains(other) && ancestry(target + other).contains(p);
                lemma_roots_apart(source, target, rel, other);
            }
        }
        assert forall|rels: Seq<PathView>| !(#[trigger] is_under_one(target, rels, p)) by {
            if is_under_one(target, rels, p) {
                let other = choose|other: PathView| #[trigger]
                    rels.contains(other) && (target + other).is_prefix_of(p);
                lemma_roots_apart(target, source, other, rel);
            }
        }
    }

    /// Copying the files that the target lacks adds them.
    proof fn lemma_tree5(self)
        requires
            self.is_set(),
        ensures
            all_ready(self.tree4(), self.step5()),
            ({
                let (u, t3, l) = (self.tree5(), self.tree3(), self.lists());
                &&& u.wf()
                &&& forall|p: PathView| #[trigger]
                    u.files.contains_key(p) <==> t3.files.contains_key(p) || is_one_below(
                        self.target,
                        l.new_files,
                        p,
                    )
                &&& forall|p: PathView|
                    !is_one_below(self.target, l.new_files, p) ==> #[trigger] u.files[p]
                        == t3.files[p]
                &&& forall|rel: PathView| #[trigger]
                    l.new_files.contains(rel) ==> u.files[self.target + rel] == self.t.files[
                        self.source + rel]
                &&& forall|q: PathView| #[trigger]
                    u.dirs.contains(q) <==> t3.dirs.contains(q) || is_above_one(
                        self.target,
                        l.new_dirs,
                        q,
                    ) || is_above_parent(self.target, l.new_files, q)
            }),
    {
        let (source, target, t, src, dst) = (
            self.source,
            self.target,
            self.t,
            self.src,
            self.dst,
        );
        let l = self.lists();
        let rels = l.new_files;
        let t4 = self.tree4();
        self.lemma_tree3();
        self.lemma_tree4();
        self.lemma_trees();
        lemma_lists(src, dst, self.opts);
        assert forall|rel: PathView| #[trigger] rels.contains(rel) implies t4.files.contains_key(
            source + rel,
        ) && t4.files[source + rel] == t.files[source + rel] && !t4.dirs.contains(target + rel)
            && clear_above(t4, target + rel) by {
            assert(src.files.contains_key(rel));
            assert(t.below(source).files.contains_key(rel));
            self.lemma_source_in_tree3(rel);
            self.lemma_no_dir_for_file(rel);
            let p = target + rel;
            if is_above_one(target, l.new_dirs, p) {
                let d = choose|d: PathView| #[trigger]
                    l.new_dirs.contains(d) && ancestry(target + d).contains(p);
                lemma_prefix_below_root(target, rel, d);
                assert(src.dirs.contains(d));
                assert(rel.is_prefix_of(d));
                assert(src.dirs.contains(rel));
            }
            assert forall|q: PathView| #[trigger]
                ancestry(p.drop_last()).contains(q) implies !t4.files.contains_key(q) by {
                lemma_parent_is_above(p);
                lemma_prefix_transitive(q, p.drop_last(), p);
                assert(ancestry(p).contains(q));
                assert(q != p);
                assert(src.holds(rel));
                self.lemma_no_file_above(rel, q);
            }
        }
        assert(lead_apart(rels)) by {
            assert forall|a: PathView, b: PathView| #[trigger]
                rels.contains(a) && #[trigger] rels.contains(b) && a.is_prefix_of(b) implies a
                == b by {
                assert(src.files.contains_key(a) && src.files.contains_key(b));
            }
        }
        lemma_copies(t4, source, target, CopyKind::New, rels);
    }

    /// Deleting the other extra files removes them, and nothing else.
    proof fn lemma_tree6(self)
        requires
            self.is_set(),
        ensures
            all_ready(self.tree5(), self.step6()),
            ({
                let (u, t5) = (self.tree6(), self.tree5());
                &&& u.wf()
                &&& u.dirs == t5.dirs
                &&& forall|p: PathView| #[trigger]
                    u.files.contains_key(p) <==> t5.files.contains_key(p) && !is_one_below(
                        self.target,
                        self.lists().files_last,
                        p,
                    )
                &&& forall|p: PathView|
                    u.files.contains_key(p) ==> #[trigger] u.files[p] == t5.files[p]
            }),
    {
        let (target, t, src, dst) = (self.target, self.t, self.src, self.dst);
        let l = self.lists();
        let t5 = self.tree5();
        self.lemma_tree3();
        self.lemma_tree5();
        self.lemma_trees();
        lemma_lists(src, dst, self.opts);
        assert forall|p: PathView| #[trigger] is_one_below(target, l.files_last, p) implies
            !t5.dirs.contains(p) && clear_above(t5, p) by {
            let rel = choose|rel: PathView| #[trigger]
                l.files_last.contains(rel) && p == target + rel;
            assert(dst.files.contains_key(rel));
            assert(t.below(target).files.contains_key(rel));
            assert(rel.take(rel.len() as int) =~= rel);
            if self.opts.new && src.dirs.contains(rel) {
                assert(is_vacated(src, dst, rel.take(rel.len() as int)));
                assert(goes_first(src, dst, self.opts, rel));
            }
            self.lemma_created_dirs(rel);
            lemma_held_is_clear(t, p);
            assert forall|q: PathView| #[trigger]
                ancestry(p.drop_last()).contains(q) implies !t5.files.contains_key(q) by {
                lemma_parent_is_above(p);
                lemma_prefix_transitive(q, p.drop_last(), p);
                assert(ancestry(p).contains(q));
                self.lemma_no_new_file_above(rel, q);
            }
        }
        lemma_file_deletions(t5, target, l.files_last);
    }

    /// Nothing is created at or above what does not go first.
    proof fn lemma_no_new_file_above(self, rel: PathView, q: PathView)
        requires
            self.is_set(),
            self.opts.delete,
            !goes_first(self.src, self.dst, self.opts, rel),
            q.is_prefix_of(self.target + rel),
        ensures
            !is_one_below(self.target, self.lists().new_files, q),
    {
        let (src, dst, l) = (self.src, self.dst, self.lists());
        lemma_lists(src, dst, self.opts);
        if is_one_below(self.target, l.new_files, q) {
            let f = choose|f: PathView| #[trigger] l.new_files.contains(f) && q == self.target + f;
            assert(src.files.contains_key(f));
            lemma_prefix_below_root(self.target, f, rel);
            assert(rel.take(f.len() as int) =~= f);
            assert(is_vacated(src, dst, rel.take(f.len() as int)));
            assert(goes_first(src, dst, self.opts, rel));
        }
    }

    /// What is at or above something created is a directory of the source.
    proof fn lemma_created_dirs(self, rel: PathView)
        requires
            self.is_set(),
            rel.len() > 0,
        ensures
            is_above_one(self.target, self.lists().new_dirs, self.target + rel) ==> self.opts.new
                && self.src.dirs.contains(rel),
            is_above_parent(self.target, self.lists().new_files, self.target + rel)
                ==> self.opts.new && self.src.dirs.contains(rel),
    {
        let (target, src) = (self.target, self.src);
        let l = self.lists();
        let p = target + rel;
        self.lemma_trees();
        lemma_lists(src, self.dst, self.opts);
        if is_above_one(target, l.new_dirs, p) {
            let d = choose|d: PathView| #[trigger]
                l.new_dirs.contains(d) && ancestry(target + d).contains(p);
            lemma_prefix_below_root(target, rel, d);
            assert(src.dirs.contains(d));
            assert(rel.is_prefix_of(d));
        }
        if is_above_parent(target, l.new_files, p) {
            let f = choose|f: PathView| #[trigger]
                l.new_files.contains(f) && ancestry((target + f).drop_last()).contains(p);
            lemma_parent_is_above(target + f);
            lemma_prefix_transitive(p, (target + f).drop_last(), target + f);
            lemma_prefix_below_root(target, rel, f);
            assert(src.files.contains_key(f));
            assert(rel.is_prefix_of(f));
            assert(rel != f);
        }
    }

    /// Deleting the other extra directories removes what is at and below them.
    proof fn lemma_tree7(self)
        requires
            self.is_set(),
        ensures
            all_ready(self.tree6(), self.step7()),
            ({
                let (u, t6, rels) = (self.tree7(), self.tree6(), self.lists().dirs_last);
                &&& u.wf()
                &&& forall|p: PathView| #[trigger]
                    u.dirs.contains(p) <==> t6.dirs.contains(p) && !is_under_one(
                        self.target,
                        rels,
                        p,
                    )
                &&& forall|p: PathView| #[trigger]
                    u.files.contains_key(p) <==> t6.files.contains_key(p) && !is_under_one(
                        self.target,
                        rels,
                        p,
                    )
                &&& forall|p: PathView|
                    u.files.contains_key(p) ==> #[trigger] u.files[p] == t6.files[p]
            }),
    {
        let (target, t, src, dst) = (self.target, self.t, self.src, self.dst);
        let l = self.lists();
        let t6 = self.tree6();
        self.lemma_tree3();
        self.lemma_tree5();
        self.lemma_tree6();
        lemma_lists(src, dst, self.opts);
        assert forall|p: PathView| #[trigger] is_one_below(target, l.dirs_last, p) implies
            !is_blocked(t6, p) by {
            let rel = choose|rel: PathView| #[trigger]
                l.dirs_last.contains(rel) && p == target + rel;
            assert(dst.dirs.contains(rel));
            assert(t.below(target).dirs.contains(rel));
            lemma_held_is_clear(t, p);
            assert forall|q: PathView| #[trigger] ancestry(p).contains(q) implies
                !t6.files.contains_key(q) by {
                self.lemma_no_new_file_above(rel, q);
            }
        }
        lemma_dir_deletions(t6, target, l.dirs_last);
    }

    /// An extra directory at or above a path of the target.
    proof fn lemma_under_extra(self, rels: Seq<PathView>, rel: PathView) -> (g: PathView)
        requires
            self.is_set(),
            rels == self.lists().dirs_first || rels == self.lists().dirs_last,
            is_under_one(self.target, rels, self.target + rel),
        ensures
            rels.contains(g),
            self.opts.delete,
            extra_dirs(self.src, self.dst).contains(g),
            g.len() > 0,
            g.is_prefix_of(rel),
            !self.dst.hides(rel),
            !self.src.dirs.contains(rel),
            rel != g ==> !self.src.files.contains_key(rel),
            self.t.below(self.target).dirs.contains(rel) ==> extra_dirs(
                self.src,
                self.dst,
            ).contains(rel),
    {
        let p = self.target + rel;
        self.lemma_trees();
        lemma_lists(self.src, self.dst, self.opts);
        let g = choose|g: PathView| #[trigger]
            rels.contains(g) && (self.target + g).is_prefix_of(p);
        lemma_prefix_below_root(self.target, g, rel);
        assert(extra_dirs(self.src, self.dst).contains(g));
        assert(self.dst.dirs.contains(g));
        lemma_below_extra(self.src, self.dst, self.t.below(self.target), g, rel);
        g
    }

    /// Which directories are left at the end.
    proof fn lemma_final_dirs(self, rel: PathView)
        requires
            self.is_set(),
            rel.len() > 0,
        ensures
            self.tree7().dirs.contains(self.target + rel) == synced(
                self.src,
                self.dst,
                self.t.below(self.target),
                self.opts,
            ).dirs.contains(rel),
    {
        let (target, t, src, dst, opts) = (self.target, self.t, self.src, self.dst, self.opts);
        let l = self.lists();
        let p = target + rel;
        self.lemma_tree3();
        self.lemma_tree5();
        self.lemma_tree6();
        self.lemma_tree7();
        self.lemma_trees();
        self.lemma_created_dirs(rel);
        lemma_lists(src, dst, opts);
        assert(t.dirs.contains(p) == t.below(target).dirs.contains(rel));
        assert(p.subrange(0, p.len() as int) =~= p);
        if is_under_one(target, l.dirs_first, p) {
            let g = self.lemma_under_extra(l.dirs_first, rel);
        }
        if is_under_one(target, l.dirs_last, p) {
            let g = self.lemma_under_extra(l.dirs_last, rel);
        }
        if opts.new && src.dirs.contains(rel) {
            if dst.dirs.contains(rel) {
                assert(t.below(target).dirs.contains(rel));
            } else {
                assert(l.new_dirs.contains(rel));
                assert(ancestry(p).contains(p));
                assert(is_above_one(target, l.new_dirs, p));
            }
        }
        if opts.delete && extra_dirs(src, dst).contains(rel) {
            assert(l.dirs_first.contains(rel) || l.dirs_last.contains(rel));
            assert(is_under_one(target, l.dirs_first, p) || is_under_one(target, l.dirs_last, p));
        }
    }

    /// Which files are left at the end, and what they are.
    proof fn lemma_final_files(self, rel: PathView)
        requires
            self.is_set(),
            rel.len() > 0,
        ensures
            ({
                let s = synced(self.src, self.dst, self.t.below(self.target), self.opts);
                let u = self.tree7();
                &&& u.files.contains_key(self.target + rel) == s.files.contains_key(rel)
                &&& s.files.contains_key(rel) ==> u.files[self.target + rel]
                    == if comes_from_source(self.src, self.dst, self.opts, rel) {
                    self.t.files[self.source + rel]
                } else {
                    self.t.files[self.target + rel]
                }
            }),
    {
        let (target, t, src, dst, opts) = (self.target, self.t, self.src, self.dst, self.opts);
        let l = self.lists();
        let whole = t.below(target);
        let p = target + rel;
        self.lemma_tree1();
        self.lemma_tree3();
        self.lemma_tree5();
        self.lemma_tree6();
        self.lemma_tree7();
        self.lemma_trees();
        lemma_lists(src, dst, opts);
        assert(t.files.contains_key(p) == whole.files.contains_key(rel));
        assert forall|rels: Seq<PathView>| is_one_below(target, rels, p) == #[trigger] rels.contains(
            rel,
        ) by {
            if is_one_below(target, rels, p) {
                let other = choose|other: PathView| #[trigger]
                    rels.contains(other) && p == target + other;
                lemma_prefix_below_root(target, rel, other);
            }
        }
        assert(is_one_below(target, l.overwrite, p) == l.overwrite.contains(rel));
        assert(is_one_below(target, l.files_first, p) == l.files_first.contains(rel));
        assert(is_one_below(target, l.new_files, p) == l.new_files.contains(rel));
        assert(is_one_below(target, l.files_last, p) == l.files_last.contains(rel));
        if is_under_one(target, l.dirs_first, p) {
            let g = self.lemma_under_extra(l.dirs_first, rel);
            assert(dst.dirs.contains(g));
            assert(whole.dirs.contains(g));
        }
        if is_under_one(target, l.dirs_last, p) {
            let g = self.lemma_under_extra(l.dirs_last, rel);
            assert(dst.dirs.contains(g));
            assert(whole.dirs.contains(g));
            if rel == g && opts.new && src.files.contains_key(rel) {
                assert(!dst.files.contains_key(rel));
                assert(rel.take(rel.len() as int) =~= rel);
                assert(is_vacated(src, dst, rel.take(rel.len() as int)));
                assert(goes_first(src, dst, opts, rel));
            }
        }
    }

    /// Nothing below the source changes.
    proof fn lemma_source_stays(self, rel: PathView)
        requires
            self.is_set(),
        ensures
            ({
                let (t, u, p) = (self.t, self.tree7(), self.source + rel);
                &&& u.dirs.contains(p) == t.dirs.contains(p)
                &&& u.files.contains_key(p) == t.files.contains_key(p)
                &&& t.files.contains_key(p) ==> u.files[p] == t.files[p]
            }),
    {
        let l = self.lists();
        let (target, p) = (self.target, self.source + rel);
        self.lemma_tree1();
        self.lemma_tree3();
        self.lemma_tree5();
        self.lemma_tree6();
        self.lemma_tree7();
        self.lemma_apart(rel);
        assert(!is_one_below(target, l.overwrite, p));
        assert(!is_one_below(target, l.files_first, p));
        assert(!is_one_below(target, l.files_last, p));
        assert(!is_one_below(target, l.new_files, p));
        assert(!is_under_one(target, l.dirs_first, p));
        assert(!is_under_one(target, l.dirs_last, p));
        assert(!is_above_one(target, l.new_dirs, p));
        lemma_lists(self.src, self.dst, self.opts);
        if is_above_parent(target, l.new_files, p) {
            let other = choose|other: PathView| #[trigger]
                l.new_files.contains(other) && ancestry((target + other).drop_last()).contains(p);
            assert(self.src.files.contains_key(other));
            lemma_parent_is_above(target + other);
            lemma_prefix_transitive(p, (target + other).drop_last(), target + other);
            lemma_roots_apart(self.source, target, rel, other);
        }
        if self.t.files.contains_key(p) {
            self.lemma_source_in_tree3(rel);
        }
    }
}

proof fn lemma_parent_is_above(p: PathView)
    requires
        p.len() > 0,
    ensures
        p.drop_last().is_prefix_of(p),
        p.drop_last() != p,
        p.drop_last().len() == p.len() - 1,
{
    assert(p.drop_last() =~= p.subrange(0, p.len() - 1));
}

/// What a sync leaves of a file system, and whether it came to its end.
pub open spec fn outcome(
    source: PathView,
    target: PathView,
    t: Tree,
    src: SnapshotView,
    dst: SnapshotView,
    opts: SyncOptions,
    answer: Answer,
    now: Timestamp,
) -> (Tree, bool) {
    run(sync_session(source, target, src, dst, opts), answer, t, now)
}

/// `u` is what a sync should make of `t`.
pub open spec fn is_synced(
    source: PathView,
    target: PathView,
    t: Tree,
    src: SnapshotView,
    dst: SnapshotView,
    opts: SyncOptions,
    u: Tree,
) -> bool {
    let s = synced(src, dst, t.below(target), opts);
    &&& u.wf()
    &&& u.below(target) == s
    &&& forall|rel: PathView| #[trigger]
        s.files.contains_key(rel) && rel.len() > 0 ==> u.files[target + rel]
            == if comes_from_source(src, dst, opts, rel) {
            t.files[source + rel]
        } else {
            t.files[target + rel]
        }
    &&& u.below(source) == t.below(source)
    &&& forall|rel: PathView| #[trigger]
        t.below(source).files.contains_key(rel) ==> u.files[source + rel] == t.files[source + rel]
}

proof fn lemma_sync_between_apart(
    source: PathView,
    target: PathView,
    t: Tree,
    src: SnapshotView,
    dst: SnapshotView,
    opts: SyncOptions,
    answer: Answer,
    now: Timestamp,
)
    requires
        lies_at(source, target, t, src, dst),
        roots_apart(source, target),
        way_is_clear(target, t, src, dst, opts),
        !opts.dry_run,
    ensures
        outcome(source, target, t, src, dst, opts, answer, now).1,
        is_synced(
            source,
            target,
            t,
            src,
            dst,
            opts,
            outcome(source, target, t, src, dst, opts, answer, now).0,
        ),
{
    let scene = Scene { source, target, t, src, dst, opts };
    let u = scene.tree7();
    lemma_run_of_scene(scene, answer, now);
    let (a, b) = (u.below(target), synced(src, dst, t.below(target), opts));
    assert(forall|p: PathView| #[trigger] src.dirs.contains(p) ==> p.len() > 0);
    assert(forall|p: PathView| #[trigger] src.files.contains_key(p) ==> p.len() > 0);
    assert forall|rel: PathView| a.dirs.contains(rel) == b.dirs.contains(rel) by {
        if rel.len() > 0 {
            scene.lemma_final_dirs(rel);
        }
    }
    assert forall|rel: PathView| a.files.contains_key(rel) == b.files.contains_key(rel) by {
        if rel.len() > 0 {
            scene.lemma_final_files(rel);
        }
    }
    assert forall|rel: PathView| a.files.contains_key(rel) implies a.files[rel] == b.files[rel] by {
        scene.lemma_final_files(rel);
        if comes_from_source(src, dst, opts, rel) {
            assert(src.files.contains_key(rel));
            assert(t.below(source).files.contains_key(rel));
        }
    }
    assert(a.dirs =~= b.dirs);
    assert(a.files =~= b.files);
    assert(a == b);
    let (e, f) = (u.below(source), t.below(source));
    assert forall|rel: PathView| e.dirs.contains(rel) == f.dirs.contains(rel) by {
        scene.lemma_source_stays(rel);
    }
    assert forall|rel: PathView| e.files.contains_key(rel) == f.files.contains_key(rel) by {
        scene.lemma_source_stays(rel);
    }
    assert forall|rel: PathView| e.files.contains_key(rel) implies e.files[rel] == f.files[rel] by {
        scene.lemma_source_stays(rel);
    }
    assert(e.dirs =~= f.dirs);
    assert(e.files =~= f.files);
    assert(e == f);
    assert forall|rel: PathView| #[trigger] f.files.contains_key(rel) implies u.files[source + rel]
        == t.files[source + rel] by {
        scene.lemma_source_stays(rel);
    }
    assert forall|rel: PathView| #[trigger] b.files.contains_key(rel) && rel.len()
        > 0 implies u.files[target + rel] == if comes_from_source(src, dst, opts, rel) {
        t.files[source + rel]
    } else {
        t.files[target + rel]
    } by {
        scene.lemma_final_files(rel);
    }
    scene.lemma_tree7();
}

/// The session comes to its end, with the effect of its lists.
proof fn lemma_run_of_scene(scene: Scene, answer: Answer, now: Timestamp)
    requires
        scene.is_set(),
        !scene.opts.dry_run,
    ensures
        outcome(
            scene.source,
            scene.target,
            scene.t,
            scene.src,
            scene.dst,
            scene.opts,
            answer,
            now,
        ) == (scene.tree7(), true),
{
    let queue = sync_tasks(scene.source, scene.target, scene.src, scene.dst, scene.opts);
    lemma_queue_of_scene(scene);
    assert(all_ready(scene.t, scene.step1())) by {
        scene.lemma_tree1();
    }
    assert(all_ready(scene.tree1(), scene.step2()) && all_ready(scene.tree2(), scene.step3())) by {
        scene.lemma_tree3();
    }
    assert(all_ready(scene.tree3(), scene.step4())) by {
        scene.lemma_tree4();
    }
    assert(all_ready(scene.tree4(), scene.step5())) by {
        scene.lemma_tree5();
    }
    assert(all_ready(scene.tree5(), scene.step6())) by {
        scene.lemma_tree6();
    }
    assert(all_ready(scene.tree6(), scene.step7()) && scene.tree7().wf()) by {
        scene.lemma_tree7();
    }
    lemma_steps_chain(scene);
    law_session_applies_its_tasks(queue, answer, scene.t, now);
}

/// The end of a session.
spec fn done() -> Seq<Task<PathView>> {
    seq![Task::Announce(Announcement::Done)]
}

proof fn lemma_steps_chain(scene: Scene)
    requires
        all_ready(scene.t, scene.step1()),
        all_ready(scene.tree1(), scene.step2()),
        all_ready(scene.tree2(), scene.step3()),
        all_ready(scene.tree3(), scene.step4()),
        all_ready(scene.tree4(), scene.step5()),
        all_ready(scene.tree5(), scene.step6()),
        all_ready(scene.tree6(), scene.step7()),
        scene.tree7().wf(),
    ensures
        all_ready(scene.t, scene.steps()),
        apply_all(scene.t, scene.steps()) == scene.tree7(),
{
    let u = scene.tree7();
    let q7 = scene.step7() + done();
    let q6 = scene.step6() + q7;
    let q5 = scene.step5() + q6;
    let q4 = scene.step4() + q5;
    let q3 = scene.step3() + q4;
    let q2 = scene.step2() + q3;
    assert(done().drop_first() =~= Seq::empty());
    assert(all_ready(u, done().drop_first()));
    assert(all_ready(u, done()));
    assert(apply_all(u, done().drop_first()) == u);
    assert(apply_all(u, done()) == u);
    lemma_apply_concat(scene.tree6(), scene.step7(), done());
    lemma_apply_concat(scene.tree5(), scene.step6(), q7);
    lemma_apply_concat(scene.tree4(), scene.step5(), q6);
    lemma_apply_concat(scene.tree3(), scene.step4(), q5);
    lemma_apply_concat(scene.tree2(), scene.step3(), q4);
    lemma_apply_concat(scene.tree1(), scene.step2(), q3);
    lemma_apply_concat(scene.t, scene.step1(), q2);
}

/// The tasks of a sync, step by step.
proof fn lemma_queue_of_scene(scene: Scene)
    requires
        scene.is_set(),
        !scene.opts.dry_run,
    ensures
        sync_tasks(scene.source, scene.target, scene.src, scene.dst, scene.opts) == scene.steps(),
{
    let (target, src, dst, opts) = (scene.target, scene.src, scene.dst, scene.opts);
    lemma_tasks_by_relative_path(scene.source, target, src, dst, opts);
    let plan = plan_for(scene.source, target, src, dst, opts, opts.tolerance@);
    let a = plan_tasks(first_part(plan, target, src, dst, opts), opts);
    let b = plan_tasks(second_part(plan, target, src, dst, opts), opts);
    let queue = sync_tasks(scene.source, target, src, dst, opts);
    assert(all_foretold(target, src, dst, opts, b) =~= b);
    assert(queue =~= (a + b).push(Task::Announce(Announcement::Done)));
    lemma_regroup(
        scene.step1(),
        scene.step2(),
        scene.step3(),
        scene.step4(),
        scene.step5(),
        scene.step6(),
        scene.step7(),
        Task::Announce(Announcement::Done),
    );
}

proof fn lemma_regroup<T>(
    a: Seq<T>,
    b: Seq<T>,
    c: Seq<T>,
    d: Seq<T>,
    e: Seq<T>,
    f: Seq<T>,
    g: Seq<T>,
    x: T,
)
    ensures
        ((a + (b + c)) + (d + (e + (f + g)))).push(x) == a + (b + (c + (d + (e + (f + (g
            + seq![x])))))),
{
    assert(((a + (b + c)) + (d + (e + (f + g)))).push(x) =~= a + (b + (c + (d + (e + (f + (g
        + seq![x])))))));
}

/// A sync of a tree with itself has nothing to do.
proof fn lemma_sync_with_itself(
    root: PathView,
    t: Tree,
    src: SnapshotView,
    opts: SyncOptions,
    answer: Answer,
    now: Timestamp,
)
    requires
        !opts.dry_run,
        t.wf(),
        is_seen_of(src, t.below(root)),
        src.finite(),
    ensures
        outcome(root, root, t, src, src, opts, answer, now) == (t, true),
        synced(src, src, t.below(root), opts) == t.below(root),
{
    let (s, whole) = (synced(src, src, t.below(root), opts), t.below(root));
    assert(s.dirs =~= whole.dirs);
    assert(s.files =~= whole.files);
    assert(s == whole);
    lemma_nothing_planned(root, root, src, src, opts);
    let plan = plan_for(root, root, src, src, opts, opts.tolerance@);
    let queue = sync_tasks(root, root, src, src, opts);
    let done = seq![Task::<PathView>::Announce(Announcement::Done)];
    reveal(Seq::filter);
    assert(first_part(plan, root, src, src, opts) =~= PlanView::empty());
    assert(second_part(plan, root, src, src, opts) =~= PlanView::empty());
    assert(plan_tasks(PlanView::empty(), opts) =~= Seq::empty());
    assert(all_foretold(root, src, src, opts, Seq::empty()) =~= Seq::empty());
    assert(queue =~= done);
    assert(done.drop_first() =~= Seq::empty());
    assert(all_ready(t, done.drop_first()));
    assert(apply_all(t, done.drop_first()) == t);
    law_session_applies_its_tasks(queue, answer, t, now);
}

/// A sync takes the target to what the options say of the source, and leaves the source alone.
///
/// Run on a file system that serves every request it can, the session comes to its end. Below the
/// target there is what `synced` tells: a file that comes from the source has its content and
/// its time, and any other is as it was. Below the source there is what was there.
pub proof fn law_sync_takes_target_to_source(
    source: PathView,
    target: PathView,
    t: Tree,
    src: SnapshotView,
    dst: SnapshotView,
    opts: SyncOptions,
    answer: Answer,
    now: Timestamp,
)
    requires
        lies_at(source, target, t, src, dst),
        (source == target && src == dst) || roots_apart(source, target),
        way_is_clear(target, t, src, dst, opts),
        !opts.dry_run,
    ensures
        outcome(source, target, t, src, dst, opts, answer, now).1,
        is_synced(
            source,
            target,
            t,
            src,
            dst,
            opts,
            outcome(source, target, t, src, dst, opts, answer, now).0,
        ),
{
    if source == target {
        lemma_sync_with_itself(source, t, src, opts, answer, now);
    } else {
        lemma_sync_between_apart(source, target, t, src, dst, opts, answer, now);
    }
}

/// What a dry run tells of a task that it would carry out.
pub open spec fn prospect(task: Task<PathView>) -> Notice<PathView> {
    match task {
        Task::Announce(a) => Notice::Announced(a),
        Task::ForetellDir(p) | Task::CreateDir(p) => Notice::WouldCreateDir(p),
        Task::Copy { kind, src, dst } => Notice::WouldCopy { kind, src, dst },
        Task::DeleteFile(p) => Notice::WouldDeleteFile(p),
        Task::DeleteDir(p) => Notice::WouldDeleteDir(p),
    }
}

/// What a dry run tells of tasks that it would all carry out.
pub open spec fn prospects(queue: Seq<Task<PathView>>) -> Seq<Notice<PathView>> {
    queue.map_values(|task: Task<PathView>| prospect(task))
}

proof fn lemma_all_is_forecast(queue: Seq<Task<PathView>>, t: Tree)
    requires
        forall|p: PathView| #[trigger] queue.contains(Task::CreateDir(p)) ==> !t.holds(p),
    ensures
        forecasts(queue, t) == prospects(queue),
    decreases queue.len(),
{
    if queue.len() == 0 {
        assert(prospects(queue) =~= Seq::empty());
    } else {
        let rest = queue.drop_first();
        assert(queue.contains(queue[0]));
        assert forall|p: PathView| #[trigger] rest.contains(Task::CreateDir(p)) implies !t.holds(
            p,
        ) by {
            let k = choose|k: int| 0 <= k < rest.len() && rest[k] == Task::<PathView>::CreateDir(p);
            assert(queue[k + 1] == Task::<PathView>::CreateDir(p));
            assert(queue.contains(Task::CreateDir(p)));
        }
        lemma_all_is_forecast(rest, t);
        assert(prospects(queue) =~= seq![prospect(queue[0])] + prospects(rest));
        assert(forecast(queue[0], t) =~= seq![prospect(queue[0])]);
    }
}

/// A dry run of a sync that nothing stands in the way of tells every planned operation, in order,
/// and so also that a directory would be created in the place of a file that would be deleted.
pub proof fn law_dry_run_tells_every_operation(
    source: PathView,
    target: PathView,
    t: Tree,
    src: SnapshotView,
    dst: SnapshotView,
    opts: SyncOptions,
    answer: Answer,
    now: Timestamp,
)
    requires
        lies_at(source, target, t, src, dst),
        way_is_clear(target, t, src, dst, opts),
        opts.dry_run,
    ensures
        told(sync_session(source, target, src, dst, opts), answer, t, now) == prospects(
            sync_tasks(source, target, src, dst, opts),
        ),
{
    let s = sync_session(source, target, src, dst, opts);
    law_dry_run_tells_the_tasks(s, answer, t, now);
    lemma_below_is_tree(t, source);
    lemma_below_is_tree(t, target);
    lemma_seen_is_tree(src, t.below(source));
    assert forall|p: PathView| #[trigger] s.queue.contains(Task::CreateDir(p)) implies !t.holds(
        p,
    ) by {
        lemma_replaced_is_foretold(source, target, src, dst, opts, p);
        law_tasks_are_called_for(source, target, src, dst, opts, Task::CreateDir(p));
        let rel = choose|rel: PathView| #[trigger]
            to_create(src, dst, opts, rel) && p == join_view(target, rel);
        assert(src.dirs.contains(rel));
        assert(src.holds(rel));
        law_join_is_under_root(target, rel);
        if t.holds(p) {
            assert(t.below(target).dirs.contains(rel) || t.below(target).files.contains_key(rel));
            assert(dst.files.contains_key(rel));
        }
    }
    lemma_all_is_forecast(s.queue, t);
}

/// A full sync makes the target a mirror of the source, as far as it is seen: the same
/// directories, but for those above something ignored, the same files, and no file that the
/// source has a newer one of.
pub proof fn law_full_sync_mirrors(
    src: SnapshotView,
    dst: SnapshotView,
    whole: SnapshotView,
    opts: SyncOptions,
    rel: PathView,
)
    requires
        is_seen_of(dst, whole),
        !dst.hides(rel),
        opts.overwrite,
        opts.new,
        opts.delete,
    ensures
        synced(src, dst, whole, opts).dirs.contains(rel) <==> src.dirs.contains(rel)
            || dst.dirs.contains(rel) && dst.shelters(rel),
        synced(src, dst, whole, opts).files.contains_key(rel) <==> src.files.contains_key(rel),
        src.files.contains_key(rel) ==> !newer(
            src.files[rel],
            synced(src, dst, whole, opts).files[rel],
            opts.tolerance@,
        ),
{
    if src.files.contains_key(rel) && dst.files.contains_key(rel) {
        assert(dst.files[rel] == whole.files[rel]);
    }
}

/// Without ignore rules the mirror is exact.
pub proof fn law_full_sync_mirrors_whole_trees(
    src: SnapshotView,
    dst: SnapshotView,
    opts: SyncOptions,
)
    requires
        dst.ignored == Set::<PathView>::empty(),
        opts.overwrite,
        opts.new,
        opts.delete,
    ensures
        synced(src, dst, dst, opts).dirs == src.dirs,
        synced(src, dst, dst, opts).files.dom() == src.files.dom(),
{
    let s = synced(src, dst, dst, opts);
    assert(is_seen_of(dst, dst));
    assert forall|rel: PathView| s.dirs.contains(rel) == src.dirs.contains(rel) by {
        law_full_sync_mirrors(src, dst, dst, opts, rel);
    }
    assert forall|rel: PathView| s.files.contains_key(rel) == src.files.contains_key(rel) by {
        law_full_sync_mirrors(src, dst, dst, opts, rel);
    }
    assert(s.dirs =~= src.dirs);
    assert(s.files.dom() =~= src.files.dom());
}

/// Nothing is stale, missing or extra.
spec fn is_settled(src: SnapshotView, dst: SnapshotView, opts: SyncOptions) -> bool {
    &&& opts.overwrite ==> forall|p: PathView|
        !(#[trigger] stale_files(src, dst, opts.tolerance@).contains(p))
    &&& opts.new ==> forall|p: PathView| !(#[trigger] is_missing(src, dst, p))
    &&& opts.delete ==> forall|p: PathView| !(#[trigger] extra_dirs(src, dst).contains(p))
    &&& opts.delete ==> forall|p: PathView| #[trigger]
        dst.files.contains_key(p) ==> src.files.contains_key(p)
}

proof fn lemma_settled_plan(
    source: PathView,
    target: PathView,
    src: SnapshotView,
    dst: SnapshotView,
    opts: SyncOptions,
)
    requires
        is_settled(src, dst, opts),
    ensures
        plan_for(source, target, src, dst, opts, opts.tolerance@) == PlanView::empty(),
{
    let plan = plan_for(source, target, src, dst, opts, opts.tolerance@);
    if opts.overwrite {
        let stale = stale_files(src, dst, opts.tolerance@);
        assert(stale =~= Set::empty());
        lemma_empty_listing(path_order());
        let none = pairs_below(source, target, Seq::empty());
        assert(none =~= Seq::empty());
        lemma_pair_order_is_total();
        none.lemma_sort_by_ensures(pair_order());
        to_multiset_len(none);
        to_multiset_len(none.sort_by(pair_order()));
        assert(plan.overwrite_pairs =~= Seq::empty());
    }
    if opts.new {
        assert forall|p: PathView| !src.dirs.difference(dst.dirs).contains(p) by {
            assert(!is_missing(src, dst, p));
        }
        assert forall|p: PathView| !src.files.dom().difference(dst.files.dom()).contains(p) by {
            assert(!is_missing(src, dst, p));
        }
        assert(src.dirs.difference(dst.dirs) =~= Set::empty());
        assert(src.files.dom().difference(dst.files.dom()) =~= Set::empty());
        lemma_empty_listing(path_order());
        lemma_empty_listing(shallow_order());
    }
    if opts.delete {
        assert(extra_dirs(src, dst) =~= Set::empty());
        assert(dst.files.dom().difference(src.files.dom()) =~= Set::empty());
        lemma_empty_listing(path_order());
        lemma_empty_listing(deep_order());
    }
    assert(plan =~= PlanView::empty());
}

proof fn lemma_nothing_planned(
    source: PathView,
    target: PathView,
    src: SnapshotView,
    dst: SnapshotView,
    opts: SyncOptions,
)
    requires
        src == dst,
    ensures
        plan_for(source, target, src, dst, opts, opts.tolerance@) == PlanView::empty(),
{
    lemma_settled_plan(source, target, src, dst, opts);
}

/// Behind a sync there is nothing to do: if `after` is seen of the target then, and the same is
/// ignored, the next plan with the same options is empty.
pub proof fn law_second_sync_is_empty(
    source: PathView,
    target: PathView,
    src: SnapshotView,
    dst: SnapshotView,
    whole: SnapshotView,
    opts: SyncOptions,
    after: SnapshotView,
)
    requires
        is_seen_of(dst, whole),
        is_seen_of(after, synced(src, dst, whole, opts)),
        after.ignored == dst.ignored,
        opts.new ==> forall|p: PathView| #[trigger] src.holds(p) ==> !dst.hides(p),
    ensures
        plan_for(source, target, src, after, opts, opts.tolerance@) == PlanView::empty(),
{
    let s = synced(src, dst, whole, opts);
    assert forall|p: PathView| after.hides(p) == dst.hides(p) by {
        if after.hides(p) {
            let e = choose|e: PathView| #[trigger] after.ignored.contains(e) && e.is_prefix_of(p);
            assert(dst.ignored.contains(e));
        }
        if dst.hides(p) {
            let e = choose|e: PathView| #[trigger] dst.ignored.contains(e) && e.is_prefix_of(p);
            assert(after.ignored.contains(e));
        }
    }
    if opts.overwrite {
        assert forall|p: PathView|
            !(#[trigger] stale_files(src, after, opts.tolerance@).contains(p)) by {
            if src.files.contains_key(p) && after.files.contains_key(p) {
                assert(after.files[p] == s.files[p]);
                if whole.files.contains_key(p) {
                    assert(dst.files.contains_key(p));
                    assert(dst.files[p] == whole.files[p]);
                }
            }
        }
    }
    if opts.new {
        assert forall|p: PathView| !(#[trigger] is_missing(src, after, p)) by {
            if is_missing(src, after, p) {
                assert(src.holds(p));
            }
        }
    }
    if opts.delete {
        assert forall|p: PathView| !(#[trigger] extra_dirs(src, after).contains(p)) by {
            if extra_dirs(src, after).contains(p) {
                assert(dst.dirs.contains(p));
                assert(dst.shelters(p));
                let e = choose|e: PathView| #[trigger]
                    dst.ignored.contains(e) && p.is_prefix_of(e) && p != e;
                assert(after.ignored.contains(e));
                assert(after.shelters(p));
            }
        }
        assert forall|p: PathView| #[trigger] after.files.contains_key(p) implies
            src.files.contains_key(p) by {
            if !src.files.contains_key(p) {
                assert(dst.files.contains_key(p));
            }
        }
    }
    lemma_settled_plan(source, target, src, after, opts);
}

proof fn lemma_empty_listing(le: spec_fn(PathView, PathView) -> bool)
    requires
        total_ordering(le) || le == path_order() || le == shallow_order() || le == deep_order(),
    ensures
        Set::<PathView>::empty().to_sorted_seq(le) == Seq::<PathView>::empty(),
{
    lemma_path_order_is_total();
    lemma_shallow_order_is_total();
    lemma_deep_order_is_total();
    let none = Set::<PathView>::empty().to_seq();
    assert(none =~= Seq::empty());
    none.lemma_sort_by_ensures(le);
    to_multiset_len(none);
    to_multiset_len(none.sort_by(le));
    assert(none.sort_by(le) =~= Seq::empty());
}

} // verus!
