//! What a sync leaves of a file system, path by path.

use vstd::prelude::*;

use crate::convergence::lemma_prefix_below_root;
use crate::ignore_laws::{at, endangers, lemma_run_keeps};
use crate::laws::{
    law_dry_run_leaves_everything, law_requests_come_from_tasks, leaves_file, proper, sync_session,
};
use crate::laws::asks_for;
use crate::mirror::{law_sync_takes_target_to_source, lies_at, outcome, roots_apart, way_is_clear};
use crate::model::{is_tree, requests};
use crate::model::Tree;
use crate::path::PathView;
use crate::plan::SyncOptions;
use crate::session::{Answer, Stage, Task};
use crate::snapshot::SnapshotView;
use crate::task_laws::{law_sync_does_what_differs, law_tasks_lie_below_the_roots};
use crate::time::Timestamp;

verus! {

/// No task is on a file of both trees that the source has no newer one of, nor on a directory
/// above it to be deleted.
#[verifier::rlimit(40)]
proof fn lemma_no_task_on_up_to_date(
    source: PathView,
    target: PathView,
    src: SnapshotView,
    dst: SnapshotView,
    opts: SyncOptions,
    rel: PathView,
    task: Task<PathView>,
)
    requires
        src.finite(),
        dst.finite(),
        proper(src),
        proper(dst),
        is_tree(src),
        is_tree(dst),
        src.files.contains_key(rel),
        dst.files.contains_key(rel),
        !opts.overwrite || src.files[rel] - dst.files[rel] <= opts.tolerance.secs * 1_000_000_000
            + opts.tolerance.nanos,
        crate::session::sync_tasks(source, target, src, dst, opts).contains(task),
    ensures
        match task {
            Task::Copy { kind: _, src: _, dst: to } => to != target + rel,
            Task::DeleteFile(p) => p != target + rel,
            Task::DeleteDir(p) => !p.is_prefix_of(target + rel),
            _ => true,
        },
{
    let p = target + rel;
    law_tasks_lie_below_the_roots(source, target, src, dst, opts, task);
    assert(p.skip(target.len() as int) =~= rel);
    match task {
        Task::Copy { kind: _, src: _, dst: to } => {
            law_sync_does_what_differs(source, target, src, dst, opts, to.skip(target.len() as int));
        },
        Task::DeleteFile(q) => {
            law_sync_does_what_differs(source, target, src, dst, opts, q.skip(target.len() as int));
        },
        Task::DeleteDir(q) => {
            let x = q.skip(target.len() as int);
            law_sync_does_what_differs(source, target, src, dst, opts, x);
            lemma_prefix_below_root(target, x, rel);
            if x.is_prefix_of(rel) {
                assert(dst.dirs.contains(x));
                assert(x != rel);
            }
        },
        _ => {},
    }
}

/// A file of both trees that is not newer in the source by more than the tolerance is left alone:
/// whatever a sync is answered, and whatever its options are, it neither copies to it, nor stamps
/// it, nor removes it or a directory above it.
pub proof fn law_up_to_date_files_are_left(
    source: PathView,
    target: PathView,
    src: SnapshotView,
    dst: SnapshotView,
    opts: SyncOptions,
    answers: Seq<Answer>,
    i: int,
    rel: PathView,
)
    requires
        src.finite(),
        dst.finite(),
        proper(src),
        proper(dst),
        is_tree(src),
        is_tree(dst),
        src.files.contains_key(rel),
        dst.files.contains_key(rel),
        src.files[rel] - dst.files[rel] <= opts.tolerance.secs * 1_000_000_000
            + opts.tolerance.nanos,
        0 <= i < answers.len(),
    ensures
        leaves_file(
            requests(sync_session(source, target, src, dst, opts), answers)[i],
            target + rel,
        ),
{
    let s = sync_session(source, target, src, dst, opts);
    let r = requests(s, answers)[i];
    law_requests_come_from_tasks(s, answers, i);
    if !(r is Finished) {
        let (task, stage, a) = choose|task: Task<PathView>, stage: Stage, a: Answer|
            s.queue.contains(task) && #[trigger] asks_for(task, s.mode, stage, a, r);
        lemma_no_task_on_up_to_date(source, target, src, dst, opts, rel, task);
    }
}

/// After any sync, ended or given up, a file of both trees that is not newer in the source by more
/// than the tolerance has the content and the time that it had.
pub proof fn law_up_to_date_files_stay(
    source: PathView,
    target: PathView,
    t: Tree,
    src: SnapshotView,
    dst: SnapshotView,
    opts: SyncOptions,
    answer: Answer,
    now: Timestamp,
    rel: PathView,
)
    requires
        src.finite(),
        dst.finite(),
        proper(src),
        proper(dst),
        is_tree(src),
        is_tree(dst),
        src.files.contains_key(rel),
        dst.files.contains_key(rel),
        src.files[rel] - dst.files[rel] <= opts.tolerance.secs * 1_000_000_000
            + opts.tolerance.nanos,
        t.wf(),
        t.files.contains_key(target + rel),
    ensures
        ({
            let u = outcome(source, target, t, src, dst, opts, answer, now).0;
            &&& u.files.contains_key(target + rel)
            &&& u.files[target + rel] == t.files[target + rel]
        }),
{
    let s = sync_session(source, target, src, dst, opts);
    let p = target + rel;
    assert forall|task: Task<PathView>| #[trigger] s.queue.contains(task) implies !endangers(
        task,
        p,
        at(t, p),
    ) by {
        lemma_no_task_on_up_to_date(source, target, src, dst, opts, rel, task);
    }
    lemma_run_keeps(s, answer, t, now, p);
}

/// What lies outside the target is left as it is, whatever becomes of the sync. Only a directory
/// above the target may come to be.
pub proof fn law_nothing_outside_the_target_changes(
    source: PathView,
    target: PathView,
    t: Tree,
    src: SnapshotView,
    dst: SnapshotView,
    opts: SyncOptions,
    answer: Answer,
    now: Timestamp,
    p: PathView,
)
    requires
        src.finite(),
        dst.finite(),
        proper(src),
        proper(dst),
        p.len() > 0,
        !target.is_prefix_of(p),
        !p.is_prefix_of(target) || t.holds(p),
    ensures
        at(outcome(source, target, t, src, dst, opts, answer, now).0, p) == at(t, p),
{
    let s = sync_session(source, target, src, dst, opts);
    assert forall|task: Task<PathView>| #[trigger] s.queue.contains(task) implies !endangers(
        task,
        p,
        at(t, p),
    ) by {
        law_tasks_lie_below_the_roots(source, target, src, dst, opts, task);
        match task {
            Task::Copy { kind: _, src: _, dst: to } => {
                lemma_neither_above(target, to, p);
                let above = to.drop_last();
                assert(above =~= target + above.skip(target.len() as int));
                lemma_neither_above(target, above, p);
            },
            Task::ForetellDir(q) | Task::CreateDir(q) | Task::DeleteFile(q) | Task::DeleteDir(q) => {
                lemma_neither_above(target, q, p);
            },
            Task::Announce(_) => {},
        }
    }
    lemma_run_keeps(s, answer, t, now, p);
}

/// A path that is neither under `root` nor above it is not above anything under `root`, nor under
/// it.
proof fn lemma_neither_above(root: PathView, q: PathView, p: PathView)
    requires
        q == root + q.skip(root.len() as int),
        root.len() <= q.len(),
        !root.is_prefix_of(p),
    ensures
        q != p,
        !q.is_prefix_of(p),
        p.is_prefix_of(q) ==> p.is_prefix_of(root),
{
    assert(q.subrange(0, root.len() as int) =~= root);
    if q.is_prefix_of(p) {
        assert(p.subrange(0, root.len() as int) =~= root);
    }
    if p.is_prefix_of(q) {
        if p.len() >= root.len() {
            assert(p.subrange(0, root.len() as int) =~= root);
        } else {
            assert(root.subrange(0, p.len() as int) =~= p);
        }
    }
}

/// A dry run of a sync leaves the file system as it is, and comes to its end.
pub proof fn law_dry_syncs_leave_everything(
    source: PathView,
    target: PathView,
    t: Tree,
    src: SnapshotView,
    dst: SnapshotView,
    opts: SyncOptions,
    answer: Answer,
    now: Timestamp,
)
    requires
        opts.dry_run,
    ensures
        outcome(source, target, t, src, dst, opts, answer, now) == (t, true),
{
    law_dry_run_leaves_everything(sync_session(source, target, src, dst, opts), answer, t, now);
}

/// What a sync makes of every path below the target, where nothing keeps it from creating what it
/// has to. It comes to its end. A file that only the source has comes if creating is on, and one
/// that is newer there by more than the tolerance if overwriting is on, with the content and the
/// time that it has in the source. What only the target has goes if deleting is on, but for what is
/// ignored and the directories above that. All else is as it was.
#[verifier::rlimit(40)]
pub proof fn law_sync_path_by_path(
    source: PathView,
    target: PathView,
    t: Tree,
    src: SnapshotView,
    dst: SnapshotView,
    opts: SyncOptions,
    answer: Answer,
    now: Timestamp,
    rel: PathView,
)
    requires
        lies_at(source, target, t, src, dst),
        (source == target && src == dst) || roots_apart(source, target),
        way_is_clear(target, t, src, dst, opts),
        !opts.dry_run,
        rel.len() > 0,
    ensures
        ({
            let (u, ended) = outcome(source, target, t, src, dst, opts, answer, now);
            let p = target + rel;
            let comes = opts.new && src.files.contains_key(rel) && !dst.files.contains_key(rel);
            let newer = opts.overwrite && src.files.contains_key(rel) && dst.files.contains_key(rel)
                && src.files[rel] - dst.files[rel] > opts.tolerance.secs * 1_000_000_000
                + opts.tolerance.nanos;
            let goes = opts.delete && dst.files.contains_key(rel) && !src.files.contains_key(rel);
            let clears = opts.delete && dst.dirs.contains(rel) && !src.dirs.contains(rel) && (
            forall|e: PathView| #[trigger]
                dst.ignored.contains(e) && rel.is_prefix_of(e) ==> e == rel);
            &&& ended
            &&& comes || newer ==> u.files.contains_key(p) && u.files[p] == t.files[source + rel]
            &&& !comes && !newer && !goes && t.files.contains_key(p) ==> u.files.contains_key(p)
                && u.files[p] == t.files[p]
            &&& !comes && (goes || !t.files.contains_key(p)) ==> !u.files.contains_key(p)
            &&& u.dirs.contains(p) <==> opts.new && src.dirs.contains(rel) || t.dirs.contains(p)
                && !clears
            &&& t.files.contains_key(source + rel) ==> u.files.contains_key(source + rel)
                && u.files[source + rel] == t.files[source + rel]
            &&& u.dirs.contains(source + rel) <==> t.dirs.contains(source + rel)
        }),
{
    law_sync_takes_target_to_source(source, target, t, src, dst, opts, answer, now);
    let u = outcome(source, target, t, src, dst, opts, answer, now).0;
    let p = target + rel;
    assert(u.below(target).files.contains_key(rel) == u.files.contains_key(p));
    assert(u.below(target).dirs.contains(rel) == u.dirs.contains(p));
    assert(t.below(target).files.contains_key(rel) == t.files.contains_key(p));
    assert(t.below(target).dirs.contains(rel) == t.dirs.contains(p));
    assert(t.below(source).files.contains_key(rel) == t.files.contains_key(source + rel));
    assert(u.below(source).files.contains_key(rel) == u.files.contains_key(source + rel));
    assert(t.below(source).dirs.contains(rel) == t.dirs.contains(source + rel));
    assert(u.below(source).dirs.contains(rel) == u.dirs.contains(source + rel));
}

} // verus!
