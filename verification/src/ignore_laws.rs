//! What a sync of two walked trees does: it does what a sync promises, and what the rules exclude
//! is as it was, however the sync ends.

use vstd::prelude::*;

use crate::convergence::{lemma_prefix_below_root, lemma_prefix_transitive};
use crate::laws::{asks_for, lemma_step_is_from_queue, sync_session};
use crate::mirror::{is_synced, law_sync_takes_target_to_source, lies_at, outcome, roots_apart};
use crate::mirror::way_is_clear;
use crate::model::{ancestry, law_sessions_end, perform, run, session_rank};
use crate::model::{FileView, Tree};
use crate::path::descends;
use crate::path::PathView;
use crate::plan::SyncOptions;
use crate::session::{step_view, sync_tasks};
use crate::session::{Answer, Request, SessionView, Stage, Task};
use crate::time::Timestamp;
use crate::walk_laws::{
    is_task_of, law_snapshot_is_seen_of_the_tree, law_snapshots_are_proper,
    law_walk_shows_the_tree, lemma_first_ignored, lemma_recorded_is_finite, lemma_task_names_a_path,
};
use crate::walk_laws::Walk;

verus! {

/// The snapshots of two walks that list a file system are what is seen of it below their roots.
pub proof fn law_walks_show_what_lies_there(source: Walk, target: Walk, t: Tree)
    requires
        t.wf(),
        source.is_sound(),
        target.is_sound(),
        source.lists(t),
        target.lists(t),
    ensures
        lies_at(source.root, target.root, t, source.snapshot(), target.snapshot()),
{
    law_snapshot_is_seen_of_the_tree(source, t);
    law_snapshot_is_seen_of_the_tree(target, t);
    lemma_recorded_is_finite(source.rules, source.root, source.items, source.items.len());
    lemma_recorded_is_finite(target.rules, target.root, target.items, target.items.len());
    law_snapshots_are_proper(source.rules, source.root, source.items, source.items.len());
    law_snapshots_are_proper(target.rules, target.root, target.items, target.items.len());
}

/// A sync of two trees as they were walked, with rules or without, does what a sync promises, if
/// the target holds nothing but directories and regular files.
pub proof fn law_sync_of_walked_trees(
    source: Walk,
    target: Walk,
    t: Tree,
    opts: SyncOptions,
    answer: Answer,
    now: Timestamp,
)
    requires
        t.wf(),
        source.is_sound(),
        target.is_sound(),
        source.lists(t),
        target.lists(t),
        target.meets_no_others(t),
        roots_apart(source.root, target.root),
        way_is_clear(target.root, t, source.snapshot(), target.snapshot(), opts),
        !opts.dry_run,
    ensures
        ({
            let (u, ended) = outcome(
                source.root,
                target.root,
                t,
                source.snapshot(),
                target.snapshot(),
                opts,
                answer,
                now,
            );
            &&& ended
            &&& is_synced(
                source.root,
                target.root,
                t,
                source.snapshot(),
                target.snapshot(),
                opts,
                u,
            )
        }),
{
    law_walks_show_what_lies_there(source, target, t);
    law_sync_takes_target_to_source(
        source.root,
        target.root,
        t,
        source.snapshot(),
        target.snapshot(),
        opts,
        answer,
        now,
    );
}

/// What is at a path.
pub enum Place {
    Nothing,
    Directory,
    File(FileView),
}

/// What the file system has at `p`.
pub open spec fn at(t: Tree, p: PathView) -> Place {
    if t.dirs.contains(p) {
        Place::Directory
    } else if t.files.contains_key(p) {
        Place::File(t.files[p])
    } else {
        Place::Nothing
    }
}

/// The task can change what is at `p`.
pub open spec fn endangers(task: Task<PathView>, p: PathView, place: Place) -> bool {
    match task {
        Task::Announce(_) | Task::ForetellDir(_) => false,
        Task::Copy { kind: _, src: _, dst } => match place {
            Place::Directory => false,
            Place::File(_) => dst == p,
            Place::Nothing => dst == p || ancestry(dst.drop_last()).contains(p),
        },
        Task::CreateDir(q) => place is Nothing && ancestry(q).contains(p),
        Task::DeleteFile(q) => place is File && q == p,
        Task::DeleteDir(q) => !(place is Nothing) && q.is_prefix_of(p),
    }
}

/// A request of a task that does not endanger a path leaves what is there.
proof fn lemma_request_keeps(
    s: SessionView,
    task: Task<PathView>,
    stage: Stage,
    answer: Answer,
    request: Request<PathView>,
    t: Tree,
    now: Timestamp,
    p: PathView,
)
    requires
        asks_for(task, s.mode, stage, answer, request),
        !endangers(task, p, at(t, p)),
        p.len() > 0,
    ensures
        at(perform(t, request, now).0, p) == at(t, p),
{
}

/// A session whose tasks do not endanger a path leaves what is there, however it ends.
pub proof fn lemma_run_keeps(s: SessionView, answer: Answer, t: Tree, now: Timestamp, p: PathView)
    requires
        p.len() > 0,
        forall|task: Task<PathView>| #[trigger]
            s.queue.contains(task) ==> !endangers(task, p, at(t, p)),
    ensures
        at(run(s, answer, t, now).0, p) == at(t, p),
    decreases s.queue.len(), session_rank(s),
{
    let (next, request) = step_view(s, answer);
    if !(request is Finished) && !(request is Abort) {
        law_sessions_end(s, answer);
        lemma_step_is_from_queue(s, answer);
        let (task, stage, a) = choose|task: Task<PathView>, stage: Stage, a: Answer|
            s.queue.contains(task) && #[trigger] asks_for(task, s.mode, stage, a, request);
        lemma_request_keeps(s, task, stage, a, request, t, now, p);
        let (u, reply) = perform(t, request, now);
        lemma_run_keeps(next, reply, u, now, p);
    }
}

/// The rules exclude `rel`, as what is there in the target: what is there is not to be deleted by
/// the rules of the target, nor overwritten or created by those of the source.
pub open spec fn is_excluded(source: Walk, target: Walk, t: Tree, rel: PathView) -> bool {
    match at(t, target.root + rel) {
        Place::Directory => target.excludes(rel, true),
        Place::File(_) => target.excludes(rel, false) && source.excludes(rel, false),
        Place::Nothing => source.excludes(rel, true) && source.excludes(rel, false),
    }
}

/// What the rules exclude is left as it is: whatever the options are and however the sync ends,
/// a path that is ignored, itself or by a directory above it, is neither created nor overwritten
/// nor deleted.
pub proof fn law_excluded_stays(
    source: Walk,
    target: Walk,
    t: Tree,
    opts: SyncOptions,
    answer: Answer,
    now: Timestamp,
    rel: PathView,
)
    requires
        t.wf(),
        source.is_sound(),
        target.is_sound(),
        source.lists(t),
        target.lists(t),
        rel.len() > 0,
        is_excluded(source, target, t, rel),
    ensures
        at(
            outcome(
                source.root,
                target.root,
                t,
                source.snapshot(),
                target.snapshot(),
                opts,
                answer,
                now,
            ).0,
            target.root + rel,
        ) == at(t, target.root + rel),
{
    let p = target.root + rel;
    let queue = sync_tasks(
        source.root,
        target.root,
        source.snapshot(),
        target.snapshot(),
        opts,
    );
    let s = sync_session(
        source.root,
        target.root,
        source.snapshot(),
        target.snapshot(),
        opts,
    );
    assert forall|task: Task<PathView>| #[trigger] s.queue.contains(task) implies !endangers(
        task,
        p,
        at(t, p),
    ) by {
        assert(queue.contains(task));
        lemma_task_spares(source, target, t, opts, task, rel);
    }
    lemma_run_keeps(s, answer, t, now, p);
}

proof fn lemma_task_spares(
    source: Walk,
    target: Walk,
    t: Tree,
    opts: SyncOptions,
    task: Task<PathView>,
    rel: PathView,
)
    requires
        t.wf(),
        source.is_sound(),
        target.is_sound(),
        source.lists(t),
        target.lists(t),
        rel.len() > 0,
        is_excluded(source, target, t, rel),
        sync_tasks(
            source.root,
            target.root,
            source.snapshot(),
            target.snapshot(),
            opts,
        ).contains(task),
    ensures
        !endangers(task, target.root + rel, at(t, target.root + rel)),
{
    let p = target.root + rel;
    let place = at(t, p);
    let (src, dst) = (source.snapshot(), target.snapshot());
    lemma_task_names_a_path(source, target, opts, task);
    if endangers(task, p, place) {
        let x = choose|x: PathView| #[trigger]
            is_task_of(source, target, opts, task, x) && x.len() > 0 && descends(x);
        let q = target.root + x;
        lemma_prefix_below_root(target.root, rel, x);
        lemma_prefix_below_root(target.root, x, rel);
        law_walk_shows_the_tree(source, t, x);
        law_walk_shows_the_tree(target, t, x);
        match task {
            Task::Announce(_) | Task::ForetellDir(_) => {},
            Task::Copy { kind: _, src: _, dst: to } => {
                if to != p {
                    assert(q.drop_last() =~= q.subrange(0, q.len() - 1));
                    lemma_prefix_transitive(p, q.drop_last(), q);
                    assert(rel != x);
                    lemma_not_below_excluded(source, rel, x);
                }
            },
            Task::CreateDir(_) => {
                if rel != x {
                    lemma_not_below_excluded(source, rel, x);
                }
            },
            Task::DeleteFile(_) => {},
            Task::DeleteDir(_) => {
                assert(dst.dirs.contains(x));
                assert(t.holds(p));
                let e = lemma_first_ignored(target, t, rel);
                law_walk_shows_the_tree(target, t, e);
                assert(dst.ignored.contains(e));
                lemma_directory_above(target, t, x, e, rel);
                assert(dst.shelters(x));
            },
        }
    }
}

/// What is below an excluded directory is excluded.
proof fn lemma_not_below_excluded(w: Walk, rel: PathView, x: PathView)
    requires
        rel.len() > 0,
        rel.is_prefix_of(x),
        rel != x,
        w.excludes(rel, true),
    ensures
        w.ignores_above(x),
{
    assert(rel.len() < x.len()) by {
        if rel.len() == x.len() {
            assert(x.subrange(0, x.len() as int) =~= x);
        }
    }
    assert(x.take(rel.len() as int) =~= rel);
    if !w.ignores(rel, true) {
        let k = choose|k: int| 0 < k < rel.len() && w.ignores(#[trigger] rel.take(k), true);
        assert(x.take(k) =~= rel.take(k));
    }
}

/// A directory that is seen and is above something excluded is above what is ignored of it.
proof fn lemma_directory_above(w: Walk, t: Tree, x: PathView, e: PathView, rel: PathView)
    requires
        x.len() > 0,
        e.len() > 0,
        x.is_prefix_of(rel),
        e.is_prefix_of(rel),
        t.wf(),
        t.dirs.contains(w.root + x),
        !w.excludes(x, true),
        t.holds(w.root + e),
        w.ignores(e, t.dirs.contains(w.root + e)),
    ensures
        x.is_prefix_of(e),
        x != e,
{
    assert forall|i: int| 0 <= i < x.len() && i < e.len() implies x[i] == e[i] by {
        assert(x[i] == rel.subrange(0, x.len() as int)[i]);
        assert(e[i] == rel.subrange(0, e.len() as int)[i]);
    }
    if e.len() < x.len() {
        assert(x.take(e.len() as int) =~= e);
        let (a, b) = (w.root + e, w.root + x);
        assert(a =~= b.subrange(0, a.len() as int));
        assert(a.is_prefix_of(b));
        assert(t.holds(b));
        assert(t.dirs.contains(a));
    } else {
        assert(x =~= e.subrange(0, x.len() as int));
    }
}

} // verus!
