//! What holds of every sync: what a session may ask for, and in what order a plan goes.

use vstd::prelude::*;
use vstd::relations::*;

use crate::convergence::{lemma_held_is_clear, lemma_prefix_below_root};
use crate::listing::{
    deep_order, lemma_deep_order_is_total, lemma_shallow_order_is_total, shallow_order,
};
use crate::model::{ancestry, is_blocked, is_tree, law_sessions_end, perform, requests, run, without_subtree};
use crate::model::Tree;
use crate::order::lemma_to_sorted_seq;
use crate::path::{
    descends, join_view, law_join_is_under_root, lemma_path_order_is_total, parent_view,
    path_order,
};
use crate::path::PathView;
use crate::plan::{
    below, extra_dirs, first_part, is_replaced, lemma_filter_contains, lemma_pair_order_is_total,
    obstacle_filter, pair_order, pairs_below, plan_for, second_part, stale_files,
};
use crate::plan::{PairView, PlanView, SyncOptions};
use crate::session::{foretold, mode_of, plan_tasks, step_view, sync_tasks, task_move};
use crate::session::{Answer, CopyKind, Move, Notice, Request, RunMode, SessionView, Stage, Task};
use crate::snapshot::SnapshotView;
use crate::time::Timestamp;

verus! {

/// All paths of the snapshot lead from the root down to something below it.
pub open spec fn proper(s: SnapshotView) -> bool {
    &&& forall|p: PathView| #[trigger] s.dirs.contains(p) ==> p.len() > 0 && descends(p)
    &&& forall|p: PathView| #[trigger] s.files.contains_key(p) ==> p.len() > 0 && descends(p)
}

/// The session at the start of a sync.
pub open spec fn sync_session(
    source: PathView,
    target: PathView,
    src: SnapshotView,
    dst: SnapshotView,
    opts: SyncOptions,
) -> SessionView {
    SessionView {
        mode: mode_of(opts),
        queue: sync_tasks(source, target, src, dst, opts),
        stage: Stage::Start,
    }
}

/// A request that changes nothing.
pub open spec fn harmless(r: Request<PathView>) -> bool {
    r is Say || r is Exists || r is ReadMtime || r is Abort || r is Finished
}

/// `task` makes the request `r` in some stage.
pub open spec fn asks_for(
    task: Task<PathView>,
    mode: RunMode,
    stage: Stage,
    answer: Answer,
    r: Request<PathView>,
) -> bool {
    match task_move(task, mode, stage, answer) {
        Move::Ask(_, request) => r == request,
        Move::Report(notice) => r == Request::Say(notice),
        Move::Over => false,
        Move::Fail(failure) => r == Request::Abort(failure),
    }
}

/// `r` is the request of one of the tasks.
pub open spec fn is_from(queue: Seq<Task<PathView>>, mode: RunMode, r: Request<PathView>) -> bool {
    exists|task: Task<PathView>, stage: Stage, answer: Answer|
        queue.contains(task) && #[trigger] asks_for(task, mode, stage, answer, r)
}

pub proof fn lemma_step_is_from_queue(s: SessionView, answer: Answer)
    ensures
        ({
            let (next, r) = step_view(s, answer);
            &&& r is Finished || is_from(s.queue, s.mode, r)
            &&& forall|task: Task<PathView>| #[trigger]
                next.queue.contains(task) ==> s.queue.contains(task)
            &&& next.mode == s.mode
        }),
    decreases s.queue.len(),
{
    if s.queue.len() > 0 {
        let (next, r) = step_view(s, answer);
        let task = s.queue[0];
        let rest = SessionView { queue: s.queue.drop_first(), stage: Stage::Start, ..s };
        assert(s.queue.contains(task));
        assert forall|q: Task<PathView>| #[trigger] rest.queue.contains(q) implies s.queue.contains(
            q,
        ) by {
            let k = choose|k: int| 0 <= k < rest.queue.len() && rest.queue[k] == q;
            assert(s.queue[k + 1] == q);
        }
        match task_move(task, s.mode, s.stage, answer) {
            Move::Over => {
                lemma_step_is_from_queue(rest, answer);
                if !(r is Finished) {
                    let (q, stage, a) = choose|q: Task<PathView>, stage: Stage, a: Answer|
                        rest.queue.contains(q) && #[trigger] asks_for(q, s.mode, stage, a, r);
                    assert(s.queue.contains(q) && asks_for(q, s.mode, stage, a, r));
                }
            },
            _ => {
                assert(asks_for(task, s.mode, s.stage, answer, r));
            },
        }
    }
}

/// Whatever it is answered, a session asks for nothing but what its tasks call for.
pub proof fn law_requests_come_from_tasks(s: SessionView, answers: Seq<Answer>, i: int)
    requires
        0 <= i < answers.len(),
    ensures
        requests(s, answers).len() == answers.len(),
        requests(s, answers)[i] is Finished || is_from(s.queue, s.mode, requests(s, answers)[i]),
    decreases answers.len(),
{
    let (next, r) = step_view(s, answers[0]);
    lemma_step_is_from_queue(s, answers[0]);
    let later = answers.drop_first();
    if later.len() > 0 {
        law_requests_come_from_tasks(next, later, if i > 0 {
            i - 1
        } else {
            0
        });
    }
    if i > 0 {
        let q = requests(next, later)[i - 1];
        assert(requests(s, answers)[i] == q);
        if !(q is Finished) {
            let (task, stage, a) = choose|task: Task<PathView>, stage: Stage, a: Answer|
                next.queue.contains(task) && #[trigger] asks_for(task, next.mode, stage, a, q);
            assert(s.queue.contains(task) && asks_for(task, s.mode, stage, a, q));
        }
    } else {
        assert(requests(s, answers)[0] == r);
    }
}

/// Whatever it is answered, a dry run asks for nothing that changes anything.
pub proof fn law_dry_run_changes_nothing(s: SessionView, answers: Seq<Answer>, i: int)
    requires
        s.mode is DryRun,
        0 <= i < answers.len(),
    ensures
        requests(s, answers).len() == answers.len(),
        harmless(requests(s, answers)[i]),
{
    law_requests_come_from_tasks(s, answers, i);
}

/// A dry run leaves the file system as it is, and never gives up.
pub proof fn law_dry_run_leaves_everything(
    s: SessionView,
    answer: Answer,
    t: Tree,
    now: Timestamp,
)
    requires
        s.mode is DryRun,
        s.stage is Start || s.stage is DirCheck,
    ensures
        run(s, answer, t, now) == (t, true),
    decreases s.queue.len(), crate::model::session_rank(s),
{
    lemma_dry_step(s, answer);
    law_sessions_end(s, answer);
    let (next, request) = step_view(s, answer);
    if !(request is Finished) {
        let (u, reply) = perform(t, request, now);
        assert(u == t);
        law_dry_run_leaves_everything(next, reply, t, now);
    }
}

proof fn lemma_dry_step(s: SessionView, answer: Answer)
    requires
        s.mode is DryRun,
        s.stage is Start || s.stage is DirCheck,
    ensures
        ({
            let (next, r) = step_view(s, answer);
            &&& next.mode is DryRun
            &&& next.stage is Start || next.stage is DirCheck
            &&& r is Say || r is Exists || r is Finished
        }),
    decreases s.queue.len(),
{
    if s.queue.len() > 0 {
        let rest = SessionView { queue: s.queue.drop_first(), stage: Stage::Start, ..s };
        lemma_dry_step(rest, answer);
    }
}

/// What a session tells, served by a file system that serves every request it can.
pub open spec fn told(s: SessionView, answer: Answer, t: Tree, now: Timestamp) -> Seq<
    Notice<PathView>,
>
    decreases s.queue.len(), crate::model::session_rank(s),
{
    let (next, request) = step_view(s, answer);
    match request {
        Request::Finished | Request::Abort(_) => Seq::empty(),
        _ => {
            proof {
                law_sessions_end(s, answer);
            }
            let (u, reply) = perform(t, request, now);
            let more = told(next, reply, u, now);
            match request {
                Request::Say(notice) => seq![notice] + more,
                _ => more,
            }
        },
    }
}

/// What a dry run has to tell of a task: what it would do, unless it creates a directory where
/// there is something.
pub open spec fn forecast(task: Task<PathView>, t: Tree) -> Seq<Notice<PathView>> {
    match task {
        Task::Announce(a) => seq![Notice::Announced(a)],
        Task::ForetellDir(p) => seq![Notice::WouldCreateDir(p)],
        Task::Copy { kind, src, dst } => seq![Notice::WouldCopy { kind, src, dst }],
        Task::CreateDir(p) => if t.holds(p) {
            Seq::empty()
        } else {
            seq![Notice::WouldCreateDir(p)]
        },
        Task::DeleteFile(p) => seq![Notice::WouldDeleteFile(p)],
        Task::DeleteDir(p) => seq![Notice::WouldDeleteDir(p)],
    }
}

/// What a dry run has to tell of all tasks.
pub open spec fn forecasts(queue: Seq<Task<PathView>>, t: Tree) -> Seq<Notice<PathView>>
    decreases queue.len(),
{
    if queue.len() == 0 {
        Seq::empty()
    } else {
        forecast(queue[0], t) + forecasts(queue.drop_first(), t)
    }
}

/// A dry run tells of every task, in order, what it would do.
pub proof fn law_dry_run_tells_the_tasks(
    s: SessionView,
    answer: Answer,
    t: Tree,
    now: Timestamp,
)
    requires
        s.mode is DryRun,
        s.stage is Start,
    ensures
        told(s, answer, t, now) == forecasts(s.queue, t),
    decreases s.queue.len(),
{
    if s.queue.len() > 0 {
        let rest = SessionView { queue: s.queue.drop_first(), stage: Stage::Start, ..s };
        let task = s.queue[0];
        match task {
            Task::CreateDir(p) => {
                let asked = SessionView { stage: Stage::DirCheck, ..s };
                let reply = Answer::Exists(t.holds(p));
                assert(step_view(s, answer) == (asked, Request::<PathView>::Exists(p)));
                assert(told(s, answer, t, now) == told(asked, reply, t, now));
                if t.holds(p) {
                    assert(step_view(asked, reply) == step_view(rest, reply));
                    assert(told(asked, reply, t, now) == told(rest, reply, t, now));
                    law_dry_run_tells_the_tasks(rest, reply, t, now);
                    assert(forecasts(s.queue, t) =~= forecasts(rest.queue, t));
                } else {
                    assert(step_view(asked, reply) == (rest, Request::Say(
                        Notice::WouldCreateDir(p),
                    )));
                    law_dry_run_tells_the_tasks(rest, Answer::Done, t, now);
                }
            },
            _ => {
                assert(step_view(s, answer) == (rest, Request::Say(forecast(task, t)[0])));
                law_dry_run_tells_the_tasks(rest, Answer::Done, t, now);
            },
        }
    }
}

/// The relative path `rel` is to be copied.
pub open spec fn to_copy(
    src: SnapshotView,
    dst: SnapshotView,
    opts: SyncOptions,
    rel: PathView,
) -> bool {
    ||| opts.overwrite && stale_files(src, dst, opts.tolerance@).contains(rel)
    ||| opts.new && src.files.contains_key(rel) && !dst.files.contains_key(rel)
}

/// The relative path `rel` is a directory to be created.
pub open spec fn to_create(
    src: SnapshotView,
    dst: SnapshotView,
    opts: SyncOptions,
    rel: PathView,
) -> bool {
    opts.new && src.dirs.contains(rel) && !dst.dirs.contains(rel)
}

/// The task is one that the two snapshots and the options call for.
pub open spec fn is_called_for(
    source: PathView,
    target: PathView,
    src: SnapshotView,
    dst: SnapshotView,
    opts: SyncOptions,
    task: Task<PathView>,
) -> bool {
    match task {
        Task::Announce(_) => true,
        Task::ForetellDir(p) => opts.dry_run && opts.delete && exists|rel: PathView| #[trigger]
            to_create(src, dst, opts, rel) && p == join_view(target, rel),
        Task::Copy { kind: _, src: from, dst: to } => exists|rel: PathView| #[trigger]
            to_copy(src, dst, opts, rel) && from == join_view(source, rel) && to == join_view(
                target,
                rel,
            ),
        Task::CreateDir(p) => exists|rel: PathView| #[trigger]
            to_create(src, dst, opts, rel) && p == join_view(target, rel),
        Task::DeleteFile(p) => opts.delete && exists|rel: PathView| #[trigger]
            dst.files.contains_key(rel) && !src.files.contains_key(rel) && p == join_view(
                target,
                rel,
            ),
        Task::DeleteDir(p) => opts.delete && exists|rel: PathView| #[trigger]
            extra_dirs(src, dst).contains(rel) && p == join_view(target, rel),
    }
}

pub proof fn lemma_below_contains(root: PathView, rels: Seq<PathView>, p: PathView) -> (rel: PathView)
    requires
        below(root, rels).contains(p),
    ensures
        rels.contains(rel),
        p == join_view(root, rel),
{
    let k = choose|k: int| 0 <= k < below(root, rels).len() && below(root, rels)[k] == p;
    assert(rels.contains(rels[k]));
    rels[k]
}

pub proof fn lemma_pairs_below_contains(
    source: PathView,
    target: PathView,
    rels: Seq<PathView>,
    p: PairView,
) -> (rel: PathView)
    requires
        pairs_below(source, target, rels).contains(p),
    ensures
        rels.contains(rel),
        p.src == join_view(source, rel),
        p.dst == join_view(target, rel),
{
    let pairs = pairs_below(source, target, rels);
    let k = choose|k: int| 0 <= k < pairs.len() && pairs[k] == p;
    assert(rels.contains(rels[k]));
    rels[k]
}

/// Only stale files are overwritten, and only where overwriting is on.
proof fn lemma_overwritten(
    source: PathView,
    target: PathView,
    src: SnapshotView,
    dst: SnapshotView,
    opts: SyncOptions,
    pair: PairView,
) -> (rel: PathView)
    requires
        src.finite(),
        plan_for(source, target, src, dst, opts, opts.tolerance@).overwrite_pairs.contains(pair),
    ensures
        opts.overwrite,
        stale_files(src, dst, opts.tolerance@).contains(rel),
        pair.src == join_view(source, rel),
        pair.dst == join_view(target, rel),
{
    let stale = stale_files(src, dst, opts.tolerance@);
    assert(stale.subset_of(src.files.dom()));
    vstd::set_lib::lemma_set_subset_finite(src.files.dom(), stale);
    lemma_path_order_is_total();
    lemma_to_sorted_seq(stale, path_order());
    let unsorted = pairs_below(source, target, stale.to_sorted_seq(path_order()));
    lemma_pair_order_is_total();
    unsorted.lemma_sort_by_ensures(pair_order());
    assert(unsorted.sort_by(pair_order()).contains(pair));
    lemma_pairs_below_contains(source, target, stale.to_sorted_seq(path_order()), pair)
}

/// Only what the target lacks is newly copied, and only where creating is on.
proof fn lemma_newly_copied(
    source: PathView,
    target: PathView,
    src: SnapshotView,
    dst: SnapshotView,
    opts: SyncOptions,
    pair: PairView,
) -> (rel: PathView)
    requires
        src.finite(),
        plan_for(source, target, src, dst, opts, opts.tolerance@).new_pairs.contains(pair),
    ensures
        opts.new,
        src.files.contains_key(rel) && !dst.files.contains_key(rel),
        pair.src == join_view(source, rel),
        pair.dst == join_view(target, rel),
{
    let files = src.files.dom().difference(dst.files.dom());
    lemma_path_order_is_total();
    lemma_to_sorted_seq(files, path_order());
    let rel = lemma_pairs_below_contains(source, target, files.to_sorted_seq(path_order()), pair);
    assert(files.contains(rel));
    rel
}

/// Only directories that the target lacks are created, and only where creating is on.
proof fn lemma_created(
    source: PathView,
    target: PathView,
    src: SnapshotView,
    dst: SnapshotView,
    opts: SyncOptions,
    p: PathView,
) -> (rel: PathView)
    requires
        src.finite(),
        plan_for(source, target, src, dst, opts, opts.tolerance@).new_dirs.contains(p),
    ensures
        to_create(src, dst, opts, rel),
        p == join_view(target, rel),
{
    let dirs = src.dirs.difference(dst.dirs);
    lemma_shallow_order_is_total();
    lemma_to_sorted_seq(dirs, shallow_order());
    let rel = lemma_below_contains(target, dirs.to_sorted_seq(shallow_order()), p);
    assert(dirs.contains(rel));
    rel
}

/// Only files that the source lacks are deleted, and only where deleting is on.
proof fn lemma_file_deleted(
    source: PathView,
    target: PathView,
    src: SnapshotView,
    dst: SnapshotView,
    opts: SyncOptions,
    p: PathView,
) -> (rel: PathView)
    requires
        dst.finite(),
        plan_for(source, target, src, dst, opts, opts.tolerance@).delete_files.contains(p),
    ensures
        opts.delete,
        dst.files.contains_key(rel) && !src.files.contains_key(rel),
        p == join_view(target, rel),
{
    let files = dst.files.dom().difference(src.files.dom());
    lemma_path_order_is_total();
    lemma_to_sorted_seq(files, path_order());
    let rel = lemma_below_contains(target, files.to_sorted_seq(path_order()), p);
    assert(files.contains(rel));
    rel
}

/// Only directories that the source lacks and that shelter nothing are deleted, and only where
/// deleting is on.
proof fn lemma_dir_deleted(
    source: PathView,
    target: PathView,
    src: SnapshotView,
    dst: SnapshotView,
    opts: SyncOptions,
    p: PathView,
) -> (rel: PathView)
    requires
        dst.finite(),
        plan_for(source, target, src, dst, opts, opts.tolerance@).delete_dirs.contains(p),
    ensures
        opts.delete,
        extra_dirs(src, dst).contains(rel),
        p == join_view(target, rel),
{
    let dirs = extra_dirs(src, dst);
    lemma_extra_dirs_are_finite(src, dst);
    lemma_deep_order_is_total();
    lemma_to_sorted_seq(dirs, deep_order());
    let rel = lemma_below_contains(target, dirs.to_sorted_seq(deep_order()), p);
    assert(dirs.contains(rel));
    rel
}

pub proof fn lemma_extra_dirs_are_finite(src: SnapshotView, dst: SnapshotView)
    requires
        dst.finite(),
    ensures
        extra_dirs(src, dst).finite(),
{
    assert(extra_dirs(src, dst).subset_of(dst.dirs));
    vstd::set_lib::lemma_set_subset_finite(dst.dirs, extra_dirs(src, dst));
}

/// The task stands for an item of the plan.
pub open spec fn stands_in(plan: PlanView, task: Task<PathView>) -> bool {
    match task {
        Task::Announce(_) | Task::ForetellDir(_) => false,
        Task::Copy { kind, src, dst } => match kind {
            CopyKind::Overwrite => plan.overwrite_pairs.contains(PairView { src, dst }),
            CopyKind::New => plan.new_pairs.contains(PairView { src, dst }),
        },
        Task::CreateDir(p) => plan.new_dirs.contains(p),
        Task::DeleteFile(p) => plan.delete_files.contains(p),
        Task::DeleteDir(p) => plan.delete_dirs.contains(p),
    }
}

/// Every task of a plan stands for an item of the plan.
pub proof fn lemma_task_is_in_plan(plan: PlanView, opts: SyncOptions, task: Task<PathView>)
    requires
        plan_tasks(plan, opts).contains(task),
    ensures
        stands_in(plan, task),
{
    let tasks = plan_tasks(plan, opts);
    let i = choose|i: int| 0 <= i < tasks.len() && tasks[i] == task;
    let n1: int = if opts.overwrite {
        plan.overwrite_pairs.len() as int
    } else {
        0
    };
    let n2: int = n1 + if opts.new {
        plan.new_dirs.len() as int
    } else {
        0
    };
    let n3: int = n2 + if opts.new {
        plan.new_pairs.len() as int
    } else {
        0
    };
    let n4: int = n3 + if opts.delete {
        plan.delete_files.len() as int
    } else {
        0
    };
    if i < n1 {
        let pair = plan.overwrite_pairs[i];
        assert(task == Task::Copy { kind: CopyKind::Overwrite, src: pair.src, dst: pair.dst });
        assert(pair == PairView { src: pair.src, dst: pair.dst });
    } else if i < n2 {
        assert(task == Task::<PathView>::CreateDir(plan.new_dirs[i - n1]));
    } else if i < n3 {
        let pair = plan.new_pairs[i - n2];
        assert(task == Task::Copy { kind: CopyKind::New, src: pair.src, dst: pair.dst });
        assert(pair == PairView { src: pair.src, dst: pair.dst });
    } else if i < n4 {
        assert(task == Task::<PathView>::DeleteFile(plan.delete_files[i - n3]));
    } else {
        assert(task == Task::<PathView>::DeleteDir(plan.delete_dirs[i - n4]));
    }
}

/// Every task of a sync stands for an item of its plan.
pub proof fn lemma_task_is_planned(
    source: PathView,
    target: PathView,
    src: SnapshotView,
    dst: SnapshotView,
    opts: SyncOptions,
    task: Task<PathView>,
)
    requires
        sync_tasks(source, target, src, dst, opts).contains(task),
        !(task is Announce),
    ensures
        match task {
            Task::ForetellDir(p) => opts.dry_run && opts.delete && is_replaced(
                target,
                src,
                dst,
                opts,
                p,
            ) && stands_in(
                plan_for(source, target, src, dst, opts, opts.tolerance@),
                Task::CreateDir(p),
            ),
            _ => stands_in(plan_for(source, target, src, dst, opts, opts.tolerance@), task),
        },
{
    let plan = plan_for(source, target, src, dst, opts, opts.tolerance@);
    let (a, b) = (
        first_part(plan, target, src, dst, opts),
        second_part(plan, target, src, dst, opts),
    );
    let all = sync_tasks(source, target, src, dst, opts);
    let (first, second) = (plan_tasks(a, opts), plan_tasks(b, opts));
    let k = choose|k: int| 0 <= k < all.len() && all[k] == task;
    let start = if opts.dry_run {
        1int
    } else {
        0
    };
    let (yes, no) = (
        obstacle_filter(target, src, dst, opts, true),
        obstacle_filter(target, src, dst, opts, false),
    );
    if k - start < first.len() {
        assert(first[k - start] == task);
        lemma_task_is_in_plan(a, opts, task);
    } else {
        let told = second[k - start - first.len()];
        assert(foretold(target, src, dst, opts, told) == task);
        assert(second.contains(told));
        lemma_task_is_in_plan(b, opts, told);
    }
    match task {
        Task::DeleteFile(p) => {
            lemma_filter_contains(plan.delete_files, p, yes);
            lemma_filter_contains(plan.delete_files, p, no);
        },
        Task::DeleteDir(p) => {
            lemma_filter_contains(plan.delete_dirs, p, yes);
            lemma_filter_contains(plan.delete_dirs, p, no);
        },
        _ => {},
    }
}

/// Where the deletion of what is there is planned, a dry run does not ask before it tells of a
/// directory.
pub proof fn lemma_replaced_is_foretold(
    source: PathView,
    target: PathView,
    src: SnapshotView,
    dst: SnapshotView,
    opts: SyncOptions,
    p: PathView,
)
    requires
        opts.dry_run,
        sync_tasks(source, target, src, dst, opts).contains(Task::CreateDir(p)),
    ensures
        !is_replaced(target, src, dst, opts, p),
{
    let plan = plan_for(source, target, src, dst, opts, opts.tolerance@);
    let (a, b) = (
        first_part(plan, target, src, dst, opts),
        second_part(plan, target, src, dst, opts),
    );
    let all = sync_tasks(source, target, src, dst, opts);
    let (first, second) = (plan_tasks(a, opts), plan_tasks(b, opts));
    let task = Task::<PathView>::CreateDir(p);
    let k = choose|k: int| 0 <= k < all.len() && all[k] == task;
    if k - 1 < first.len() {
        assert(first[k - 1] == task);
        lemma_task_is_in_plan(a, opts, task);
    } else {
        assert(foretold(target, src, dst, opts, second[k - 1 - first.len()]) == task);
    }
}

/// The tasks of a sync are called for by the two snapshots and the options.
pub proof fn law_tasks_are_called_for(
    source: PathView,
    target: PathView,
    src: SnapshotView,
    dst: SnapshotView,
    opts: SyncOptions,
    task: Task<PathView>,
)
    requires
        src.finite(),
        dst.finite(),
        sync_tasks(source, target, src, dst, opts).contains(task),
    ensures
        is_called_for(source, target, src, dst, opts, task),
{
    if !(task is Announce) {
        lemma_task_is_planned(source, target, src, dst, opts, task);
    }
    match task {
        Task::Announce(_) => {},
        Task::ForetellDir(p) => {
            let rel = lemma_created(source, target, src, dst, opts, p);
            assert(to_create(src, dst, opts, rel));
        },
        Task::Copy { kind, src: from, dst: to } => {
            let pair = PairView { src: from, dst: to };
            let rel = match kind {
                CopyKind::Overwrite => lemma_overwritten(source, target, src, dst, opts, pair),
                CopyKind::New => lemma_newly_copied(source, target, src, dst, opts, pair),
            };
            assert(to_copy(src, dst, opts, rel));
        },
        Task::CreateDir(p) => {
            let rel = lemma_created(source, target, src, dst, opts, p);
            assert(to_create(src, dst, opts, rel));
        },
        Task::DeleteFile(p) => {
            let rel = lemma_file_deleted(source, target, src, dst, opts, p);
            assert(dst.files.contains_key(rel));
        },
        Task::DeleteDir(p) => {
            let rel = lemma_dir_deleted(source, target, src, dst, opts, p);
            assert(extra_dirs(src, dst).contains(rel));
        },
    }
}

/// What the request changes, if anything, lies under `target`.
pub open spec fn changes_only_below(target: PathView, r: Request<PathView>) -> bool {
    match r {
        Request::CreateDirAll(p) => target.is_prefix_of(p),
        Request::CopyFile { src: _, dst } => target.is_prefix_of(dst),
        Request::SetMtime { path, time: _ } => target.is_prefix_of(path),
        Request::RemoveFile(p) => target.is_prefix_of(p),
        Request::RemoveDirAll(p) => target.is_prefix_of(p),
        _ => true,
    }
}

/// The sync is one-way: whatever it is answered, it asks for no change outside the target.
pub proof fn law_only_the_target_changes(
    source: PathView,
    target: PathView,
    src: SnapshotView,
    dst: SnapshotView,
    opts: SyncOptions,
    answers: Seq<Answer>,
    i: int,
)
    requires
        src.finite(),
        dst.finite(),
        proper(src),
        proper(dst),
        0 <= i < answers.len(),
    ensures
        changes_only_below(
            target,
            requests(sync_session(source, target, src, dst, opts), answers)[i],
        ),
{
    let s = sync_session(source, target, src, dst, opts);
    let r = requests(s, answers)[i];
    law_requests_come_from_tasks(s, answers, i);
    if !harmless(r) {
        let (task, stage, a) = choose|task: Task<PathView>, stage: Stage, a: Answer|
            s.queue.contains(task) && #[trigger] asks_for(task, s.mode, stage, a, r);
        law_tasks_are_called_for(source, target, src, dst, opts, task);
        match task {
            Task::Announce(_) | Task::ForetellDir(_) => {},
            Task::Copy { kind, src: from, dst: to } => {
                let rel = choose|rel: PathView| #[trigger]
                    to_copy(src, dst, opts, rel) && from == join_view(source, rel) && to
                        == join_view(target, rel);
                assert(src.files.contains_key(rel));
                law_join_is_under_root(target, rel);
                assert(to.drop_last().subrange(0, target.len() as int) =~= target);
            },
            Task::CreateDir(p) => {
                let rel = choose|rel: PathView| #[trigger]
                    to_create(src, dst, opts, rel) && p == join_view(target, rel);
                assert(src.dirs.contains(rel));
                law_join_is_under_root(target, rel);
            },
            Task::DeleteFile(p) => {
                let rel = choose|rel: PathView| #[trigger]
                    dst.files.contains_key(rel) && !src.files.contains_key(rel) && p == join_view(
                        target,
                        rel,
                    );
                law_join_is_under_root(target, rel);
            },
            Task::DeleteDir(p) => {
                let rel = choose|rel: PathView| #[trigger]
                    extra_dirs(src, dst).contains(rel) && p == join_view(target, rel);
                assert(dst.dirs.contains(rel));
                law_join_is_under_root(target, rel);
            },
        }
    }
}

/// With deleting off, nothing is ever removed.
pub proof fn law_no_delete_removes_nothing(
    source: PathView,
    target: PathView,
    src: SnapshotView,
    dst: SnapshotView,
    opts: SyncOptions,
    answers: Seq<Answer>,
    i: int,
)
    requires
        src.finite(),
        dst.finite(),
        !opts.delete,
        0 <= i < answers.len(),
    ensures
        !(requests(sync_session(source, target, src, dst, opts), answers)[i] is RemoveFile),
        !(requests(sync_session(source, target, src, dst, opts), answers)[i] is RemoveDirAll),
{
    let s = sync_session(source, target, src, dst, opts);
    let r = requests(s, answers)[i];
    law_requests_come_from_tasks(s, answers, i);
    if !harmless(r) {
        let (task, stage, a) = choose|task: Task<PathView>, stage: Stage, a: Answer|
            s.queue.contains(task) && #[trigger] asks_for(task, s.mode, stage, a, r);
        law_tasks_are_called_for(source, target, src, dst, opts, task);
    }
}

/// With overwriting off, a file is only ever copied to where the snapshot of the target has
/// none.
pub proof fn law_no_overwrite_spares_target_files(
    source: PathView,
    target: PathView,
    src: SnapshotView,
    dst: SnapshotView,
    opts: SyncOptions,
    answers: Seq<Answer>,
    i: int,
)
    requires
        src.finite(),
        dst.finite(),
        !opts.overwrite,
        0 <= i < answers.len(),
    ensures
        requests(sync_session(source, target, src, dst, opts), answers)[i] matches Request::CopyFile {
            src: from,
            dst: to,
        } ==> exists|rel: PathView| #[trigger]
            src.files.contains_key(rel) && !dst.files.contains_key(rel) && from == join_view(
                source,
                rel,
            ) && to == join_view(target, rel),
{
    let s = sync_session(source, target, src, dst, opts);
    let r = requests(s, answers)[i];
    law_requests_come_from_tasks(s, answers, i);
    if r is CopyFile {
        let (task, stage, a) = choose|task: Task<PathView>, stage: Stage, a: Answer|
            s.queue.contains(task) && #[trigger] asks_for(task, s.mode, stage, a, r);
        law_tasks_are_called_for(source, target, src, dst, opts, task);
        let (from, to) = (r->CopyFile_src, r->CopyFile_dst);
        let rel = choose|rel: PathView| #[trigger]
            to_copy(src, dst, opts, rel) && from == join_view(source, rel) && to == join_view(
                target,
                rel,
            );
        assert(src.files.contains_key(rel));
    }
}

/// The request leaves the file at `p`: it neither copies to it, nor stamps it, nor removes it or a
/// directory above it.
pub open spec fn leaves_file(r: Request<PathView>, p: PathView) -> bool {
    match r {
        Request::CopyFile { src: _, dst } => dst != p,
        Request::SetMtime { path, time: _ } => path != p,
        Request::RemoveFile(q) => q != p,
        Request::RemoveDirAll(q) => !q.is_prefix_of(p),
        _ => true,
    }
}

/// With overwriting off, a file that both trees hold is left alone, whatever the answers are.
pub proof fn law_no_overwrite_leaves_shared_files(
    source: PathView,
    target: PathView,
    src: SnapshotView,
    dst: SnapshotView,
    opts: SyncOptions,
    answers: Seq<Answer>,
    i: int,
    rel: PathView,
)
    requires
        src.finite(),
        dst.finite(),
        proper(src),
        proper(dst),
        is_tree(src),
        is_tree(dst),
        !opts.overwrite,
        0 <= i < answers.len(),
        src.files.contains_key(rel),
        dst.files.contains_key(rel),
    ensures
        leaves_file(
            requests(sync_session(source, target, src, dst, opts), answers)[i],
            target + rel,
        ),
{
    let s = sync_session(source, target, src, dst, opts);
    let r = requests(s, answers)[i];
    law_requests_come_from_tasks(s, answers, i);
    if !harmless(r) {
        let (task, stage, a) = choose|task: Task<PathView>, stage: Stage, a: Answer|
            s.queue.contains(task) && #[trigger] asks_for(task, s.mode, stage, a, r);
        law_tasks_are_called_for(source, target, src, dst, opts, task);
        match task {
            Task::Copy { kind, src: from, dst: to } => {
                let x = choose|x: PathView| #[trigger]
                    to_copy(src, dst, opts, x) && from == join_view(source, x) && to == join_view(
                        target,
                        x,
                    );
                assert(src.files.contains_key(x));
                law_join_is_under_root(target, x);
                lemma_prefix_below_root(target, x, rel);
            },
            Task::DeleteFile(p) => {
                let x = choose|x: PathView| #[trigger]
                    dst.files.contains_key(x) && !src.files.contains_key(x) && p == join_view(
                        target,
                        x,
                    );
                law_join_is_under_root(target, x);
                lemma_prefix_below_root(target, x, rel);
            },
            Task::DeleteDir(p) => {
                let x = choose|x: PathView| #[trigger]
                    extra_dirs(src, dst).contains(x) && p == join_view(target, x);
                assert(dst.dirs.contains(x));
                law_join_is_under_root(target, x);
                lemma_prefix_below_root(target, x, rel);
            },
            _ => {},
        }
    }
}

/// With creating off, a file is only ever copied over a stale one that the snapshot of the
/// target has, and no directory is created but the one that holds such a file.
pub proof fn law_no_new_copies_over_stale_files_only(
    source: PathView,
    target: PathView,
    src: SnapshotView,
    dst: SnapshotView,
    opts: SyncOptions,
    answers: Seq<Answer>,
    i: int,
)
    requires
        src.finite(),
        dst.finite(),
        !opts.new,
        0 <= i < answers.len(),
    ensures
        requests(sync_session(source, target, src, dst, opts), answers)[i] matches Request::CopyFile {
            src: from,
            dst: to,
        } ==> exists|rel: PathView| #[trigger]
            stale_files(src, dst, opts.tolerance@).contains(rel) && from == join_view(
                source,
                rel,
            ) && to == join_view(target, rel),
        requests(sync_session(source, target, src, dst, opts), answers)[i]
            matches Request::CreateDirAll(p) ==> exists|rel: PathView| #[trigger]
            stale_files(src, dst, opts.tolerance@).contains(rel) && parent_view(
                join_view(target, rel),
            ) == Some(p),
{
    let s = sync_session(source, target, src, dst, opts);
    let r = requests(s, answers)[i];
    law_requests_come_from_tasks(s, answers, i);
    if r is CreateDirAll {
        let (task, stage, a) = choose|task: Task<PathView>, stage: Stage, a: Answer|
            s.queue.contains(task) && #[trigger] asks_for(task, s.mode, stage, a, r);
        law_tasks_are_called_for(source, target, src, dst, opts, task);
        assert(task is Copy);
        let (from, to) = (task->src, task->Copy_dst);
        let rel = choose|rel: PathView| #[trigger]
            to_copy(src, dst, opts, rel) && from == join_view(source, rel) && to == join_view(
                target,
                rel,
            );
        assert(stale_files(src, dst, opts.tolerance@).contains(rel));
    }
    if r is CopyFile {
        let (task, stage, a) = choose|task: Task<PathView>, stage: Stage, a: Answer|
            s.queue.contains(task) && #[trigger] asks_for(task, s.mode, stage, a, r);
        law_tasks_are_called_for(source, target, src, dst, opts, task);
        let (from, to) = (r->CopyFile_src, r->CopyFile_dst);
        let rel = choose|rel: PathView| #[trigger]
            to_copy(src, dst, opts, rel) && from == join_view(source, rel) && to == join_view(
                target,
                rel,
            );
        assert(stale_files(src, dst, opts.tolerance@).contains(rel));
    }
}

/// A directory is created behind all new directories that hold it.
pub proof fn law_parents_are_created_first(
    source: PathView,
    target: PathView,
    src: SnapshotView,
    dst: SnapshotView,
    opts: SyncOptions,
    i: int,
    j: int,
)
    requires
        src.finite(),
        proper(src),
        ({
            let dirs = plan_for(source, target, src, dst, opts, opts.tolerance@).new_dirs;
            &&& 0 <= i < dirs.len()
            &&& 0 <= j < dirs.len()
            &&& dirs[i] != dirs[j]
            &&& dirs[i].is_prefix_of(dirs[j])
        }),
    ensures
        i < j,
{
    let le = shallow_order();
    let rels = src.dirs.difference(dst.dirs).to_sorted_seq(le);
    lemma_shallow_order_is_total();
    lemma_to_sorted_seq(src.dirs.difference(dst.dirs), le);
    assert(rels.contains(rels[i]) && rels.contains(rels[j]));
    assert(src.dirs.contains(rels[i]) && src.dirs.contains(rels[j]));
    law_join_is_under_root(target, rels[i]);
    law_join_is_under_root(target, rels[j]);
    if j < i {
        assert(le(rels[j], rels[i]));
        assert(target + rels[i] =~= target + rels[j]);
    }
}

/// A directory is deleted behind all directories to be deleted that it holds.
pub proof fn law_children_are_deleted_first(
    source: PathView,
    target: PathView,
    src: SnapshotView,
    dst: SnapshotView,
    opts: SyncOptions,
    i: int,
    j: int,
)
    requires
        dst.finite(),
        proper(dst),
        ({
            let dirs = plan_for(source, target, src, dst, opts, opts.tolerance@).delete_dirs;
            &&& 0 <= i < dirs.len()
            &&& 0 <= j < dirs.len()
            &&& dirs[i] != dirs[j]
            &&& dirs[i].is_prefix_of(dirs[j])
        }),
    ensures
        j < i,
{
    let le = deep_order();
    let rels = extra_dirs(src, dst).to_sorted_seq(le);
    lemma_deep_order_is_total();
    lemma_extra_dirs_are_finite(src, dst);
    lemma_to_sorted_seq(extra_dirs(src, dst), le);
    assert(rels.contains(rels[i]) && rels.contains(rels[j]));
    assert(dst.dirs.contains(rels[i]) && dst.dirs.contains(rels[j]));
    law_join_is_under_root(target, rels[i]);
    law_join_is_under_root(target, rels[j]);
    if i < j {
        assert(le(rels[i], rels[j]));
        assert(target + rels[i] =~= target + rels[j]);
    }
}

/// The sources of pairs.
pub open spec fn pair_sources(pairs: Seq<PairView>) -> Seq<PathView> {
    pairs.map_values(|p: PairView| p.src)
}

/// With both sides swapped, what one plan creates the other deletes: files in the same order, and
/// directories but for those above something that is ignored.
pub proof fn law_swapped_sides_swap_the_plan(
    source: PathView,
    target: PathView,
    src: SnapshotView,
    dst: SnapshotView,
    opts: SyncOptions,
    tolerance: int,
    rel: PathView,
)
    requires
        src.finite(),
        dst.finite(),
        proper(src),
        proper(dst),
        opts.new,
        opts.delete,
        descends(rel),
    ensures
        ({
            let there = plan_for(source, target, src, dst, opts, tolerance);
            let back = plan_for(target, source, dst, src, opts, tolerance);
            &&& pair_sources(there.new_pairs) == back.delete_files
            &&& pair_sources(back.new_pairs) == there.delete_files
            &&& back.delete_dirs.contains(join_view(source, rel)) <==> there.new_dirs.contains(
                join_view(target, rel),
            ) && !src.shelters(rel)
            &&& there.delete_dirs.contains(join_view(target, rel)) <==> back.new_dirs.contains(
                join_view(source, rel),
            ) && !dst.shelters(rel)
        }),
{
    let there = plan_for(source, target, src, dst, opts, tolerance);
    let back = plan_for(target, source, dst, src, opts, tolerance);
    assert(pair_sources(there.new_pairs) =~= back.delete_files);
    assert(pair_sources(back.new_pairs) =~= there.delete_files);
    lemma_swapped_dirs(source, target, src, dst, rel);
    lemma_swapped_dirs(target, source, dst, src, rel);
}

proof fn lemma_swapped_dirs(
    source: PathView,
    target: PathView,
    src: SnapshotView,
    dst: SnapshotView,
    rel: PathView,
)
    requires
        src.finite(),
        dst.finite(),
        proper(src),
        proper(dst),
        descends(rel),
    ensures
        below(target, src.dirs.difference(dst.dirs).to_sorted_seq(shallow_order())).contains(
            join_view(target, rel),
        ) <==> src.dirs.contains(rel) && !dst.dirs.contains(rel),
        below(source, extra_dirs(dst, src).to_sorted_seq(deep_order())).contains(
            join_view(source, rel),
        ) <==> extra_dirs(dst, src).contains(rel),
{
    lemma_shallow_order_is_total();
    lemma_deep_order_is_total();
    lemma_extra_dirs_are_finite(dst, src);
    let (a, b) = (src.dirs.difference(dst.dirs), extra_dirs(dst, src));
    lemma_to_sorted_seq(a, shallow_order());
    lemma_to_sorted_seq(b, deep_order());
    lemma_place_in_list(target, a.to_sorted_seq(shallow_order()), rel);
    lemma_place_in_list(source, b.to_sorted_seq(deep_order()), rel);
}

/// The place of a path is in a list of places exactly when the path is in the list of paths.
pub proof fn lemma_place_in_list(root: PathView, rels: Seq<PathView>, rel: PathView)
    requires
        descends(rel),
        forall|p: PathView| #[trigger] rels.contains(p) ==> descends(p),
    ensures
        below(root, rels).contains(join_view(root, rel)) <==> rels.contains(rel),
{
    law_join_is_under_root(root, rel);
    if rels.contains(rel) {
        let k = choose|k: int| 0 <= k < rels.len() && rels[k] == rel;
        assert(below(root, rels)[k] == join_view(root, rel));
    }
    if below(root, rels).contains(join_view(root, rel)) {
        let other = lemma_below_contains(root, rels, join_view(root, rel));
        law_join_is_under_root(root, other);
    }
}

/// The session of one task.
pub open spec fn single(task: Task<PathView>) -> SessionView {
    SessionView { mode: RunMode::Apply, queue: seq![task], stage: Stage::Start }
}

/// The session of one task, in a dry run.
pub open spec fn single_dry(task: Task<PathView>) -> SessionView {
    SessionView { mode: RunMode::DryRun, queue: seq![task], stage: Stage::Start }
}

/// In a dry run the creation of a directory is told unless something is there, the deletion of one
/// is told always, and nothing changes.
pub proof fn law_dry_run_of_one_directory(p: PathView, answer: Answer, t: Tree, now: Timestamp)
    ensures
        run(single_dry(Task::CreateDir(p)), answer, t, now) == (t, true),
        told(single_dry(Task::CreateDir(p)), answer, t, now) == if t.holds(p) {
            Seq::empty()
        } else {
            seq![Notice::WouldCreateDir(p)]
        },
        run(single_dry(Task::DeleteDir(p)), answer, t, now) == (t, true),
        told(single_dry(Task::DeleteDir(p)), answer, t, now) == seq![Notice::WouldDeleteDir(p)],
{
    let (c, d) = (single_dry(Task::CreateDir(p)), single_dry(Task::DeleteDir(p)));
    law_dry_run_leaves_everything(c, answer, t, now);
    law_dry_run_leaves_everything(d, answer, t, now);
    law_dry_run_tells_the_tasks(c, answer, t, now);
    law_dry_run_tells_the_tasks(d, answer, t, now);
    reveal_with_fuel(forecasts, 2);
    assert(c.queue.drop_first() =~= Seq::empty());
    assert(d.queue.drop_first() =~= Seq::empty());
}

/// A session that is over says nothing more and changes nothing.
proof fn lemma_over(s: SessionView, answer: Answer, t: Tree, now: Timestamp)
    requires
        s.queue.len() == 0,
    ensures
        run(s, answer, t, now) == (t, true),
        told(s, answer, t, now) == Seq::<Notice<PathView>>::empty(),
{
}

/// Deleting a directory succeeds unless a file is there or above, and takes away all that is at
/// and below it. It is told if there was a directory. Done a second time, it succeeds again, says nothing
/// and changes nothing.
pub proof fn law_deleting_a_directory_twice(p: PathView, answer: Answer, t: Tree, now: Timestamp)
    requires
        t.wf(),
        p.len() > 0,
    ensures
        ({
            let s = single(Task::DeleteDir(p));
            let (u, ended) = run(s, answer, t, now);
            &&& ended <==> !is_blocked(t, p)
            &&& ended ==> {
                &&& u == if t.dirs.contains(p) {
                    without_subtree(t, p)
                } else {
                    t
                }
                &&& told(s, answer, t, now) == if t.dirs.contains(p) {
                    seq![Notice::DeletedDir(p)]
                } else {
                    Seq::empty()
                }
                &&& !u.holds(p)
                &&& run(s, answer, u, now) == (u, true)
                &&& told(s, answer, u, now) == Seq::<Notice<PathView>>::empty()
            }
            &&& !ended ==> u == t
        }),
{
    let s = single(Task::DeleteDir(p));
    let (u, ended) = run(s, answer, t, now);
    assert(p.subrange(0, p.len() as int) =~= p);
    lemma_delete_once(p, answer, t, now);
    assert(ancestry(p).contains(p));
    if t.dirs.contains(p) {
        lemma_held_is_clear(t, p);
        assert forall|q: PathView| #[trigger] ancestry(p).contains(q) implies !u.files.contains_key(
            q,
        ) by {}
    }
    if ended {
        lemma_delete_once(p, answer, u, now);
    }
}

proof fn lemma_delete_once(p: PathView, answer: Answer, t: Tree, now: Timestamp)
    ensures
        ({
            let s = single(Task::DeleteDir(p));
            let told = told(s, answer, t, now);
            &&& t.dirs.contains(p) ==> run(s, answer, t, now) == (without_subtree(t, p), true)
                && told == seq![Notice::DeletedDir(p)]
            &&& !t.dirs.contains(p) && !is_blocked(t, p) ==> run(s, answer, t, now) == (t, true)
                && told == Seq::<Notice<PathView>>::empty()
            &&& !t.dirs.contains(p) && is_blocked(t, p) ==> run(s, answer, t, now) == (t, false)
        }),
{
    let s = single(Task::DeleteDir(p));
    let removing = SessionView { stage: Stage::Removing, ..s };
    let over = SessionView { queue: s.queue.drop_first(), ..s };
    let request = Request::<PathView>::RemoveDirAll(p);
    let (u, reply) = perform(t, request, now);
    assert(over.queue =~= Seq::empty());
    assert(step_view(s, answer) == (removing, request));
    assert(run(s, answer, t, now) == run(removing, reply, u, now));
    assert(told(s, answer, t, now) == told(removing, reply, u, now));
    lemma_over(over, Answer::Done, u, now);
    if t.dirs.contains(p) {
        let said = Request::<PathView>::Say(Notice::DeletedDir(p));
        assert(step_view(removing, reply) == (over, said));
        assert(run(removing, reply, u, now) == run(over, Answer::Done, u, now));
        assert(told(removing, reply, u, now) =~= seq![Notice::DeletedDir(p)]);
    } else if !is_blocked(t, p) {
        assert(step_view(removing, reply) == step_view(over, reply));
    } else {
        assert(step_view(removing, reply).1 is Abort);
    }
}

/// Creating a directory succeeds where something is there, silently and without effect. Else it
/// succeeds unless a file is above, creates it with all above it, and is told. Done a second time,
/// it succeeds again, says nothing and changes nothing.
pub proof fn law_creating_a_directory_twice(p: PathView, answer: Answer, t: Tree, now: Timestamp)
    requires
        p.len() > 0,
    ensures
        ({
            let s = single(Task::CreateDir(p));
            let (u, ended) = run(s, answer, t, now);
            &&& ended <==> t.holds(p) || !is_blocked(t, p)
            &&& ended ==> {
                &&& u == if t.holds(p) {
                    t
                } else {
                    Tree { dirs: t.dirs.union(ancestry(p)), ..t }
                }
                &&& told(s, answer, t, now) == if t.holds(p) {
                    Seq::empty()
                } else {
                    seq![Notice::CreatedDir(p)]
                }
                &&& u.holds(p)
                &&& run(s, answer, u, now) == (u, true)
                &&& told(s, answer, u, now) == Seq::<Notice<PathView>>::empty()
            }
            &&& !ended ==> u == t
        }),
{
    let s = single(Task::CreateDir(p));
    let (u, ended) = run(s, answer, t, now);
    assert(p.subrange(0, p.len() as int) =~= p);
    assert(ancestry(p).contains(p));
    lemma_create_once(p, answer, t, now);
    if ended {
        lemma_create_once(p, answer, u, now);
    }
}

proof fn lemma_create_once(p: PathView, answer: Answer, t: Tree, now: Timestamp)
    ensures
        ({
            let s = single(Task::CreateDir(p));
            let told = told(s, answer, t, now);
            let blocked = is_blocked(t, p);
            &&& t.holds(p) ==> run(s, answer, t, now) == (t, true) && told == Seq::<
                Notice<PathView>,
            >::empty()
            &&& !t.holds(p) && !blocked ==> run(s, answer, t, now) == (
                Tree { dirs: t.dirs.union(ancestry(p)), ..t },
                true,
            ) && told == seq![Notice::CreatedDir(p)]
            &&& !t.holds(p) && blocked ==> run(s, answer, t, now) == (t, false)
        }),
{
    let s = single(Task::CreateDir(p));
    let checking = SessionView { stage: Stage::DirCheck, ..s };
    let creating = SessionView { stage: Stage::DirCreating, ..s };
    let over = SessionView { queue: s.queue.drop_first(), ..s };
    let there = Answer::Exists(t.holds(p));
    let request = Request::<PathView>::CreateDirAll(p);
    let (u, reply) = perform(t, request, now);
    assert(over.queue =~= Seq::empty());
    assert(step_view(s, answer) == (checking, Request::<PathView>::Exists(p)));
    assert(run(s, answer, t, now) == run(checking, there, t, now));
    assert(told(s, answer, t, now) == told(checking, there, t, now));
    lemma_over(over, Answer::Done, u, now);
    if t.holds(p) {
        assert(step_view(checking, there) == step_view(over, there));
    } else {
        assert(step_view(checking, there) == (creating, request));
        assert(run(checking, there, t, now) == run(creating, reply, u, now));
        assert(told(checking, there, t, now) == told(creating, reply, u, now));
        if reply is Done {
            let said = Request::<PathView>::Say(Notice::CreatedDir(p));
            assert(step_view(creating, reply) == (over, said));
            assert(run(creating, reply, u, now) == run(over, Answer::Done, u, now));
            assert(told(creating, reply, u, now) =~= seq![Notice::CreatedDir(p)]);
        } else {
            assert(step_view(creating, reply).1 is Abort);
        }
    }
}

} // verus!
