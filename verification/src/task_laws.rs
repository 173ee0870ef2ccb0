//! What a sync does and in what order, told by the two snapshots alone, and what a dry run tells of
//! it.

use vstd::prelude::*;

use crate::laws::{
    forecast, forecasts, law_dry_run_tells_the_tasks, lemma_replaced_is_foretold,
    lemma_task_is_planned, proper, stands_in, sync_session, told,
};
use crate::model::Tree;
use crate::path::descends;
use crate::path::PathView;
use crate::plan::{
    first_part, is_obstacle, is_replaced, lemma_filter_contains, obstacle_filter, plan_for,
    second_part,
};
use crate::plan::{PairView, PlanView, SyncOptions};
use crate::plan_laws::{
    law_plan_creates_and_deletes_what_differs, law_plan_names_paths_below_the_roots,
    law_plan_overwrites_what_is_newer,
};
use crate::session::{all_foretold, foretold, plan_tasks, sync_tasks};
use crate::session::{Announcement, Answer, CopyKind, Notice, Task};
use crate::snapshot::SnapshotView;
use crate::time::Timestamp;

verus! {

/// Every item of a plan whose option is on has its task.
proof fn lemma_item_has_its_task(plan: PlanView, opts: SyncOptions, task: Task<PathView>)
    requires
        stands_in(plan, task),
        match task {
            Task::Copy { kind, .. } => match kind {
                CopyKind::Overwrite => opts.overwrite,
                CopyKind::New => opts.new,
            },
            Task::CreateDir(_) => opts.new,
            _ => opts.delete,
        },
    ensures
        plan_tasks(plan, opts).contains(task),
{
    let tasks = plan_tasks(plan, opts);
    let n1: int = if opts.overwrite {
        plan.overwrite_pairs.len() as int
    } else {
        0
    };
    let n2: int = n1 + if opts.new {
        plan.new_dirs.len() as int
    } else {
        0
    };
    let n3: int = n2 + if opts.new {
        plan.new_pairs.len() as int
    } else {
        0
    };
    match task {
        Task::Copy { kind, src, dst } => {
            let pair = PairView { src, dst };
            match kind {
                CopyKind::Overwrite => {
                    let list = plan.overwrite_pairs;
                    let i = choose|i: int| 0 <= i < list.len() && list[i] == pair;
                    assert(tasks[i] == task);
                },
                CopyKind::New => {
                    let list = plan.new_pairs;
                    let i = choose|i: int| 0 <= i < list.len() && list[i] == pair;
                    assert(tasks[n2 + i] == task);
                },
            }
        },
        Task::CreateDir(p) => {
            let list = plan.new_dirs;
            let i = choose|i: int| 0 <= i < list.len() && list[i] == p;
            assert(tasks[n1 + i] == task);
        },
        Task::DeleteFile(p) => {
            let list = plan.delete_files;
            let i = choose|i: int| 0 <= i < list.len() && list[i] == p;
            assert(tasks[n3 + i] == task);
        },
        Task::DeleteDir(p) => {
            let list = plan.delete_dirs;
            let i = choose|i: int| 0 <= i < list.len() && list[i] == p;
            assert(tasks[n3 + plan.delete_files.len() + i] == task);
        },
        _ => {},
    }
}

/// Every task of either part of a plan is a task of the sync, as a dry run makes it.
proof fn lemma_part_is_in_sync(
    source: PathView,
    target: PathView,
    src: SnapshotView,
    dst: SnapshotView,
    opts: SyncOptions,
    task: Task<PathView>,
)
    ensures
        ({
            let plan = plan_for(source, target, src, dst, opts, opts.tolerance@);
            let first = plan_tasks(first_part(plan, target, src, dst, opts), opts);
            let second = plan_tasks(second_part(plan, target, src, dst, opts), opts);
            let all = sync_tasks(source, target, src, dst, opts);
            &&& first.contains(task) ==> all.contains(task)
            &&& second.contains(task) ==> all.contains(foretold(target, src, dst, opts, task))
        }),
{
    let plan = plan_for(source, target, src, dst, opts, opts.tolerance@);
    let first = plan_tasks(first_part(plan, target, src, dst, opts), opts);
    let second = plan_tasks(second_part(plan, target, src, dst, opts), opts);
    let all = sync_tasks(source, target, src, dst, opts);
    let start: int = if opts.dry_run {
        1
    } else {
        0
    };
    if first.contains(task) {
        let i = choose|i: int| 0 <= i < first.len() && first[i] == task;
        assert(all[start + i] == task);
    }
    if second.contains(task) {
        let i = choose|i: int| 0 <= i < second.len() && second[i] == task;
        assert(all_foretold(target, src, dst, opts, second)[i] == foretold(
            target,
            src,
            dst,
            opts,
            task,
        ));
        assert(all[start + first.len() + i] == foretold(target, src, dst, opts, task));
    }
}

/// The tasks of a sync are the items of its plan.
#[verifier::rlimit(40)]
proof fn lemma_tasks_are_items(
    source: PathView,
    target: PathView,
    src: SnapshotView,
    dst: SnapshotView,
    opts: SyncOptions,
    task: Task<PathView>,
)
    requires
        !(task is Announce),
        !(task is ForetellDir),
    ensures
        ({
            let plan = plan_for(source, target, src, dst, opts, opts.tolerance@);
            let all = sync_tasks(source, target, src, dst, opts);
            match task {
                Task::CreateDir(p) => {
                    let told = opts.dry_run && is_replaced(target, src, dst, opts, p);
                    &&& all.contains(task) <==> stands_in(plan, task) && !told
                    &&& all.contains(Task::ForetellDir(p)) <==> stands_in(plan, task) && told
                },
                _ => all.contains(task) <==> stands_in(plan, task),
            }
        }),
{
    let plan = plan_for(source, target, src, dst, opts, opts.tolerance@);
    let all = sync_tasks(source, target, src, dst, opts);
    let a = first_part(plan, target, src, dst, opts);
    let b = second_part(plan, target, src, dst, opts);
    let (yes, no) = (
        obstacle_filter(target, src, dst, opts, true),
        obstacle_filter(target, src, dst, opts, false),
    );
    if all.contains(task) {
        lemma_task_is_planned(source, target, src, dst, opts, task);
    }
    if let Task::CreateDir(p) = task {
        if all.contains(Task::ForetellDir(p)) {
            lemma_task_is_planned(source, target, src, dst, opts, Task::ForetellDir(p));
        }
        if opts.dry_run && all.contains(task) {
            lemma_replaced_is_foretold(source, target, src, dst, opts, p);
        }
    }
    if stands_in(plan, task) {
        lemma_part_is_in_sync(source, target, src, dst, opts, task);
        match task {
            Task::Copy { kind, .. } => match kind {
                CopyKind::Overwrite => {
                    lemma_item_has_its_task(a, opts, task);
                },
                CopyKind::New => {
                    lemma_item_has_its_task(b, opts, task);
                },
            },
            Task::CreateDir(_) => {
                lemma_item_has_its_task(b, opts, task);
            },
            Task::DeleteFile(p) => {
                lemma_filter_contains(plan.delete_files, p, yes);
                lemma_filter_contains(plan.delete_files, p, no);
                if is_obstacle(target, src, dst, opts, p) {
                    lemma_item_has_its_task(a, opts, task);
                } else {
                    lemma_item_has_its_task(b, opts, task);
                }
            },
            Task::DeleteDir(p) => {
                lemma_filter_contains(plan.delete_dirs, p, yes);
                lemma_filter_contains(plan.delete_dirs, p, no);
                if is_obstacle(target, src, dst, opts, p) {
                    lemma_item_has_its_task(a, opts, task);
                } else {
                    lemma_item_has_its_task(b, opts, task);
                }
            },
            _ => {},
        }
    }
}

/// A sync has exactly the tasks that the two trees and the options call for.
///
/// A file is copied over where it is newer by more than the tolerance, and newly copied where the
/// target has none. A directory is created where the target has none, and in a dry run is told
/// without a look if a file would be deleted from its place. A file or a directory is deleted
/// where the source has none, but for a directory with something ignored below it.
#[verifier::rlimit(40)]
pub proof fn law_sync_does_what_differs(
    source: PathView,
    target: PathView,
    src: SnapshotView,
    dst: SnapshotView,
    opts: SyncOptions,
    rel: PathView,
)
    requires
        src.finite(),
        dst.finite(),
        proper(src),
        proper(dst),
        descends(rel),
    ensures
        ({
            let all = sync_tasks(source, target, src, dst, opts);
            let overwrite = Task::Copy {
                kind: CopyKind::Overwrite,
                src: source + rel,
                dst: target + rel,
            };
            let copy = Task::Copy { kind: CopyKind::New, src: source + rel, dst: target + rel };
            let missing = opts.new && src.dirs.contains(rel) && !dst.dirs.contains(rel);
            let unseen = opts.dry_run && opts.delete && dst.files.contains_key(rel)
                && !src.files.contains_key(rel);
            &&& all.contains(overwrite) <==> opts.overwrite && src.files.contains_key(rel)
                && dst.files.contains_key(rel) && src.files[rel] - dst.files[rel]
                > opts.tolerance.secs * 1_000_000_000 + opts.tolerance.nanos
            &&& all.contains(copy) <==> opts.new && src.files.contains_key(rel)
                && !dst.files.contains_key(rel)
            &&& all.contains(Task::CreateDir(target + rel)) <==> missing && !unseen
            &&& all.contains(Task::ForetellDir(target + rel)) <==> missing && unseen
            &&& all.contains(Task::DeleteFile(target + rel)) <==> opts.delete
                && dst.files.contains_key(rel) && !src.files.contains_key(rel)
            &&& all.contains(Task::DeleteDir(target + rel)) <==> opts.delete && dst.dirs.contains(
                rel,
            ) && !src.dirs.contains(rel) && forall|e: PathView| #[trigger]
                dst.ignored.contains(e) && rel.is_prefix_of(e) ==> e == rel
        }),
{
    let (from, to) = (source + rel, target + rel);
    law_plan_overwrites_what_is_newer(source, target, src, dst, opts, opts.tolerance@, rel);
    law_plan_creates_and_deletes_what_differs(
        source,
        target,
        src,
        dst,
        opts,
        opts.tolerance@,
        rel,
    );
    assert(to.skip(target.len() as int) =~= rel);
    assert(to.subrange(0, target.len() as int) =~= target);
    lemma_tasks_are_items(
        source,
        target,
        src,
        dst,
        opts,
        Task::Copy { kind: CopyKind::Overwrite, src: from, dst: to },
    );
    lemma_tasks_are_items(
        source,
        target,
        src,
        dst,
        opts,
        Task::Copy { kind: CopyKind::New, src: from, dst: to },
    );
    lemma_tasks_are_items(source, target, src, dst, opts, Task::CreateDir(to));
    lemma_tasks_are_items(source, target, src, dst, opts, Task::DeleteFile(to));
    lemma_tasks_are_items(source, target, src, dst, opts, Task::DeleteDir(to));
}

/// A sync has no task but on a path below the target, a copy from the same path below the source,
/// and announcements.
pub proof fn law_tasks_lie_below_the_roots(
    source: PathView,
    target: PathView,
    src: SnapshotView,
    dst: SnapshotView,
    opts: SyncOptions,
    task: Task<PathView>,
)
    requires
        src.finite(),
        dst.finite(),
        proper(src),
        proper(dst),
        sync_tasks(source, target, src, dst, opts).contains(task),
    ensures
        match task {
            Task::Announce(a) => a is DryRun ==> opts.dry_run,
            Task::Copy { kind: _, src: from, dst: to } => {
                let rel = to.skip(target.len() as int);
                &&& descends(rel)
                &&& rel.len() > 0
                &&& to == target + rel
                &&& from == source + rel
            },
            Task::ForetellDir(p) | Task::CreateDir(p) | Task::DeleteFile(p) | Task::DeleteDir(p) => {
                let rel = p.skip(target.len() as int);
                &&& descends(rel)
                &&& rel.len() > 0
                &&& p == target + rel
            },
        },
{
    let plan = plan_for(source, target, src, dst, opts, opts.tolerance@);
    let all = sync_tasks(source, target, src, dst, opts);
    let none = PairView { src: source, dst: target };
    if !(task is Announce) {
        lemma_task_is_planned(source, target, src, dst, opts, task);
    }
    match task {
        Task::Announce(_) => {
            let k = choose|k: int| 0 <= k < all.len() && all[k] == task;
            lemma_no_announcement(plan, source, target, src, dst, opts, k);
        },
        Task::Copy { kind: _, src: from, dst: to } => {
            law_plan_names_paths_below_the_roots(
                source,
                target,
                src,
                dst,
                opts,
                opts.tolerance@,
                to,
                PairView { src: from, dst: to },
            );
        },
        Task::ForetellDir(p) | Task::CreateDir(p) | Task::DeleteFile(p) | Task::DeleteDir(p) => {
            law_plan_names_paths_below_the_roots(
                source,
                target,
                src,
                dst,
                opts,
                opts.tolerance@,
                p,
                none,
            );
        },
    }
}

/// Announcements stand at the ends alone.
proof fn lemma_no_announcement(
    plan: PlanView,
    source: PathView,
    target: PathView,
    src: SnapshotView,
    dst: SnapshotView,
    opts: SyncOptions,
    k: int,
)
    requires
        plan == plan_for(source, target, src, dst, opts, opts.tolerance@),
        0 <= k < sync_tasks(source, target, src, dst, opts).len(),
        sync_tasks(source, target, src, dst, opts)[k] is Announce,
    ensures
        k == sync_tasks(source, target, src, dst, opts).len() - 1 || k == 0 && opts.dry_run,
        sync_tasks(source, target, src, dst, opts)[k] == Task::<PathView>::Announce(
            Announcement::DryRun,
        ) ==> opts.dry_run,
{
    let all = sync_tasks(source, target, src, dst, opts);
    let first = plan_tasks(first_part(plan, target, src, dst, opts), opts);
    let second = plan_tasks(second_part(plan, target, src, dst, opts), opts);
    let start: int = if opts.dry_run {
        1
    } else {
        0
    };
    if start <= k < start + first.len() {
        assert(all[k] == first[k - start]);
        lemma_plan_announces_nothing(first_part(plan, target, src, dst, opts), opts, k - start);
    } else if start + first.len() <= k < all.len() - 1 {
        let i = k - start - first.len();
        assert(all[k] == foretold(target, src, dst, opts, second[i]));
        lemma_plan_announces_nothing(second_part(plan, target, src, dst, opts), opts, i);
    }
}

proof fn lemma_plan_announces_nothing(plan: PlanView, opts: SyncOptions, i: int)
    requires
        0 <= i < plan_tasks(plan, opts).len(),
    ensures
        !(plan_tasks(plan, opts)[i] is Announce),
        !(plan_tasks(plan, opts)[i] is ForetellDir),
{
}

/// The end is announced last and nowhere else, and a dry run first and nowhere else.
pub proof fn law_announcements_stand_at_the_ends(
    source: PathView,
    target: PathView,
    src: SnapshotView,
    dst: SnapshotView,
    opts: SyncOptions,
    k: int,
)
    requires
        0 <= k < sync_tasks(source, target, src, dst, opts).len(),
    ensures
        ({
            let all = sync_tasks(source, target, src, dst, opts);
            &&& all[k] == Task::<PathView>::Announce(Announcement::Done) <==> k == all.len() - 1
            &&& all[k] == Task::<PathView>::Announce(Announcement::DryRun) <==> k == 0
                && opts.dry_run
            &&& opts.dry_run ==> all.len() >= 2
        }),
{
    let plan = plan_for(source, target, src, dst, opts, opts.tolerance@);
    let all = sync_tasks(source, target, src, dst, opts);
    if all[k] is Announce {
        lemma_no_announcement(plan, source, target, src, dst, opts, k);
    }
}

/// A dry run goes through the same tasks in the same order as the sync itself, behind its
/// announcement; only the creation of a directory may become the telling of it.
#[verifier::rlimit(40)]
pub proof fn law_dry_run_goes_through_the_same_tasks(
    source: PathView,
    target: PathView,
    src: SnapshotView,
    dst: SnapshotView,
    opts: SyncOptions,
    i: int,
)
    ensures
        ({
            let dry = sync_tasks(
                source,
                target,
                src,
                dst,
                (SyncOptions { dry_run: true, ..opts }),
            );
            let wet = sync_tasks(
                source,
                target,
                src,
                dst,
                (SyncOptions { dry_run: false, ..opts }),
            );
            &&& dry.len() == wet.len() + 1
            &&& dry[0] == Task::<PathView>::Announce(Announcement::DryRun)
            &&& 0 <= i < wet.len() ==> dry[i + 1] == wet[i] || (wet[i] matches Task::CreateDir(p)
                && dry[i + 1] == Task::ForetellDir(p))
        }),
{
    let (d, w) = (SyncOptions { dry_run: true, ..opts }, SyncOptions { dry_run: false, ..opts });
    let dry = sync_tasks(source, target, src, dst, d);
    let wet = sync_tasks(source, target, src, dst, w);
    let plan = plan_for(source, target, src, dst, d, d.tolerance@);
    assert(plan =~= plan_for(source, target, src, dst, w, w.tolerance@));
    assert(obstacle_filter(target, src, dst, d, true) =~= obstacle_filter(
        target,
        src,
        dst,
        w,
        true,
    ));
    assert(obstacle_filter(target, src, dst, d, false) =~= obstacle_filter(
        target,
        src,
        dst,
        w,
        false,
    ));
    let (a, b) = (
        first_part(plan, target, src, dst, d),
        second_part(plan, target, src, dst, d),
    );
    assert(a == first_part(plan, target, src, dst, w));
    assert(b == second_part(plan, target, src, dst, w));
    let (first, second) = (plan_tasks(a, d), plan_tasks(b, d));
    assert(first == plan_tasks(a, w));
    assert(second == plan_tasks(b, w));
    if 0 <= i < wet.len() {
        if i < first.len() {
            assert(wet[i] == first[i] && dry[i + 1] == first[i]);
        } else if i < wet.len() - 1 {
            let k = i - first.len();
            assert(wet[i] == foretold(target, src, dst, w, second[k]));
            assert(dry[i + 1] == foretold(target, src, dst, d, second[k]));
        }
    }
}

proof fn lemma_forecasts_contain(queue: Seq<Task<PathView>>, t: Tree, n: Notice<PathView>)
    ensures
        forecasts(queue, t).contains(n) <==> exists|k: int|
            0 <= k < queue.len() && forecast(#[trigger] queue[k], t).contains(n),
    decreases queue.len(),
{
    if queue.len() > 0 {
        let rest = queue.drop_first();
        let (a, b) = (forecast(queue[0], t), forecasts(rest, t));
        lemma_forecasts_contain(rest, t, n);
        assert((a + b).contains(n) <==> a.contains(n) || b.contains(n)) by {
            if a.contains(n) {
                let i = choose|i: int| 0 <= i < a.len() && a[i] == n;
                assert((a + b)[i] == n);
            }
            if b.contains(n) {
                let i = choose|i: int| 0 <= i < b.len() && b[i] == n;
                assert((a + b)[a.len() + i] == n);
            }
        }
        if b.contains(n) {
            let k = choose|k: int| 0 <= k < rest.len() && forecast(#[trigger] rest[k], t).contains(n);
            assert(queue[k + 1] == rest[k]);
        }
        if exists|k: int| 0 <= k < queue.len() && forecast(#[trigger] queue[k], t).contains(n) {
            let k = choose|k: int|
                0 <= k < queue.len() && forecast(#[trigger] queue[k], t).contains(n);
            if k > 0 {
                assert(rest[k - 1] == queue[k]);
            }
        }
    }
}

/// What a task has to be for a notice to be told of it.
proof fn lemma_forecast_of(task: Task<PathView>, t: Tree, n: Notice<PathView>)
    ensures
        forecast(task, t).contains(n) <==> match n {
            Notice::Announced(a) => task == Task::<PathView>::Announce(a),
            Notice::WouldCopy { kind, src, dst } => task == (Task::Copy { kind, src, dst }),
            Notice::WouldCreateDir(p) => task == Task::ForetellDir(p) || task == Task::CreateDir(p)
                && !t.holds(p),
            Notice::WouldDeleteFile(p) => task == Task::DeleteFile(p),
            Notice::WouldDeleteDir(p) => task == Task::DeleteDir(p),
            _ => false,
        },
{
    let s = forecast(task, t);
    if s.len() > 0 {
        assert(s.contains(s[0]));
    }
    if s.contains(n) {
        assert(s[0] == n);
    }
}

#[verifier::rlimit(40)]
proof fn lemma_told_if(
    s: crate::session::SessionView,
    answer: Answer,
    t: Tree,
    now: Timestamp,
    n: Notice<PathView>,
)
    requires
        s.mode is DryRun,
        s.stage is Start,
    ensures
        told(s, answer, t, now).contains(n) <==> match n {
            Notice::Announced(a) => s.queue.contains(Task::Announce(a)),
            Notice::WouldCopy { kind, src, dst } => s.queue.contains(
                (Task::Copy { kind, src, dst }),
            ),
            Notice::WouldCreateDir(p) => s.queue.contains(Task::ForetellDir(p)) || s.queue.contains(
                Task::CreateDir(p),
            ) && !t.holds(p),
            Notice::WouldDeleteFile(p) => s.queue.contains(Task::DeleteFile(p)),
            Notice::WouldDeleteDir(p) => s.queue.contains(Task::DeleteDir(p)),
            _ => false,
        },
{
    law_dry_run_tells_the_tasks(s, answer, t, now);
    lemma_forecasts_contain(s.queue, t, n);
    assert forall|task: Task<PathView>| forecast(task, t).contains(n) <==> match n {
        Notice::Announced(a) => task == Task::<PathView>::Announce(a),
        Notice::WouldCopy { kind, src, dst } => task == (Task::Copy { kind, src, dst }),
        Notice::WouldCreateDir(p) => task == Task::ForetellDir(p) || task == Task::CreateDir(p)
            && !t.holds(p),
        Notice::WouldDeleteFile(p) => task == Task::DeleteFile(p),
        Notice::WouldDeleteDir(p) => task == Task::DeleteDir(p),
        _ => false,
    } by {
        lemma_forecast_of(task, t, n);
    }
    if told(s, answer, t, now).contains(n) {
        let k = choose|k: int|
            0 <= k < s.queue.len() && forecast(#[trigger] s.queue[k], t).contains(n);
        assert(s.queue.contains(s.queue[k]));
    }
}

/// A dry run tells everything that the sync would do, and nothing else, whichever of overwriting,
/// creating and deleting are on.
///
/// That a directory would be created is told where there is nothing, or a file that would be
/// deleted.
#[verifier::rlimit(40)]
pub proof fn law_dry_run_tells_what_differs(
    source: PathView,
    target: PathView,
    t: Tree,
    src: SnapshotView,
    dst: SnapshotView,
    opts: SyncOptions,
    answer: Answer,
    now: Timestamp,
    rel: PathView,
)
    requires
        opts.dry_run,
        src.finite(),
        dst.finite(),
        proper(src),
        proper(dst),
        descends(rel),
    ensures
        ({
            let lines = told(sync_session(source, target, src, dst, opts), answer, t, now);
            let overwrite = Notice::WouldCopy {
                kind: CopyKind::Overwrite,
                src: source + rel,
                dst: target + rel,
            };
            let copy = Notice::WouldCopy {
                kind: CopyKind::New,
                src: source + rel,
                dst: target + rel,
            };
            &&& lines.contains(overwrite) <==> opts.overwrite && src.files.contains_key(rel)
                && dst.files.contains_key(rel) && src.files[rel] - dst.files[rel]
                > opts.tolerance.secs * 1_000_000_000 + opts.tolerance.nanos
            &&& lines.contains(copy) <==> opts.new && src.files.contains_key(rel)
                && !dst.files.contains_key(rel)
            &&& lines.contains(Notice::WouldCreateDir(target + rel)) <==> opts.new
                && src.dirs.contains(rel) && !dst.dirs.contains(rel) && (!t.holds(target + rel)
                || opts.delete && dst.files.contains_key(rel) && !src.files.contains_key(rel))
            &&& lines.contains(Notice::WouldDeleteFile(target + rel)) <==> opts.delete
                && dst.files.contains_key(rel) && !src.files.contains_key(rel)
            &&& lines.contains(Notice::WouldDeleteDir(target + rel)) <==> opts.delete
                && dst.dirs.contains(rel) && !src.dirs.contains(rel) && forall|e: PathView|
             #[trigger]
                dst.ignored.contains(e) && rel.is_prefix_of(e) ==> e == rel
            &&& lines.contains(Notice::Announced(Announcement::DryRun))
            &&& lines.contains(Notice::Announced(Announcement::Done))
        }),
{
    let s = sync_session(source, target, src, dst, opts);
    let (from, to) = (source + rel, target + rel);
    let all = s.queue;
    law_sync_does_what_differs(source, target, src, dst, opts, rel);
    lemma_told_if(
        s,
        answer,
        t,
        now,
        Notice::WouldCopy { kind: CopyKind::Overwrite, src: from, dst: to },
    );
    lemma_told_if(
        s,
        answer,
        t,
        now,
        Notice::WouldCopy { kind: CopyKind::New, src: from, dst: to },
    );
    lemma_told_if(s, answer, t, now, Notice::WouldCreateDir(to));
    lemma_told_if(s, answer, t, now, Notice::WouldDeleteFile(to));
    lemma_told_if(s, answer, t, now, Notice::WouldDeleteDir(to));
    lemma_told_if(s, answer, t, now, Notice::Announced(Announcement::DryRun));
    lemma_told_if(s, answer, t, now, Notice::Announced(Announcement::Done));
    assert(all[0] == Task::<PathView>::Announce(Announcement::DryRun));
    assert(all[all.len() - 1] == Task::<PathView>::Announce(Announcement::Done));
}

} // verus!
