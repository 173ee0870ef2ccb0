//! In what order a sync goes.

use vstd::prelude::*;

use crate::laws::{lemma_task_is_in_plan, proper};
use crate::path::PathView;
use crate::plan::{
    first_part, is_missing, is_obstacle, is_vacated, lemma_filter_contains, lemma_filter_push,
    obstacle_filter, obstructs, plan_for, second_part,
};
use crate::plan::{PlanView, SyncOptions};
use crate::plan_laws::law_plan_goes_in_order;
use crate::session::{foretold, plan_tasks, sync_tasks};
use crate::session::{Announcement, CopyKind, Task};
use crate::snapshot::SnapshotView;
use crate::task_laws::{
    law_announcements_stand_at_the_ends, law_sync_does_what_differs, law_tasks_lie_below_the_roots,
};

verus! {

/// The tasks of a plan are its items, list by list, each in its place: overwriting, creating
/// directories, copying new files, deleting files, deleting directories. An option that is off
/// leaves its lists out.
pub proof fn law_plan_items_become_tasks(plan: PlanView, opts: SyncOptions, i: int)
    ensures
        ({
            let tasks = plan_tasks(plan, opts);
            let n1: int = if opts.overwrite {
                plan.overwrite_pairs.len() as int
            } else {
                0
            };
            let n2: int = n1 + if opts.new {
                plan.new_dirs.len() as int
            } else {
                0
            };
            let n3: int = n2 + if opts.new {
                plan.new_pairs.len() as int
            } else {
                0
            };
            let n4: int = n3 + if opts.delete {
                plan.delete_files.len() as int
            } else {
                0
            };
            let n5: int = n4 + if opts.delete {
                plan.delete_dirs.len() as int
            } else {
                0
            };
            &&& tasks.len() == n5
            &&& 0 <= i < n1 ==> tasks[i] == (Task::Copy {
                kind: CopyKind::Overwrite,
                src: plan.overwrite_pairs[i].src,
                dst: plan.overwrite_pairs[i].dst,
            })
            &&& n1 <= i < n2 ==> tasks[i] == Task::<PathView>::CreateDir(plan.new_dirs[i - n1])
            &&& n2 <= i < n3 ==> tasks[i] == (Task::Copy {
                kind: CopyKind::New,
                src: plan.new_pairs[i - n2].src,
                dst: plan.new_pairs[i - n2].dst,
            })
            &&& n3 <= i < n4 ==> tasks[i] == Task::<PathView>::DeleteFile(plan.delete_files[i - n3])
            &&& n4 <= i < n5 ==> tasks[i] == Task::<PathView>::DeleteDir(plan.delete_dirs[i - n4])
        }),
{
}

/// The turn of a task in a sync.
spec fn turn(
    target: PathView,
    src: SnapshotView,
    dst: SnapshotView,
    opts: SyncOptions,
    task: Task<PathView>,
) -> int {
    match task {
        Task::Announce(a) => match a {
            Announcement::DryRun => 0,
            Announcement::Done => 9,
        },
        Task::Copy { kind, .. } => match kind {
            CopyKind::Overwrite => 1,
            CopyKind::New => 5,
        },
        Task::ForetellDir(_) | Task::CreateDir(_) => 4,
        Task::DeleteFile(p) => if is_obstacle(target, src, dst, opts, p) {
            2
        } else {
            6
        },
        Task::DeleteDir(p) => if is_obstacle(target, src, dst, opts, p) {
            3
        } else {
            7
        },
    }
}

/// The list of a plan that a task comes from.
spec fn list_of(task: Task<PathView>) -> int {
    match task {
        Task::Copy { kind, .. } => match kind {
            CopyKind::Overwrite => 0,
            CopyKind::New => 2,
        },
        Task::CreateDir(_) => 1,
        Task::DeleteFile(_) => 3,
        _ => 4,
    }
}

proof fn lemma_lists_follow(plan: PlanView, opts: SyncOptions, i: int, j: int)
    requires
        0 <= i < j < plan_tasks(plan, opts).len(),
    ensures
        list_of(plan_tasks(plan, opts)[i]) <= list_of(plan_tasks(plan, opts)[j]),
        plan_tasks(plan, opts)[i] matches Task::DeleteDir(p) ==> exists|x: int, y: int|
            0 <= x < y < plan.delete_dirs.len() && p == #[trigger] plan.delete_dirs[x]
                && plan_tasks(plan, opts)[j] == Task::<PathView>::DeleteDir(
                #[trigger] plan.delete_dirs[y],
            ),
        plan_tasks(plan, opts)[i] is CreateDir && plan_tasks(plan, opts)[j] is CreateDir ==> exists|x: int, y: int|
            0 <= x < y < plan.new_dirs.len() && plan_tasks(plan, opts)[i] == Task::<
                PathView,
            >::CreateDir(#[trigger] plan.new_dirs[x]) && plan_tasks(plan, opts)[j] == Task::<
                PathView,
            >::CreateDir(#[trigger] plan.new_dirs[y]),
{
    law_plan_items_become_tasks(plan, opts, i);
    law_plan_items_become_tasks(plan, opts, j);
    let tasks = plan_tasks(plan, opts);
    let n1: int = if opts.overwrite {
        plan.overwrite_pairs.len() as int
    } else {
        0
    };
    let n4: int = n1 + (if opts.new {
        (plan.new_dirs.len() + plan.new_pairs.len()) as int
    } else {
        0
    }) + if opts.delete {
        plan.delete_files.len() as int
    } else {
        0
    };
    if tasks[i] is DeleteDir {
        assert(tasks[i] == Task::<PathView>::DeleteDir(plan.delete_dirs[i - n4]));
        assert(tasks[j] == Task::<PathView>::DeleteDir(plan.delete_dirs[j - n4]));
    }
    if tasks[i] is CreateDir && tasks[j] is CreateDir {
        assert(tasks[i] == Task::<PathView>::CreateDir(plan.new_dirs[i - n1]));
        assert(tasks[j] == Task::<PathView>::CreateDir(plan.new_dirs[j - n1]));
    }
}

/// A task of the first part of a plan has an early turn, one of the second part a late one.
proof fn lemma_turn_of_part(
    plan: PlanView,
    target: PathView,
    src: SnapshotView,
    dst: SnapshotView,
    opts: SyncOptions,
    task: Task<PathView>,
)
    ensures
        plan_tasks(first_part(plan, target, src, dst, opts), opts).contains(task) ==> turn(
            target,
            src,
            dst,
            opts,
            task,
        ) == if list_of(task) == 0 {
            1
        } else {
            list_of(task) - 1
        } && 1 <= turn(target, src, dst, opts, task) <= 3,
        plan_tasks(second_part(plan, target, src, dst, opts), opts).contains(task) ==> turn(
            target,
            src,
            dst,
            opts,
            task,
        ) == list_of(task) + 3 && 4 <= turn(target, src, dst, opts, task) <= 7,
{
    let a = first_part(plan, target, src, dst, opts);
    let b = second_part(plan, target, src, dst, opts);
    let (yes, no) = (
        obstacle_filter(target, src, dst, opts, true),
        obstacle_filter(target, src, dst, opts, false),
    );
    if plan_tasks(a, opts).contains(task) {
        lemma_task_is_in_plan(a, opts, task);
    }
    if plan_tasks(b, opts).contains(task) {
        lemma_task_is_in_plan(b, opts, task);
    }
    match task {
        Task::DeleteFile(p) => {
            lemma_filter_contains(plan.delete_files, p, yes);
            lemma_filter_contains(plan.delete_files, p, no);
        },
        Task::DeleteDir(p) => {
            lemma_filter_contains(plan.delete_dirs, p, yes);
            lemma_filter_contains(plan.delete_dirs, p, no);
        },
        _ => {},
    }
}

/// What is left of a list of directories still has more components first.
proof fn lemma_filter_keeps_depths(s: Seq<PathView>, f: spec_fn(PathView) -> bool)
    requires
        forall|i: int, j: int| 0 <= i < j < s.len() ==> (#[trigger] s[i]).len() >= (#[trigger] s[j]).len(),
    ensures
        forall|i: int, j: int|
            0 <= i < j < s.filter(f).len() ==> (#[trigger] s.filter(f)[i]).len() >= (
            #[trigger] s.filter(f)[j]).len(),
    decreases s.len(),
{
    if s.len() == 0 {
        reveal(Seq::filter);
    } else {
        let (rest, last) = (s.drop_last(), s.last());
        let (t, kept) = (s.filter(f), rest.filter(f));
        assert(s =~= rest.push(last));
        assert forall|i: int, j: int| 0 <= i < j < rest.len() implies (#[trigger] rest[i]).len() >= (
        #[trigger] rest[j]).len() by {
            assert(rest[i] == s[i] && rest[j] == s[j]);
        }
        lemma_filter_keeps_depths(rest, f);
        lemma_filter_push(rest, last, f);
        assert forall|i: int, j: int| 0 <= i < j < t.len() implies (#[trigger] t[i]).len() >= (
        #[trigger] t[j]).len() by {
            if j < kept.len() {
                assert(t[i] == kept[i] && t[j] == kept[j]);
            } else {
                assert(t[i] == kept[i]);
                assert(kept.contains(kept[i]));
                lemma_filter_contains(rest, kept[i], f);
                let k = choose|k: int| 0 <= k < rest.len() && rest[k] == kept[i];
                assert(s[k] == kept[i]);
                assert(s[s.len() - 1] == last);
            }
        }
    }
}

/// The tasks of a sync take their turns; directories are created with fewer components first, and
/// those of one turn are deleted with more components first.
#[verifier::rlimit(40)]
proof fn lemma_turns(
    source: PathView,
    target: PathView,
    src: SnapshotView,
    dst: SnapshotView,
    opts: SyncOptions,
    i: int,
    j: int,
)
    requires
        src.finite(),
        dst.finite(),
        proper(src),
        proper(dst),
        0 <= i < j < sync_tasks(source, target, src, dst, opts).len(),
    ensures
        ({
            let all = sync_tasks(source, target, src, dst, opts);
            let (x, y) = (
                turn(target, src, dst, opts, all[i]),
                turn(target, src, dst, opts, all[j]),
            );
            &&& x <= y
            &&& all[i] is DeleteDir && all[j] is DeleteDir && x == y ==> all[i]->DeleteDir_0.len()
                >= all[j]->DeleteDir_0.len()
            &&& x == 4 && y == 4 ==> place_of(all[i]).len() <= place_of(all[j]).len()
        }),
{
    let plan = plan_for(source, target, src, dst, opts, opts.tolerance@);
    let all = sync_tasks(source, target, src, dst, opts);
    let a = first_part(plan, target, src, dst, opts);
    let b = second_part(plan, target, src, dst, opts);
    let (first, second) = (plan_tasks(a, opts), plan_tasks(b, opts));
    let start: int = if opts.dry_run {
        1
    } else {
        0
    };
    let n = first.len() as int;
    assert forall|x: int, y: int| 0 <= x < y < plan.delete_dirs.len() implies (
    #[trigger] plan.delete_dirs[x]).len() >= (#[trigger] plan.delete_dirs[y]).len() by {
        law_plan_goes_in_order(source, target, src, dst, opts, opts.tolerance@, x, y);
    }
    lemma_filter_keeps_depths(
        plan.delete_dirs,
        obstacle_filter(target, src, dst, opts, true),
    );
    lemma_filter_keeps_depths(
        plan.delete_dirs,
        obstacle_filter(target, src, dst, opts, false),
    );
    lemma_turn_at(source, target, src, dst, opts, i);
    lemma_turn_at(source, target, src, dst, opts, j);
    if start <= i && j < start + n {
        lemma_lists_follow(a, opts, i - start, j - start);
    } else if start + n <= i && j < all.len() - 1 {
        let (x, y) = (i - start - n, j - start - n);
        lemma_lists_follow(b, opts, x, y);
        assert(all[i] == foretold(target, src, dst, opts, second[x]));
        assert(all[j] == foretold(target, src, dst, opts, second[y]));
        if second[x] is CreateDir && second[y] is CreateDir {
            let (u, v) = choose|u: int, v: int|
                0 <= u < v < b.new_dirs.len() && second[x] == Task::<PathView>::CreateDir(
                    #[trigger] b.new_dirs[u],
                ) && second[y] == Task::<PathView>::CreateDir(#[trigger] b.new_dirs[v]);
            law_plan_goes_in_order(source, target, src, dst, opts, opts.tolerance@, u, v);
        }
    }
}

/// An earlier turn stands before a later one.
proof fn lemma_earlier_turn(
    source: PathView,
    target: PathView,
    src: SnapshotView,
    dst: SnapshotView,
    opts: SyncOptions,
    i: int,
    j: int,
)
    requires
        src.finite(),
        dst.finite(),
        proper(src),
        proper(dst),
        0 <= i < sync_tasks(source, target, src, dst, opts).len(),
        0 <= j < sync_tasks(source, target, src, dst, opts).len(),
        turn(target, src, dst, opts, sync_tasks(source, target, src, dst, opts)[i]) < turn(
            target,
            src,
            dst,
            opts,
            sync_tasks(source, target, src, dst, opts)[j],
        ),
    ensures
        i < j,
{
    if j < i {
        lemma_turns(source, target, src, dst, opts, j, i);
    }
}

/// The place that a task creates.
spec fn place_of(task: Task<PathView>) -> PathView {
    match task {
        Task::ForetellDir(p) | Task::CreateDir(p) => p,
        Task::Copy { dst, .. } => dst,
        _ => PathView::empty(),
    }
}

/// Where a task stands tells its turn.
#[verifier::rlimit(40)]
proof fn lemma_turn_at(
    source: PathView,
    target: PathView,
    src: SnapshotView,
    dst: SnapshotView,
    opts: SyncOptions,
    i: int,
)
    requires
        0 <= i < sync_tasks(source, target, src, dst, opts).len(),
    ensures
        ({
            let plan = plan_for(source, target, src, dst, opts, opts.tolerance@);
            let all = sync_tasks(source, target, src, dst, opts);
            let first = plan_tasks(first_part(plan, target, src, dst, opts), opts);
            let second = plan_tasks(second_part(plan, target, src, dst, opts), opts);
            let start: int = if opts.dry_run {
                1
            } else {
                0
            };
            let n = first.len() as int;
            let x = turn(target, src, dst, opts, all[i]);
            &&& i < start ==> x == 0
            &&& start <= i < start + n ==> {
                &&& all[i] == first[i - start]
                &&& 1 <= x <= 3
                &&& x == if list_of(all[i]) == 0 {
                    1
                } else {
                    list_of(all[i]) - 1
                }
            }
            &&& start + n <= i < all.len() - 1 ==> {
                &&& all[i] == foretold(target, src, dst, opts, second[i - start - n])
                &&& 4 <= x <= 7
                &&& x == list_of(second[i - start - n]) + 3
            }
            &&& i == all.len() - 1 ==> x == 9
            &&& all.len() == start + n + second.len() + 1
        }),
{
    let plan = plan_for(source, target, src, dst, opts, opts.tolerance@);
    let all = sync_tasks(source, target, src, dst, opts);
    let first = plan_tasks(first_part(plan, target, src, dst, opts), opts);
    let second = plan_tasks(second_part(plan, target, src, dst, opts), opts);
    let start: int = if opts.dry_run {
        1
    } else {
        0
    };
    let n = first.len() as int;
    if start <= i < start + n {
        assert(first.contains(first[i - start]));
        lemma_turn_of_part(plan, target, src, dst, opts, first[i - start]);
    } else if start + n <= i < all.len() - 1 {
        let task = second[i - start - n];
        assert(second.contains(task));
        lemma_turn_of_part(plan, target, src, dst, opts, task);
    }
}

/// Overwriting comes first. Directories are created before new files are copied. Nothing is
/// deleted before something is created but what is at or below a place where something is to be
/// created, and can be.
#[verifier::spinoff_prover]
#[verifier::rlimit(40)]
pub proof fn law_tasks_take_turns(
    source: PathView,
    target: PathView,
    src: SnapshotView,
    dst: SnapshotView,
    opts: SyncOptions,
    i: int,
    j: int,
)
    requires
        src.finite(),
        dst.finite(),
        proper(src),
        proper(dst),
        0 <= i < j < sync_tasks(source, target, src, dst, opts).len(),
    ensures
        ({
            let all = sync_tasks(source, target, src, dst, opts);
            let (x, y) = (all[i], all[j]);
            let creates = y is CreateDir || y is ForetellDir || (y matches Task::Copy { kind, .. }
                && kind is New);
            &&& (y matches Task::Copy { kind, .. } && kind is Overwrite) ==> i == 0 && opts.dry_run
                || (x matches Task::Copy { kind, .. } && kind is Overwrite)
            &&& y is CreateDir || y is ForetellDir ==> !(x matches Task::Copy { kind, .. } && kind
                is New)
            &&& creates ==> (x matches Task::DeleteFile(p) ==> is_at_or_below_a_new_place(
                src,
                dst,
                opts,
                p.skip(target.len() as int),
            ))
            &&& creates ==> (x matches Task::DeleteDir(p) ==> is_at_or_below_a_new_place(
                src,
                dst,
                opts,
                p.skip(target.len() as int),
            ))
        }),
{
    let all = sync_tasks(source, target, src, dst, opts);
    lemma_turns(source, target, src, dst, opts, i, j);
    law_announcements_stand_at_the_ends(source, target, src, dst, opts, i);
    match all[i] {
        Task::DeleteFile(p) | Task::DeleteDir(p) => {
            if is_obstacle(target, src, dst, opts, p) {
                lemma_obstacle_is_in_the_way(target, src, dst, opts, p);
            }
        },
        _ => {},
    }
}

/// With creating and deleting on, something is to be created at `rel` or above it, in a place that
/// is not a directory with something ignored below it.
pub open spec fn is_at_or_below_a_new_place(
    src: SnapshotView,
    dst: SnapshotView,
    opts: SyncOptions,
    rel: PathView,
) -> bool {
    opts.new && opts.delete && exists|k: int|
        0 < k <= rel.len() && (src.dirs.contains(#[trigger] rel.take(k)) && !dst.dirs.contains(
            rel.take(k),
        ) || src.files.contains_key(rel.take(k)) && !dst.files.contains_key(rel.take(k))) && (
        dst.dirs.contains(rel.take(k)) ==> forall|e: PathView| #[trigger]
            dst.ignored.contains(e) && rel.take(k).is_prefix_of(e) ==> e == rel.take(k))
}

/// What two tasks name, one that creates and one that deletes.
#[verifier::rlimit(40)]
proof fn lemma_named_by_tasks(
    source: PathView,
    target: PathView,
    src: SnapshotView,
    dst: SnapshotView,
    opts: SyncOptions,
    x: Task<PathView>,
    y: Task<PathView>,
    a: PathView,
    b: PathView,
)
    requires
        src.finite(),
        dst.finite(),
        proper(src),
        proper(dst),
        sync_tasks(source, target, src, dst, opts).contains(x),
        sync_tasks(source, target, src, dst, opts).contains(y),
        x == Task::CreateDir(target + a) || x == Task::ForetellDir(target + a) || x
            == (Task::Copy { kind: CopyKind::New, src: source + a, dst: target + a }),
        y == Task::DeleteFile(target + b) || y == Task::DeleteDir(target + b),
    ensures
        opts.new,
        opts.delete,
        a.len() > 0,
        is_missing(src, dst, a),
{
    law_tasks_lie_below_the_roots(source, target, src, dst, opts, x);
    law_tasks_lie_below_the_roots(source, target, src, dst, opts, y);
    assert((target + a).skip(target.len() as int) =~= a);
    assert((target + b).skip(target.len() as int) =~= b);
    law_sync_does_what_differs(source, target, src, dst, opts, a);
    law_sync_does_what_differs(source, target, src, dst, opts, b);
}

proof fn lemma_at_or_below_vacated(
    target: PathView,
    src: SnapshotView,
    dst: SnapshotView,
    opts: SyncOptions,
    a: PathView,
    b: PathView,
)
    requires
        opts.new,
        opts.delete,
        a.len() > 0,
        is_missing(src, dst, a),
        a.is_prefix_of(b),
        dst.dirs.contains(a) ==> forall|e: PathView| #[trigger]
            dst.ignored.contains(e) && a.is_prefix_of(e) ==> e == a,
    ensures
        is_obstacle(target, src, dst, opts, target + b),
{
    assert((target + b).skip(target.len() as int) =~= b);
    assert((target + b).subrange(0, target.len() as int) =~= target);
    assert(b.take(a.len() as int) =~= a);
    assert(is_vacated(src, dst, b.take(a.len() as int)));
    assert(obstructs(src, dst, b));
}

proof fn lemma_obstacles_reach_down(
    target: PathView,
    src: SnapshotView,
    dst: SnapshotView,
    opts: SyncOptions,
    a: PathView,
    b: PathView,
)
    requires
        is_obstacle(target, src, dst, opts, target + a),
        a.is_prefix_of(b),
    ensures
        is_obstacle(target, src, dst, opts, target + b),
{
    assert((target + a).skip(target.len() as int) =~= a);
    assert((target + b).skip(target.len() as int) =~= b);
    assert((target + b).subrange(0, target.len() as int) =~= target);
    let k = choose|k: int| 0 < k <= a.len() && is_vacated(src, dst, #[trigger] a.take(k));
    assert(b.take(k) =~= a.take(k));
    assert(obstructs(src, dst, b));
}

/// What is at or below the place of something to be created is deleted before it is created, unless
/// the place is a directory with something ignored below it.
#[verifier::spinoff_prover]
#[verifier::rlimit(40)]
pub proof fn law_the_way_is_cleared_first(
    source: PathView,
    target: PathView,
    src: SnapshotView,
    dst: SnapshotView,
    opts: SyncOptions,
    i: int,
    j: int,
    a: PathView,
    b: PathView,
)
    requires
        src.finite(),
        dst.finite(),
        proper(src),
        proper(dst),
        ({
            let all = sync_tasks(source, target, src, dst, opts);
            &&& 0 <= i < all.len()
            &&& 0 <= j < all.len()
            &&& all[i] == Task::CreateDir(target + a) || all[i] == Task::ForetellDir(target + a)
                || all[i] == (Task::Copy {
                kind: CopyKind::New,
                src: source + a,
                dst: target + a,
            })
            &&& all[j] == Task::DeleteFile(target + b) || all[j] == Task::DeleteDir(target + b)
        }),
        a.is_prefix_of(b),
        dst.dirs.contains(a) ==> forall|e: PathView| #[trigger]
            dst.ignored.contains(e) && a.is_prefix_of(e) ==> e == a,
    ensures
        j < i,
{
    let all = sync_tasks(source, target, src, dst, opts);
    let (x, y) = (all[i], all[j]);
    assert(all.contains(x) && all.contains(y));
    lemma_named_by_tasks(source, target, src, dst, opts, x, y, a, b);
    lemma_at_or_below_vacated(target, src, dst, opts, a, b);
    assert(turn(target, src, dst, opts, x) >= 4);
    assert(turn(target, src, dst, opts, y) <= 3);
    lemma_earlier_turn(source, target, src, dst, opts, j, i);
}

/// A directory is deleted behind all else that is deleted below it.
#[verifier::spinoff_prover]
#[verifier::rlimit(40)]
pub proof fn law_what_a_directory_holds_goes_first(
    source: PathView,
    target: PathView,
    src: SnapshotView,
    dst: SnapshotView,
    opts: SyncOptions,
    i: int,
    j: int,
    a: PathView,
    b: PathView,
)
    requires
        src.finite(),
        dst.finite(),
        proper(src),
        proper(dst),
        ({
            let all = sync_tasks(source, target, src, dst, opts);
            &&& 0 <= i < all.len()
            &&& 0 <= j < all.len()
            &&& all[i] == Task::DeleteDir(target + a)
            &&& all[j] == Task::DeleteFile(target + b) || all[j] == Task::DeleteDir(target + b)
        }),
        a.is_prefix_of(b),
        a != b,
    ensures
        j < i,
{
    if a.len() == b.len() {
        assert(a =~= b);
    }
    if is_obstacle(target, src, dst, opts, target + a) {
        lemma_obstacles_reach_down(target, src, dst, opts, a, b);
    }
    if i < j {
        lemma_turns(source, target, src, dst, opts, i, j);
    }
}

/// A directory is created before all else that is created below it.
#[verifier::spinoff_prover]
#[verifier::rlimit(40)]
pub proof fn law_what_holds_is_created_first(
    source: PathView,
    target: PathView,
    src: SnapshotView,
    dst: SnapshotView,
    opts: SyncOptions,
    i: int,
    j: int,
    a: PathView,
    b: PathView,
)
    requires
        src.finite(),
        dst.finite(),
        proper(src),
        proper(dst),
        ({
            let all = sync_tasks(source, target, src, dst, opts);
            &&& 0 <= i < all.len()
            &&& 0 <= j < all.len()
            &&& all[i] == Task::CreateDir(target + a) || all[i] == Task::ForetellDir(target + a)
            &&& all[j] == Task::CreateDir(target + b) || all[j] == Task::ForetellDir(target + b)
                || all[j] == (Task::Copy {
                kind: CopyKind::New,
                src: source + b,
                dst: target + b,
            })
        }),
        a.is_prefix_of(b),
        a != b,
    ensures
        i < j,
{
    if a.len() == b.len() {
        assert(a =~= b);
    }
    if j < i {
        lemma_turns(source, target, src, dst, opts, j, i);
    }
    if i == j {
        assert((target + a).skip(target.len() as int) =~= a);
        assert((target + b).skip(target.len() as int) =~= b);
    }
}

proof fn lemma_filter_all<T>(s: Seq<T>, f: spec_fn(T) -> bool)
    requires
        forall|x: T| #[trigger] s.contains(x) ==> f(x),
    ensures
        s.filter(f) == s,
    decreases s.len(),
{
    reveal(Seq::filter);
    if s.len() > 0 {
        let (rest, last) = (s.drop_last(), s.last());
        assert(s =~= rest.push(last));
        assert(s.contains(s[s.len() - 1]));
        assert forall|x: T| #[trigger] rest.contains(x) implies f(x) by {
            let k = choose|k: int| 0 <= k < rest.len() && rest[k] == x;
            assert(s.contains(s[k]));
        }
        lemma_filter_all(rest, f);
        lemma_filter_push(rest, last, f);
    }
}

proof fn lemma_filter_none<T>(s: Seq<T>, f: spec_fn(T) -> bool)
    requires
        forall|x: T| #[trigger] s.contains(x) ==> !f(x),
    ensures
        s.filter(f) == Seq::<T>::empty(),
    decreases s.len(),
{
    reveal(Seq::filter);
    if s.len() > 0 {
        let (rest, last) = (s.drop_last(), s.last());
        assert(s =~= rest.push(last));
        assert(s.contains(s[s.len() - 1]));
        assert forall|x: T| #[trigger] rest.contains(x) implies !f(x) by {
            let k = choose|k: int| 0 <= k < rest.len() && rest[k] == x;
            assert(s.contains(s[k]));
        }
        lemma_filter_none(rest, f);
        lemma_filter_push(rest, last, f);
    }
}

/// A sync carries out its plan and announces the end, if nothing that is to be deleted is in the
/// way of something to be created.
#[verifier::rlimit(40)]
pub proof fn law_sync_carries_out_its_plan(
    source: PathView,
    target: PathView,
    src: SnapshotView,
    dst: SnapshotView,
    opts: SyncOptions,
)
    requires
        !opts.dry_run,
        ({
            let plan = plan_for(source, target, src, dst, opts, opts.tolerance@);
            forall|p: PathView|
                #![trigger plan.delete_files.contains(p)]
                #![trigger plan.delete_dirs.contains(p)]
                plan.delete_files.contains(p) || plan.delete_dirs.contains(p)
                    ==> !is_at_or_below_a_new_place(src, dst, opts, p.skip(target.len() as int))
        }),
    ensures
        sync_tasks(source, target, src, dst, opts) == plan_tasks(
            plan_for(source, target, src, dst, opts, opts.tolerance@),
            opts,
        ).push(Task::Announce(Announcement::Done)),
{
    let plan = plan_for(source, target, src, dst, opts, opts.tolerance@);
    let (yes, no) = (
        obstacle_filter(target, src, dst, opts, true),
        obstacle_filter(target, src, dst, opts, false),
    );
    assert forall|p: PathView|
        plan.delete_files.contains(p) || plan.delete_dirs.contains(p) implies !is_obstacle(
        target,
        src,
        dst,
        opts,
        p,
    ) by {
        if is_obstacle(target, src, dst, opts, p) {
            lemma_obstacle_is_in_the_way(target, src, dst, opts, p);
        }
    }
    lemma_filter_none(plan.delete_files, yes);
    lemma_filter_none(plan.delete_dirs, yes);
    lemma_filter_all(plan.delete_files, no);
    lemma_filter_all(plan.delete_dirs, no);
    let a = first_part(plan, target, src, dst, opts);
    let b = second_part(plan, target, src, dst, opts);
    let (first, second, whole) = (plan_tasks(a, opts), plan_tasks(b, opts), plan_tasks(plan, opts));
    assert(first + second =~= whole);
    let told = crate::session::all_foretold(target, src, dst, opts, second);
    assert(told =~= second) by {
        assert forall|i: int| 0 <= i < second.len() implies told[i] == second[i] by {
            assert(told[i] == foretold(target, src, dst, opts, second[i]));
        }
    }
    assert(sync_tasks(source, target, src, dst, opts) =~= whole.push(
        Task::Announce(Announcement::Done),
    ));
}

proof fn lemma_obstacle_is_in_the_way(
    target: PathView,
    src: SnapshotView,
    dst: SnapshotView,
    opts: SyncOptions,
    p: PathView,
)
    requires
        is_obstacle(target, src, dst, opts, p),
    ensures
        is_at_or_below_a_new_place(src, dst, opts, p.skip(target.len() as int)),
{
    let rel = p.skip(target.len() as int);
    let k = choose|k: int| 0 < k <= rel.len() && is_vacated(src, dst, #[trigger] rel.take(k));
    let place = rel.take(k);
    assert(is_missing(src, dst, place));
    if dst.dirs.contains(place) {
        assert forall|e: PathView| #[trigger]
            dst.ignored.contains(e) && place.is_prefix_of(e) implies e == place by {
            assert(!dst.shelters(place));
        }
    }
}

proof fn lemma_filters_part<T>(s: Seq<T>, f: spec_fn(T) -> bool, g: spec_fn(T) -> bool)
    requires
        forall|x: T| #[trigger] f(x) == !g(x),
    ensures
        s.filter(f).len() + s.filter(g).len() == s.len(),
    decreases s.len(),
{
    reveal(Seq::filter);
    if s.len() > 0 {
        let (rest, last) = (s.drop_last(), s.last());
        assert(s =~= rest.push(last));
        lemma_filters_part(rest, f, g);
        lemma_filter_push(rest, last, f);
        lemma_filter_push(rest, last, g);
        assert(f(last) == !g(last));
    }
}

/// A sync has as many tasks as its plan has items, and its announcements.
pub proof fn law_every_item_is_one_task(
    source: PathView,
    target: PathView,
    src: SnapshotView,
    dst: SnapshotView,
    opts: SyncOptions,
)
    ensures
        ({
            let plan = plan_for(source, target, src, dst, opts, opts.tolerance@);
            let announced: int = if opts.dry_run {
                2
            } else {
                1
            };
            sync_tasks(source, target, src, dst, opts).len() == announced
                + plan.overwrite_pairs.len() + plan.new_dirs.len() + plan.new_pairs.len()
                + plan.delete_files.len() + plan.delete_dirs.len()
        }),
{
    let plan = plan_for(source, target, src, dst, opts, opts.tolerance@);
    let (yes, no) = (
        obstacle_filter(target, src, dst, opts, true),
        obstacle_filter(target, src, dst, opts, false),
    );
    lemma_filters_part(plan.delete_files, yes, no);
    lemma_filters_part(plan.delete_dirs, yes, no);
    let a = first_part(plan, target, src, dst, opts);
    let b = second_part(plan, target, src, dst, opts);
    law_plan_items_become_tasks(a, opts, 0);
    law_plan_items_become_tasks(b, opts, 0);
}

} // verus!
