//! Tasks applied to a file system: what each makes of one that can serve it, that a session has
//! the effect of its tasks, and what lists of copies, creations and deletions come to.

use vstd::prelude::*;

use crate::model::{ancestry, is_blocked, perform, run, without_subtree};
use crate::model::{FileView, Tree};
use crate::path::{descends, parent_view};
use crate::path::PathView;
use crate::session::step_view;
use crate::session::{Answer, CopyKind, Notice, Request, RunMode, SessionView, Stage, Task};
use crate::time::Timestamp;

verus! {

/// Nothing above `p` is a file.
pub open spec fn clear_above(t: Tree, p: PathView) -> bool {
    forall|q: PathView| #[trigger]
        ancestry(p.drop_last()).contains(q) ==> !t.files.contains_key(q)
}

/// What a task makes of a file system that can serve it.
pub open spec fn apply_task(t: Tree, task: Task<PathView>) -> Tree {
    match task {
        Task::Announce(_) | Task::ForetellDir(_) => t,
        Task::Copy { kind: _, src, dst } => Tree {
            dirs: t.dirs.union(ancestry(dst.drop_last())),
            files: t.files.insert(dst, t.files[src]),
        },
        Task::CreateDir(p) => Tree { dirs: t.dirs.union(ancestry(p)), ..t },
        Task::DeleteFile(p) => Tree { files: t.files.remove(p), ..t },
        Task::DeleteDir(p) => without_subtree(t, p),
    }
}

/// A file system can serve a task to its end.
pub open spec fn ready(t: Tree, task: Task<PathView>) -> bool {
    &&& t.wf()
    &&& match task {
        Task::Announce(_) | Task::ForetellDir(_) => true,
        Task::Copy { kind: _, src, dst } => {
            &&& t.files.contains_key(src)
            &&& src != dst
            &&& dst.len() > 1
            &&& parent_view(dst) is Some
            &&& !t.dirs.contains(dst)
            &&& clear_above(t, dst)
        },
        Task::CreateDir(p) => forall|q: PathView| #[trigger]
            ancestry(p).contains(q) ==> !t.files.contains_key(q),
        Task::DeleteFile(p) => p.len() > 0 && !t.dirs.contains(p) && clear_above(t, p),
        Task::DeleteDir(p) => p.len() > 0 && !is_blocked(t, p),
    }
}

proof fn lemma_start_ignores_answer(s: SessionView, a: Answer, b: Answer, t: Tree, now: Timestamp)
    requires
        s.stage is Start,
    ensures
        step_view(s, a) == step_view(s, b),
        run(s, a, t, now) == run(s, b, t, now),
{
}

/// Where something is held, adding what is above it changes nothing.
proof fn lemma_ancestry_is_there(t: Tree, p: PathView)
    requires
        t.wf(),
        t.dirs.contains(p),
    ensures
        t.dirs.union(ancestry(p)) == t.dirs,
{
    assert(t.holds(p));
    assert forall|q: PathView| ancestry(p).contains(q) implies t.dirs.contains(q) by {
        if q != p {
            assert(q.is_prefix_of(p));
        }
    }
    assert(t.dirs.union(ancestry(p)) =~= t.dirs);
}

proof fn lemma_run_copy(s: SessionView, answer: Answer, t: Tree, now: Timestamp)
    requires
        s.mode is Apply,
        s.stage is Start,
        s.queue.len() > 0,
        s.queue[0] is Copy,
        ready(t, s.queue[0]),
    ensures
        run(s, answer, t, now) == run(
            SessionView { queue: s.queue.drop_first(), ..s },
            Answer::Done,
            apply_task(t, s.queue[0]),
            now,
        ),
{
    let rest = SessionView { queue: s.queue.drop_first(), ..s };
    let (kind, src, dst) = (s.queue[0]->kind, s.queue[0]->src, s.queue[0]->dst);
    let parent = dst.drop_last();
    assert(parent_view(dst) == Some(parent));
    let copying = SessionView { stage: Stage::Copying, ..s };
    let there = Tree { dirs: t.dirs.union(ancestry(parent)), ..t };
    let checking = SessionView { stage: Stage::ParentCheck, ..s };
    let reply = Answer::Exists(t.holds(parent));
    assert(ancestry(parent).contains(parent)) by {
        assert(parent.subrange(0, parent.len() as int) =~= parent);
    }
    assert(!t.files.contains_key(parent));
    assert(step_view(s, answer) == (checking, Request::<PathView>::Exists(parent)));
    assert(run(s, answer, t, now) == run(checking, reply, t, now));
    let file = t.files[src];
    let fresh = FileView { time: now, content: file.content };
    let copied = Tree { files: there.files.insert(dst, fresh), ..there };
    let reading = SessionView { stage: Stage::TimeReading, ..s };
    let copy = Request::<PathView>::CopyFile { src, dst };
    if t.holds(parent) {
        lemma_ancestry_is_there(t, parent);
        assert(there == t);
        assert(step_view(checking, reply) == (copying, copy));
        assert(run(s, answer, t, now) == run(copying, Answer::Done, copied, now));
    } else {
        let creating = SessionView { stage: Stage::ParentCreate, ..s };
        assert(step_view(checking, reply) == (creating, Request::<PathView>::CreateDirAll(parent)));
        assert(perform(t, Request::CreateDirAll(parent), now) == (there, Answer::Done));
        assert(run(checking, reply, t, now) == run(creating, Answer::Done, there, now));
        assert(step_view(creating, Answer::Done) == (copying, copy));
        assert(!there.dirs.contains(dst)) by {
            if ancestry(parent).contains(dst) {
                assert(dst.len() <= parent.len());
            }
        }
        assert(perform(there, copy, now) == (copied, Answer::Done));
        assert(run(creating, Answer::Done, there, now) == run(copying, Answer::Done, copied, now));
    }
    assert(step_view(copying, Answer::Done) == (reading, Request::<PathView>::ReadMtime(src)));
    let time = file.time;
    assert(copied.files[src] == file);
    let told = Answer::Mtime(Some(time));
    assert(run(copying, Answer::Done, copied, now) == run(reading, told, copied, now));
    let setting = SessionView { stage: Stage::TimeSetting, ..s };
    let set = Request::<PathView>::SetMtime { path: dst, time };
    assert(step_view(reading, told) == (setting, set));
    let stamped = Tree { files: copied.files.insert(dst, file), ..copied };
    assert(run(reading, told, copied, now) == run(setting, Answer::Done, stamped, now));
    assert(stamped.files =~= t.files.insert(dst, file));
    assert(stamped == apply_task(t, s.queue[0]));
    let notice = Request::Say(Notice::Copied { kind, src, dst });
    assert(step_view(setting, Answer::Done) == (rest, notice));
    assert(run(setting, Answer::Done, stamped, now) == run(rest, Answer::Done, stamped, now));
}

proof fn lemma_run_create(s: SessionView, answer: Answer, t: Tree, now: Timestamp)
    requires
        s.mode is Apply,
        s.stage is Start,
        s.queue.len() > 0,
        s.queue[0] is CreateDir,
        ready(t, s.queue[0]),
    ensures
        run(s, answer, t, now) == run(
            SessionView { queue: s.queue.drop_first(), ..s },
            Answer::Done,
            apply_task(t, s.queue[0]),
            now,
        ),
{
    let rest = SessionView { queue: s.queue.drop_first(), ..s };
    let p = s.queue[0]->CreateDir_0;
    let checking = SessionView { stage: Stage::DirCheck, ..s };
    let reply = Answer::Exists(t.holds(p));
    assert(step_view(s, answer) == (checking, Request::<PathView>::Exists(p)));
    assert(run(s, answer, t, now) == run(checking, reply, t, now));
    let made = apply_task(t, s.queue[0]);
    if t.holds(p) {
        if t.files.contains_key(p) {
            if p.len() > 0 {
                assert(p.subrange(0, p.len() as int) =~= p);
                assert(ancestry(p).contains(p));
            } else {
                assert(ancestry(p) =~= Set::empty());
                assert(made.dirs =~= t.dirs);
            }
        } else {
            lemma_ancestry_is_there(t, p);
        }
        assert(made == t);
        assert(step_view(checking, reply) == step_view(rest, reply));
        assert(run(checking, reply, t, now) == run(rest, reply, t, now));
        lemma_start_ignores_answer(rest, reply, Answer::Done, t, now);
    } else {
        let creating = SessionView { stage: Stage::DirCreating, ..s };
        assert(step_view(checking, reply) == (creating, Request::<PathView>::CreateDirAll(p)));
        assert(perform(t, Request::CreateDirAll(p), now) == (made, Answer::Done));
        assert(run(checking, reply, t, now) == run(creating, Answer::Done, made, now));
        let notice = Request::Say(Notice::CreatedDir(p));
        assert(step_view(creating, Answer::Done) == (rest, notice));
    }
}

proof fn lemma_run_delete(s: SessionView, answer: Answer, t: Tree, now: Timestamp)
    requires
        s.mode is Apply,
        s.stage is Start,
        s.queue.len() > 0,
        s.queue[0] is DeleteFile || s.queue[0] is DeleteDir,
        ready(t, s.queue[0]),
    ensures
        run(s, answer, t, now) == run(
            SessionView { queue: s.queue.drop_first(), ..s },
            Answer::Done,
            apply_task(t, s.queue[0]),
            now,
        ),
{
    let rest = SessionView { queue: s.queue.drop_first(), ..s };
    let removing = SessionView { stage: Stage::Removing, ..s };
    let made = apply_task(t, s.queue[0]);
    let (request, notice) = match s.queue[0] {
        Task::DeleteFile(p) => (Request::RemoveFile(p), Notice::DeletedFile(p)),
        Task::DeleteDir(p) => (Request::RemoveDirAll(p), Notice::DeletedDir(p)),
        _ => (Request::Finished, Notice::Announced(crate::session::Announcement::Done)),
    };
    assert(step_view(s, answer) == (removing, request));
    let (u, reply) = perform(t, request, now);
    assert(run(s, answer, t, now) == run(removing, reply, u, now));
    match s.queue[0] {
        Task::DeleteFile(p) => {
            if !t.files.contains_key(p) {
                lemma_clear_is_not_blocked(t, p);
            }
        },
        Task::DeleteDir(p) => {
            assert(p.subrange(0, p.len() as int) =~= p);
            assert(ancestry(p).contains(p));
        },
        _ => {},
    }
    if reply is Done {
        assert(u == made);
        assert(step_view(removing, reply) == (rest, Request::Say(notice)));
    } else {
        assert(reply is NotFound);
        assert(made =~= t) by {
            match s.queue[0] {
                Task::DeleteFile(p) => {
                    assert(made.files =~= t.files);
                },
                Task::DeleteDir(p) => {
                    lemma_nothing_below_nothing(t, p);
                },
                _ => {},
            }
        }
        assert(step_view(removing, reply) == step_view(rest, reply));
        assert(run(removing, reply, t, now) == run(rest, reply, t, now));
        lemma_start_ignores_answer(rest, reply, Answer::Done, t, now);
    }
}

/// Where no file is above and none is there, the way is not blocked.
proof fn lemma_clear_is_not_blocked(t: Tree, p: PathView)
    requires
        p.len() > 0,
        clear_above(t, p),
        !t.files.contains_key(p),
    ensures
        !is_blocked(t, p),
{
    let parent = p.drop_last();
    assert forall|q: PathView| #[trigger] ancestry(p).contains(q) implies !t.files.contains_key(
        q,
    ) by {
        if q.len() == p.len() {
            assert(p.subrange(0, p.len() as int) =~= p);
        } else {
            assert(q =~= parent.subrange(0, q.len() as int));
            assert(ancestry(parent).contains(q));
        }
    }
}

/// Above what is held there is no file.
pub proof fn lemma_held_is_clear(t: Tree, p: PathView)
    requires
        t.wf(),
        t.holds(p),
        p.len() > 0,
    ensures
        clear_above(t, p),
        t.dirs.contains(p) ==> !is_blocked(t, p),
{
    let parent = p.drop_last();
    assert forall|q: PathView| #[trigger] ancestry(parent).contains(q) implies !t.files.contains_key(
        q,
    ) by {
        assert(parent =~= p.subrange(0, p.len() - 1));
        lemma_prefix_transitive(q, parent, p);
        assert(q != p);
        assert(t.dirs.contains(q));
    }
    if t.dirs.contains(p) {
        lemma_clear_is_not_blocked(t, p);
    }
}

/// Where there is nothing, there is nothing below.
proof fn lemma_nothing_below_nothing(t: Tree, p: PathView)
    requires
        t.wf(),
        !t.holds(p),
        p.len() > 0,
    ensures
        without_subtree(t, p) == t,
{
    assert forall|q: PathView| t.holds(q) implies !p.is_prefix_of(q) by {
        if p.is_prefix_of(q) {
            assert(p != q);
        }
    }
    let u = without_subtree(t, p);
    assert forall|q: PathView| u.dirs.contains(q) == t.dirs.contains(q) by {
        if t.dirs.contains(q) {
            assert(t.holds(q));
        }
    }
    assert forall|q: PathView| u.files.contains_key(q) == t.files.contains_key(q) by {
        if t.files.contains_key(q) {
            assert(t.holds(q));
        }
    }
    assert(u.dirs =~= t.dirs);
    assert(u.files =~= t.files);
}

/// What tasks make of a file system that can serve them.
pub open spec fn apply_all(t: Tree, queue: Seq<Task<PathView>>) -> Tree
    decreases queue.len(),
{
    if queue.len() == 0 {
        t
    } else {
        apply_all(apply_task(t, queue[0]), queue.drop_first())
    }
}

/// A file system can serve tasks, one after the other, to their end.
pub open spec fn all_ready(t: Tree, queue: Seq<Task<PathView>>) -> bool
    decreases queue.len(),
{
    queue.len() > 0 ==> ready(t, queue[0]) && all_ready(apply_task(t, queue[0]), queue.drop_first())
}

/// A session whose tasks can be served comes to its end, with the effect of its tasks.
pub proof fn law_session_applies_its_tasks(
    queue: Seq<Task<PathView>>,
    answer: Answer,
    t: Tree,
    now: Timestamp,
)
    requires
        all_ready(t, queue),
    ensures
        run(
            SessionView { mode: RunMode::Apply, queue, stage: Stage::Start },
            answer,
            t,
            now,
        ) == (apply_all(t, queue), true),
    decreases queue.len(),
{
    let s = SessionView { mode: RunMode::Apply, queue, stage: Stage::Start };
    if queue.len() > 0 {
        let rest = SessionView { queue: queue.drop_first(), ..s };
        match queue[0] {
            Task::Announce(a) => {
                assert(step_view(s, answer) == (rest, Request::Say(Notice::<PathView>::Announced(a))));
            },
            Task::ForetellDir(p) => {
                assert(step_view(s, answer) == (rest, Request::Say(Notice::WouldCreateDir(p))));
            },
            Task::Copy { .. } => lemma_run_copy(s, answer, t, now),
            Task::CreateDir(_) => lemma_run_create(s, answer, t, now),
            Task::DeleteFile(_) | Task::DeleteDir(_) => lemma_run_delete(s, answer, t, now),
        }
        law_session_applies_its_tasks(
            queue.drop_first(),
            Answer::Done,
            apply_task(t, queue[0]),
            now,
        );
    }
}

pub proof fn lemma_apply_concat(t: Tree, a: Seq<Task<PathView>>, b: Seq<Task<PathView>>)
    ensures
        apply_all(t, a + b) == apply_all(apply_all(t, a), b),
        all_ready(t, a + b) <==> all_ready(t, a) && all_ready(apply_all(t, a), b),
    decreases a.len(),
{
    if a.len() == 0 {
        assert(a + b =~= b);
    } else {
        assert((a + b)[0] == a[0]);
        assert((a + b).drop_first() =~= a.drop_first() + b);
        lemma_apply_concat(apply_task(t, a[0]), a.drop_first(), b);
    }
}

pub proof fn lemma_prefix_transitive(a: PathView, b: PathView, c: PathView)
    requires
        a.is_prefix_of(b),
        b.is_prefix_of(c),
    ensures
        a.is_prefix_of(c),
{
    assert forall|i: int| 0 <= i < a.len() implies a[i] == c[i] by {
        assert(a[i] == b.subrange(0, a.len() as int)[i]);
        assert(b[i] == c.subrange(0, b.len() as int)[i]);
    }
    assert(a =~= c.subrange(0, a.len() as int));
}

/// Below one root, a path is above another exactly when its relative path is.
pub proof fn lemma_prefix_below_root(root: PathView, a: PathView, b: PathView)
    ensures
        (root + a).is_prefix_of(root + b) <==> a.is_prefix_of(b),
        root + a == root + b <==> a == b,
{
    let (ra, rb) = (root + a, root + b);
    let n = root.len() as int;
    if a.is_prefix_of(b) {
        assert forall|i: int| 0 <= i < ra.len() implies ra[i] == rb[i] by {
            if i >= n {
                assert(a[i - n] == b.subrange(0, a.len() as int)[i - n]);
            }
        }
        assert(ra =~= rb.subrange(0, ra.len() as int));
    }
    if ra.is_prefix_of(rb) {
        assert forall|i: int| 0 <= i < a.len() implies a[i] == b[i] by {
            assert(ra[n + i] == rb.subrange(0, ra.len() as int)[n + i]);
        }
        assert(a =~= b.subrange(0, a.len() as int));
    }
    if ra == rb {
        assert forall|i: int| 0 <= i < a.len() implies a[i] == b[i] by {
            assert(ra[n + i] == rb[n + i]);
        }
        assert(a =~= b);
    }
}

/// What is above a path below a root is above the root, or below it itself.
pub proof fn lemma_above_splits(root: PathView, rel: PathView, q: PathView)
    requires
        q.is_prefix_of(root + rel),
    ensures
        q.is_prefix_of(root) || (root.len() < q.len() && ({
            let k = q.len() - root.len();
            k <= rel.len() && q == root + rel.take(k) && rel.take(k).is_prefix_of(rel)
        })),
{
    let p = root + rel;
    assert forall|i: int| 0 <= i < q.len() implies q[i] == p[i] by {
        assert(q[i] == p.subrange(0, q.len() as int)[i]);
    }
    if q.len() <= root.len() {
        assert(q =~= root.subrange(0, q.len() as int));
    } else {
        let k = q.len() - root.len();
        assert(q =~= root + rel.take(k));
        assert(rel.take(k) =~= rel.subrange(0, k));
    }
}

/// Below two roots that are not above each other nothing is above something of the other.
pub proof fn lemma_roots_apart(a: PathView, b: PathView, x: PathView, y: PathView)
    requires
        !a.is_prefix_of(b),
        !b.is_prefix_of(a),
    ensures
        !(a + x).is_prefix_of(b + y),
        a + x != b + y,
{
    let (p, q) = (a + x, b + y);
    if p.is_prefix_of(q) {
        assert forall|i: int| 0 <= i < p.len() implies p[i] == q[i] by {
            assert(p[i] == q.subrange(0, p.len() as int)[i]);
        }
        if a.len() <= b.len() {
            assert forall|i: int| 0 <= i < a.len() implies a[i] == b[i] by {
                assert(p[i] == q[i]);
            }
            assert(a =~= b.subrange(0, a.len() as int));
        } else {
            assert forall|i: int| 0 <= i < b.len() implies b[i] == a[i] by {
                assert(p[i] == q[i]);
            }
            assert(b =~= a.subrange(0, b.len() as int));
        }
        assert(false);
    }
    if p == q {
        assert(p.subrange(0, p.len() as int) =~= p);
    }
}

/// `p` is one of these relative paths, below `root`.
pub open spec fn is_one_below(root: PathView, rels: Seq<PathView>, p: PathView) -> bool {
    exists|rel: PathView| #[trigger] rels.contains(rel) && p == root + rel
}

/// `q` is at or above the place of one of these relative paths, below `root`.
pub open spec fn is_above_one(root: PathView, rels: Seq<PathView>, q: PathView) -> bool {
    exists|rel: PathView| #[trigger] rels.contains(rel) && ancestry(root + rel).contains(q)
}

/// `q` is at or above the parent of one of these relative paths, below `root`.
pub open spec fn is_above_parent(root: PathView, rels: Seq<PathView>, q: PathView) -> bool {
    exists|rel: PathView| #[trigger]
        rels.contains(rel) && ancestry((root + rel).drop_last()).contains(q)
}

/// `p` is at or below one of these relative paths, below `root`.
pub open spec fn is_under_one(root: PathView, rels: Seq<PathView>, p: PathView) -> bool {
    exists|rel: PathView| #[trigger] rels.contains(rel) && (root + rel).is_prefix_of(p)
}

/// These paths all lead down, and none is above another.
pub open spec fn lead_apart(rels: Seq<PathView>) -> bool {
    &&& forall|a: PathView| #[trigger] rels.contains(a) ==> a.len() > 0 && descends(a)
    &&& forall|a: PathView, b: PathView| #[trigger]
        rels.contains(a) && #[trigger] rels.contains(b) && a.is_prefix_of(b) ==> a == b
}

/// The tasks of copying these relative paths from one root to another.
pub open spec fn copy_tasks(
    source: PathView,
    target: PathView,
    kind: CopyKind,
    rels: Seq<PathView>,
) -> Seq<Task<PathView>> {
    rels.map_values(|rel: PathView| Task::Copy { kind, src: source + rel, dst: target + rel })
}

proof fn lemma_first_or_rest<T>(s: Seq<T>, x: T)
    requires
        s.len() > 0,
    ensures
        s.contains(x) <==> x == s[0] || s.drop_first().contains(x),
{
    if s.contains(x) {
        let k = choose|k: int| 0 <= k < s.len() && s[k] == x;
        if k > 0 {
            assert(s.drop_first()[k - 1] == x);
        }
    }
    if s.drop_first().contains(x) {
        let k = choose|k: int| 0 <= k < s.drop_first().len() && s.drop_first()[k] == x;
        assert(s[k + 1] == x);
    }
}

proof fn lemma_copy_keeps_wf(t: Tree, kind: CopyKind, src: PathView, dst: PathView)
    requires
        ready(t, (Task::Copy { kind, src, dst })),
    ensures
        apply_task(t, (Task::Copy { kind, src, dst })).wf(),
{
    let parent = dst.drop_last();
    let u = apply_task(t, Task::Copy { kind, src, dst });
    assert forall|p: PathView, q: PathView|
        #![trigger u.holds(p), q.is_prefix_of(p)]
        u.holds(p) && q.len() > 0 && q.is_prefix_of(p) && q != p implies u.dirs.contains(q) by {
        if t.holds(p) {
        } else if p == dst {
            assert(dst.subrange(0, dst.len() as int) =~= dst);
            assert(q.len() < dst.len());
            assert(q =~= parent.subrange(0, q.len() as int));
            assert(ancestry(parent).contains(q));
        } else {
            assert(ancestry(parent).contains(p));
            lemma_prefix_transitive(q, p, parent);
            assert(ancestry(parent).contains(q));
        }
    }
    assert forall|p: PathView| #[trigger] u.dirs.contains(p) implies !u.files.contains_key(p) by {
        if ancestry(parent).contains(p) {
            assert(p.len() <= parent.len());
        }
    }
}

/// Copying files that do not get in each other's way.
pub proof fn lemma_copies(
    t: Tree,
    source: PathView,
    target: PathView,
    kind: CopyKind,
    rels: Seq<PathView>,
)
    requires
        t.wf(),
        target.len() > 0,
        !source.is_prefix_of(target),
        !target.is_prefix_of(source),
        lead_apart(rels),
        forall|rel: PathView| #[trigger]
            rels.contains(rel) ==> t.files.contains_key(source + rel) && !t.dirs.contains(
                target + rel,
            ) && clear_above(t, target + rel),
    ensures
        all_ready(t, copy_tasks(source, target, kind, rels)),
        ({
            let u = apply_all(t, copy_tasks(source, target, kind, rels));
            &&& u.wf()
            &&& forall|p: PathView| #[trigger]
                u.files.contains_key(p) <==> t.files.contains_key(p) || is_one_below(
                    target,
                    rels,
                    p,
                )
            &&& forall|p: PathView|
                !is_one_below(target, rels, p) ==> #[trigger] u.files[p] == t.files[p]
            &&& forall|rel: PathView| #[trigger]
                rels.contains(rel) ==> u.files[target + rel] == t.files[source + rel]
            &&& forall|q: PathView| #[trigger]
                u.dirs.contains(q) <==> t.dirs.contains(q) || is_above_parent(target, rels, q)
        }),
    decreases rels.len(),
{
    let tasks = copy_tasks(source, target, kind, rels);
    if rels.len() > 0 {
        let first = rels[0];
        let rest = rels.drop_first();
        let (src, dst) = (source + first, target + first);
        let task = Task::Copy { kind, src, dst };
        assert(tasks[0] == task);
        assert(tasks.drop_first() =~= copy_tasks(source, target, kind, rest));
        assert(rels.contains(first));
        assert(dst.last() == first.last());
        lemma_roots_apart(source, target, first, first);
        assert(ready(t, task));
        lemma_copy_keeps_wf(t, kind, src, dst);
        let u = apply_task(t, task);
        assert forall|rel: PathView| #[trigger] rest.contains(rel) implies u.files.contains_key(
            source + rel,
        ) && !u.dirs.contains(target + rel) && clear_above(u, target + rel) && u.files[source + rel]
            == t.files[source + rel] by {
            lemma_first_or_rest(rels, rel);
            lemma_roots_apart(source, target, rel, first);
            lemma_prefix_below_root(target, rel, first);
            lemma_prefix_below_root(target, first, rel);
            if ancestry(dst.drop_last()).contains(target + rel) {
                assert(dst.drop_last().is_prefix_of(dst)) by {
                    assert(dst.drop_last() =~= dst.subrange(0, dst.len() - 1));
                }
                lemma_prefix_transitive(target + rel, dst.drop_last(), dst);
                assert(rel == first);
                assert((target + rel).len() <= dst.drop_last().len());
            }
            let above = (target + rel).drop_last();
            assert forall|q: PathView| #[trigger]
                ancestry(above).contains(q) implies !u.files.contains_key(q) by {
                if q == dst {
                    assert(above =~= (target + rel).subrange(0, above.len() as int));
                    lemma_prefix_transitive(q, above, target + rel);
                    assert(rel == first);
                    assert(q.len() <= above.len());
                }
            }
        }
        assert(lead_apart(rest)) by {
            assert forall|a: PathView| #[trigger] rest.contains(a) implies rels.contains(a) by {
                lemma_first_or_rest(rels, a);
            }
        }
        lemma_copies(u, source, target, kind, rest);
        let v = apply_all(u, copy_tasks(source, target, kind, rest));
        assert(apply_all(t, tasks) == v);
        assert forall|p: PathView| is_one_below(target, rels, p) <==> p == dst || is_one_below(
            target,
            rest,
            p,
        ) by {
            if is_one_below(target, rels, p) {
                let rel = choose|rel: PathView| #[trigger] rels.contains(rel) && p == target + rel;
                lemma_first_or_rest(rels, rel);
            }
            if is_one_below(target, rest, p) {
                let rel = choose|rel: PathView| #[trigger] rest.contains(rel) && p == target + rel;
                lemma_first_or_rest(rels, rel);
            }
        }
        assert forall|q: PathView| is_above_parent(target, rels, q) <==> ancestry(
            dst.drop_last(),
        ).contains(q) || is_above_parent(target, rest, q) by {
            if is_above_parent(target, rels, q) {
                let rel = choose|rel: PathView| #[trigger]
                    rels.contains(rel) && ancestry((target + rel).drop_last()).contains(q);
                lemma_first_or_rest(rels, rel);
            }
            if is_above_parent(target, rest, q) {
                let rel = choose|rel: PathView| #[trigger]
                    rest.contains(rel) && ancestry((target + rel).drop_last()).contains(q);
                lemma_first_or_rest(rels, rel);
            }
        }
        assert forall|rel: PathView| #[trigger] rels.contains(rel) implies v.files[target + rel]
            == t.files[source + rel] by {
            lemma_first_or_rest(rels, rel);
            if !rest.contains(rel) {
                assert(rel == first);
                if is_one_below(target, rest, dst) {
                    let other = choose|other: PathView| #[trigger]
                        rest.contains(other) && dst == target + other;
                    lemma_prefix_below_root(target, first, other);
                }
                assert(u.files[dst] == t.files[src]);
            }
        }
        assert forall|p: PathView| !is_one_below(target, rels, p) implies #[trigger] v.files[p]
            == t.files[p] by {
            assert(p != dst);
            assert(u.files[p] == t.files[p]);
        }
    }
}

/// The tasks of creating these relative directories.
pub open spec fn create_tasks(target: PathView, rels: Seq<PathView>) -> Seq<Task<PathView>> {
    rels.map_values(|rel: PathView| Task::CreateDir(target + rel))
}

/// Creating directories where no file is in the way.
pub proof fn lemma_creations(t: Tree, target: PathView, rels: Seq<PathView>)
    requires
        t.wf(),
        forall|q: PathView| #[trigger] is_above_one(target, rels, q) ==> !t.files.contains_key(q),
    ensures
        all_ready(t, create_tasks(target, rels)),
        ({
            let u = apply_all(t, create_tasks(target, rels));
            &&& u.wf()
            &&& u.files == t.files
            &&& forall|q: PathView| #[trigger]
                u.dirs.contains(q) <==> t.dirs.contains(q) || is_above_one(target, rels, q)
        }),
    decreases rels.len(),
{
    let tasks = create_tasks(target, rels);
    if rels.len() > 0 {
        let first = rels[0];
        let rest = rels.drop_first();
        let p = target + first;
        let task = Task::CreateDir(p);
        assert(tasks[0] == task);
        assert(tasks.drop_first() =~= create_tasks(target, rest));
        assert(rels.contains(first));
        assert forall|q: PathView| #[trigger] ancestry(p).contains(q) implies !t.files.contains_key(
            q,
        ) by {
            assert(is_above_one(target, rels, q));
        }
        let u = apply_task(t, task);
        assert forall|x: PathView, q: PathView|
            #![trigger u.holds(x), q.is_prefix_of(x)]
            u.holds(x) && q.len() > 0 && q.is_prefix_of(x) && q != x implies u.dirs.contains(q) by {
            if !t.holds(x) {
                assert(ancestry(p).contains(x));
                lemma_prefix_transitive(q, x, p);
                assert(ancestry(p).contains(q));
            }
        }
        assert(u.wf());
        assert forall|q: PathView| is_above_one(target, rels, q) <==> ancestry(p).contains(q)
            || is_above_one(target, rest, q) by {
            if is_above_one(target, rels, q) {
                let rel = choose|rel: PathView| #[trigger]
                    rels.contains(rel) && ancestry(target + rel).contains(q);
                lemma_first_or_rest(rels, rel);
            }
            if is_above_one(target, rest, q) {
                let rel = choose|rel: PathView| #[trigger]
                    rest.contains(rel) && ancestry(target + rel).contains(q);
                lemma_first_or_rest(rels, rel);
            }
        }
        lemma_creations(u, target, rest);
    }
}

/// The tasks of deleting these relative files.
pub open spec fn delete_file_tasks(target: PathView, rels: Seq<PathView>) -> Seq<Task<PathView>> {
    rels.map_values(|rel: PathView| Task::DeleteFile(target + rel))
}

/// Deleting files.
pub proof fn lemma_file_deletions(t: Tree, target: PathView, rels: Seq<PathView>)
    requires
        t.wf(),
        target.len() > 0,
        forall|p: PathView| #[trigger]
            is_one_below(target, rels, p) ==> !t.dirs.contains(p) && clear_above(t, p),
    ensures
        all_ready(t, delete_file_tasks(target, rels)),
        ({
            let u = apply_all(t, delete_file_tasks(target, rels));
            &&& u.wf()
            &&& u.dirs == t.dirs
            &&& forall|p: PathView| #[trigger]
                u.files.contains_key(p) <==> t.files.contains_key(p) && !is_one_below(
                    target,
                    rels,
                    p,
                )
            &&& forall|p: PathView|
                u.files.contains_key(p) ==> #[trigger] u.files[p] == t.files[p]
        }),
    decreases rels.len(),
{
    let tasks = delete_file_tasks(target, rels);
    if rels.len() > 0 {
        let first = rels[0];
        let rest = rels.drop_first();
        let p = target + first;
        let task = Task::DeleteFile(p);
        assert(tasks[0] == task);
        assert(tasks.drop_first() =~= delete_file_tasks(target, rest));
        assert(rels.contains(first));
        assert(is_one_below(target, rels, p));
        let u = apply_task(t, task);
        assert forall|x: PathView, q: PathView|
            #![trigger u.holds(x), q.is_prefix_of(x)]
            u.holds(x) && q.len() > 0 && q.is_prefix_of(x) && q != x implies u.dirs.contains(q) by {
            assert(t.holds(x));
        }
        assert(u.wf());
        assert forall|x: PathView| is_one_below(target, rels, x) <==> x == p || is_one_below(
            target,
            rest,
            x,
        ) by {
            if is_one_below(target, rels, x) {
                let rel = choose|rel: PathView| #[trigger] rels.contains(rel) && x == target + rel;
                lemma_first_or_rest(rels, rel);
            }
            if is_one_below(target, rest, x) {
                let rel = choose|rel: PathView| #[trigger] rest.contains(rel) && x == target + rel;
                lemma_first_or_rest(rels, rel);
            }
        }
        lemma_file_deletions(u, target, rest);
    }
}

/// The tasks of deleting these relative directories.
pub open spec fn delete_dir_tasks(target: PathView, rels: Seq<PathView>) -> Seq<Task<PathView>> {
    rels.map_values(|rel: PathView| Task::DeleteDir(target + rel))
}

/// Deleting directories.
pub proof fn lemma_dir_deletions(t: Tree, target: PathView, rels: Seq<PathView>)
    requires
        t.wf(),
        target.len() > 0,
        forall|p: PathView| #[trigger] is_one_below(target, rels, p) ==> !is_blocked(t, p),
    ensures
        all_ready(t, delete_dir_tasks(target, rels)),
        ({
            let u = apply_all(t, delete_dir_tasks(target, rels));
            &&& u.wf()
            &&& forall|p: PathView| #[trigger]
                u.dirs.contains(p) <==> t.dirs.contains(p) && !is_under_one(target, rels, p)
            &&& forall|p: PathView| #[trigger]
                u.files.contains_key(p) <==> t.files.contains_key(p) && !is_under_one(
                    target,
                    rels,
                    p,
                )
            &&& forall|p: PathView|
                u.files.contains_key(p) ==> #[trigger] u.files[p] == t.files[p]
        }),
    decreases rels.len(),
{
    let tasks = delete_dir_tasks(target, rels);
    if rels.len() > 0 {
        let first = rels[0];
        let rest = rels.drop_first();
        let p = target + first;
        let task = Task::DeleteDir(p);
        assert(tasks[0] == task);
        assert(tasks.drop_first() =~= delete_dir_tasks(target, rest));
        assert(rels.contains(first));
        assert(is_one_below(target, rels, p));
        let u = apply_task(t, task);
        assert forall|x: PathView, q: PathView|
            #![trigger u.holds(x), q.is_prefix_of(x)]
            u.holds(x) && q.len() > 0 && q.is_prefix_of(x) && q != x implies u.dirs.contains(q) by {
            assert(t.holds(x));
            if p.is_prefix_of(q) {
                lemma_prefix_transitive(p, q, x);
            }
        }
        assert(u.wf());
        assert forall|x: PathView| is_one_below(target, rest, x) implies is_one_below(
            target,
            rels,
            x,
        ) by {
            let rel = choose|rel: PathView| #[trigger] rest.contains(rel) && x == target + rel;
            lemma_first_or_rest(rels, rel);
        }
        assert forall|x: PathView| is_under_one(target, rels, x) <==> p.is_prefix_of(x)
            || is_under_one(target, rest, x) by {
            if is_under_one(target, rels, x) {
                let rel = choose|rel: PathView| #[trigger]
                    rels.contains(rel) && (target + rel).is_prefix_of(x);
                lemma_first_or_rest(rels, rel);
            }
            if is_under_one(target, rest, x) {
                let rel = choose|rel: PathView| #[trigger]
                    rest.contains(rel) && (target + rel).is_prefix_of(x);
                lemma_first_or_rest(rels, rel);
            }
        }
        lemma_dir_deletions(u, target, rest);
    }
}

} // verus!
