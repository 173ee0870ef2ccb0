//! A model of a file system, and what a session does to it.

use vstd::prelude::*;

use crate::path::parent_view;
use crate::path::PathView;
use crate::session::step_view;
use crate::session::{Answer, Request, SessionView, Stage, Task};
use crate::snapshot::SnapshotView;
use crate::time::Timestamp;

verus! {

/// A file: its modification time, and what is in it.
#[verifier::ext_equal]
pub struct FileView {
    pub time: Timestamp,
    pub content: Seq<u8>,
}

/// What a file system holds.
#[verifier::ext_equal]
pub struct Tree {
    pub dirs: Set<PathView>,
    pub files: Map<PathView, FileView>,
}

/// The path and those above it, but for the empty path.
pub open spec fn ancestry(p: PathView) -> Set<PathView> {
    Set::new(|q: PathView| q.len() > 0 && q.is_prefix_of(p))
}

impl Tree {
    /// There is a directory or a file at `p`.
    pub open spec fn holds(self, p: PathView) -> bool {
        self.dirs.contains(p) || self.files.contains_key(p)
    }

    /// Above everything there are directories, and nothing is both a directory and a file.
    pub open spec fn wf(self) -> bool {
        &&& forall|p: PathView, q: PathView|
            #![trigger self.holds(p), q.is_prefix_of(p)]
            self.holds(p) && q.len() > 0 && q.is_prefix_of(p) && q != p ==> self.dirs.contains(q)
        &&& forall|p: PathView| #[trigger]
            self.dirs.contains(p) ==> !self.files.contains_key(p)
    }

    /// What lies below `root`.
    pub open spec fn below(self, root: PathView) -> SnapshotView {
        SnapshotView {
            dirs: Set::new(|rel: PathView| rel.len() > 0 && self.dirs.contains(root + rel)),
            files: Map::new(
                |rel: PathView| rel.len() > 0 && self.files.contains_key(root + rel),
                |rel: PathView| self.files[root + rel].time@,
            ),
            ignored: Set::empty(),
        }
    }
}

/// A file is at `p` or above it.
pub open spec fn is_blocked(t: Tree, p: PathView) -> bool {
    exists|q: PathView| #[trigger] ancestry(p).contains(q) && t.files.contains_key(q)
}

/// `s` holds exactly what is not hidden of `whole`.
pub open spec fn is_seen_of(s: SnapshotView, whole: SnapshotView) -> bool {
    &&& forall|rel: PathView| #[trigger]
        s.dirs.contains(rel) <==> whole.dirs.contains(rel) && !s.hides(rel)
    &&& forall|rel: PathView| #[trigger]
        s.files.contains_key(rel) <==> whole.files.contains_key(rel) && !s.hides(rel)
    &&& forall|rel: PathView| #[trigger]
        s.files.contains_key(rel) ==> s.files[rel] == whole.files[rel]
}

/// Above everything held there are directories, and nothing is both a directory and a file.
pub open spec fn is_tree(s: SnapshotView) -> bool {
    &&& forall|a: PathView, b: PathView|
        #![trigger a.is_prefix_of(b), s.dirs.contains(b)]
        s.dirs.contains(b) && a.len() > 0 && a.is_prefix_of(b) ==> s.dirs.contains(a)
    &&& forall|a: PathView, b: PathView|
        #![trigger a.is_prefix_of(b), s.files.contains_key(b)]
        s.files.contains_key(b) && a.len() > 0 && a.is_prefix_of(b) && a != b ==> s.dirs.contains(a)
    &&& forall|p: PathView| #[trigger] s.dirs.contains(p) ==> !s.files.contains_key(p)
}

/// What a file system that serves every request it can does with one, and what it answers. A
/// copy is stamped with the time `now`.
pub open spec fn perform(t: Tree, request: Request<PathView>, now: Timestamp) -> (Tree, Answer) {
    match request {
        Request::Exists(p) => (t, Answer::Exists(t.holds(p))),
        Request::CreateDirAll(p) => if is_blocked(t, p) {
            (t, Answer::Failed)
        } else {
            (Tree { dirs: t.dirs.union(ancestry(p)), ..t }, Answer::Done)
        },
        Request::CopyFile { src, dst } => if t.files.contains_key(src) && !t.dirs.contains(dst) && (
        parent_view(dst) matches Some(p) && t.dirs.contains(p)) {
            let copy = FileView { time: now, content: t.files[src].content };
            (Tree { files: t.files.insert(dst, copy), ..t }, Answer::Done)
        } else {
            (t, Answer::Failed)
        },
        Request::ReadMtime(p) => if t.files.contains_key(p) {
            (t, Answer::Mtime(Some(t.files[p].time)))
        } else {
            (t, Answer::Failed)
        },
        Request::SetMtime { path, time } => if t.files.contains_key(path) {
            let stamped = FileView { time, content: t.files[path].content };
            (Tree { files: t.files.insert(path, stamped), ..t }, Answer::Done)
        } else {
            (t, Answer::Failed)
        },
        Request::RemoveFile(p) => if t.files.contains_key(p) {
            (Tree { files: t.files.remove(p), ..t }, Answer::Done)
        } else if t.dirs.contains(p) || is_blocked(t, p) {
            (t, Answer::Failed)
        } else {
            (t, Answer::NotFound)
        },
        Request::RemoveDirAll(p) => if t.dirs.contains(p) {
            (without_subtree(t, p), Answer::Done)
        } else if is_blocked(t, p) {
            (t, Answer::Failed)
        } else {
            (t, Answer::NotFound)
        },
        Request::Say(_) | Request::Abort(_) | Request::Finished => (t, Answer::Done),
    }
}

/// The tree without what is at `p` and below it.
pub open spec fn without_subtree(t: Tree, p: PathView) -> Tree {
    Tree {
        dirs: t.dirs.filter(|q: PathView| !p.is_prefix_of(q)),
        files: Map::new(
            |q: PathView| t.files.contains_key(q) && !p.is_prefix_of(q),
            |q: PathView| t.files[q],
        ),
    }
}

/// How many requests a task can still make, at most, counting the one it waits on.
pub open spec fn task_rank(task: Task<PathView>, stage: Stage) -> nat {
    match task {
        Task::Announce(_) | Task::ForetellDir(_) => 1,
        Task::Copy { .. } => match stage {
            Stage::ParentCheck => 5,
            Stage::ParentCreate => 4,
            Stage::Copying => 3,
            Stage::TimeReading => 2,
            Stage::TimeSetting => 1,
            _ => 6,
        },
        Task::CreateDir(_) => match stage {
            Stage::DirCheck => 2,
            Stage::DirCreating => 1,
            _ => 3,
        },
        Task::DeleteFile(_) | Task::DeleteDir(_) => match stage {
            Stage::Removing => 1,
            _ => 2,
        },
    }
}

pub open spec fn session_rank(s: SessionView) -> nat {
    if s.queue.len() == 0 {
        0
    } else {
        task_rank(s.queue[0], s.stage)
    }
}

/// Every step of a session that is not finished brings it nearer to its end, whatever the
/// answers are.
pub proof fn law_sessions_end(s: SessionView, answer: Answer)
    ensures
        ({
            let (next, request) = step_view(s, answer);
            ||| request is Finished
            ||| next.queue.len() < s.queue.len()
            ||| next.queue.len() == s.queue.len() && session_rank(next) < session_rank(s)
        }),
        step_view(s, answer).0.queue.len() <= s.queue.len(),
        step_view(s, answer).0.mode == s.mode,
    decreases s.queue.len(),
{
    if s.queue.len() > 0 {
        let rest = SessionView { queue: s.queue.drop_first(), stage: Stage::Start, ..s };
        law_sessions_end(rest, answer);
    }
}

/// What a session leaves of a file system that serves every request it can, and whether it
/// came to its end without giving up.
pub open spec fn run(s: SessionView, answer: Answer, t: Tree, now: Timestamp) -> (Tree, bool)
    decreases s.queue.len(), session_rank(s),
{
    let (next, request) = step_view(s, answer);
    match request {
        Request::Finished => (t, true),
        Request::Abort(_) => (t, false),
        _ => {
            proof {
                law_sessions_end(s, answer);
            }
            let (u, reply) = perform(t, request, now);
            run(next, reply, u, now)
        },
    }
}

/// The requests that a session makes when it is given these answers, one after the other.
pub open spec fn requests(s: SessionView, answers: Seq<Answer>) -> Seq<Request<PathView>>
    decreases answers.len(),
{
    if answers.len() == 0 {
        Seq::empty()
    } else {
        let (next, request) = step_view(s, answers[0]);
        seq![request] + requests(next, answers.drop_first())
    }
}

} // verus!
