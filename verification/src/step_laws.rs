//! How a session goes from request to request.

use vstd::prelude::*;

use crate::path::PathView;
use crate::session::{
    copy_move, create_dir_move, delete_dir_move, delete_file_move, safe_copy_move, step_view,
    task_move,
};
use crate::session::{
    Answer, CopyKind, Failure, Move, Notice, Request, RunMode, SessionView, Stage, Task,
};

verus! {

/// Every task begins with its own request. In a dry run a copy and a deletion are told at once. A
/// copy asks for the directory above its destination, a directory asks whether it is there, and
/// anything to be deleted is removed. What was answered before does not matter.
pub proof fn law_tasks_begin(s: SessionView, a: Answer, b: Answer)
    requires
        s.stage is Start,
        s.queue.len() > 0,
    ensures
        step_view(s, a) == step_view(s, b),
        ({
            let (n, r) = step_view(s, a);
            let rest = s.queue.drop_first();
            let dry = s.mode is DryRun;
            &&& n.mode == s.mode
            &&& r is Say ==> n.stage is Start && n.queue == rest
            &&& !(r is Say) ==> n.queue == s.queue
            &&& match s.queue[0] {
                Task::Announce(x) => r == Request::<PathView>::Say(Notice::Announced(x)),
                Task::ForetellDir(p) => r == Request::<PathView>::Say(Notice::WouldCreateDir(p)),
                Task::Copy { kind, src, dst } => r == if dry {
                    Request::Say(Notice::WouldCopy { kind, src, dst })
                } else if dst.len() == 0 || dst[dst.len() - 1] is RootDir || dst[dst.len() - 1]
                    is Prefix {
                    Request::CopyFile { src, dst }
                } else {
                    Request::Exists(dst.take(dst.len() - 1))
                },
                Task::CreateDir(p) => r == Request::<PathView>::Exists(p),
                Task::DeleteFile(p) => r == if dry {
                    Request::<PathView>::Say(Notice::WouldDeleteFile(p))
                } else {
                    Request::RemoveFile(p)
                },
                Task::DeleteDir(p) => r == if dry {
                    Request::<PathView>::Say(Notice::WouldDeleteDir(p))
                } else {
                    Request::RemoveDirAll(p)
                },
            }
        }),
{
    if let Task::Copy { dst, .. } = s.queue[0] {
        if dst.len() > 0 {
            assert(dst.drop_last() =~= dst.take(dst.len() - 1));
        }
    }
}

/// Every answer is heeded. A copy that was made takes over the time that was read of its source,
/// and is then told. What is there is not created, what was gone already is passed over in
/// silence, and anything that could not be done is what the session gives up on, for good.
pub proof fn law_answers_are_heeded(s: SessionView, a: Answer, b: Answer)
    ensures
        ({
            let (n, r) = step_view(s, a);
            let (m, q) = step_view(n, b);
            let task = n.queue[0];
            let onward = step_view(
                (SessionView { mode: n.mode, queue: n.queue.drop_first(), stage: Stage::Start }),
                b,
            ).1;
            match r {
                Request::Exists(p) => match task {
                    Task::Copy { kind: _, src, dst } => n.mode is Apply && q == if b
                        == Answer::Exists(true) {
                        Request::CopyFile { src, dst }
                    } else {
                        Request::CreateDirAll(p)
                    },
                    Task::CreateDir(d) => d == p && q == if b == Answer::Exists(true) {
                        onward
                    } else if n.mode is DryRun {
                        Request::Say(Notice::WouldCreateDir(p))
                    } else {
                        Request::CreateDirAll(p)
                    },
                    _ => false,
                },
                Request::CreateDirAll(p) => match task {
                    Task::Copy { kind: _, src, dst } => q == if b is Done {
                        Request::CopyFile { src, dst }
                    } else {
                        Request::Abort(Failure::CreateParent(p))
                    },
                    Task::CreateDir(d) => d == p && q == if b is Done {
                        Request::<PathView>::Say(Notice::CreatedDir(p))
                    } else {
                        Request::Abort(Failure::CreateDir(p))
                    },
                    _ => false,
                },
                Request::CopyFile { src, dst } => q == if b is Done {
                    Request::ReadMtime(src)
                } else {
                    Request::Abort(Failure::Copy { src, dst })
                },
                Request::ReadMtime(p) => task matches Task::Copy { kind, src, dst } && src == p && q
                    == match b {
                    Answer::Mtime(Some(time)) => Request::SetMtime { path: dst, time },
                    Answer::Mtime(None) => Request::Say(Notice::Copied { kind, src, dst }),
                    _ => Request::Abort(Failure::ReadMetadata(p)),
                },
                Request::SetMtime { path, time: _ } => task matches Task::Copy { kind, src, dst }
                    && dst == path && q == if b is Done {
                    Request::Say(Notice::Copied { kind, src, dst })
                } else {
                    Request::Abort(Failure::PreserveMtime(path))
                },
                Request::RemoveFile(p) => q == match b {
                    Answer::Done => Request::Say(Notice::DeletedFile(p)),
                    Answer::NotFound => onward,
                    _ => Request::Abort(Failure::DeleteFile(p)),
                },
                Request::RemoveDirAll(p) => q == match b {
                    Answer::Done => Request::Say(Notice::DeletedDir(p)),
                    Answer::NotFound => onward,
                    _ => Request::Abort(Failure::DeleteDir(p)),
                },
                Request::Say(_) => n.stage is Start,
                Request::Abort(_) | Request::Finished => q is Finished && m.queue.len() == 0,
            }
        }),
    decreases s.queue.len(),
{
    if s.queue.len() > 0 {
        let rest = SessionView { queue: s.queue.drop_first(), stage: Stage::Start, ..s };
        if task_move(s.queue[0], s.mode, s.stage, a) is Over {
            law_answers_are_heeded(rest, a, b);
        }
    }
}

/// A session that has nothing to do is finished, whatever it is answered.
pub proof fn law_an_idle_session_is_finished(s: SessionView, a: Answer)
    ensures
        s.queue.len() == 0 ==> step_view(s, a).1 is Finished,
        step_view(s, a).1 is Finished ==> step_view(s, a).0.queue.len() == 0,
    decreases s.queue.len(),
{
    if s.queue.len() > 0 {
        let rest = SessionView { queue: s.queue.drop_first(), stage: Stage::Start, ..s };
        law_an_idle_session_is_finished(rest, a);
    }
}

/// A task that is in a stage of another kind of task begins.
pub proof fn law_foreign_stages_begin_anew(
    kind: CopyKind,
    src: PathView,
    dst: PathView,
    mode: RunMode,
    stage: Stage,
    a: Answer,
    b: Answer,
)
    ensures
        stage is DirCheck || stage is DirCreating || stage is Removing ==> safe_copy_move(
            kind,
            src,
            dst,
            stage,
            a,
        ) == safe_copy_move(kind, src, dst, Stage::Start, b),
        mode is Apply ==> copy_move(kind, src, dst, mode, stage, a) == safe_copy_move(
            kind,
            src,
            dst,
            stage,
            a,
        ),
        mode is DryRun ==> copy_move(kind, src, dst, mode, stage, a) == Move::Report(
            Notice::WouldCopy { kind, src, dst },
        ),
        !(stage is DirCheck) && !(stage is DirCreating) ==> create_dir_move(dst, mode, stage, a)
            == create_dir_move(dst, mode, Stage::Start, b),
        !(stage is Removing) || mode is DryRun ==> delete_file_move(dst, mode, stage, a)
            == delete_file_move(dst, mode, Stage::Start, b),
        !(stage is Removing) || mode is DryRun ==> delete_dir_move(dst, mode, stage, a)
            == delete_dir_move(dst, mode, Stage::Start, b),
{
}

} // verus!
