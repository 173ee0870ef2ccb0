//! What values mean: each part of a value stands for itself.

use vstd::prelude::*;

use crate::listing::paths_view;
use crate::path::parts_view;
use crate::path::{Component, SyncPath};
use crate::plan::pairs_view;
use crate::plan::{PathPair, Plan};
use crate::rules::{faults_view, lines_view};
use crate::rules::LineFault;
use crate::session::tasks_view;
use crate::session::{Failure, Move, Notice, Request, Task};
use crate::time::{Span, Timestamp};

verus! {

/// A request means the same request of what its paths mean.
pub proof fn law_requests_mean_what_they_say(r: Request<SyncPath>)
    ensures
        match (r, r@) {
            (Request::Say(n), Request::Say(v)) => n@ == v,
            (Request::Exists(p), Request::Exists(v)) => p@ == v,
            (Request::CreateDirAll(p), Request::CreateDirAll(v)) => p@ == v,
            (Request::CopyFile { src, dst }, Request::CopyFile { src: u, dst: v }) => src@ == u
                && dst@ == v,
            (Request::ReadMtime(p), Request::ReadMtime(v)) => p@ == v,
            (Request::SetMtime { path, time }, Request::SetMtime { path: v, time: t }) => path@ == v
                && time == t,
            (Request::RemoveFile(p), Request::RemoveFile(v)) => p@ == v,
            (Request::RemoveDirAll(p), Request::RemoveDirAll(v)) => p@ == v,
            (Request::Abort(f), Request::Abort(v)) => f@ == v,
            (Request::Finished, Request::Finished) => true,
            _ => false,
        },
{
}

/// A notice means the same notice of what its paths mean.
pub proof fn law_notices_mean_what_they_say(n: Notice<SyncPath>)
    ensures
        match (n, n@) {
            (Notice::Announced(a), Notice::Announced(b)) => a == b,
            (
                Notice::WouldCopy { kind, src, dst },
                Notice::WouldCopy { kind: k, src: u, dst: v },
            ) => kind == k && src@ == u && dst@ == v,
            (Notice::Copied { kind, src, dst }, Notice::Copied { kind: k, src: u, dst: v }) => kind
                == k && src@ == u && dst@ == v,
            (Notice::WouldCreateDir(p), Notice::WouldCreateDir(v)) => p@ == v,
            (Notice::CreatedDir(p), Notice::CreatedDir(v)) => p@ == v,
            (Notice::WouldDeleteFile(p), Notice::WouldDeleteFile(v)) => p@ == v,
            (Notice::DeletedFile(p), Notice::DeletedFile(v)) => p@ == v,
            (Notice::WouldDeleteDir(p), Notice::WouldDeleteDir(v)) => p@ == v,
            (Notice::DeletedDir(p), Notice::DeletedDir(v)) => p@ == v,
            _ => false,
        },
{
}

/// A failure means the same failure of what its paths mean.
pub proof fn law_failures_mean_what_they_say(f: Failure<SyncPath>)
    ensures
        match (f, f@) {
            (Failure::CreateParent(p), Failure::CreateParent(v)) => p@ == v,
            (Failure::Copy { src, dst }, Failure::Copy { src: u, dst: v }) => src@ == u && dst@ == v,
            (Failure::ReadMetadata(p), Failure::ReadMetadata(v)) => p@ == v,
            (Failure::PreserveMtime(p), Failure::PreserveMtime(v)) => p@ == v,
            (Failure::CreateDir(p), Failure::CreateDir(v)) => p@ == v,
            (Failure::DeleteFile(p), Failure::DeleteFile(v)) => p@ == v,
            (Failure::DeleteDir(p), Failure::DeleteDir(v)) => p@ == v,
            _ => false,
        },
{
}

/// A task means the same task of what its paths mean, and a move the same move.
pub proof fn law_tasks_and_moves_mean_what_they_say(task: Task<SyncPath>, go: Move<SyncPath>)
    ensures
        match (task, task@) {
            (Task::Announce(a), Task::Announce(b)) => a == b,
            (Task::ForetellDir(p), Task::ForetellDir(v)) => p@ == v,
            (Task::Copy { kind, src, dst }, Task::Copy { kind: k, src: u, dst: v }) => kind == k
                && src@ == u && dst@ == v,
            (Task::CreateDir(p), Task::CreateDir(v)) => p@ == v,
            (Task::DeleteFile(p), Task::DeleteFile(v)) => p@ == v,
            (Task::DeleteDir(p), Task::DeleteDir(v)) => p@ == v,
            _ => false,
        },
        match (go, go@) {
            (Move::Ask(stage, r), Move::Ask(s, v)) => stage == s && r@ == v,
            (Move::Report(n), Move::Report(v)) => n@ == v,
            (Move::Over, Move::Over) => true,
            (Move::Fail(f), Move::Fail(v)) => f@ == v,
            _ => false,
        },
{
}

/// A list means the list of what its items mean, item by item.
pub proof fn law_lists_mean_their_items(
    paths: Seq<SyncPath>,
    pairs: Seq<PathPair>,
    tasks: Seq<Task<SyncPath>>,
    parts: Seq<Component<Vec<u8>>>,
    lines: Seq<String>,
    faults: Seq<LineFault>,
    i: int,
)
    ensures
        paths_view(paths).len() == paths.len(),
        0 <= i < paths.len() ==> paths_view(paths)[i] == paths[i]@,
        pairs_view(pairs).len() == pairs.len(),
        0 <= i < pairs.len() ==> pairs_view(pairs)[i].src == pairs[i].src@ && pairs_view(
            pairs,
        )[i].dst == pairs[i].dst@,
        tasks_view(tasks).len() == tasks.len(),
        0 <= i < tasks.len() ==> tasks_view(tasks)[i] == tasks[i]@,
        parts_view(parts).len() == parts.len(),
        0 <= i < parts.len() ==> match (parts[i], parts_view(parts)[i]) {
            (Component::Prefix(n), Component::Prefix(v)) => n@ == v,
            (Component::RootDir, Component::RootDir) => true,
            (Component::CurDir, Component::CurDir) => true,
            (Component::ParentDir, Component::ParentDir) => true,
            (Component::Normal(n), Component::Normal(v)) => n@ == v,
            _ => false,
        },
        lines_view(lines).len() == lines.len(),
        0 <= i < lines.len() ==> lines_view(lines)[i] == lines[i]@,
        faults_view(faults).len() == faults.len(),
        0 <= i < faults.len() ==> faults_view(faults)[i].0 == faults[i].line && faults_view(
            faults,
        )[i].1 == faults[i].message@,
{
}

/// A plan means its five lists, each for itself.
pub proof fn law_plans_mean_their_lists(plan: Plan, i: int)
    ensures
        plan@.overwrite_pairs.len() == plan.overwrite_pairs@.len(),
        0 <= i < plan.overwrite_pairs@.len() ==> plan@.overwrite_pairs[i].src
            == plan.overwrite_pairs@[i].src@ && plan@.overwrite_pairs[i].dst
            == plan.overwrite_pairs@[i].dst@,
        plan@.new_dirs.len() == plan.new_dirs@.len(),
        0 <= i < plan.new_dirs@.len() ==> plan@.new_dirs[i] == plan.new_dirs@[i]@,
        plan@.new_pairs.len() == plan.new_pairs@.len(),
        0 <= i < plan.new_pairs@.len() ==> plan@.new_pairs[i].src == plan.new_pairs@[i].src@
            && plan@.new_pairs[i].dst == plan.new_pairs@[i].dst@,
        plan@.delete_files.len() == plan.delete_files@.len(),
        0 <= i < plan.delete_files@.len() ==> plan@.delete_files[i] == plan.delete_files@[i]@,
        plan@.delete_dirs.len() == plan.delete_dirs@.len(),
        0 <= i < plan.delete_dirs@.len() ==> plan@.delete_dirs[i] == plan.delete_dirs@[i]@,
{
}

/// A point in time and a span mean their nanoseconds.
pub proof fn law_times_mean_nanoseconds(time: Timestamp, span: Span)
    ensures
        time@ == time.secs * 1_000_000_000 + time.nanos,
        span@ == span.secs * 1_000_000_000 + span.nanos,
{
}

} // verus!
