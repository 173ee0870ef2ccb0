//! Carrying out a plan: one file-system request at a time, each answered before the next.

use vstd::prelude::*;

use crate::listing::paths_view;
use crate::path::parent_view;
use crate::path::{PathView, SyncPath};
use crate::plan::{build_plan, gets_replaced, part_plan, PairView, PathPair, Plan, PlanView, SyncOptions};
use crate::plan::{first_part, is_replaced, pairs_view, plan_for, second_part};
use crate::snapshot::{Snapshot, SnapshotView};
use crate::time::Timestamp;

verus! {

/// Whether a session changes anything.
#[derive(Debug, Clone, Copy, PartialEq, Eq, Structural)]
pub enum RunMode {
    /// Report what would be done.
    DryRun,
    /// Do it.
    Apply,
}

/// Why a file is copied.
#[derive(Debug, Clone, Copy, PartialEq, Eq, Structural)]
pub enum CopyKind {
    /// The target has an older one.
    Overwrite,
    /// The target has none.
    New,
}

/// What a session says of itself.
#[derive(Debug, Clone, Copy, PartialEq, Eq, Structural)]
pub enum Announcement {
    /// Nothing will be changed.
    DryRun,
    /// All is done.
    Done,
}

/// One thing to do, with paths of type `P`.
#[derive(Debug, PartialEq, Eq)]
pub enum Task<P> {
    Announce(Announcement),
    /// Tell that this directory would be created.
    ForetellDir(P),
    Copy { kind: CopyKind, src: P, dst: P },
    CreateDir(P),
    DeleteFile(P),
    DeleteDir(P),
}

/// What to tell the user, with paths of type `P`.
#[derive(Debug, PartialEq, Eq)]
pub enum Notice<P> {
    Announced(Announcement),
    WouldCopy { kind: CopyKind, src: P, dst: P },
    Copied { kind: CopyKind, src: P, dst: P },
    WouldCreateDir(P),
    CreatedDir(P),
    WouldDeleteFile(P),
    DeletedFile(P),
    WouldDeleteDir(P),
    DeletedDir(P),
}

/// What could not be done, with paths of type `P`.
#[derive(Debug, PartialEq, Eq)]
pub enum Failure<P> {
    CreateParent(P),
    Copy { src: P, dst: P },
    ReadMetadata(P),
    PreserveMtime(P),
    CreateDir(P),
    DeleteFile(P),
    DeleteDir(P),
}

/// What a session asks for, with paths of type `P`.
#[derive(Debug, PartialEq, Eq)]
pub enum Request<P> {
    /// Tell the user.
    Say(Notice<P>),
    /// Tell whether there is anything at this path.
    Exists(P),
    /// Create this directory and those above it.
    CreateDirAll(P),
    /// Copy the file.
    CopyFile { src: P, dst: P },
    /// Read the modification time of this file.
    ReadMtime(P),
    /// Set the modification time of this file.
    SetMtime { path: P, time: Timestamp },
    /// Remove this file.
    RemoveFile(P),
    /// Remove this directory and all below it.
    RemoveDirAll(P),
    /// Give up.
    Abort(Failure<P>),
    /// There is nothing left to do.
    Finished,
}

/// The answer to a request.
#[derive(Debug, Clone, Copy, PartialEq, Eq, Structural)]
pub enum Answer {
    /// It was done.
    Done,
    /// Whether there is anything at the path.
    Exists(bool),
    /// The modification time, where the file system keeps one.
    Mtime(Option<Timestamp>),
    /// There is nothing at the path.
    NotFound,
    /// It could not be done.
    Failed,
}

/// How far a session has come with its current task: the request that it waits on.
#[derive(Debug, Clone, Copy, PartialEq, Eq, Structural)]
pub enum Stage {
    Start,
    ParentCheck,
    ParentCreate,
    Copying,
    TimeReading,
    TimeSetting,
    DirCheck,
    DirCreating,
    Removing,
}

/// How a task goes on.
#[derive(Debug, PartialEq, Eq)]
pub enum Move<P> {
    /// It asks for something, and waits in this stage.
    Ask(Stage, Request<P>),
    /// It is over, with something to tell.
    Report(Notice<P>),
    /// It is over.
    Over,
    /// It cannot go on, nor can the session.
    Fail(Failure<P>),
}

impl Clone for Task<SyncPath> {
    fn clone(&self) -> (r: Self)
        ensures
            r@ == self@,
    {
        match self {
            Task::Announce(a) => Task::Announce(*a),
            Task::ForetellDir(p) => Task::ForetellDir(p.clone()),
            Task::Copy { kind, src, dst } => Task::Copy {
                kind: *kind,
                src: src.clone(),
                dst: dst.clone(),
            },
            Task::CreateDir(p) => Task::CreateDir(p.clone()),
            Task::DeleteFile(p) => Task::DeleteFile(p.clone()),
            Task::DeleteDir(p) => Task::DeleteDir(p.clone()),
        }
    }
}

impl Task<SyncPath> {
    pub open spec fn view(&self) -> Task<PathView> {
        match self {
            Task::Announce(a) => Task::Announce(*a),
            Task::ForetellDir(p) => Task::ForetellDir(p@),
            Task::Copy { kind, src, dst } => Task::Copy { kind: *kind, src: src@, dst: dst@ },
            Task::CreateDir(p) => Task::CreateDir(p@),
            Task::DeleteFile(p) => Task::DeleteFile(p@),
            Task::DeleteDir(p) => Task::DeleteDir(p@),
        }
    }
}

impl Notice<SyncPath> {
    pub open spec fn view(&self) -> Notice<PathView> {
        match self {
            Notice::Announced(a) => Notice::Announced(*a),
            Notice::WouldCopy { kind, src, dst } => Notice::WouldCopy {
                kind: *kind,
                src: src@,
                dst: dst@,
            },
            Notice::Copied { kind, src, dst } => Notice::Copied {
                kind: *kind,
                src: src@,
                dst: dst@,
            },
            Notice::WouldCreateDir(p) => Notice::WouldCreateDir(p@),
            Notice::CreatedDir(p) => Notice::CreatedDir(p@),
            Notice::WouldDeleteFile(p) => Notice::WouldDeleteFile(p@),
            Notice::DeletedFile(p) => Notice::DeletedFile(p@),
            Notice::WouldDeleteDir(p) => Notice::WouldDeleteDir(p@),
            Notice::DeletedDir(p) => Notice::DeletedDir(p@),
        }
    }
}

impl Failure<SyncPath> {
    pub open spec fn view(&self) -> Failure<PathView> {
        match self {
            Failure::CreateParent(p) => Failure::CreateParent(p@),
            Failure::Copy { src, dst } => Failure::Copy { src: src@, dst: dst@ },
            Failure::ReadMetadata(p) => Failure::ReadMetadata(p@),
            Failure::PreserveMtime(p) => Failure::PreserveMtime(p@),
            Failure::CreateDir(p) => Failure::CreateDir(p@),
            Failure::DeleteFile(p) => Failure::DeleteFile(p@),
            Failure::DeleteDir(p) => Failure::DeleteDir(p@),
        }
    }
}

impl Request<SyncPath> {
    pub open spec fn view(&self) -> Request<PathView> {
        match self {
            Request::Say(n) => Request::Say(n@),
            Request::Exists(p) => Request::Exists(p@),
            Request::CreateDirAll(p) => Request::CreateDirAll(p@),
            Request::CopyFile { src, dst } => Request::CopyFile { src: src@, dst: dst@ },
            Request::ReadMtime(p) => Request::ReadMtime(p@),
            Request::SetMtime { path, time } => Request::SetMtime { path: path@, time: *time },
            Request::RemoveFile(p) => Request::RemoveFile(p@),
            Request::RemoveDirAll(p) => Request::RemoveDirAll(p@),
            Request::Abort(f) => Request::Abort(f@),
            Request::Finished => Request::Finished,
        }
    }
}

impl Move<SyncPath> {
    pub open spec fn view(&self) -> Move<PathView> {
        match self {
            Move::Ask(stage, request) => Move::Ask(*stage, request@),
            Move::Report(n) => Move::Report(n@),
            Move::Over => Move::Over,
            Move::Fail(f) => Move::Fail(f@),
        }
    }
}

/// The tasks that the sequence `s` holds.
pub open spec fn tasks_view(s: Seq<Task<SyncPath>>) -> Seq<Task<PathView>> {
    s.map_values(|t: Task<SyncPath>| t@)
}

/// Copying a file: the directory above the destination is created where it is missing, and the
/// copy takes over the modification time of the source, where there is one.
pub open spec fn safe_copy_move(
    kind: CopyKind,
    src: PathView,
    dst: PathView,
    stage: Stage,
    answer: Answer,
) -> Move<PathView> {
    let copy = Move::Ask(Stage::Copying, Request::CopyFile { src, dst });
    match stage {
        Stage::ParentCheck => match parent_view(dst) {
            Some(p) => if answer == Answer::Exists(true) {
                copy
            } else {
                Move::Ask(Stage::ParentCreate, Request::CreateDirAll(p))
            },
            None => copy,
        },
        Stage::ParentCreate => match parent_view(dst) {
            Some(p) => if answer is Done {
                copy
            } else {
                Move::Fail(Failure::CreateParent(p))
            },
            None => copy,
        },
        Stage::Copying => if answer is Done {
            Move::Ask(Stage::TimeReading, Request::ReadMtime(src))
        } else {
            Move::Fail(Failure::Copy { src, dst })
        },
        Stage::TimeReading => match answer {
            Answer::Mtime(Some(time)) => Move::Ask(
                Stage::TimeSetting,
                Request::SetMtime { path: dst, time },
            ),
            Answer::Mtime(None) => Move::Report(Notice::Copied { kind, src, dst }),
            _ => Move::Fail(Failure::ReadMetadata(src)),
        },
        Stage::TimeSetting => if answer is Done {
            Move::Report(Notice::Copied { kind, src, dst })
        } else {
            Move::Fail(Failure::PreserveMtime(dst))
        },
        _ => match parent_view(dst) {
            Some(p) => Move::Ask(Stage::ParentCheck, Request::Exists(p)),
            None => copy,
        },
    }
}

/// A dry run reports the copy; otherwise the file is copied.
pub open spec fn copy_move(
    kind: CopyKind,
    src: PathView,
    dst: PathView,
    mode: RunMode,
    stage: Stage,
    answer: Answer,
) -> Move<PathView> {
    match mode {
        RunMode::DryRun => Move::Report(Notice::WouldCopy { kind, src, dst }),
        RunMode::Apply => safe_copy_move(kind, src, dst, stage, answer),
    }
}

/// A directory is created unless something is there; a dry run reports it.
pub open spec fn create_dir_move(
    dst: PathView,
    mode: RunMode,
    stage: Stage,
    answer: Answer,
) -> Move<PathView> {
    match stage {
        Stage::DirCheck => if answer == Answer::Exists(true) {
            Move::Over
        } else {
            match mode {
                RunMode::DryRun => Move::Report(Notice::WouldCreateDir(dst)),
                RunMode::Apply => Move::Ask(Stage::DirCreating, Request::CreateDirAll(dst)),
            }
        },
        Stage::DirCreating => if answer is Done {
            Move::Report(Notice::CreatedDir(dst))
        } else {
            Move::Fail(Failure::CreateDir(dst))
        },
        _ => Move::Ask(Stage::DirCheck, Request::Exists(dst)),
    }
}

/// A file is removed, or was gone already; a dry run reports it.
pub open spec fn delete_file_move(
    target: PathView,
    mode: RunMode,
    stage: Stage,
    answer: Answer,
) -> Move<PathView> {
    match mode {
        RunMode::DryRun => Move::Report(Notice::WouldDeleteFile(target)),
        RunMode::Apply => match stage {
            Stage::Removing => match answer {
                Answer::Done => Move::Report(Notice::DeletedFile(target)),
                Answer::NotFound => Move::Over,
                _ => Move::Fail(Failure::DeleteFile(target)),
            },
            _ => Move::Ask(Stage::Removing, Request::RemoveFile(target)),
        },
    }
}

/// A directory is removed with all below it, or was gone already; a dry run reports it.
pub open spec fn delete_dir_move(
    target: PathView,
    mode: RunMode,
    stage: Stage,
    answer: Answer,
) -> Move<PathView> {
    match mode {
        RunMode::DryRun => Move::Report(Notice::WouldDeleteDir(target)),
        RunMode::Apply => match stage {
            Stage::Removing => match answer {
                Answer::Done => Move::Report(Notice::DeletedDir(target)),
                Answer::NotFound => Move::Over,
                _ => Move::Fail(Failure::DeleteDir(target)),
            },
            _ => Move::Ask(Stage::Removing, Request::RemoveDirAll(target)),
        },
    }
}

/// How a task goes on from a stage, given the answer that the stage waited on.
pub open spec fn task_move(
    task: Task<PathView>,
    mode: RunMode,
    stage: Stage,
    answer: Answer,
) -> Move<PathView> {
    match task {
        Task::Announce(a) => Move::Report(Notice::Announced(a)),
        Task::ForetellDir(p) => Move::Report(Notice::WouldCreateDir(p)),
        Task::Copy { kind, src, dst } => copy_move(kind, src, dst, mode, stage, answer),
        Task::CreateDir(p) => create_dir_move(p, mode, stage, answer),
        Task::DeleteFile(p) => delete_file_move(p, mode, stage, answer),
        Task::DeleteDir(p) => delete_dir_move(p, mode, stage, answer),
    }
}

/// What a session means: the tasks left, the first being under way, and how far that one has
/// come.
#[verifier::ext_equal]
pub struct SessionView {
    pub mode: RunMode,
    pub queue: Seq<Task<PathView>>,
    pub stage: Stage,
}

/// Where a session goes from here, given the answer to its last request, and what it asks for
/// next. A task that is over gives way to the next; a failure ends the session.
pub open spec fn step_view(s: SessionView, answer: Answer) -> (SessionView, Request<PathView>)
    decreases s.queue.len(),
{
    if s.queue.len() == 0 {
        (SessionView { stage: Stage::Start, ..s }, Request::Finished)
    } else {
        let rest = SessionView { queue: s.queue.drop_first(), stage: Stage::Start, ..s };
        match task_move(s.queue[0], s.mode, s.stage, answer) {
            Move::Ask(stage, request) => (SessionView { stage, ..s }, request),
            Move::Report(notice) => (rest, Request::Say(notice)),
            Move::Over => step_view(rest, answer),
            Move::Fail(failure) => (
                SessionView { queue: Seq::empty(), stage: Stage::Start, ..s },
                Request::Abort(failure),
            ),
        }
    }
}

/// How copying a file goes on from a stage.
pub fn safe_copy(
    kind: CopyKind,
    src: &SyncPath,
    dst: &SyncPath,
    stage: Stage,
    answer: Answer,
) -> (r: Move<SyncPath>)
    ensures
        r@ == safe_copy_move(kind, src@, dst@, stage, answer),
        match r {
            Move::Ask(_, Request::CopyFile { src: from, dst: to }) => from@ == src@ && to@ == dst@,
            Move::Ask(_, Request::ReadMtime(p)) => p@ == src@,
            Move::Ask(_, Request::SetMtime { path, time }) => path@ == dst@ && answer
                == Answer::Mtime(Some(time)),
            Move::Report(n) => n matches Notice::Copied { kind: k, src: from, dst: to } && k == kind
                && from@ == src@ && to@ == dst@,
            Move::Ask(_, Request::Exists(p)) | Move::Ask(_, Request::CreateDirAll(p)) => p@
                == dst@.drop_last(),
            Move::Ask(_, _) | Move::Over => false,
            Move::Fail(_) => !(answer is Done) || stage is TimeReading,
        },
{
    match stage {
        Stage::ParentCheck => match dst.parent() {
            Some(p) => match answer {
                Answer::Exists(true) => Move::Ask(
                    Stage::Copying,
                    Request::CopyFile { src: src.clone(), dst: dst.clone() },
                ),
                _ => Move::Ask(Stage::ParentCreate, Request::CreateDirAll(p)),
            },
            None => Move::Ask(
                Stage::Copying,
                Request::CopyFile { src: src.clone(), dst: dst.clone() },
            ),
        },
        Stage::ParentCreate => match dst.parent() {
            Some(p) => match answer {
                Answer::Done => Move::Ask(
                    Stage::Copying,
                    Request::CopyFile { src: src.clone(), dst: dst.clone() },
                ),
                _ => Move::Fail(Failure::CreateParent(p)),
            },
            None => Move::Ask(
                Stage::Copying,
                Request::CopyFile { src: src.clone(), dst: dst.clone() },
            ),
        },
        Stage::Copying => match answer {
            Answer::Done => Move::Ask(Stage::TimeReading, Request::ReadMtime(src.clone())),
            _ => Move::Fail(Failure::Copy { src: src.clone(), dst: dst.clone() }),
        },
        Stage::TimeReading => match answer {
            Answer::Mtime(Some(time)) => Move::Ask(
                Stage::TimeSetting,
                Request::SetMtime { path: dst.clone(), time },
            ),
            Answer::Mtime(None) => Move::Report(
                Notice::Copied { kind, src: src.clone(), dst: dst.clone() },
            ),
            _ => Move::Fail(Failure::ReadMetadata(src.clone())),
        },
        Stage::TimeSetting => match answer {
            Answer::Done => Move::Report(
                Notice::Copied { kind, src: src.clone(), dst: dst.clone() },
            ),
            _ => Move::Fail(Failure::PreserveMtime(dst.clone())),
        },
        _ => match dst.parent() {
            Some(p) => Move::Ask(Stage::ParentCheck, Request::Exists(p)),
            None => Move::Ask(
                Stage::Copying,
                Request::CopyFile { src: src.clone(), dst: dst.clone() },
            ),
        },
    }
}

/// How a copy, or what a dry run tells of it, goes on from a stage.
pub fn handle_copy_pair(
    kind: CopyKind,
    src: &SyncPath,
    dst: &SyncPath,
    mode: RunMode,
    stage: Stage,
    answer: Answer,
) -> (r: Move<SyncPath>)
    ensures
        r@ == copy_move(kind, src@, dst@, mode, stage, answer),
{
    match mode {
        RunMode::DryRun => Move::Report(
            Notice::WouldCopy { kind, src: src.clone(), dst: dst.clone() },
        ),
        RunMode::Apply => safe_copy(kind, src, dst, stage, answer),
    }
}

/// How the creation of a directory goes on from a stage.
pub fn handle_create_directory(dst: &SyncPath, mode: RunMode, stage: Stage, answer: Answer) -> (r: Move<
    SyncPath,
>)
    ensures
        r@ == create_dir_move(dst@, mode, stage, answer),
        match r {
            Move::Ask(_, Request::Exists(p)) => p@ == dst@,
            Move::Ask(_, Request::CreateDirAll(p)) => p@ == dst@ && mode is Apply,
            Move::Report(Notice::CreatedDir(p)) => p@ == dst@ && answer is Done,
            Move::Report(Notice::WouldCreateDir(p)) => p@ == dst@ && mode is DryRun,
            Move::Ask(_, _) | Move::Report(_) => false,
            Move::Over => answer == Answer::Exists(true),
            Move::Fail(_) => !(answer is Done),
        },
{
    match stage {
        Stage::DirCheck => match answer {
            Answer::Exists(true) => Move::Over,
            _ => match mode {
                RunMode::DryRun => Move::Report(Notice::WouldCreateDir(dst.clone())),
                RunMode::Apply => Move::Ask(
                    Stage::DirCreating,
                    Request::CreateDirAll(dst.clone()),
                ),
            },
        },
        Stage::DirCreating => match answer {
            Answer::Done => Move::Report(Notice::CreatedDir(dst.clone())),
            _ => Move::Fail(Failure::CreateDir(dst.clone())),
        },
        _ => Move::Ask(Stage::DirCheck, Request::Exists(dst.clone())),
    }
}

/// How the deletion of a file goes on from a stage.
pub fn handle_delete_file(target: &SyncPath, mode: RunMode, stage: Stage, answer: Answer) -> (r: Move<
    SyncPath,
>)
    ensures
        r@ == delete_file_move(target@, mode, stage, answer),
        match r {
            Move::Ask(_, Request::RemoveFile(p)) => p@ == target@ && mode is Apply,
            Move::Report(Notice::DeletedFile(p)) => p@ == target@ && answer is Done,
            Move::Report(Notice::WouldDeleteFile(p)) => p@ == target@ && mode is DryRun,
            Move::Ask(_, _) | Move::Report(_) => false,
            Move::Over => answer is NotFound,
            Move::Fail(_) => !(answer is Done) && !(answer is NotFound),
        },
{
    match mode {
        RunMode::DryRun => Move::Report(Notice::WouldDeleteFile(target.clone())),
        RunMode::Apply => match stage {
            Stage::Removing => match answer {
                Answer::Done => Move::Report(Notice::DeletedFile(target.clone())),
                Answer::NotFound => Move::Over,
                _ => Move::Fail(Failure::DeleteFile(target.clone())),
            },
            _ => Move::Ask(Stage::Removing, Request::RemoveFile(target.clone())),
        },
    }
}

/// How the deletion of a directory goes on from a stage.
pub fn handle_delete_directory(target: &SyncPath, mode: RunMode, stage: Stage, answer: Answer) -> (r:
    Move<SyncPath>)
    ensures
        r@ == delete_dir_move(target@, mode, stage, answer),
        match r {
            Move::Ask(_, Request::RemoveDirAll(p)) => p@ == target@ && mode is Apply,
            Move::Report(Notice::DeletedDir(p)) => p@ == target@ && answer is Done,
            Move::Report(Notice::WouldDeleteDir(p)) => p@ == target@ && mode is DryRun,
            Move::Ask(_, _) | Move::Report(_) => false,
            Move::Over => answer is NotFound,
            Move::Fail(_) => !(answer is Done) && !(answer is NotFound),
        },
{
    match mode {
        RunMode::DryRun => Move::Report(Notice::WouldDeleteDir(target.clone())),
        RunMode::Apply => match stage {
            Stage::Removing => match answer {
                Answer::Done => Move::Report(Notice::DeletedDir(target.clone())),
                Answer::NotFound => Move::Over,
                _ => Move::Fail(Failure::DeleteDir(target.clone())),
            },
            _ => Move::Ask(Stage::Removing, Request::RemoveDirAll(target.clone())),
        },
    }
}

/// Goes through tasks in order.
#[derive(Debug)]
pub struct Session {
    mode: RunMode,
    tasks: Vec<Task<SyncPath>>,
    next: usize,
    stage: Stage,
}

impl View for Session {
    type V = SessionView;

    closed spec fn view(&self) -> SessionView {
        SessionView {
            mode: self.mode,
            queue: tasks_view(self.tasks@).skip(self.next as int),
            stage: self.stage,
        }
    }
}

impl Session {
    #[verifier::type_invariant]
    spec fn inv(&self) -> bool {
        self.next <= self.tasks.len()
    }

    fn new(tasks: Vec<Task<SyncPath>>, mode: RunMode) -> (r: Session)
        ensures
            r@ == (SessionView { mode, queue: tasks_view(tasks@), stage: Stage::Start }),
    {
        let r = Session { mode, tasks, next: 0, stage: Stage::Start };
        assert(r@.queue =~= tasks_view(tasks@));
        r
    }

    /// Takes the answer to the last request, and tells what to do next. The answer does not
    /// matter at the start, and behind a request to say something.
    pub fn step(&mut self, answer: Answer) -> (r: Request<SyncPath>)
        ensures
            (final(self)@, r@) == step_view(old(self)@, answer),
    {
        proof {
            use_type_invariant(&*self);
        }
        let ghost first = self@;
        while self.next < self.tasks.len()
            invariant
                self.next <= self.tasks.len(),
                first == old(self)@,
                step_view(self@, answer) == step_view(first, answer),
            decreases self.tasks.len() - self.next,
        {
            let ghost here = self@;
            assert(here.queue[0] == self.tasks@[self.next as int]@);
            assert(here.queue.drop_first() =~= tasks_view(self.tasks@).skip(self.next + 1));
            let (mode, stage) = (self.mode, self.stage);
            let go = match &self.tasks[self.next] {
                Task::Announce(a) => Move::Report(Notice::Announced(*a)),
                Task::ForetellDir(p) => Move::Report(Notice::WouldCreateDir(p.clone())),
                Task::Copy { kind, src, dst } => handle_copy_pair(
                    *kind,
                    src,
                    dst,
                    mode,
                    stage,
                    answer,
                ),
                Task::CreateDir(p) => handle_create_directory(p, mode, stage, answer),
                Task::DeleteFile(p) => handle_delete_file(p, mode, stage, answer),
                Task::DeleteDir(p) => handle_delete_directory(p, mode, stage, answer),
            };
            assert(go@ == task_move(here.queue[0], mode, stage, answer));
            match go {
                Move::Ask(stage, request) => {
                    self.stage = stage;
                    return request;
                },
                Move::Report(notice) => {
                    self.next = self.next + 1;
                    self.stage = Stage::Start;
                    return Request::Say(notice);
                },
                Move::Over => {
                    self.next = self.next + 1;
                    self.stage = Stage::Start;
                },
                Move::Fail(failure) => {
                    self.next = self.tasks.len();
                    self.stage = Stage::Start;
                    assert(self@.queue =~= Seq::empty());
                    return Request::Abort(failure);
                },
            }
        }
        assert(self@.queue =~= Seq::empty());
        self.stage = Stage::Start;
        assert(self@.queue =~= Seq::empty());
        Request::Finished
    }
}

/// The pairs `pairs`, each to be copied.
pub open spec fn copies(kind: CopyKind, pairs: Seq<PairView>) -> Seq<Task<PathView>> {
    pairs.map_values(|p: PairView| Task::Copy { kind, src: p.src, dst: p.dst })
}

/// The tasks of a plan, in order: overwrite, create directories, copy new files, delete files,
/// delete directories. An option that is off leaves its tasks out.
pub open spec fn plan_tasks(plan: PlanView, opts: SyncOptions) -> Seq<Task<PathView>> {
    let overwrite = if opts.overwrite {
        copies(CopyKind::Overwrite, plan.overwrite_pairs)
    } else {
        Seq::empty()
    };
    let create = if opts.new {
        plan.new_dirs.map_values(|p: PathView| Task::CreateDir(p)) + copies(
            CopyKind::New,
            plan.new_pairs,
        )
    } else {
        Seq::empty()
    };
    let delete = if opts.delete {
        plan.delete_files.map_values(|p: PathView| Task::DeleteFile(p))
            + plan.delete_dirs.map_values(|p: PathView| Task::DeleteDir(p))
    } else {
        Seq::empty()
    };
    overwrite + create + delete
}

fn append_copies(tasks: &mut Vec<Task<SyncPath>>, kind: CopyKind, pairs: &Vec<PathPair>)
    ensures
        tasks_view(final(tasks)@) == tasks_view(old(tasks)@) + copies(kind, pairs_view(pairs@)),
{
    let ghost start = tasks_view(tasks@);
    let ghost all = copies(kind, pairs_view(pairs@));
    let mut i: usize = 0;
    assert(start + all.take(0) =~= start);
    while i < pairs.len()
        invariant
            i <= pairs.len(),
            all == copies(kind, pairs_view(pairs@)),
            tasks_view(tasks@) == start + all.take(i as int),
        decreases pairs.len() - i,
    {
        let ghost held = tasks@;
        let task = Task::Copy { kind, src: pairs[i].src.clone(), dst: pairs[i].dst.clone() };
        tasks.push(task);
        assert(pairs_view(pairs@)[i as int] == pairs@[i as int]@);
        assert(tasks_view(tasks@) =~= tasks_view(held).push(task@));
        assert(tasks_view(tasks@) =~= start + all.take(i + 1));
        i += 1;
    }
    assert(all.take(i as int) =~= all);
}

/// The task of each kind that concerns one path.
#[derive(Clone, Copy)]
enum PathTask {
    CreateDir,
    DeleteFile,
    DeleteDir,
}

spec fn path_task(kind: PathTask, p: PathView) -> Task<PathView> {
    match kind {
        PathTask::CreateDir => Task::CreateDir(p),
        PathTask::DeleteFile => Task::DeleteFile(p),
        PathTask::DeleteDir => Task::DeleteDir(p),
    }
}

fn append_path_tasks(tasks: &mut Vec<Task<SyncPath>>, kind: PathTask, paths: &Vec<SyncPath>)
    ensures
        tasks_view(final(tasks)@) == tasks_view(old(tasks)@) + paths_view(paths@).map_values(
            |p: PathView| path_task(kind, p),
        ),
{
    let ghost start = tasks_view(tasks@);
    let ghost all = paths_view(paths@).map_values(|p: PathView| path_task(kind, p));
    let mut i: usize = 0;
    assert(start + all.take(0) =~= start);
    while i < paths.len()
        invariant
            i <= paths.len(),
            all == paths_view(paths@).map_values(|p: PathView| path_task(kind, p)),
            tasks_view(tasks@) == start + all.take(i as int),
        decreases paths.len() - i,
    {
        let ghost held = tasks@;
        let path = paths[i].clone();
        let task = match kind {
            PathTask::CreateDir => Task::CreateDir(path),
            PathTask::DeleteFile => Task::DeleteFile(path),
            PathTask::DeleteDir => Task::DeleteDir(path),
        };
        tasks.push(task);
        assert(paths_view(paths@)[i as int] == paths@[i as int]@);
        assert(tasks_view(tasks@) =~= tasks_view(held).push(task@));
        assert(tasks_view(tasks@) =~= start + all.take(i + 1));
        i += 1;
    }
    assert(all.take(i as int) =~= all);
}

/// Appends the tasks of a plan.
fn append_plan(tasks: &mut Vec<Task<SyncPath>>, plan: &Plan, opts: &SyncOptions)
    ensures
        tasks_view(final(tasks)@) == tasks_view(old(tasks)@) + plan_tasks(plan@, *opts),
{
    let ghost start = tasks_view(tasks@);
    if opts.overwrite {
        append_copies(tasks, CopyKind::Overwrite, &plan.overwrite_pairs);
    }
    if opts.new {
        append_path_tasks(tasks, PathTask::CreateDir, &plan.new_dirs);
        append_copies(tasks, CopyKind::New, &plan.new_pairs);
    }
    if opts.delete {
        append_path_tasks(tasks, PathTask::DeleteFile, &plan.delete_files);
        append_path_tasks(tasks, PathTask::DeleteDir, &plan.delete_dirs);
    }
    assert(tasks_view(tasks@) =~= start + plan_tasks(plan@, *opts));
}

/// The session that carries out a plan, or reports what it would do.
pub fn execute_plan(plan: &Plan, opts: &SyncOptions, mode: RunMode) -> (r: Session)
    ensures
        r@ == (SessionView { mode, queue: plan_tasks(plan@, *opts), stage: Stage::Start }),
{
    let mut tasks: Vec<Task<SyncPath>> = Vec::new();
    append_plan(&mut tasks, plan, opts);
    assert(tasks_view(tasks@) =~= plan_tasks(plan@, *opts));
    Session::new(tasks, mode)
}

/// The mode that the options ask for.
pub open spec fn mode_of(opts: SyncOptions) -> RunMode {
    if opts.dry_run {
        RunMode::DryRun
    } else {
        RunMode::Apply
    }
}

/// What a dry run makes of a task: that a directory would be created in the place of a file whose
/// deletion is planned is told though something is there.
pub open spec fn foretold(
    target: PathView,
    src: SnapshotView,
    dst: SnapshotView,
    opts: SyncOptions,
    task: Task<PathView>,
) -> Task<PathView> {
    match task {
        Task::CreateDir(p) => if opts.dry_run && is_replaced(target, src, dst, opts, p) {
            Task::ForetellDir(p)
        } else {
            task
        },
        _ => task,
    }
}

/// The tasks `tasks`, as a dry run makes them.
pub open spec fn all_foretold(
    target: PathView,
    src: SnapshotView,
    dst: SnapshotView,
    opts: SyncOptions,
    tasks: Seq<Task<PathView>>,
) -> Seq<Task<PathView>> {
    tasks.map_values(|task: Task<PathView>| foretold(target, src, dst, opts, task))
}

/// Appends tasks, as a dry run makes them.
fn append_foretold(
    to: &mut Vec<Task<SyncPath>>,
    tasks: Vec<Task<SyncPath>>,
    target: &SyncPath,
    src: &Snapshot,
    dst: &Snapshot,
    opts: &SyncOptions,
)
    ensures
        tasks_view(final(to)@) == tasks_view(old(to)@) + all_foretold(
            target@,
            src@,
            dst@,
            *opts,
            tasks_view(tasks@),
        ),
{
    let ghost start = tasks_view(to@);
    let ghost all = all_foretold(target@, src@, dst@, *opts, tasks_view(tasks@));
    assert(start + all.take(0) =~= start);
    let mut i: usize = 0;
    while i < tasks.len()
        invariant
            i <= tasks.len(),
            all == all_foretold(target@, src@, dst@, *opts, tasks_view(tasks@)),
            tasks_view(to@) == start + all.take(i as int),
        decreases tasks.len() - i,
    {
        let ghost held = to@;
        let mut task = tasks[i].clone();
        match &tasks[i] {
            Task::CreateDir(p) => {
                if opts.dry_run && gets_replaced(target, src, dst, opts, p) {
                    task = Task::ForetellDir(p.clone());
                }
            },
            _ => {},
        }
        let ghost next = task@;
        to.push(task);
        assert(tasks_view(tasks@)[i as int] == tasks@[i as int]@);
        assert(next == all[i as int]);
        assert(tasks_view(to@) =~= tasks_view(held).push(next));
        assert(tasks_view(to@) =~= start + all.take(i + 1));
        i += 1;
    }
    assert(all.take(i as int) =~= all);
}

/// The tasks of a whole sync. What is in the way of something to be created is deleted before
/// anything is created. A dry run is announced first, and the end is announced always.
pub open spec fn sync_tasks(
    source: PathView,
    target: PathView,
    src: SnapshotView,
    dst: SnapshotView,
    opts: SyncOptions,
) -> Seq<Task<PathView>> {
    let opening = if opts.dry_run {
        seq![Task::<PathView>::Announce(Announcement::DryRun)]
    } else {
        Seq::empty()
    };
    let plan = plan_for(source, target, src, dst, opts, opts.tolerance@);
    let first = plan_tasks(first_part(plan, target, src, dst, opts), opts);
    let second = plan_tasks(second_part(plan, target, src, dst, opts), opts);
    opening + (first + all_foretold(target, src, dst, opts, second)).push(
        Task::Announce(Announcement::Done),
    )
}

/// The session that syncs the tree at `source`, of which `src` is the snapshot, to the tree at
/// `target`, of which `dst` is the snapshot.
pub fn run_sync(
    source: &SyncPath,
    target: &SyncPath,
    src: &Snapshot,
    dst: &Snapshot,
    opts: &SyncOptions,
) -> (r: Session)
    ensures
        r@ == (SessionView {
            mode: mode_of(*opts),
            queue: sync_tasks(source@, target@, src@, dst@, *opts),
            stage: Stage::Start,
        }),
        r@.mode is DryRun <==> opts.dry_run,
        src@.finite(),
        dst@.finite(),
{
    let plan = build_plan(source, target, src, dst, opts, opts.tolerance);
    let (first, second) = part_plan(plan, target, src, dst, opts);
    let mut tasks: Vec<Task<SyncPath>> = Vec::new();
    let mode = if opts.dry_run {
        tasks.push(Task::Announce(Announcement::DryRun));
        RunMode::DryRun
    } else {
        RunMode::Apply
    };
    let ghost opening = tasks_view(tasks@);
    assert(opts.dry_run ==> opening =~= seq![Task::<PathView>::Announce(Announcement::DryRun)]);
    append_plan(&mut tasks, &first, opts);
    let mut later: Vec<Task<SyncPath>> = Vec::new();
    append_plan(&mut later, &second, opts);
    assert(tasks_view(later@) =~= plan_tasks(second@, *opts));
    append_foretold(&mut tasks, later, target, src, dst, opts);
    let ghost planned = tasks_view(tasks@);
    tasks.push(Task::Announce(Announcement::Done));
    assert(tasks_view(tasks@) =~= planned.push(Task::Announce(Announcement::Done)));
    assert(tasks_view(tasks@) =~= sync_tasks(source@, target@, src@, dst@, *opts));
    Session::new(tasks, mode)
}

} // verus!
