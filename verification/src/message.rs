//! What is told to the user, as text.

use vstd::prelude::*;
use vstd::string::*;

use crate::session::{Announcement, CopyKind, Failure, Notice};
use crate::snapshot::WalkFault;

verus! {

/// What a copy that was not made is called.
pub open spec fn dry_run_label(kind: CopyKind) -> Seq<char> {
    match kind {
        CopyKind::Overwrite => "overwrite (newer)"@,
        CopyKind::New => "copy (new)"@,
    }
}

/// What a copy that was made is called.
pub open spec fn applied_label(kind: CopyKind) -> Seq<char> {
    match kind {
        CopyKind::Overwrite => "overwrote (newer)"@,
        CopyKind::New => "copied (new)"@,
    }
}

/// The line that tells a notice.
pub open spec fn notice_line(notice: Notice<String>) -> Seq<char> {
    match notice {
        Notice::Announced(Announcement::DryRun) => "Dry run: no changes will be written."@,
        Notice::Announced(Announcement::Done) => "Done."@,
        Notice::WouldCopy { kind, src, dst } => "would "@ + dry_run_label(kind) + ": "@ + src@
            + " -> "@ + dst@,
        Notice::Copied { kind, src, dst } => applied_label(kind) + ": "@ + src@ + " -> "@ + dst@,
        Notice::WouldCreateDir(p) => "would create directory: "@ + p@,
        Notice::CreatedDir(p) => "created directory: "@ + p@,
        Notice::WouldDeleteFile(p) => "would delete file: "@ + p@,
        Notice::DeletedFile(p) => "deleted file: "@ + p@,
        Notice::WouldDeleteDir(p) => "would delete directory: "@ + p@,
        Notice::DeletedDir(p) => "deleted directory: "@ + p@,
    }
}

/// The line that tells a failure.
pub open spec fn failure_line(failure: Failure<String>) -> Seq<char> {
    match failure {
        Failure::CreateParent(p) => "failed to create parent directory "@ + p@,
        Failure::Copy { src, dst } => "failed to copy "@ + src@ + " -> "@ + dst@,
        Failure::ReadMetadata(p) => "failed to read source metadata "@ + p@,
        Failure::PreserveMtime(p) => "failed to preserve mtime for "@ + p@,
        Failure::CreateDir(p) => "failed to create directory "@ + p@,
        Failure::DeleteFile(p) => "failed to delete file "@ + p@,
        Failure::DeleteDir(p) => "failed to delete directory "@ + p@,
    }
}

/// The line that tells how a walk went wrong. What a failed walk tells of is its root; all else
/// tells of the entry.
pub open spec fn walk_fault_line(fault: WalkFault, root: Seq<char>, entry: Seq<char>) -> Seq<char> {
    match fault {
        WalkFault::WalkFailed => "failed to walk "@ + root,
        WalkFault::NotUnderRoot => "failed to get relative path for "@ + entry,
        WalkFault::NoMetadata => "failed to read metadata "@ + entry,
        WalkFault::NoTime => "failed to read modified time "@ + entry,
    }
}

fn with_path(text: &str, path: &str) -> (r: String)
    ensures
        r@ == text@ + path@,
{
    let mut line = text.to_owned();
    line.append(path);
    line
}

fn copy_line(label: &str, src: &str, dst: &str) -> (r: String)
    ensures
        r@ == label@ + ": "@ + src@ + " -> "@ + dst@,
{
    let mut line = label.to_owned();
    line.append(": ");
    line.append(src);
    line.append(" -> ");
    line.append(dst);
    line
}

/// The text of a notice.
pub fn notice_text(notice: &Notice<String>) -> (r: String)
    ensures
        r@ == notice_line(*notice),
{
    match notice {
        Notice::Announced(Announcement::DryRun) => "Dry run: no changes will be written.".to_owned(),
        Notice::Announced(Announcement::Done) => "Done.".to_owned(),
        Notice::WouldCopy { kind, src, dst } => {
            let label = match kind {
                CopyKind::Overwrite => "overwrite (newer)",
                CopyKind::New => "copy (new)",
            };
            let would = with_path("would ", label);
            copy_line(would.as_str(), src.as_str(), dst.as_str())
        },
        Notice::Copied { kind, src, dst } => {
            let label = match kind {
                CopyKind::Overwrite => "overwrote (newer)",
                CopyKind::New => "copied (new)",
            };
            copy_line(label, src.as_str(), dst.as_str())
        },
        Notice::WouldCreateDir(p) => with_path("would create directory: ", p.as_str()),
        Notice::CreatedDir(p) => with_path("created directory: ", p.as_str()),
        Notice::WouldDeleteFile(p) => with_path("would delete file: ", p.as_str()),
        Notice::DeletedFile(p) => with_path("deleted file: ", p.as_str()),
        Notice::WouldDeleteDir(p) => with_path("would delete directory: ", p.as_str()),
        Notice::DeletedDir(p) => with_path("deleted directory: ", p.as_str()),
    }
}

/// The text of a failure.
pub fn failure_text(failure: &Failure<String>) -> (r: String)
    ensures
        r@ == failure_line(*failure),
{
    match failure {
        Failure::CreateParent(p) => with_path("failed to create parent directory ", p.as_str()),
        Failure::Copy { src, dst } => {
            let mut line = with_path("failed to copy ", src.as_str());
            line.append(" -> ");
            line.append(dst.as_str());
            line
        },
        Failure::ReadMetadata(p) => with_path("failed to read source metadata ", p.as_str()),
        Failure::PreserveMtime(p) => with_path("failed to preserve mtime for ", p.as_str()),
        Failure::CreateDir(p) => with_path("failed to create directory ", p.as_str()),
        Failure::DeleteFile(p) => with_path("failed to delete file ", p.as_str()),
        Failure::DeleteDir(p) => with_path("failed to delete directory ", p.as_str()),
    }
}

/// The text of what went wrong in a walk of `root`, at `entry`.
pub fn walk_fault_text(fault: WalkFault, root: &str, entry: &str) -> (r: String)
    ensures
        r@ == walk_fault_line(fault, root@, entry@),
{
    match fault {
        WalkFault::WalkFailed => with_path("failed to walk ", root),
        WalkFault::NotUnderRoot => with_path("failed to get relative path for ", entry),
        WalkFault::NoMetadata => with_path("failed to read metadata ", entry),
        WalkFault::NoTime => with_path("failed to read modified time ", entry),
    }
}

/// A line about one path ends with the path, and what comes before does not depend on it.
pub proof fn law_notices_end_with_their_path(p: String, q: String)
    ensures
        share_a_start(
            notice_line(Notice::WouldCreateDir(p)),
            p@,
            notice_line(Notice::WouldCreateDir(q)),
            q@,
        ),
        share_a_start(
            notice_line(Notice::CreatedDir(p)),
            p@,
            notice_line(Notice::CreatedDir(q)),
            q@,
        ),
        share_a_start(
            notice_line(Notice::WouldDeleteFile(p)),
            p@,
            notice_line(Notice::WouldDeleteFile(q)),
            q@,
        ),
        share_a_start(
            notice_line(Notice::DeletedFile(p)),
            p@,
            notice_line(Notice::DeletedFile(q)),
            q@,
        ),
        share_a_start(
            notice_line(Notice::WouldDeleteDir(p)),
            p@,
            notice_line(Notice::WouldDeleteDir(q)),
            q@,
        ),
        share_a_start(
            notice_line(Notice::DeletedDir(p)),
            p@,
            notice_line(Notice::DeletedDir(q)),
            q@,
        ),
        share_a_start(
            failure_line(Failure::CreateParent(p)),
            p@,
            failure_line(Failure::CreateParent(q)),
            q@,
        ),
        share_a_start(
            failure_line(Failure::ReadMetadata(p)),
            p@,
            failure_line(Failure::ReadMetadata(q)),
            q@,
        ),
        share_a_start(
            failure_line(Failure::PreserveMtime(p)),
            p@,
            failure_line(Failure::PreserveMtime(q)),
            q@,
        ),
        share_a_start(
            failure_line(Failure::CreateDir(p)),
            p@,
            failure_line(Failure::CreateDir(q)),
            q@,
        ),
        share_a_start(
            failure_line(Failure::DeleteFile(p)),
            p@,
            failure_line(Failure::DeleteFile(q)),
            q@,
        ),
        share_a_start(
            failure_line(Failure::DeleteDir(p)),
            p@,
            failure_line(Failure::DeleteDir(q)),
            q@,
        ),
        forall|x: Seq<char>, y: Seq<char>|
            share_a_start(
                #[trigger] walk_fault_line(WalkFault::WalkFailed, p@, x),
                p@,
                #[trigger] walk_fault_line(WalkFault::WalkFailed, q@, y),
                q@,
            ),
{
    lemma_share("would create directory: "@, p@, q@);
    lemma_share("created directory: "@, p@, q@);
    lemma_share("would delete file: "@, p@, q@);
    lemma_share("deleted file: "@, p@, q@);
    lemma_share("would delete directory: "@, p@, q@);
    lemma_share("deleted directory: "@, p@, q@);
    lemma_share("failed to create parent directory "@, p@, q@);
    lemma_share("failed to read source metadata "@, p@, q@);
    lemma_share("failed to preserve mtime for "@, p@, q@);
    lemma_share("failed to create directory "@, p@, q@);
    lemma_share("failed to delete file "@, p@, q@);
    lemma_share("failed to delete directory "@, p@, q@);
    lemma_share("failed to walk "@, p@, q@);
}

/// A line about what a walk met ends with the path of the entry, whatever the root is.
pub proof fn law_walk_faults_end_with_the_entry(
    fault: WalkFault,
    root: Seq<char>,
    other: Seq<char>,
    p: Seq<char>,
    q: Seq<char>,
)
    requires
        !(fault is WalkFailed),
    ensures
        share_a_start(walk_fault_line(fault, root, p), p, walk_fault_line(fault, other, q), q),
{
    lemma_share("failed to get relative path for "@, p, q);
    lemma_share("failed to read metadata "@, p, q);
    lemma_share("failed to read modified time "@, p, q);
}

/// A line about a copy ends with the source, an arrow and the destination, and what comes before
/// does not depend on either.
pub proof fn law_copies_are_told_from_source_to_destination(
    kind: CopyKind,
    src: String,
    dst: String,
    from: String,
    to: String,
)
    ensures
        share_a_start(
            notice_line(Notice::WouldCopy { kind, src, dst }),
            src@ + seq![' ', '-', '>', ' '] + dst@,
            notice_line(Notice::WouldCopy { kind, src: from, dst: to }),
            from@ + seq![' ', '-', '>', ' '] + to@,
        ),
        share_a_start(
            notice_line(Notice::Copied { kind, src, dst }),
            src@ + seq![' ', '-', '>', ' '] + dst@,
            notice_line(Notice::Copied { kind, src: from, dst: to }),
            from@ + seq![' ', '-', '>', ' '] + to@,
        ),
        share_a_start(
            failure_line(Failure::Copy { src, dst }),
            src@ + seq![' ', '-', '>', ' '] + dst@,
            failure_line(Failure::Copy { src: from, dst: to }),
            from@ + seq![' ', '-', '>', ' '] + to@,
        ),
{
    lemma_copy_lines("would "@ + dry_run_label(kind) + ": "@, src@, dst@, from@, to@);
    lemma_copy_lines(applied_label(kind) + ": "@, src@, dst@, from@, to@);
    lemma_copy_lines("failed to copy "@, src@, dst@, from@, to@);
}

proof fn lemma_copy_lines(
    start: Seq<char>,
    src: Seq<char>,
    dst: Seq<char>,
    from: Seq<char>,
    to: Seq<char>,
)
    ensures
        share_a_start(
            start + src + " -> "@ + dst,
            src + seq![' ', '-', '>', ' '] + dst,
            start + from + " -> "@ + to,
            from + seq![' ', '-', '>', ' '] + to,
        ),
{
    reveal_strlit(" -> ");
    assert(" -> "@ =~= seq![' ', '-', '>', ' ']);
    let arrow = " -> "@;
    lemma_share(start, src + arrow + dst, from + arrow + to);
    assert(start + src + arrow + dst =~= start + (src + arrow + dst));
    assert(start + from + arrow + to =~= start + (from + arrow + to));
}

/// The lines `a` and `b` end in `p` and `q`, and start alike.
pub open spec fn share_a_start(a: Seq<char>, p: Seq<char>, b: Seq<char>, q: Seq<char>) -> bool {
    &&& a.len() >= p.len()
    &&& b.len() >= q.len()
    &&& a.skip(a.len() - p.len()) == p
    &&& b.skip(b.len() - q.len()) == q
    &&& a.take(a.len() - p.len()) == b.take(b.len() - q.len())
}

proof fn lemma_share(start: Seq<char>, p: Seq<char>, q: Seq<char>)
    ensures
        share_a_start(start + p, p, start + q, q),
{
    let (a, b) = (start + p, start + q);
    assert(a.skip(a.len() - p.len()) =~= p);
    assert(b.skip(b.len() - q.len()) =~= q);
    assert(a.take(a.len() - p.len()) =~= start);
    assert(b.take(b.len() - q.len()) =~= start);
}

} // verus!
