use update_sync::message::{failure_text, notice_text, walk_fault_text};
use update_sync::resolve::{resolve_ignore_path, resolve_path_allow_missing, Resolution};
use update_sync::session::{Announcement, CopyKind, Failure, Notice};
use update_sync::snapshot::WalkFault;

fn p() -> String {
    "/p".to_string()
}

fn q() -> String {
    "/q".to_string()
}

#[test]
fn notices_are_told() {
    let (old, new) = (CopyKind::Overwrite, CopyKind::New);
    let told = [
        (Notice::Announced(Announcement::DryRun), "Dry run: no changes will be written."),
        (Notice::Announced(Announcement::Done), "Done."),
        (Notice::WouldCopy { kind: old, src: p(), dst: q() }, "would overwrite (newer): /p -> /q"),
        (Notice::WouldCopy { kind: new, src: p(), dst: q() }, "would copy (new): /p -> /q"),
        (Notice::Copied { kind: old, src: p(), dst: q() }, "overwrote (newer): /p -> /q"),
        (Notice::Copied { kind: new, src: p(), dst: q() }, "copied (new): /p -> /q"),
        (Notice::WouldCreateDir(p()), "would create directory: /p"),
        (Notice::CreatedDir(p()), "created directory: /p"),
        (Notice::WouldDeleteFile(p()), "would delete file: /p"),
        (Notice::DeletedFile(p()), "deleted file: /p"),
        (Notice::WouldDeleteDir(p()), "would delete directory: /p"),
        (Notice::DeletedDir(p()), "deleted directory: /p"),
    ];
    for (notice, text) in told {
        assert_eq!(notice_text(&notice), text);
    }
}

#[test]
fn failures_are_told() {
    let told = [
        (Failure::CreateParent(p()), "failed to create parent directory /p"),
        (Failure::Copy { src: p(), dst: q() }, "failed to copy /p -> /q"),
        (Failure::ReadMetadata(p()), "failed to read source metadata /p"),
        (Failure::PreserveMtime(p()), "failed to preserve mtime for /p"),
        (Failure::CreateDir(p()), "failed to create directory /p"),
        (Failure::DeleteFile(p()), "failed to delete file /p"),
        (Failure::DeleteDir(p()), "failed to delete directory /p"),
    ];
    for (failure, text) in told {
        assert_eq!(failure_text(&failure), text);
    }
}

#[test]
fn walk_faults_are_told() {
    let told = [
        (WalkFault::WalkFailed, "failed to walk /p"),
        (WalkFault::NotUnderRoot, "failed to get relative path for /p/e"),
        (WalkFault::NoMetadata, "failed to read metadata /p/e"),
        (WalkFault::NoTime, "failed to read modified time /p/e"),
    ];
    for (fault, text) in told {
        assert_eq!(walk_fault_text(fault, "/p", "/p/e"), text);
    }
}

#[test]
fn a_missing_path_is_only_made_absolute() {
    assert_eq!(resolve_path_allow_missing(true, true), Resolution::Canonicalize);
    assert_eq!(resolve_path_allow_missing(true, false), Resolution::Canonicalize);
    assert_eq!(resolve_path_allow_missing(false, true), Resolution::Keep);
    assert_eq!(resolve_path_allow_missing(false, false), Resolution::JoinCurrentDir);
}

#[test]
fn a_relative_ignore_file_is_in_the_current_directory() {
    assert_eq!(resolve_ignore_path(true), Resolution::Keep);
    assert_eq!(resolve_ignore_path(false), Resolution::JoinCurrentDir);
}
