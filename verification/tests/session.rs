use std::collections::{BTreeMap, BTreeSet};

use update_sync::message::notice_text;
use update_sync::path::{relative_path, Component, SyncPath};
use update_sync::plan::{PathPair, Plan, SyncOptions};
use update_sync::rules::{build_gitignore_for_root, IgnoreFile, IgnoreRules};
use update_sync::session::{
    execute_plan, handle_copy_pair, handle_create_directory, handle_delete_directory,
    handle_delete_file, run_sync, safe_copy, Announcement, Answer, CopyKind, Failure, Move, Notice,
    Request, RunMode, Session, Stage,
};
use update_sync::snapshot::{
    build_snapshot, keep_entry, EntryKind, MtimeReading, Snapshot, WalkItem,
};
use update_sync::time::{Span, Timestamp};

fn path(text: &str) -> SyncPath {
    let mut parts = Vec::new();
    if text.starts_with('/') {
        parts.push(Component::RootDir);
    }
    parts.extend(
        text.split('/').filter(|n| !n.is_empty()).map(|n| Component::Normal(n.as_bytes().to_vec())),
    );
    SyncPath::from_components(parts).expect("a path")
}

fn text(p: &SyncPath) -> String {
    String::from_utf8(p.to_bytes()).expect("text")
}

fn time(secs: i64) -> Timestamp {
    Timestamp { secs, nanos: 0 }
}

/// A walk does not go below a directory that is not kept.
fn reached(root: &str, rel: &str, rules: Option<&IgnoreRules>) -> bool {
    rel.match_indices('/').all(|(end, _)| {
        let dir = path(root).join(&path(&rel[..end]));
        keep_entry(rules, &path(root), &dir, 1, true)
    })
}

/// A file system in memory: directories, and files with a content and a time.
#[derive(Clone, Debug, PartialEq)]
struct Disk {
    dirs: BTreeSet<String>,
    files: BTreeMap<String, (String, Timestamp)>,
    clock: i64,
}

impl Disk {
    fn new() -> Disk {
        let dirs = BTreeSet::from(["/".to_string()]);
        Disk { dirs, files: BTreeMap::new(), clock: 1000 }
    }

    fn with_dir(mut self, p: &str) -> Disk {
        self.create_dir_all(p);
        self
    }

    fn with_file(mut self, p: &str, content: &str, secs: i64) -> Disk {
        self.files.insert(p.to_string(), (content.to_string(), time(secs)));
        self
    }

    fn holds(&self, p: &str) -> bool {
        self.dirs.contains(p) || self.files.contains_key(p)
    }

    /// A file is above `p`.
    fn is_blocked(&self, p: &str) -> bool {
        p.match_indices('/').any(|(end, _)| self.files.contains_key(&p[..end]))
    }

    fn create_dir_all(&mut self, p: &str) {
        let mut at = String::new();
        for name in p.split('/').filter(|n| !n.is_empty()) {
            at = format!("{}/{}", at, name);
            assert!(!self.files.contains_key(&at), "{} is a file", at);
            self.dirs.insert(at.clone());
        }
    }

    fn content(&self, p: &str) -> Option<&str> {
        self.files.get(p).map(|(content, _)| content.as_str())
    }

    /// What lies below `root`, by relative path.
    fn below(&self, root: &str) -> (Vec<String>, Vec<(String, String, Timestamp)>) {
        let inner = format!("{}/", root);
        let dirs = self.dirs.iter().filter_map(|d| d.strip_prefix(&inner)).map(String::from);
        let files = self.files.iter().filter_map(|(f, (content, time))| {
            f.strip_prefix(&inner).map(|rel| (rel.to_string(), content.clone(), *time))
        });
        (dirs.collect(), files.collect())
    }

    fn snapshot(&self, root: &str, rules: Option<&IgnoreRules>) -> Snapshot {
        let (dirs, files) = self.below(root);
        let mut walk = Vec::new();
        for d in dirs.iter().filter(|d| reached(root, d, rules)) {
            let path = path(root).join(&path(d));
            walk.push(WalkItem::Entry { path, kind: EntryKind::Directory });
        }
        for (f, _, time) in files.iter().filter(|(f, _, _)| reached(root, f, rules)) {
            let path = path(root).join(&path(f));
            walk.push(WalkItem::Entry { path, kind: EntryKind::File(MtimeReading::At(*time)) });
        }
        build_snapshot(&path(root), self.holds(root), &walk, rules).expect("snapshot")
    }

    fn serve(&mut self, request: &Request<SyncPath>) -> Answer {
        match request {
            Request::Exists(p) => Answer::Exists(self.holds(&text(p))),
            Request::CreateDirAll(p) => {
                self.create_dir_all(&text(p));
                Answer::Done
            }
            Request::CopyFile { src, dst } => {
                let parent = text(&dst.parent().expect("a parent"));
                if !self.dirs.contains(&parent) || self.dirs.contains(&text(dst)) {
                    return Answer::Failed;
                }
                let content = self.files[&text(src)].0.clone();
                self.clock += 1;
                self.files.insert(text(dst), (content, time(self.clock)));
                Answer::Done
            }
            Request::ReadMtime(p) => Answer::Mtime(Some(self.files[&text(p)].1)),
            Request::SetMtime { path, time } => {
                self.files.get_mut(&text(path)).expect("a file").1 = *time;
                Answer::Done
            }
            Request::RemoveFile(p) => {
                let at = text(p);
                if self.dirs.contains(&at) || self.is_blocked(&at) {
                    return Answer::Failed;
                }
                match self.files.remove(&at) {
                    Some(_) => Answer::Done,
                    None => Answer::NotFound,
                }
            }
            Request::RemoveDirAll(p) => {
                let at = text(p);
                if self.files.contains_key(&at) || self.is_blocked(&at) {
                    return Answer::Failed;
                }
                if !self.dirs.remove(&at) {
                    return Answer::NotFound;
                }
                let inner = format!("{}/", at);
                self.dirs.retain(|d| !d.starts_with(&inner));
                self.files.retain(|f, _| !f.starts_with(&inner));
                Answer::Done
            }
            _ => Answer::Done,
        }
    }

    /// Runs a session to its end, and gives back what it told.
    fn run(&mut self, mut session: Session) -> Vec<String> {
        let mut told = Vec::new();
        let mut answer = Answer::Done;
        loop {
            let request = session.step(answer);
            match request {
                Request::Finished => return told,
                Request::Abort(failure) => panic!("gave up: {:?}", failure),
                Request::Say(notice) => {
                    told.push(notice_text(&shown(notice)));
                    answer = Answer::Done;
                }
                other => answer = self.serve(&other),
            }
        }
    }

    fn sync(&mut self, opts: &SyncOptions) -> Vec<String> {
        let (src, dst) = (self.snapshot("/s", None), self.snapshot("/t", None));
        self.run(run_sync(&path("/s"), &path("/t"), &src, &dst, opts))
    }
}

fn shown(notice: Notice<SyncPath>) -> Notice<String> {
    match notice {
        Notice::Announced(a) => Notice::Announced(a),
        Notice::WouldCopy { kind, src, dst } => {
            Notice::WouldCopy { kind, src: text(&src), dst: text(&dst) }
        }
        Notice::Copied { kind, src, dst } => {
            Notice::Copied { kind, src: text(&src), dst: text(&dst) }
        }
        Notice::WouldCreateDir(p) => Notice::WouldCreateDir(text(&p)),
        Notice::CreatedDir(p) => Notice::CreatedDir(text(&p)),
        Notice::WouldDeleteFile(p) => Notice::WouldDeleteFile(text(&p)),
        Notice::DeletedFile(p) => Notice::DeletedFile(text(&p)),
        Notice::WouldDeleteDir(p) => Notice::WouldDeleteDir(text(&p)),
        Notice::DeletedDir(p) => Notice::DeletedDir(text(&p)),
    }
}

fn all() -> SyncOptions {
    SyncOptions {
        overwrite: true,
        new: true,
        delete: true,
        dry_run: false,
        tolerance: Span { secs: 1, nanos: 0 },
    }
}

/// Two trees that differ in every way.
fn differing() -> Disk {
    Disk::new()
        .with_dir("/s/new/in")
        .with_dir("/s/both")
        .with_dir("/t/both")
        .with_dir("/t/old/in")
        .with_file("/s/new/in/n", "n", 5)
        .with_file("/s/both/stale", "fresh", 50)
        .with_file("/t/both/stale", "stale", 40)
        .with_file("/s/both/same", "mine", 40)
        .with_file("/t/both/same", "yours", 40)
        .with_file("/t/old/in/o", "o", 5)
        .with_file("/t/gone", "g", 5)
}

fn single(plan: Plan) -> Session {
    execute_plan(&plan, &all(), RunMode::Apply)
}

fn empty_plan() -> Plan {
    Plan {
        overwrite_pairs: vec![],
        new_dirs: vec![],
        new_pairs: vec![],
        delete_files: vec![],
        delete_dirs: vec![],
    }
}

fn copying() -> Session {
    let pair = PathPair { src: path("/s/f"), dst: path("/t/f") };
    single(Plan { new_pairs: vec![pair], ..empty_plan() })
}

#[test]
fn run_sync_creates_missing_target_when_copying_new_files() {
    let mut disk =
        Disk::new().with_dir("/tmp/source/nested").with_file("/tmp/source/nested/hello.txt", "", 1);

    let opts = SyncOptions {
        overwrite: true,
        new: true,
        delete: true,
        dry_run: false,
        tolerance: Span { secs: 1, nanos: 0 },
    };

    let (source, target) = ("/tmp/source", "/tmp/target");
    let (src, dst) = (disk.snapshot(source, None), disk.snapshot(target, None));
    disk.run(run_sync(&path(source), &path(target), &src, &dst, &opts));

    assert!(disk.holds("/tmp/target/nested/hello.txt"));
}

#[test]
fn a_sync_takes_the_target_to_the_source() {
    let mut disk = differing();
    let told = disk.sync(&all());
    assert_eq!(
        told,
        vec![
            "overwrote (newer): /s/both/stale -> /t/both/stale",
            "created directory: /t/new",
            "created directory: /t/new/in",
            "copied (new): /s/new/in/n -> /t/new/in/n",
            "deleted file: /t/gone",
            "deleted file: /t/old/in/o",
            "deleted directory: /t/old/in",
            "deleted directory: /t/old",
            "Done.",
        ]
    );
    assert_eq!(disk.below("/t").0, disk.below("/s").0);
    assert_eq!(disk.content("/t/both/stale"), Some("fresh"));
    assert_eq!(disk.files["/t/both/stale"].1, time(50));
    assert_eq!(disk.content("/t/new/in/n"), Some("n"));
    assert_eq!(disk.content("/t/both/same"), Some("yours"));
    assert_eq!(disk.below("/s"), differing().below("/s"));
}

#[test]
fn a_second_sync_finds_nothing_to_do() {
    let mut disk = differing();
    disk.sync(&all());
    let after = disk.clone();
    assert_eq!(disk.sync(&all()), vec!["Done."]);
    assert_eq!(disk, after);
}

#[test]
fn a_dry_run_tells_all_and_changes_nothing() {
    let mut disk = differing();
    let told = disk.sync(&SyncOptions { dry_run: true, ..all() });
    assert_eq!(
        told,
        vec![
            "Dry run: no changes will be written.",
            "would overwrite (newer): /s/both/stale -> /t/both/stale",
            "would create directory: /t/new",
            "would create directory: /t/new/in",
            "would copy (new): /s/new/in/n -> /t/new/in/n",
            "would delete file: /t/gone",
            "would delete file: /t/old/in/o",
            "would delete directory: /t/old/in",
            "would delete directory: /t/old",
            "Done.",
        ]
    );
    assert_eq!(disk, differing());
}

#[test]
fn a_dry_run_asks_for_no_change() {
    let disk = differing();
    let (src, dst) = (disk.snapshot("/s", None), disk.snapshot("/t", None));
    let opts = SyncOptions { dry_run: true, ..all() };
    let mut session = run_sync(&path("/s"), &path("/t"), &src, &dst, &opts);
    let mut answer = Answer::Done;
    loop {
        match session.step(answer) {
            Request::Finished => break,
            Request::Say(_) => answer = Answer::Done,
            Request::Exists(_) => answer = Answer::Exists(false),
            other => panic!("asked for {:?}", other),
        }
    }
}

#[test]
fn without_delete_nothing_is_removed() {
    let mut disk = differing();
    disk.sync(&SyncOptions { delete: false, ..all() });
    assert_eq!(disk.content("/t/gone"), Some("g"));
    assert_eq!(disk.content("/t/old/in/o"), Some("o"));
    assert_eq!(disk.content("/t/both/stale"), Some("fresh"));
}

#[test]
fn without_overwrite_stale_files_stay() {
    let mut disk = differing();
    disk.sync(&SyncOptions { overwrite: false, ..all() });
    assert_eq!(disk.content("/t/both/stale"), Some("stale"));
    assert_eq!(disk.content("/t/new/in/n"), Some("n"));
}

#[test]
fn without_new_nothing_is_created() {
    let mut disk = differing();
    disk.sync(&SyncOptions { new: false, ..all() });
    assert!(!disk.holds("/t/new"));
    assert!(!disk.holds("/t/new/in/n"));
    assert_eq!(disk.content("/t/both/stale"), Some("fresh"));
    assert!(!disk.holds("/t/gone"));
}

#[test]
fn what_is_ignored_is_not_synced() {
    let mut disk = Disk::new()
        .with_dir("/s")
        .with_dir("/t")
        .with_file("/s/a.tmp", "a", 1)
        .with_file("/s/a", "a", 1)
        .with_file("/t/b.tmp", "b", 1)
        .with_file("/t/b", "b", 1);
    let rules = |root: &str| {
        let files = vec![IgnoreFile::Lines(vec!["*.tmp".to_string()])];
        build_gitignore_for_root(&path(root), &files).expect("rules").expect("some rules")
    };
    let src = disk.snapshot("/s", Some(&rules("/s")));
    let dst = disk.snapshot("/t", Some(&rules("/t")));
    disk.run(run_sync(&path("/s"), &path("/t"), &src, &dst, &all()));
    let left: Vec<String> = disk.below("/t").1.into_iter().map(|f| f.0).collect();
    assert_eq!(left, vec!["a", "b.tmp"]);
}

#[test]
fn every_change_lies_in_the_target() {
    let disk = differing();
    let (src, dst) = (disk.snapshot("/s", None), disk.snapshot("/t", None));
    let mut session = run_sync(&path("/s"), &path("/t"), &src, &dst, &all());
    let mut live = disk.clone();
    let mut answer = Answer::Done;
    loop {
        let request = session.step(answer);
        let changed = match &request {
            Request::CreateDirAll(p) | Request::RemoveFile(p) | Request::RemoveDirAll(p) => Some(p),
            Request::CopyFile { src: _, dst } => Some(dst),
            Request::SetMtime { path, time: _ } => Some(path),
            _ => None,
        };
        assert!(changed.iter().all(|p| relative_path(&path("/t"), p).is_ok()));
        if request == Request::Finished {
            break;
        }
        answer = live.serve(&request);
    }
}

#[test]
fn copying_goes_step_by_step() {
    let mut s = copying();
    let (src, dst) = (path("/s/f"), path("/t/f"));
    assert_eq!(s.step(Answer::Done), Request::Exists(path("/t")));
    assert_eq!(s.step(Answer::Exists(false)), Request::CreateDirAll(path("/t")));
    assert_eq!(
        s.step(Answer::Done),
        Request::CopyFile { src: src.clone(), dst: dst.clone() }
    );
    assert_eq!(s.step(Answer::Done), Request::ReadMtime(src.clone()));
    assert_eq!(
        s.step(Answer::Mtime(Some(time(9)))),
        Request::SetMtime { path: dst.clone(), time: time(9) }
    );
    assert_eq!(
        s.step(Answer::Done),
        Request::Say(Notice::Copied { kind: CopyKind::New, src, dst })
    );
    assert_eq!(s.step(Answer::Done), Request::Finished);
    assert_eq!(s.step(Answer::Failed), Request::Finished);
}

#[test]
fn a_file_without_a_time_is_copied_without_one() {
    let mut s = copying();
    s.step(Answer::Done);
    let copy = Request::CopyFile { src: path("/s/f"), dst: path("/t/f") };
    assert_eq!(s.step(Answer::Exists(true)), copy);
    s.step(Answer::Done);
    let said = Notice::Copied { kind: CopyKind::New, src: path("/s/f"), dst: path("/t/f") };
    assert_eq!(s.step(Answer::Mtime(None)), Request::Say(said));
}

#[test]
fn a_failed_copy_ends_the_session() {
    let steps = [Answer::Done, Answer::Exists(false), Answer::Done, Answer::Done];
    let failures = [
        (2, Failure::CreateParent(path("/t"))),
        (3, Failure::Copy { src: path("/s/f"), dst: path("/t/f") }),
        (4, Failure::ReadMetadata(path("/s/f"))),
        (5, Failure::PreserveMtime(path("/t/f"))),
    ];
    for (after, failure) in failures {
        let mut s = copying();
        for answer in steps.iter().take(after) {
            s.step(*answer);
        }
        if after == 5 {
            s.step(Answer::Mtime(Some(time(1))));
        }
        assert_eq!(s.step(Answer::Failed), Request::Abort(failure));
        assert_eq!(s.step(Answer::Done), Request::Finished);
    }
}

#[test]
fn a_source_that_is_gone_fails_too() {
    let mut s = copying();
    s.step(Answer::Done);
    s.step(Answer::Exists(true));
    let failure = Failure::Copy { src: path("/s/f"), dst: path("/t/f") };
    assert_eq!(s.step(Answer::NotFound), Request::Abort(failure));
}

#[test]
fn an_existing_directory_is_not_created() {
    let plan = || Plan { new_dirs: vec![path("/t/a"), path("/t/b")], ..empty_plan() };
    let mut s = single(plan());
    assert_eq!(s.step(Answer::Done), Request::Exists(path("/t/a")));
    assert_eq!(s.step(Answer::Exists(true)), Request::Exists(path("/t/b")));
    assert_eq!(s.step(Answer::Exists(false)), Request::CreateDirAll(path("/t/b")));
    assert_eq!(s.step(Answer::Failed), Request::Abort(Failure::CreateDir(path("/t/b"))));
    let mut dry = execute_plan(&plan(), &all(), RunMode::DryRun);
    dry.step(Answer::Done);
    assert_eq!(
        dry.step(Answer::Exists(false)),
        Request::Say(Notice::WouldCreateDir(path("/t/a")))
    );
}

#[test]
fn what_is_gone_already_need_not_be_deleted() {
    let mut s = single(Plan {
        delete_files: vec![path("/t/f")],
        delete_dirs: vec![path("/t/d"), path("/t/e")],
        ..empty_plan()
    });
    assert_eq!(s.step(Answer::Done), Request::RemoveFile(path("/t/f")));
    assert_eq!(s.step(Answer::NotFound), Request::RemoveDirAll(path("/t/d")));
    assert_eq!(s.step(Answer::NotFound), Request::RemoveDirAll(path("/t/e")));
    assert_eq!(s.step(Answer::Done), Request::Say(Notice::DeletedDir(path("/t/e"))));
}

#[test]
fn a_failed_deletion_ends_the_session() {
    let mut s = single(Plan { delete_files: vec![path("/t/f")], ..empty_plan() });
    s.step(Answer::Done);
    assert_eq!(s.step(Answer::Failed), Request::Abort(Failure::DeleteFile(path("/t/f"))));
    let mut s = single(Plan { delete_dirs: vec![path("/t/d")], ..empty_plan() });
    s.step(Answer::Done);
    assert_eq!(s.step(Answer::Failed), Request::Abort(Failure::DeleteDir(path("/t/d"))));
}

#[test]
fn options_also_hold_of_a_given_plan() {
    let plan = Plan {
        overwrite_pairs: vec![PathPair { src: path("/s/o"), dst: path("/t/o") }],
        new_dirs: vec![path("/t/d")],
        new_pairs: vec![PathPair { src: path("/s/n"), dst: path("/t/n") }],
        delete_files: vec![path("/t/f")],
        delete_dirs: vec![path("/t/e")],
    };
    let none = SyncOptions { overwrite: false, new: false, delete: false, ..all() };
    assert_eq!(execute_plan(&plan, &none, RunMode::Apply).step(Answer::Done), Request::Finished);
}

#[test]
fn an_empty_sync_is_announced() {
    let disk = Disk::new().with_dir("/s").with_dir("/t");
    let (src, dst) = (disk.snapshot("/s", None), disk.snapshot("/t", None));
    let mut s = run_sync(&path("/s"), &path("/t"), &src, &dst, &all());
    let done = Notice::Announced(Announcement::Done);
    assert_eq!(s.step(Answer::Done), Request::Say(done));
    assert_eq!(s.step(Answer::Done), Request::Finished);
}

#[test]
fn a_tree_synced_with_itself_needs_nothing() {
    let mut disk = differing();
    let snap = disk.snapshot("/s", None);
    assert_eq!(disk.run(run_sync(&path("/s"), &path("/s"), &snap, &snap, &all())), vec!["Done."]);
    assert_eq!(disk, differing());
}

#[test]
fn a_file_in_the_place_of_a_directory_stays_without_new() {
    let mut disk = Disk::new().with_dir("/s/x").with_dir("/t").with_file("/t/x", "x", 1);
    let told = disk.sync(&SyncOptions { new: false, delete: false, ..all() });
    assert_eq!(told, vec!["Done."]);
    assert_eq!(disk.content("/t/x"), Some("x"));
}

#[test]
fn a_file_gives_way_to_a_directory() {
    let mut disk = Disk::new().with_dir("/s/x").with_dir("/t").with_file("/t/x", "x", 1);
    let told = disk.sync(&all());
    assert_eq!(told, vec!["deleted file: /t/x", "created directory: /t/x", "Done."]);
    assert!(disk.dirs.contains("/t/x"));
    assert_eq!(disk.content("/t/x"), None);
    assert_eq!(disk.sync(&all()), vec!["Done."]);
}

#[test]
fn a_directory_gives_way_to_a_file() {
    let mut disk = Disk::new().with_dir("/s").with_dir("/t/x").with_file("/s/x", "x", 7);
    let told = disk.sync(&all());
    assert_eq!(told, vec!["deleted directory: /t/x", "copied (new): /s/x -> /t/x", "Done."]);
    assert!(!disk.dirs.contains("/t/x"));
    assert_eq!(disk.content("/t/x"), Some("x"));
    assert_eq!(disk.files["/t/x"].1, time(7));
}

#[test]
fn all_below_a_directory_gives_way_to_a_file() {
    let mut disk = Disk::new()
        .with_dir("/s")
        .with_dir("/t/x/y")
        .with_file("/s/x", "new", 1)
        .with_file("/t/x/f", "f", 1)
        .with_file("/t/x/y/g", "g", 1)
        .with_file("/t/z", "z", 1);
    let told = disk.sync(&all());
    assert_eq!(
        told,
        vec![
            "deleted file: /t/x/f",
            "deleted file: /t/x/y/g",
            "deleted directory: /t/x/y",
            "deleted directory: /t/x",
            "copied (new): /s/x -> /t/x",
            "deleted file: /t/z",
            "Done.",
        ]
    );
    assert_eq!(disk.below("/t"), disk.below("/s"));
}

#[test]
fn a_file_gives_way_to_a_directory_with_all_below() {
    let mut disk = Disk::new()
        .with_dir("/s/x/y")
        .with_dir("/t")
        .with_file("/s/x/y/f", "f", 3)
        .with_file("/t/x", "old", 9);
    disk.sync(&all());
    assert_eq!(disk.below("/t"), disk.below("/s"));
}

#[test]
fn without_delete_nothing_gives_way() {
    let mut disk = Disk::new().with_dir("/s").with_dir("/t/x").with_file("/s/x", "x", 7);
    let (src, dst) = (disk.snapshot("/s", None), disk.snapshot("/t", None));
    let opts = SyncOptions { delete: false, ..all() };
    let mut session = run_sync(&path("/s"), &path("/t"), &src, &dst, &opts);
    let mut answer = Answer::Done;
    loop {
        match session.step(answer) {
            Request::Abort(failure) => {
                assert_eq!(failure, Failure::Copy { src: path("/s/x"), dst: path("/t/x") });
                break;
            }
            other => answer = disk.serve(&other),
        }
    }
    assert!(disk.dirs.contains("/t/x"));
}

#[test]
fn ignored_files_below_extra_directories_stay() {
    let mut disk = Disk::new()
        .with_dir("/s")
        .with_dir("/t/d/e")
        .with_dir("/t/d/cache/deep")
        .with_file("/t/d/k.tmp", "k", 1)
        .with_file("/t/d/e/x", "x", 1)
        .with_file("/t/d/cache/deep/y", "y", 1);
    let rules = |root: &str| {
        let lines = vec!["*.tmp".to_string(), "cache/".to_string()];
        let files = vec![IgnoreFile::Lines(lines)];
        build_gitignore_for_root(&path(root), &files).expect("rules").expect("some rules")
    };
    let src = disk.snapshot("/s", Some(&rules("/s")));
    let dst = disk.snapshot("/t", Some(&rules("/t")));
    let told = disk.run(run_sync(&path("/s"), &path("/t"), &src, &dst, &all()));
    assert_eq!(
        told,
        vec!["deleted file: /t/d/e/x", "deleted directory: /t/d/e", "Done."]
    );
    assert_eq!(disk.content("/t/d/k.tmp"), Some("k"));
    assert_eq!(disk.content("/t/d/cache/deep/y"), Some("y"));
    let again = disk.snapshot("/t", Some(&rules("/t")));
    assert_eq!(disk.run(run_sync(&path("/s"), &path("/t"), &src, &again, &all())), vec!["Done."]);
}

#[test]
fn deleting_a_directory_twice_is_silent() {
    let plan = || Plan { delete_dirs: vec![path("/t/d")], ..empty_plan() };
    let mut disk = Disk::new().with_dir("/t/d/e");
    assert_eq!(disk.run(single(plan())), vec!["deleted directory: /t/d"]);
    let after = disk.clone();
    assert_eq!(disk.run(single(plan())), Vec::<String>::new());
    assert_eq!(disk, after);
}

#[test]
fn creating_a_directory_twice_is_silent() {
    let plan = || Plan { new_dirs: vec![path("/t/d/e")], ..empty_plan() };
    let mut disk = Disk::new();
    assert_eq!(disk.run(single(plan())), vec!["created directory: /t/d/e"]);
    let after = disk.clone();
    assert_eq!(disk.run(single(plan())), Vec::<String>::new());
    assert_eq!(disk, after);
}

#[test]
fn a_directory_above_something_ignored_does_not_give_way() {
    let mut disk = Disk::new()
        .with_dir("/s")
        .with_dir("/t/x")
        .with_file("/s/x", "x", 1)
        .with_file("/t/x/f", "f", 1)
        .with_file("/t/x/k.tmp", "k", 1);
    let files = vec![IgnoreFile::Lines(vec!["*.tmp".to_string()])];
    let rules = build_gitignore_for_root(&path("/t"), &files).expect("rules");
    let src = disk.snapshot("/s", None);
    let dst = disk.snapshot("/t", rules.as_ref());
    let before = disk.clone();
    let mut session = run_sync(&path("/s"), &path("/t"), &src, &dst, &all());
    let mut answer = Answer::Done;
    loop {
        match session.step(answer) {
            Request::Abort(failure) => {
                assert_eq!(failure, Failure::Copy { src: path("/s/x"), dst: path("/t/x") });
                break;
            }
            other => answer = disk.serve(&other),
        }
    }
    assert_eq!(disk, before);
}

#[test]
fn a_dry_run_tells_of_a_directory_in_the_place_of_a_file() {
    let mut disk = Disk::new()
        .with_dir("/s/x/y")
        .with_dir("/t/z")
        .with_file("/s/z", "z", 1)
        .with_file("/t/x", "x", 1);
    let before = disk.clone();
    let told = disk.sync(&SyncOptions { dry_run: true, ..all() });
    assert_eq!(
        told,
        vec![
            "Dry run: no changes will be written.",
            "would delete file: /t/x",
            "would delete directory: /t/z",
            "would create directory: /t/x",
            "would create directory: /t/x/y",
            "would copy (new): /s/z -> /t/z",
            "Done.",
        ]
    );
    assert_eq!(disk, before);
}

#[test]
fn a_dry_run_is_silent_of_a_directory_that_stays_a_file() {
    let mut disk = Disk::new().with_dir("/s/x").with_dir("/t").with_file("/t/x", "x", 1);
    let told = disk.sync(&SyncOptions { dry_run: true, delete: false, ..all() });
    assert_eq!(told, vec!["Dry run: no changes will be written.", "Done."]);
}

#[test]
fn without_overwrite_a_shared_file_is_left_alone() {
    let disk = differing();
    let (src, dst) = (disk.snapshot("/s", None), disk.snapshot("/t", None));
    let opts = SyncOptions { overwrite: false, ..all() };
    let shared = path("/t/both/stale");
    let mut session = run_sync(&path("/s"), &path("/t"), &src, &dst, &opts);
    let mut live = disk.clone();
    let mut answer = Answer::Done;
    loop {
        let request = session.step(answer);
        match &request {
            Request::CopyFile { src: _, dst } => assert!(!dst.same_as(&shared)),
            Request::SetMtime { path, time: _ } => assert!(!path.same_as(&shared)),
            Request::RemoveFile(p) => assert!(!p.same_as(&shared)),
            Request::RemoveDirAll(p) => assert!(relative_path(p, &shared).is_err()),
            Request::Finished => break,
            _ => {}
        }
        answer = live.serve(&request);
    }
}

#[test]
fn without_new_only_parents_of_stale_files_are_created() {
    let disk = differing();
    let (src, dst) = (disk.snapshot("/s", None), disk.snapshot("/t", None));
    let opts = SyncOptions { new: false, ..all() };
    let mut session = run_sync(&path("/s"), &path("/t"), &src, &dst, &opts);
    let mut answer = Answer::Done;
    let mut created = Vec::new();
    loop {
        answer = match session.step(answer) {
            Request::Exists(_) => Answer::Exists(false),
            Request::CreateDirAll(p) => {
                created.push(p);
                Answer::Done
            }
            Request::ReadMtime(_) => Answer::Mtime(None),
            Request::Finished => break,
            _ => Answer::Done,
        };
    }
    assert_eq!(created, vec![path("/t/both")]);
}

#[test]
fn each_handler_goes_on_from_its_stage() {
    let p = path("/t/d");
    let create = |mode, stage, answer| handle_create_directory(&p, mode, stage, answer);
    assert_eq!(
        create(RunMode::DryRun, Stage::Start, Answer::Done),
        Move::Ask(Stage::DirCheck, Request::Exists(p.clone()))
    );
    assert_eq!(create(RunMode::DryRun, Stage::DirCheck, Answer::Exists(true)), Move::Over);
    assert_eq!(
        create(RunMode::DryRun, Stage::DirCheck, Answer::Exists(false)),
        Move::Report(Notice::WouldCreateDir(p.clone()))
    );
    assert_eq!(
        create(RunMode::Apply, Stage::DirCreating, Answer::Done),
        Move::Report(Notice::CreatedDir(p.clone()))
    );
    let delete = |mode, stage, answer| handle_delete_directory(&p, mode, stage, answer);
    assert_eq!(
        delete(RunMode::DryRun, Stage::Start, Answer::Done),
        Move::Report(Notice::WouldDeleteDir(p.clone()))
    );
    assert_eq!(delete(RunMode::Apply, Stage::Removing, Answer::NotFound), Move::Over);
    assert_eq!(
        delete(RunMode::Apply, Stage::Removing, Answer::Failed),
        Move::Fail(Failure::DeleteDir(p.clone()))
    );
    assert_eq!(
        handle_delete_file(&p, RunMode::Apply, Stage::Start, Answer::Done),
        Move::Ask(Stage::Removing, Request::RemoveFile(p.clone()))
    );
    let s = path("/s/d");
    assert_eq!(
        handle_copy_pair(CopyKind::New, &s, &p, RunMode::DryRun, Stage::Start, Answer::Done),
        Move::Report(Notice::WouldCopy { kind: CopyKind::New, src: s.clone(), dst: p.clone() })
    );
    assert_eq!(
        safe_copy(CopyKind::New, &s, &p, Stage::Copying, Answer::Done),
        Move::Ask(Stage::TimeReading, Request::ReadMtime(s))
    );
}
