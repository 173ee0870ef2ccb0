use update_sync::path::{Component, SyncPath};
use update_sync::rules::{build_gitignore_for_root, IgnoreFile, IgnoreRules};
use update_sync::snapshot::{
    build_snapshot, keep_entry, visit_entry, EntryKind, MtimeReading, Snapshot, SnapshotError,
    Visit, WalkFault, WalkItem,
};
use update_sync::time::Timestamp;

fn rel(names: &[&str]) -> SyncPath {
    SyncPath::from_components(
        names.iter().map(|n| Component::Normal(n.as_bytes().to_vec())).collect(),
    )
    .expect("a path")
}

fn root() -> SyncPath {
    SyncPath::from_components(vec![
        Component::RootDir,
        Component::Normal(b"tmp".to_vec()),
        Component::Normal(b"root".to_vec()),
    ])
    .expect("a path")
}

fn time(secs: i64) -> Timestamp {
    Timestamp { secs, nanos: 0 }
}

fn dir(names: &[&str]) -> WalkItem {
    WalkItem::Entry { path: root().join(&rel(names)), kind: EntryKind::Directory }
}

fn file(names: &[&str], secs: i64) -> WalkItem {
    let kind = EntryKind::File(MtimeReading::At(time(secs)));
    WalkItem::Entry { path: root().join(&rel(names)), kind }
}

fn rules(lines: &[&str]) -> IgnoreRules {
    let lines = lines.iter().map(|l| l.to_string()).collect();
    build_gitignore_for_root(&root(), &vec![IgnoreFile::Lines(lines)])
        .expect("build gi")
        .expect("some rules")
}

/// A walk does not go below an entry that is not kept.
fn walk(entries: Vec<(&[&str], EntryKind)>, gi: Option<&IgnoreRules>) -> Vec<WalkItem> {
    let mut items = Vec::new();
    for (names, kind) in entries {
        let reached = (0..names.len())
            .all(|n| keep_entry(gi, &root(), &root().join(&rel(&names[..n])), n, true));
        if reached {
            items.push(WalkItem::Entry { path: root().join(&rel(names)), kind });
        }
    }
    items
}

fn taken(items: Vec<WalkItem>, gi: Option<&IgnoreRules>) -> Snapshot {
    build_snapshot(&root(), true, &items, gi).expect("snapshot")
}

fn fault(items: Vec<WalkItem>) -> SnapshotError {
    build_snapshot(&root(), true, &items, None).expect_err("a fault")
}

#[test]
fn gitignore_excludes_patterns() {
    let gi = rules(&["skip_me/"]);
    let now = EntryKind::File(MtimeReading::At(time(1)));
    let items = walk(
        vec![
            (&[], EntryKind::Directory),
            (&["keep"], EntryKind::Directory),
            (&["keep", "a.txt"], now),
            (&["skip_me"], EntryKind::Directory),
            (&["skip_me", "b.txt"], now),
            (&[".gitignore"], now),
        ],
        Some(&gi),
    );
    let snap = taken(items, Some(&gi));
    assert!(snap.file_mtime(&rel(&["keep", "a.txt"])).is_some());
    assert!(!snap.file_mtime(&rel(&["skip_me", "b.txt"])).is_some());
    assert!(snap.contains_dir(&rel(&["keep"])));
    assert!(!snap.contains_dir(&rel(&["skip_me"])));
    assert!(snap.ignores(&rel(&["skip_me"])));
    assert!(!snap.ignores(&rel(&["skip_me", "b.txt"])));
    assert!(snap.file_mtime(&rel(&[".gitignore"])).is_some());
}

#[test]
fn snapshot_without_gitignore_includes_all() {
    let snap = taken(vec![dir(&[]), dir(&["any"]), file(&["any", "x.txt"], 1)], None);
    assert!(snap.file_mtime(&rel(&["any", "x.txt"])).is_some());
    assert!(snap.contains_dir(&rel(&["any"])));
}

#[test]
fn snapshot_for_missing_target_is_empty() {
    let missing = root().join(&rel(&["missing-target"]));
    let snap = build_snapshot(&missing, false, &vec![], None).expect("snapshot");
    assert!(snap.is_empty());
}

#[test]
fn a_missing_tree_is_not_walked() {
    let snap = build_snapshot(&root(), false, &vec![WalkItem::Failed], None).expect("snapshot");
    assert!(snap.is_empty());
}

#[test]
fn the_root_is_not_in_its_snapshot() {
    let snap = taken(vec![dir(&[])], None);
    assert!(!snap.contains_dir(&SyncPath::empty()));
    assert!(snap.is_empty());
}

#[test]
fn directories_and_files_are_kept_apart() {
    let snap = taken(vec![dir(&["d"]), file(&["f"], 7)], None);
    assert!(snap.contains_dir(&rel(&["d"])));
    assert_eq!(snap.file_mtime(&rel(&["d"])), None);
    assert!(!snap.contains_dir(&rel(&["f"])));
    assert_eq!(snap.file_mtime(&rel(&["f"])), Some(time(7)));
    assert!(!snap.is_empty());
}

#[test]
fn other_kinds_are_left_out() {
    let link = WalkItem::Entry { path: root().join(&rel(&["link"])), kind: EntryKind::Other };
    assert!(taken(vec![link], None).is_empty());
}

#[test]
fn the_last_time_stands() {
    let snap = taken(vec![file(&["b"], 1), file(&["a"], 2), file(&["b"], 3)], None);
    assert_eq!(snap.file_mtime(&rel(&["a"])), Some(time(2)));
    assert_eq!(snap.file_mtime(&rel(&["b"])), Some(time(3)));
}

#[test]
fn entries_may_come_in_any_order() {
    let names = ["m", "c", "x", "a", "z", "d", "c"];
    let snap = taken(names.iter().map(|n| dir(&[n])).collect(), None);
    for n in names {
        assert!(snap.contains_dir(&rel(&[n])));
    }
    assert!(!snap.contains_dir(&rel(&["b"])));
}

#[test]
fn a_failed_walk_is_told() {
    assert_eq!(
        fault(vec![dir(&["a"]), WalkItem::Failed]),
        SnapshotError { step: 1, fault: WalkFault::WalkFailed }
    );
}

#[test]
fn an_entry_outside_the_root_is_told() {
    let stray = WalkItem::Entry { path: rel(&["stray"]), kind: EntryKind::Directory };
    assert_eq!(fault(vec![stray]), SnapshotError { step: 0, fault: WalkFault::NotUnderRoot });
}

#[test]
fn a_time_that_cannot_be_read_is_told() {
    for (reading, told) in [
        (MtimeReading::NoMetadata, WalkFault::NoMetadata),
        (MtimeReading::NoTime, WalkFault::NoTime),
    ] {
        let path = root().join(&rel(&["f"]));
        let item = WalkItem::Entry { path, kind: EntryKind::File(reading) };
        let error = fault(vec![dir(&["a"]), item, WalkItem::Failed]);
        assert_eq!(error, SnapshotError { step: 1, fault: told });
    }
}

#[test]
fn the_time_of_an_ignored_file_does_not_matter() {
    let gi = rules(&["*.tmp"]);
    let path = root().join(&rel(&["a.tmp"]));
    let item = WalkItem::Entry { path, kind: EntryKind::File(MtimeReading::NoMetadata) };
    let snap = taken(vec![item], Some(&gi));
    assert!(snap.is_empty());
    assert!(snap.ignores(&rel(&["a.tmp"])));
}

#[test]
fn rules_take_out_exactly_what_is_excluded() {
    let now = EntryKind::File(MtimeReading::At(time(1)));
    let entries = || -> Vec<(&[&str], EntryKind)> {
        vec![
            (&["d"], EntryKind::Directory),
            (&["d", "keep.log"], now),
            (&["e"], EntryKind::Directory),
            (&["e", "a.log"], now),
            (&["e", "keep.log"], now),
        ]
    };
    let gi = rules(&["*.log", "!keep.log", "d/"]);
    let all = taken(walk(entries(), None), None);
    let snap = taken(walk(entries(), Some(&gi)), Some(&gi));
    let held = |s: &Snapshot| -> Vec<bool> {
        entries()
            .iter()
            .map(|(n, _)| s.contains_dir(&rel(n)) || s.file_mtime(&rel(n)).is_some())
            .collect()
    };
    assert_eq!(held(&all), vec![true, true, true, true, true]);
    assert_eq!(held(&snap), vec![false, false, true, false, true]);
}

#[test]
fn each_entry_is_decided_by_its_kind() {
    let p = root().join(&rel(&["a"]));
    let see = |is_dir, is_file| visit_entry(None, &root(), &p, is_dir, is_file);
    assert_eq!(see(true, false), Visit::Directory(rel(&["a"])));
    assert_eq!(see(false, true), Visit::File(rel(&["a"])));
    assert_eq!(see(false, false), Visit::Skip);
    assert_eq!(visit_entry(None, &root(), &root(), true, false), Visit::Skip);
    assert_eq!(visit_entry(None, &root(), &rel(&["a"]), true, false), Visit::NotUnderRoot);
    let gi = rules(&["a"]);
    assert_eq!(visit_entry(Some(&gi), &root(), &p, true, false), Visit::Ignored(rel(&["a"])));
    assert_eq!(visit_entry(Some(&gi), &root(), &p, false, false), Visit::Ignored(rel(&["a"])));
}

#[test]
fn a_walk_always_starts_at_its_root() {
    let gi = rules(&["*"]);
    assert!(keep_entry(Some(&gi), &root(), &root(), 0, true));
    assert!(!keep_entry(Some(&gi), &root(), &root().join(&rel(&["a"])), 1, true));
    assert!(keep_entry(None, &root(), &root().join(&rel(&["a"])), 1, true));
}

#[test]
fn a_relative_root_can_be_walked() {
    let here = SyncPath::from_components(vec![Component::CurDir]).expect("a path");
    for root in [rel(&["base"]), here] {
        let walk = vec![
            WalkItem::Entry { path: root.clone(), kind: EntryKind::Directory },
            WalkItem::Entry { path: root.join(&rel(&["d"])), kind: EntryKind::Directory },
            WalkItem::Entry {
                path: root.join(&rel(&["d", "f"])),
                kind: EntryKind::File(MtimeReading::At(time(4))),
            },
        ];
        let snap = build_snapshot(&root, true, &walk, None).expect("snapshot");
        assert!(snap.contains_dir(&rel(&["d"])));
        assert_eq!(snap.file_mtime(&rel(&["d", "f"])), Some(time(4)));
        assert!(!snap.contains_dir(&SyncPath::empty()));
    }
}
