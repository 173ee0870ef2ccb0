use update_sync::path::{Component, SyncPath};
use update_sync::plan::{build_plan, PathPair, Plan, SyncOptions};
use update_sync::rules::{build_gitignore_for_root, IgnoreFile};
use update_sync::snapshot::{build_snapshot, EntryKind, MtimeReading, Snapshot, WalkItem};
use update_sync::time::{Span, Timestamp};

fn path(text: &str) -> SyncPath {
    let mut parts = Vec::new();
    if text.starts_with('/') {
        parts.push(Component::RootDir);
    }
    parts.extend(
        text.split('/').filter(|n| !n.is_empty()).map(|n| Component::Normal(n.as_bytes().to_vec())),
    );
    SyncPath::from_components(parts).expect("a path")
}

fn snapshot(dirs: &[&str], files: &[(&str, i64)]) -> Snapshot {
    let root = path("/r");
    let mut walk = Vec::new();
    for d in dirs {
        walk.push(WalkItem::Entry { path: root.join(&path(d)), kind: EntryKind::Directory });
    }
    for (f, secs) in files {
        let time = Timestamp { secs: *secs, nanos: 0 };
        let kind = EntryKind::File(MtimeReading::At(time));
        walk.push(WalkItem::Entry { path: root.join(&path(f)), kind });
    }
    build_snapshot(&root, true, &walk, None).expect("snapshot")
}

fn all(tolerance: u64) -> SyncOptions {
    let tolerance = Span { secs: tolerance, nanos: 0 };
    SyncOptions::from_switches(false, false, false, false, tolerance)
}

fn plan(src: &Snapshot, dst: &Snapshot, opts: &SyncOptions) -> Plan {
    build_plan(&path("/s"), &path("/t"), src, dst, opts, opts.tolerance)
}

fn pair(rel: &str) -> PathPair {
    PathPair { src: path("/s").join(&path(rel)), dst: path("/t").join(&path(rel)) }
}

fn target(rels: &[&str]) -> Vec<SyncPath> {
    rels.iter().map(|r| path("/t").join(&path(r))).collect()
}

#[test]
fn switches_turn_options_off() {
    let tolerance = Span { secs: 3, nanos: 4 };
    assert_eq!(
        SyncOptions::from_switches(true, false, false, false, tolerance),
        SyncOptions { overwrite: false, new: true, delete: true, dry_run: false, tolerance }
    );
    assert_eq!(
        SyncOptions::from_switches(false, true, true, true, tolerance),
        SyncOptions { overwrite: true, new: false, delete: false, dry_run: true, tolerance }
    );
}

#[test]
fn a_plan_lists_each_kind_in_its_order() {
    let src = snapshot(
        &["b", "b/c", "a", "a/x/y", "a/x"],
        &[("new2", 1), ("b/new1", 1), ("stale", 10), ("a.stale", 10), ("same", 5)],
    );
    let dst = snapshot(
        &["old", "old/in", "gone", "old/in/deep"],
        &[("stale", 1), ("a.stale", 1), ("same", 5), ("zz", 1), ("old/f", 1)],
    );
    assert_eq!(
        plan(&src, &dst, &all(1)),
        Plan {
            overwrite_pairs: vec![pair("a.stale"), pair("stale")],
            new_dirs: target(&["a", "b", "a/x", "b/c", "a/x/y"]),
            new_pairs: vec![pair("b/new1"), pair("new2")],
            delete_files: target(&["old/f", "zz"]),
            delete_dirs: target(&["old/in/deep", "old/in", "gone", "old"]),
        }
    );
}

#[test]
fn only_newer_files_are_overwritten() {
    let src = snapshot(&[], &[("at", 11), ("past", 12), ("older", 9)]);
    let dst = snapshot(&[], &[("at", 10), ("past", 10), ("older", 10)]);
    assert_eq!(plan(&src, &dst, &all(1)).overwrite_pairs, vec![pair("past")]);
    assert_eq!(plan(&src, &dst, &all(0)).overwrite_pairs, vec![pair("at"), pair("past")]);
}

#[test]
fn options_that_are_off_leave_their_lists_empty() {
    let src = snapshot(&["d"], &[("n", 1), ("s", 10)]);
    let dst = snapshot(&["e"], &[("x", 1), ("s", 1)]);
    let tolerance = Span { secs: 1, nanos: 0 };
    let none = SyncOptions::from_switches(true, true, true, false, tolerance);
    let empty = Plan {
        overwrite_pairs: vec![],
        new_dirs: vec![],
        new_pairs: vec![],
        delete_files: vec![],
        delete_dirs: vec![],
    };
    assert_eq!(plan(&src, &dst, &none), empty);
    let full = plan(&src, &dst, &all(1));
    let no_new = plan(&src, &dst, &SyncOptions { new: false, ..all(1) });
    assert_eq!(no_new.new_dirs, vec![]);
    assert_eq!(no_new.new_pairs, vec![]);
    assert_eq!(no_new.overwrite_pairs, full.overwrite_pairs);
    assert_eq!(no_new.delete_files, full.delete_files);
    let no_delete = plan(&src, &dst, &SyncOptions { delete: false, ..all(1) });
    assert_eq!(no_delete.delete_files, vec![]);
    assert_eq!(no_delete.delete_dirs, vec![]);
    assert_eq!(no_delete.new_dirs, full.new_dirs);
    let no_overwrite = plan(&src, &dst, &SyncOptions { overwrite: false, ..all(1) });
    assert_eq!(no_overwrite.overwrite_pairs, vec![]);
    assert_eq!(no_overwrite.new_pairs, full.new_pairs);
}

#[test]
fn the_tolerance_given_counts() {
    let src = snapshot(&[], &[("s", 10)]);
    let dst = snapshot(&[], &[("s", 1)]);
    let wide = Span { secs: 9, nanos: 0 };
    let p = build_plan(&path("/s"), &path("/t"), &src, &dst, &all(0), wide);
    assert_eq!(p.overwrite_pairs, vec![]);
}

#[test]
fn directories_above_something_ignored_are_not_deleted() {
    let root = path("/r");
    let lines = vec!["k".to_string()];
    let rules = build_gitignore_for_root(&root, &vec![IgnoreFile::Lines(lines)]).expect("rules");
    let kind = EntryKind::File(MtimeReading::At(Timestamp { secs: 1, nanos: 0 }));
    let mut walk = Vec::new();
    for d in ["d", "d/e", "d/f", "g"] {
        walk.push(WalkItem::Entry { path: root.join(&path(d)), kind: EntryKind::Directory });
    }
    for f in ["d/e/k", "d/x"] {
        walk.push(WalkItem::Entry { path: root.join(&path(f)), kind });
    }
    let dst = build_snapshot(&root, true, &walk, rules.as_ref()).expect("snapshot");
    let p = plan(&snapshot(&[], &[]), &dst, &all(0));
    assert_eq!(p.delete_files, target(&["d/x"]));
    assert_eq!(p.delete_dirs, target(&["d/f", "g"]));
}

#[test]
fn swapped_sides_swap_the_plan() {
    let a = snapshot(&["d", "d/e"], &[("n", 1), ("d/m", 1), ("both", 1)]);
    let b = snapshot(&["f"], &[("x", 1), ("both", 1)]);
    let (s, t) = (path("/s"), path("/t"));
    let there = build_plan(&s, &t, &a, &b, &all(0), all(0).tolerance);
    let back = build_plan(&t, &s, &b, &a, &all(0), all(0).tolerance);
    let sources: Vec<SyncPath> = there.new_pairs.iter().map(|p| p.src.clone()).collect();
    assert_eq!(sources, back.delete_files);
    let sources: Vec<SyncPath> = back.new_pairs.iter().map(|p| p.src.clone()).collect();
    assert_eq!(sources, there.delete_files);
    assert_eq!(there.new_dirs, vec![path("/t/d"), path("/t/d/e")]);
    assert_eq!(back.delete_dirs, vec![path("/s/d/e"), path("/s/d")]);
}

#[test]
fn equal_trees_need_no_plan() {
    let files = [("a/f", 1), ("g", 2)];
    let (src, dst) = (snapshot(&["a"], &files), snapshot(&["a"], &files));
    let p = plan(&src, &dst, &all(0));
    assert_eq!(p.overwrite_pairs.len() + p.new_dirs.len() + p.new_pairs.len(), 0);
    assert_eq!(p.delete_files.len() + p.delete_dirs.len(), 0);
}
