use update_sync::path::{Component, SyncPath};
use update_sync::rules::{
    build_gitignore_for_root, ignored_by_gitignore, IgnoreError, IgnoreFile, IgnoreRules,
};

fn abs(text: &str) -> SyncPath {
    let mut parts = vec![Component::RootDir];
    parts.extend(
        text.split('/').filter(|n| !n.is_empty()).map(|n| Component::Normal(n.as_bytes().to_vec())),
    );
    SyncPath::from_components(parts).expect("a path")
}

fn file(lines: &[&str]) -> IgnoreFile {
    IgnoreFile::Lines(lines.iter().map(|l| l.to_string()).collect())
}

fn rules(files: Vec<IgnoreFile>) -> IgnoreRules {
    build_gitignore_for_root(&abs("/root"), &files).expect("rules").expect("some rules")
}

fn ignores(rules: &IgnoreRules, path: &str, is_dir: bool) -> bool {
    ignored_by_gitignore(Some(rules), &abs("/root"), &abs(path), is_dir)
}

fn fault(files: Vec<IgnoreFile>) -> IgnoreError {
    match build_gitignore_for_root(&abs("/root"), &files) {
        Ok(_) => panic!("no fault"),
        Err(error) => error,
    }
}

#[test]
fn without_files_there_are_no_rules() {
    assert!(build_gitignore_for_root(&abs("/root"), &vec![]).expect("no fault").is_none());
    assert!(!ignored_by_gitignore(None, &abs("/root"), &abs("/root/a"), false));
}

#[test]
fn a_directory_rule_is_for_directories_only() {
    let r = rules(vec![file(&["skip_me/"])]);
    assert!(ignores(&r, "/root/skip_me", true));
    assert!(!ignores(&r, "/root/skip_me", false));
    assert!(ignores(&r, "/root/a/skip_me", true));
    assert!(!ignores(&r, "/root/keep", true));
}

#[test]
fn later_rules_overrule_earlier_ones() {
    let r = rules(vec![file(&["*.log", "!keep.log"])]);
    assert!(ignores(&r, "/root/a.log", false));
    assert!(!ignores(&r, "/root/keep.log", false));
    let r = rules(vec![file(&["!keep.log"]), file(&["*.log"])]);
    assert!(ignores(&r, "/root/keep.log", false));
}

#[test]
fn a_rule_with_a_slash_starts_at_the_root() {
    let r = rules(vec![file(&["/build"])]);
    assert!(ignores(&r, "/root/build", true));
    assert!(!ignores(&r, "/root/sub/build", true));
}

#[test]
fn paths_outside_the_root_are_not_ignored() {
    let r = rules(vec![file(&["*"])]);
    assert!(ignores(&r, "/root/a", false));
    assert!(!ignores(&r, "/other/a", false));
}

#[test]
fn comments_and_empty_lines_ignore_nothing() {
    let r = rules(vec![file(&["# *", "", "#a"]), file(&[])]);
    assert!(!ignores(&r, "/root/a", false));
    assert!(!ignores(&r, "/root/# *", false));
}

#[test]
fn white_space_at_the_end_of_a_line_is_dropped() {
    let r = rules(vec![file(&["a \t", "  ", "b\\ "])]);
    assert!(ignores(&r, "/root/a", false));
    assert!(!ignores(&r, "/root/a ", false));
    assert!(ignores(&r, "/root/b ", false));
    assert!(!ignores(&r, "/root/b", false));
}

#[test]
fn a_root_may_start_with_the_current_directory() {
    let here = |lead: Vec<Component<Vec<u8>>>, names: &[&str]| {
        let mut parts = lead;
        parts.extend(names.iter().map(|n| Component::Normal(n.as_bytes().to_vec())));
        SyncPath::from_components(parts).expect("a path")
    };
    for lead in [vec![], vec![Component::CurDir]] {
        let root = here(lead.clone(), &["a"]);
        let r = build_gitignore_for_root(&root, &vec![file(&["/b"])]).expect("rules");
        let path = here(lead, &["a", "b"]);
        assert!(ignored_by_gitignore(r.as_ref(), &root, &path, false));
    }
}

#[test]
fn byte_order_marks_are_dropped_from_the_first_line_only() {
    let r = rules(vec![file(&["\u{feff}\u{feff}a", "\u{feff}b"])]);
    assert!(ignores(&r, "/root/a", false));
    assert!(!ignores(&r, "/root/b", false));
    assert!(ignores(&r, "/root/\u{feff}b", false));
    let r = rules(vec![file(&["\u{feff}# a"])]);
    assert!(!ignores(&r, "/root/# a", false));
}

#[test]
fn names_that_are_not_utf8_are_matched_by_their_bytes() {
    let mut parts = abs("/root").components().clone();
    parts.push(Component::Normal(vec![0xff, b'.', b't', b'm', b'p']));
    let odd = SyncPath::from_components(parts).expect("a path");
    let ignored = |pattern: &str| {
        ignored_by_gitignore(Some(&rules(vec![file(&[pattern])])), &abs("/root"), &odd, false)
    };
    assert!(ignored("*.tmp"));
    assert!(ignored("?.tmp"));
    assert!(!ignored("??.tmp"));
    assert!(!ignored("\u{fffd}.tmp"));
}

#[test]
fn an_unreadable_file_ends_it() {
    assert_eq!(
        fault(vec![file(&["a"]), IgnoreFile::Unreadable, file(&["{b"])]),
        IgnoreError::Unreadable { file: 1 }
    );
}

#[test]
fn all_bad_lines_of_the_first_bad_file_are_told() {
    let error = fault(vec![
        file(&["a"]),
        file(&["{b", "c", "x[z-a]"]),
        IgnoreFile::Unreadable,
    ]);
    let IgnoreError::BadLines { file, faults } = error else {
        panic!("another fault: {:?}", error);
    };
    assert_eq!(file, 1);
    assert_eq!(faults.len(), 2);
    assert_eq!(faults[0].line, 1);
    assert_eq!(
        faults[0].message,
        "error parsing glob '{b': unclosed alternate group; missing '}' (maybe escape '{' with '[{]'?)"
    );
    assert_eq!(faults[1].line, 3);
    assert_eq!(faults[1].message, "error parsing glob 'x[z-a]': invalid range; 'z' > 'a'");
}

#[test]
fn rules_too_large_to_compile_are_rejected() {
    let huge: Vec<String> =
        (0..40_000).map(|i| format!("*{}?[a-z]{}*", "x".repeat(200), i)).collect();
    match build_gitignore_for_root(&abs("/root"), &vec![IgnoreFile::Lines(huge)]) {
        Err(IgnoreError::Rejected { message }) => assert!(!message.is_empty()),
        Err(other) => panic!("another fault: {:?}", other),
        Ok(_) => panic!("no fault"),
    }
}
