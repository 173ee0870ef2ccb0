use update_sync::order::Comparison;
use update_sync::path::{path_depth, relative_path, Component, NotUnderRoot, SyncPath};

fn name(n: &str) -> Component<Vec<u8>> {
    Component::Normal(n.as_bytes().to_vec())
}

fn path(parts: Vec<Component<Vec<u8>>>) -> SyncPath {
    SyncPath::from_components(parts).expect("a path")
}

fn rel(names: &[&str]) -> SyncPath {
    path(names.iter().map(|n| name(n)).collect())
}

fn abs(names: &[&str]) -> SyncPath {
    let mut parts = vec![Component::RootDir];
    parts.extend(names.iter().map(|n| name(n)));
    path(parts)
}

fn prefix() -> Component<Vec<u8>> {
    Component::Prefix(b"C:".to_vec())
}

#[test]
fn rel_conversion_works_cross_platform() {
    let root = rel(&["base"]);
    let path = rel(&["base"]).join(&rel(&["a"])).join(&rel(&["b.txt"]));
    let r = relative_path(&root, &path).expect("relative path");
    assert_eq!(r, rel(&["a"]).join(&rel(&["b.txt"])));
    assert_eq!(root.join(&r), path);
}

#[test]
fn relative_path_of_the_root_is_empty() {
    assert_eq!(relative_path(&abs(&["a"]), &abs(&["a"])), Ok(SyncPath::empty()));
}

#[test]
fn relative_path_goes_by_whole_components() {
    assert_eq!(relative_path(&abs(&["ba"]), &abs(&["base", "x"])), Err(NotUnderRoot));
    assert_eq!(relative_path(&abs(&["base", "x"]), &abs(&["base"])), Err(NotUnderRoot));
    assert_eq!(relative_path(&rel(&["base"]), &abs(&["base", "x"])), Err(NotUnderRoot));
}

#[test]
fn depth_counts_components() {
    assert_eq!(path_depth(&SyncPath::empty()), 0);
    assert_eq!(path_depth(&rel(&["a", "b.txt"])), 2);
    assert_eq!(path_depth(&abs(&["a", "b.txt"])), 3);
}

#[test]
fn only_paths_are_made_of_components() {
    assert!(SyncPath::from_components(vec![name("a"), Component::RootDir]).is_none());
    assert!(SyncPath::from_components(vec![name("a"), Component::CurDir]).is_none());
    assert!(SyncPath::from_components(vec![name("a"), prefix()]).is_none());
    assert!(SyncPath::from_components(vec![name("")]).is_none());
    assert!(SyncPath::from_components(vec![name("a/b")]).is_none());
    assert!(SyncPath::from_components(vec![name(".")]).is_none());
    assert!(SyncPath::from_components(vec![name("..")]).is_none());
    assert!(SyncPath::from_components(vec![name("..."), Component::ParentDir]).is_some());
    assert!(SyncPath::from_components(vec![prefix(), Component::RootDir, name("a")]).is_some());
}

#[test]
fn components_come_back() {
    let p = abs(&["a", "b"]);
    assert_eq!(p.components(), &vec![Component::RootDir, name("a"), name("b")]);
}

#[test]
fn join_goes_by_how_the_second_path_begins() {
    let here = path(vec![Component::CurDir, name("x")]);
    assert_eq!(abs(&["a"]).join(&rel(&["b"])), abs(&["a", "b"]));
    assert_eq!(abs(&["a"]).join(&abs(&["b"])), abs(&["b"]));
    assert_eq!(abs(&["a"]).join(&SyncPath::empty()), abs(&["a"]));
    assert_eq!(SyncPath::empty().join(&here), here);
    assert_eq!(rel(&["a"]).join(&here), rel(&["a", "x"]));
    let drive = path(vec![prefix(), Component::RootDir, name("a")]);
    assert_eq!(rel(&["z"]).join(&drive), drive);
    assert_eq!(
        drive.join(&abs(&["b"])),
        path(vec![prefix(), Component::RootDir, name("b")])
    );
}

#[test]
fn parent_drops_the_last_component() {
    assert_eq!(abs(&["a", "b"]).parent(), Some(abs(&["a"])));
    assert_eq!(abs(&["a"]).parent(), Some(abs(&[])));
    assert_eq!(rel(&["a"]).parent(), Some(SyncPath::empty()));
    assert_eq!(abs(&[]).parent(), None);
    assert_eq!(SyncPath::empty().parent(), None);
    assert_eq!(path(vec![prefix()]).parent(), None);
}

#[test]
fn paths_are_ordered_by_component() {
    assert_eq!(rel(&["a", "b"]).compare(&rel(&["a", "b"])), Comparison::Same);
    assert_eq!(rel(&["a"]).compare(&rel(&["a", "b"])), Comparison::Before);
    assert_eq!(rel(&["a", "z"]).compare(&rel(&["a.txt"])), Comparison::Before);
    assert_eq!(rel(&["b"]).compare(&rel(&["a", "z"])), Comparison::After);
    assert_eq!(abs(&["z"]).compare(&rel(&["a"])), Comparison::Before);
    assert_eq!(path(vec![prefix()]).compare(&abs(&[])), Comparison::Before);
    assert_eq!(
        path(vec![Component::CurDir]).compare(&path(vec![Component::ParentDir])),
        Comparison::Before
    );
    assert_eq!(path(vec![Component::ParentDir]).compare(&rel(&["!"])), Comparison::Before);
}

#[test]
fn paths_are_the_same_only_if_equal() {
    assert!(rel(&["a", "b"]).same_as(&rel(&["a", "b"])));
    assert!(!rel(&["a", "b"]).same_as(&rel(&["a", "c"])));
    assert!(!rel(&["a"]).same_as(&abs(&["a"])));
    assert!(rel(&["a"]).clone().same_as(&rel(&["a"])));
}

#[test]
fn bytes_separate_components() {
    assert_eq!(abs(&["a", "b.txt"]).to_bytes(), b"/a/b.txt");
    assert_eq!(rel(&["a", "b"]).to_bytes(), b"a/b");
    assert_eq!(abs(&[]).to_bytes(), b"/");
    assert_eq!(SyncPath::empty().to_bytes(), b"");
    let up = path(vec![Component::CurDir, name("x"), Component::ParentDir]);
    assert_eq!(up.to_bytes(), b"./x/..");
    assert_eq!(path(vec![prefix(), Component::RootDir, name("a")]).to_bytes(), b"C:/a");
    let odd = path(vec![name("d"), Component::Normal(vec![b'a', 0xff, b'b'])]);
    assert_eq!(odd.to_bytes(), b"d/a\xffb");
}

#[test]
fn joining_keeps_order() {
    let root = abs(&["t"]);
    let (a, b) = (rel(&["a", "z"]), rel(&["a.txt"]));
    assert_eq!(a.compare(&b), root.join(&a).compare(&root.join(&b)));
}
