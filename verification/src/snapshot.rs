//! What a directory tree holds: its directories, its files with their modification times, and
//! what the rules ignore of it.

use vstd::prelude::*;

use crate::encoding::path_bytes;
use crate::listing::find;
use crate::listing::{
    ascending, before, lemma_insert_keeps_ascending, lemma_stands_outside, paths_view,
};
use crate::path::relative_path;
use crate::path::wf_path;
use crate::path::{PathView, SyncPath};
use crate::rules::{ignored, rules_view};
use crate::rules::{ignored_by_gitignore, IgnoreRules, IgnoredSet};
use crate::time::Timestamp;

verus! {

/// What a snapshot means: the set of directories, the modification time of each file, and the
/// ignored paths that the walk came to, all by their paths below the root.
#[verifier::ext_equal]
pub struct SnapshotView {
    pub dirs: Set<PathView>,
    pub files: Map<PathView, int>,
    pub ignored: Set<PathView>,
}

impl SnapshotView {
    /// The snapshot of a tree that holds nothing.
    pub open spec fn empty() -> SnapshotView {
        SnapshotView { dirs: Set::empty(), files: Map::empty(), ignored: Set::empty() }
    }

    /// Only finitely many paths are held.
    pub open spec fn finite(self) -> bool {
        self.dirs.finite() && self.files.dom().finite() && self.ignored.finite()
    }

    /// The directory or file `rel` is held.
    pub open spec fn holds(self, rel: PathView) -> bool {
        self.dirs.contains(rel) || self.files.contains_key(rel)
    }

    /// `rel` is ignored or lies below something ignored.
    pub open spec fn hides(self, rel: PathView) -> bool {
        exists|e: PathView| #[trigger] self.ignored.contains(e) && e.is_prefix_of(rel)
    }

    /// Something ignored lies below `rel`.
    pub open spec fn shelters(self, rel: PathView) -> bool {
        exists|e: PathView| #[trigger]
            self.ignored.contains(e) && rel.is_prefix_of(e) && rel != e
    }
}

/// The times of `times`, each under the path at the same position of `paths`.
pub open spec fn times_by_path(paths: Seq<PathView>, times: Seq<Timestamp>) -> Map<PathView, int> {
    Map::new(|p: PathView| paths.contains(p), |p: PathView| times[paths.index_of(p)]@)
}

pub proof fn lemma_ascending_index(paths: Seq<PathView>, i: int)
    requires
        ascending(paths),
        0 <= i < paths.len(),
    ensures
        paths.index_of(paths[i]) == i,
{
    let k = paths.index_of(paths[i]);
    assert(paths.contains(paths[i]));
    if k < i {
        assert(before(paths[k], paths[i]));
    } else if i < k {
        assert(before(paths[i], paths[k]));
    }
}

/// A snapshot of a directory tree.
#[derive(Debug)]
pub struct Snapshot {
    dirs: Vec<SyncPath>,
    files: Vec<SyncPath>,
    times: Vec<Timestamp>,
    ignored: Vec<SyncPath>,
}

impl View for Snapshot {
    type V = SnapshotView;

    closed spec fn view(&self) -> SnapshotView {
        SnapshotView {
            dirs: paths_view(self.dirs@).to_set(),
            files: times_by_path(paths_view(self.files@), self.times@),
            ignored: paths_view(self.ignored@).to_set(),
        }
    }
}

impl Snapshot {
    /// All lists are ascending, and every file has its time.
    #[verifier::type_invariant]
    spec fn inv(&self) -> bool {
        &&& ascending(paths_view(self.dirs@))
        &&& ascending(paths_view(self.files@))
        &&& ascending(paths_view(self.ignored@))
        &&& self.files.len() == self.times.len()
    }

    /// The directories, ascending.
    pub(crate) fn dir_list(&self) -> (r: &Vec<SyncPath>)
        ensures
            ascending(paths_view(r@)),
            paths_view(r@).to_set() == self@.dirs,
            self@.finite(),
    {
        proof {
            use_type_invariant(self);
            self.lemma_is_finite();
        }
        &self.dirs
    }

    proof fn lemma_is_finite(&self)
        ensures
            self@.finite(),
    {
        vstd::seq_lib::seq_to_set_is_finite(paths_view(self.dirs@));
        vstd::seq_lib::seq_to_set_is_finite(paths_view(self.files@));
        vstd::seq_lib::seq_to_set_is_finite(paths_view(self.ignored@));
        assert(self@.files.dom() =~= paths_view(self.files@).to_set());
    }

    /// The ignored paths, ascending.
    pub(crate) fn ignored_list(&self) -> (r: &Vec<SyncPath>)
        ensures
            ascending(paths_view(r@)),
            paths_view(r@).to_set() == self@.ignored,
    {
        proof {
            use_type_invariant(self);
        }
        &self.ignored
    }

    /// The files, ascending, and their times.
    pub(crate) fn file_list(&self) -> (r: (&Vec<SyncPath>, &Vec<Timestamp>))
        ensures
            ascending(paths_view(r.0@)),
            r.0.len() == r.1.len(),
            times_by_path(paths_view(r.0@), r.1@) == self@.files,
            paths_view(r.0@).to_set() == self@.files.dom(),
    {
        proof {
            use_type_invariant(self);
        }
        assert(paths_view(self.files@).to_set() =~= self@.files.dom());
        (&self.files, &self.times)
    }

    /// Whether the tree holds the directory `path`.
    pub fn contains_dir(&self, path: &SyncPath) -> (r: bool)
        ensures
            r == self@.dirs.contains(path@),
    {
        proof {
            use_type_invariant(self);
        }
        match find(&self.dirs, path) {
            Ok(_) => true,
            Err(_) => false,
        }
    }

    /// The modification time of the file `path`, if the tree holds it.
    pub fn file_mtime(&self, path: &SyncPath) -> (r: Option<Timestamp>)
        ensures
            r is Some <==> self@.files.contains_key(path@),
            r matches Some(t) ==> t@ == self@.files[path@],
    {
        proof {
            use_type_invariant(self);
        }
        match find(&self.files, path) {
            Ok(i) => {
                proof {
                    lemma_ascending_index(paths_view(self.files@), i as int);
                }
                Some(self.times[i])
            },
            Err(_) => None,
        }
    }

    /// Whether `path` is ignored, and the walk came to it.
    pub fn ignores(&self, path: &SyncPath) -> (r: bool)
        ensures
            r == self@.ignored.contains(path@),
    {
        proof {
            use_type_invariant(self);
        }
        match find(&self.ignored, path) {
            Ok(_) => true,
            Err(_) => false,
        }
    }

    /// Whether the tree holds no directory and no file, but for what is ignored.
    pub fn is_empty(&self) -> (r: bool)
        ensures
            r == (self@.dirs == Set::<PathView>::empty() && self@.files == Map::<
                PathView,
                int,
            >::empty()),
    {
        proof {
            use_type_invariant(self);
            let (d, f) = (paths_view(self.dirs@), paths_view(self.files@));
            if d.len() > 0 {
                assert(d.contains(d[0]));
                assert(self@.dirs.contains(d[0]));
            } else {
                assert(self@.dirs =~= Set::empty());
            }
            if f.len() > 0 {
                assert(f.contains(f[0]));
                assert(self@.files.dom().contains(f[0]));
            } else {
                assert(self@.files =~= Map::empty());
            }
        }
        self.dirs.len() == 0 && self.files.len() == 0
    }
}

/// The reading of a file's modification time.
#[derive(Debug, Clone, Copy, PartialEq, Eq, Structural)]
pub enum MtimeReading {
    At(Timestamp),
    /// The file's metadata could not be read.
    NoMetadata,
    /// The metadata tell no modification time.
    NoTime,
}

/// What kind of thing a walk came to.
#[derive(Debug, Clone, Copy, PartialEq, Eq, Structural)]
pub enum EntryKind {
    Directory,
    File(MtimeReading),
    /// Neither a directory nor a regular file.
    Other,
}

/// One step of a walk of a tree.
#[derive(Debug)]
pub enum WalkItem {
    Entry { path: SyncPath, kind: EntryKind },
    /// The walk could not go on here.
    Failed,
}

/// Why a walk gives no snapshot.
#[derive(Debug, Clone, Copy, PartialEq, Eq, Structural)]
pub enum WalkFault {
    /// The walk failed.
    WalkFailed,
    /// The entry does not lie under the root.
    NotUnderRoot,
    /// The metadata of the file could not be read.
    NoMetadata,
    /// The metadata of the file tell no modification time.
    NoTime,
}

/// The step at which a walk went wrong, and how.
#[derive(Debug, Clone, Copy, PartialEq, Eq, Structural)]
pub struct SnapshotError {
    pub step: usize,
    pub fault: WalkFault,
}

/// What to do about an entry of a walk.
#[derive(Debug, PartialEq, Eq)]
pub enum Visit<P> {
    /// Leave it out.
    Skip,
    /// It is ignored: remember no more than its path below the root.
    Ignored(P),
    /// Record the directory, by its path below the root.
    Directory(P),
    /// Record the file, by its path below the root.
    File(P),
    /// Give up: it does not lie under the root.
    NotUnderRoot,
}

impl Visit<SyncPath> {
    pub open spec fn view(&self) -> Visit<PathView> {
        match self {
            Visit::Skip => Visit::Skip,
            Visit::Ignored(p) => Visit::Ignored(p@),
            Visit::Directory(p) => Visit::Directory(p@),
            Visit::File(p) => Visit::File(p@),
            Visit::NotUnderRoot => Visit::NotUnderRoot,
        }
    }
}

/// The root itself is left out, and so is what is neither a directory nor a regular file. What
/// the rules ignore is remembered as such; the rest is recorded.
pub open spec fn visit_of(
    rules: Option<IgnoredSet>,
    root: PathView,
    path: PathView,
    is_dir: bool,
    is_file: bool,
) -> Visit<PathView> {
    if path == root {
        Visit::Skip
    } else if ignored(rules, root, path, is_dir) {
        Visit::Ignored(path.skip(root.len() as int))
    } else if !root.is_prefix_of(path) {
        Visit::NotUnderRoot
    } else if is_dir {
        Visit::Directory(path.skip(root.len() as int))
    } else if is_file {
        Visit::File(path.skip(root.len() as int))
    } else {
        Visit::Skip
    }
}

/// Decides what to do about an entry of the walk of `root`.
pub fn visit_entry(
    gitignore: Option<&IgnoreRules>,
    root: &SyncPath,
    path: &SyncPath,
    is_dir: bool,
    is_file: bool,
) -> (r: Visit<SyncPath>)
    ensures
        r@ == visit_of(rules_view(gitignore), root@, path@, is_dir, is_file),
        r is NotUnderRoot <==> !root@.is_prefix_of(path@),
        match r {
            Visit::Skip => path@ == root@ || !is_dir && !is_file,
            Visit::Ignored(rel) => path@ == root@ + rel@ && rel@.len() > 0 && (
            gitignore matches Some(rules) && rules@.contains((path_bytes(rel@), is_dir))),
            Visit::Directory(rel) => path@ == root@ + rel@ && rel@.len() > 0 && is_dir && (
            gitignore matches Some(rules) ==> !rules@.contains((path_bytes(rel@), is_dir))),
            Visit::File(rel) => path@ == root@ + rel@ && rel@.len() > 0 && !is_dir && is_file && (
            gitignore matches Some(rules) ==> !rules@.contains((path_bytes(rel@), is_dir))),
            Visit::NotUnderRoot => true,
        },
{
    if path.same_as(root) {
        assert(root@.is_prefix_of(path@)) by {
            assert(path@.subrange(0, root@.len() as int) =~= root@);
        }
        return Visit::Skip;
    }
    proof {
        if root@.is_prefix_of(path@) {
            assert(path@ =~= root@ + path@.skip(root@.len() as int));
            assert(path@.skip(root@.len() as int).len() == 0 ==> path@ =~= root@);
        }
    }
    let is_ignored = ignored_by_gitignore(gitignore, root, path, is_dir);
    match relative_path(root, path) {
        Err(_) => Visit::NotUnderRoot,
        Ok(rel) => if is_ignored {
            Visit::Ignored(rel)
        } else if is_dir {
            Visit::Directory(rel)
        } else if is_file {
            Visit::File(rel)
        } else {
            Visit::Skip
        },
    }
}

/// Whether a walk of `root` goes on below this entry. It always goes on below the root.
pub fn keep_entry(
    gitignore: Option<&IgnoreRules>,
    root: &SyncPath,
    path: &SyncPath,
    depth: usize,
    is_dir: bool,
) -> (r: bool)
    ensures
        r == (depth == 0 || !ignored(rules_view(gitignore), root@, path@, is_dir)),
        r <==> depth == 0 || !root@.is_prefix_of(path@) || (gitignore matches Some(rules)
            ==> !rules@.contains((path_bytes(path@.skip(root@.len() as int)), is_dir))),
{
    depth == 0 || !ignored_by_gitignore(gitignore, root, path, is_dir)
}

/// What the rules and the root make of one step of a walk.
pub open spec fn item_visit(
    rules: Option<IgnoredSet>,
    root: PathView,
    item: WalkItem,
) -> Visit<PathView> {
    match item {
        WalkItem::Failed => Visit::Skip,
        WalkItem::Entry { path, kind } => visit_of(
            rules,
            root,
            path@,
            kind is Directory,
            kind is File,
        ),
    }
}

/// How a step goes wrong, if it does.
pub open spec fn item_fault(
    rules: Option<IgnoredSet>,
    root: PathView,
    item: WalkItem,
) -> Option<WalkFault> {
    match item {
        WalkItem::Failed => Some(WalkFault::WalkFailed),
        WalkItem::Entry { path, kind } => match item_visit(rules, root, item) {
            Visit::NotUnderRoot => Some(WalkFault::NotUnderRoot),
            Visit::File(_) => match kind->File_0 {
                MtimeReading::At(_) => None,
                MtimeReading::NoMetadata => Some(WalkFault::NoMetadata),
                MtimeReading::NoTime => Some(WalkFault::NoTime),
            },
            _ => None,
        },
    }
}

/// The snapshot with one step of a walk recorded.
pub open spec fn with_item(
    s: SnapshotView,
    rules: Option<IgnoredSet>,
    root: PathView,
    item: WalkItem,
) -> SnapshotView {
    match item_visit(rules, root, item) {
        Visit::Directory(rel) => SnapshotView { dirs: s.dirs.insert(rel), ..s },
        Visit::File(rel) => SnapshotView {
            files: s.files.insert(rel, item->kind->File_0->At_0@),
            ..s
        },
        Visit::Ignored(rel) => SnapshotView { ignored: s.ignored.insert(rel), ..s },
        _ => s,
    }
}

/// The snapshot that the first `n` steps of a walk record.
pub open spec fn recorded(
    rules: Option<IgnoredSet>,
    root: PathView,
    items: Seq<WalkItem>,
    n: nat,
) -> SnapshotView
    decreases n,
{
    if n == 0 {
        SnapshotView::empty()
    } else {
        with_item(recorded(rules, root, items, (n - 1) as nat), rules, root, items[n - 1])
    }
}

/// The first `n` steps of a walk go well.
pub open spec fn goes_well(
    rules: Option<IgnoredSet>,
    root: PathView,
    items: Seq<WalkItem>,
    n: int,
) -> bool {
    forall|i: int| 0 <= i < n ==> item_fault(rules, root, #[trigger] items[i]) is None
}

/// Adds a path to an ascending list, unless it is there.
fn record_path(paths: &mut Vec<SyncPath>, rel: SyncPath)
    requires
        ascending(paths_view(old(paths)@)),
    ensures
        ascending(paths_view(final(paths)@)),
        paths_view(final(paths)@).to_set() == paths_view(old(paths)@).to_set().insert(rel@),
{
    let ghost s = paths_view(paths@);
    match find(paths, &rel) {
        Ok(_) => {
            assert(s.to_set().insert(rel@) =~= s.to_set());
        },
        Err(i) => {
            let ghost p = rel@;
            paths.insert(i, rel);
            proof {
                lemma_insert_keeps_ascending(s, p, i);
                assert(paths_view(paths@) =~= s.insert(i as int, p));
                assert(paths_view(paths@).to_set() =~= s.to_set().insert(p));
            }
        },
    }
}

/// Sets the time of a file, and adds the file unless it is there.
fn record_file(
    files: &mut Vec<SyncPath>,
    times: &mut Vec<Timestamp>,
    rel: SyncPath,
    time: Timestamp,
)
    requires
        ascending(paths_view(old(files)@)),
        old(files).len() == old(times).len(),
    ensures
        ascending(paths_view(final(files)@)),
        final(files).len() == final(times).len(),
        times_by_path(paths_view(final(files)@), final(times)@) == times_by_path(
            paths_view(old(files)@),
            old(times)@,
        ).insert(rel@, time@),
{
    let ghost (s, t) = (paths_view(files@), times@);
    let ghost p = rel@;
    match find(files, &rel) {
        Ok(i) => {
            times.set(i, time);
            proof {
                let (m, n) = (times_by_path(s, t).insert(p, time@), times_by_path(s, times@));
                lemma_ascending_index(s, i as int);
                assert forall|q: PathView| s.contains(q) implies n[q] == m[q] by {
                    let k = s.index_of(q);
                    assert(0 <= k < s.len() && s[k] == q);
                }
                assert(n =~= m);
            }
        },
        Err(i) => {
            files.insert(i, rel);
            times.insert(i, time);
            proof {
                let u = s.insert(i as int, p);
                lemma_insert_keeps_ascending(s, p, i);
                lemma_stands_outside(s, p, i);
                assert(paths_view(files@) =~= u);
                let (m, n) = (times_by_path(s, t).insert(p, time@), times_by_path(u, times@));
                assert forall|q: PathView| u.contains(q) implies n[q] == m[q] by {
                    let k = u.index_of(q);
                    assert(0 <= k < u.len() && u[k] == q);
                    if k < i {
                        assert(s[k] == q);
                        lemma_ascending_index(s, k);
                    } else if k > i {
                        assert(s[k - 1] == q);
                        lemma_ascending_index(s, k - 1);
                    }
                }
                assert(n =~= m);
            }
        },
    }
}

/// Records the walk of the tree at `root`. A tree that does not exist holds nothing.
///
/// The first step that goes wrong ends it. Where two entries have one path, the later file's
/// time stands.
pub fn build_snapshot(
    root: &SyncPath,
    root_exists: bool,
    walk: &Vec<WalkItem>,
    gitignore: Option<&IgnoreRules>,
) -> (r: Result<Snapshot, SnapshotError>)
    ensures
        match r {
            Ok(s) => if root_exists {
                &&& goes_well(rules_view(gitignore), root@, walk@, walk@.len() as int)
                &&& s@ == recorded(rules_view(gitignore), root@, walk@, walk@.len())
            } else {
                s@ == SnapshotView::empty()
            },
            Err(e) => {
                &&& root_exists
                &&& e.step < walk@.len()
                &&& goes_well(rules_view(gitignore), root@, walk@, e.step as int)
                &&& item_fault(rules_view(gitignore), root@, walk@[e.step as int]) == Some(e.fault)
            },
        },
        r matches Ok(s) ==> s@.finite(),
        !root_exists ==> (r matches Ok(s) && s@.dirs == Set::<PathView>::empty() && s@.files
            == Map::<PathView, int>::empty() && s@.ignored == Set::<PathView>::empty()),
        (forall|i: int|
            0 <= i < walk@.len() ==> (#[trigger] walk@[i] matches WalkItem::Entry { path, kind }
                && root@.is_prefix_of(path@) && (kind matches EntryKind::File(reading)
                ==> reading is At || path@ == root@ || (gitignore matches Some(rules)
                && rules@.contains((path_bytes(path@.skip(root@.len() as int)), false))))))
            ==> r is Ok,
        r is Ok && root_exists ==> forall|i: int|
            0 <= i < walk@.len() && #[trigger] walk@[i] is Entry ==> wf_path(walk@[i]->path@),
        wf_path(root@),
{
    proof {
        use_type_invariant(root);
    }
    let mut dirs: Vec<SyncPath> = Vec::new();
    let mut files: Vec<SyncPath> = Vec::new();
    let mut times: Vec<Timestamp> = Vec::new();
    let mut ignored: Vec<SyncPath> = Vec::new();
    let ghost rules = rules_view(gitignore);
    assert(paths_view(dirs@).to_set() =~= Set::empty());
    assert(times_by_path(paths_view(files@), times@) =~= Map::empty());
    assert(paths_view(ignored@).to_set() =~= Set::empty());
    let mut i: usize = 0;
    while root_exists && i < walk.len()
        invariant
            rules == rules_view(gitignore),
            i <= walk.len(),
            !root_exists ==> i == 0,
            goes_well(rules, root@, walk@, i as int),
            ascending(paths_view(dirs@)),
            ascending(paths_view(files@)),
            files.len() == times.len(),
            ascending(paths_view(ignored@)),
            wf_path(root@),
            forall|j: int|
                0 <= j < i && #[trigger] walk@[j] is Entry ==> wf_path(walk@[j]->path@),
            recorded(rules, root@, walk@, i as nat) == (SnapshotView {
                dirs: paths_view(dirs@).to_set(),
                files: times_by_path(paths_view(files@), times@),
                ignored: paths_view(ignored@).to_set(),
            }),
        decreases walk.len() - i,
    {
        match &walk[i] {
            WalkItem::Failed => {
                return Err(SnapshotError { step: i, fault: WalkFault::WalkFailed });
            },
            WalkItem::Entry { path, kind } => {
                proof {
                    use_type_invariant(path);
                }
                let is_dir = matches!(kind, EntryKind::Directory);
                let is_file = matches!(kind, EntryKind::File(_));
                match visit_entry(gitignore, root, path, is_dir, is_file) {
                    Visit::Skip => {},
                    Visit::Ignored(rel) => {
                        record_path(&mut ignored, rel);
                    },
                    Visit::NotUnderRoot => {
                        return Err(SnapshotError { step: i, fault: WalkFault::NotUnderRoot });
                    },
                    Visit::Directory(rel) => {
                        record_path(&mut dirs, rel);
                    },
                    Visit::File(rel) => match kind {
                        EntryKind::File(MtimeReading::At(time)) => {
                            record_file(&mut files, &mut times, rel, *time);
                        },
                        EntryKind::File(MtimeReading::NoMetadata) => {
                            return Err(SnapshotError { step: i, fault: WalkFault::NoMetadata });
                        },
                        EntryKind::File(MtimeReading::NoTime) => {
                            return Err(SnapshotError { step: i, fault: WalkFault::NoTime });
                        },
                        _ => {},
                    },
                }
            },
        }
        i += 1;
    }
    let snapshot = Snapshot { dirs, files, times, ignored };
    proof {
        snapshot.lemma_is_finite();
    }
    Ok(snapshot)
}

} // verus!
