//! What a sync has to do: the comparison of two snapshots.

use vstd::prelude::*;
use vstd::relations::*;
use vstd::seq_lib::*;

use crate::listing::{
    ascending, before, deep_order, lemma_ascending_is_sorted_listing, lemma_push_contains,
    lemma_push_keeps_ascending, lies_above, paths_view, shallow_order,
};
use crate::listing::{deep_first, difference, find, is_above_any, shallow_first, without_above};
use crate::order::Comparison;
use crate::path::{join_view, lemma_path_order_is_total, path_le, path_order};
use crate::path::{path_depth, relative_path, PathView, SyncPath};
use crate::snapshot::lemma_ascending_index;
use crate::snapshot::{Snapshot, SnapshotView};
use crate::time::newer;
use crate::time::{is_newer_than_with_tolerance, Span};

verus! {

/// What a sync may do, and how it compares times.
#[derive(Debug, Clone, Copy, PartialEq, Eq, Structural)]
pub struct SyncOptions {
    /// Overwrite a target file when the source is newer.
    pub overwrite: bool,
    /// Create directories and files that the target lacks.
    pub new: bool,
    /// Delete directories and files that the source lacks.
    pub delete: bool,
    /// Report what would be done, and do nothing.
    pub dry_run: bool,
    /// How much newer than the target a source file has to be.
    pub tolerance: Span,
}

impl SyncOptions {
    /// The options for a set of command-line switches. Overwriting, creating and deleting are
    /// on unless switched off.
    pub fn from_switches(
        no_overwrite: bool,
        no_new: bool,
        no_delete: bool,
        dry_run: bool,
        tolerance: Span,
    ) -> (r: SyncOptions)
        ensures
            r == (SyncOptions {
                overwrite: !no_overwrite,
                new: !no_new,
                delete: !no_delete,
                dry_run,
                tolerance,
            }),
    {
        SyncOptions {
            overwrite: !no_overwrite,
            new: !no_new,
            delete: !no_delete,
            dry_run,
            tolerance,
        }
    }
}

/// A file to copy, and where to.
#[derive(Debug, PartialEq, Eq)]
pub struct PathPair {
    pub src: SyncPath,
    pub dst: SyncPath,
}

/// What a pair means.
pub struct PairView {
    pub src: PathView,
    pub dst: PathView,
}

impl View for PathPair {
    type V = PairView;

    open spec fn view(&self) -> PairView {
        PairView { src: self.src@, dst: self.dst@ }
    }
}

impl Clone for PathPair {
    fn clone(&self) -> (r: Self)
        ensures
            r@ == self@,
    {
        PathPair { src: self.src.clone(), dst: self.dst.clone() }
    }
}

/// Pairs by source, then by destination.
pub open spec fn pair_le(p: PairView, q: PairView) -> bool {
    ||| p.src != q.src && path_le(p.src, q.src)
    ||| p.src == q.src && path_le(p.dst, q.dst)
}

pub open spec fn pair_order() -> spec_fn(PairView, PairView) -> bool {
    |p: PairView, q: PairView| pair_le(p, q)
}

/// The pairs that the sequence `s` holds.
pub open spec fn pairs_view(s: Seq<PathPair>) -> Seq<PairView> {
    s.map_values(|p: PathPair| p@)
}

/// What a sync has to do.
#[derive(Debug, PartialEq, Eq)]
pub struct Plan {
    /// Files to overwrite.
    pub overwrite_pairs: Vec<PathPair>,
    /// Directories to create.
    pub new_dirs: Vec<SyncPath>,
    /// Files to copy to where the target has none.
    pub new_pairs: Vec<PathPair>,
    /// Files to delete.
    pub delete_files: Vec<SyncPath>,
    /// Directories to delete.
    pub delete_dirs: Vec<SyncPath>,
}

/// What a plan means.
#[verifier::ext_equal]
pub struct PlanView {
    pub overwrite_pairs: Seq<PairView>,
    pub new_dirs: Seq<PathView>,
    pub new_pairs: Seq<PairView>,
    pub delete_files: Seq<PathView>,
    pub delete_dirs: Seq<PathView>,
}

impl View for Plan {
    type V = PlanView;

    open spec fn view(&self) -> PlanView {
        PlanView {
            overwrite_pairs: pairs_view(self.overwrite_pairs@),
            new_dirs: paths_view(self.new_dirs@),
            new_pairs: pairs_view(self.new_pairs@),
            delete_files: paths_view(self.delete_files@),
            delete_dirs: paths_view(self.delete_dirs@),
        }
    }
}

impl PlanView {
    /// The plan that does nothing.
    pub open spec fn empty() -> PlanView {
        PlanView {
            overwrite_pairs: Seq::empty(),
            new_dirs: Seq::empty(),
            new_pairs: Seq::empty(),
            delete_files: Seq::empty(),
            delete_dirs: Seq::empty(),
        }
    }
}

/// The files of both trees that are newer in `src` by more than the tolerance.
pub open spec fn stale_files(src: SnapshotView, dst: SnapshotView, tolerance: int) -> Set<PathView> {
    Set::new(
        |p: PathView|
            src.files.contains_key(p) && dst.files.contains_key(p) && newer(
                src.files[p],
                dst.files[p],
                tolerance,
            ),
    )
}

/// The directories that only the target holds, but for those above something ignored, which
/// stays.
pub open spec fn extra_dirs(src: SnapshotView, dst: SnapshotView) -> Set<PathView> {
    Set::new(
        |p: PathView| dst.dirs.contains(p) && !src.dirs.contains(p) && !dst.shelters(p),
    )
}

/// The paths below `root` that the relative paths `rels` lead to.
pub open spec fn below(root: PathView, rels: Seq<PathView>) -> Seq<PathView> {
    rels.map_values(|rel: PathView| join_view(root, rel))
}

/// The relative path `rel` below both roots.
pub open spec fn pair_below(source: PathView, target: PathView, rel: PathView) -> PairView {
    PairView { src: join_view(source, rel), dst: join_view(target, rel) }
}

/// The relative paths `rels`, each below both roots.
pub open spec fn pairs_below(
    source: PathView,
    target: PathView,
    rels: Seq<PathView>,
) -> Seq<PairView> {
    rels.map_values(|rel: PathView| pair_below(source, target, rel))
}

/// The plan that takes the target tree towards the source tree.
///
/// Stale files are overwritten, sorted as pairs. What only the source holds is created, and
/// what only the target holds is deleted, but for directories above something ignored:
/// directories are created from the top down and deleted from the bottom up, files go in the
/// order of their paths. An option that is off leaves its part of the plan empty.
pub open spec fn plan_for(
    source: PathView,
    target: PathView,
    src: SnapshotView,
    dst: SnapshotView,
    opts: SyncOptions,
    tolerance: int,
) -> PlanView {
    PlanView {
        overwrite_pairs: if opts.overwrite {
            pairs_below(
                source,
                target,
                stale_files(src, dst, tolerance).to_sorted_seq(path_order()),
            ).sort_by(pair_order())
        } else {
            Seq::empty()
        },
        new_dirs: if opts.new {
            below(target, src.dirs.difference(dst.dirs).to_sorted_seq(shallow_order()))
        } else {
            Seq::empty()
        },
        new_pairs: if opts.new {
            pairs_below(
                source,
                target,
                src.files.dom().difference(dst.files.dom()).to_sorted_seq(path_order()),
            )
        } else {
            Seq::empty()
        },
        delete_files: if opts.delete {
            below(
                target,
                dst.files.dom().difference(src.files.dom()).to_sorted_seq(path_order()),
            )
        } else {
            Seq::empty()
        },
        delete_dirs: if opts.delete {
            below(target, extra_dirs(src, dst).to_sorted_seq(deep_order()))
        } else {
            Seq::empty()
        },
    }
}

pub proof fn lemma_pair_order_is_total()
    ensures
        total_ordering(pair_order()),
{
    lemma_path_order_is_total();
    let (le, ple) = (pair_order(), path_order());
    assert forall|p: PairView| #[trigger] le(p, p) by {
        assert(ple(p.dst, p.dst));
    }
    assert forall|p: PairView, q: PairView| #[trigger] le(p, q) && #[trigger] le(q, p) implies p
        == q by {
        if p.src != q.src {
            assert(ple(p.src, q.src) && ple(q.src, p.src));
        } else {
            assert(ple(p.dst, q.dst) && ple(q.dst, p.dst));
        }
    }
    assert forall|p: PairView, q: PairView, r: PairView| #[trigger] le(p, q) && #[trigger] le(
        q,
        r,
    ) implies le(p, r) by {
        if p.src == q.src && q.src == r.src {
            assert(ple(p.dst, q.dst) && ple(q.dst, r.dst));
            assert(ple(p.dst, r.dst));
        } else if p.src != q.src && q.src != r.src {
            assert(ple(p.src, q.src) && ple(q.src, r.src));
            assert(ple(p.src, r.src));
            if p.src == r.src {
                assert(ple(q.src, p.src));
            }
        }
    }
    assert forall|p: PairView, q: PairView| #[trigger] le(p, q) || #[trigger] le(q, p) by {
        assert(ple(p.src, q.src) || ple(q.src, p.src));
        assert(ple(p.dst, q.dst) || ple(q.dst, p.dst));
    }
}

impl PathPair {
    /// Whether this pair stands no later than `other`.
    fn stands_first(&self, other: &PathPair) -> (r: bool)
        ensures
            r == pair_le(self@, other@),
    {
        proof {
            lemma_path_order_is_total();
        }
        let ghost ple = path_order();
        match self.src.compare(&other.src) {
            Comparison::Before => true,
            Comparison::After => {
                assert(ple(other.src@, self.src@));
                assert(!ple(self.src@, other.src@));
                false
            },
            Comparison::Same => match self.dst.compare(&other.dst) {
                Comparison::Before => true,
                Comparison::Same => {
                    assert(ple(self.dst@, other.dst@));
                    true
                },
                Comparison::After => {
                    assert(ple(other.dst@, self.dst@));
                    assert(!ple(self.dst@, other.dst@));
                    false
                },
            },
        }
    }
}

/// Inserts a pair into a sorted list, behind all that stand no later.
fn insert_pair(v: &mut Vec<PathPair>, pair: PathPair)
    requires
        sorted_by(pairs_view(old(v)@), pair_order()),
    ensures
        sorted_by(pairs_view(final(v)@), pair_order()),
        pairs_view(final(v)@).to_multiset() == pairs_view(old(v)@).to_multiset().insert(pair@),
{
    let ghost s = pairs_view(v@);
    let ghost le = pair_order();
    let ghost p = pair@;
    proof {
        lemma_pair_order_is_total();
    }
    let mut i: usize = v.len();
    while i > 0 && !v[i - 1].stands_first(&pair)
        invariant
            s == pairs_view(v@),
            le == pair_order(),
            p == pair@,
            total_ordering(le),
            i <= v.len(),
            forall|j: int| i <= j < v.len() ==> le(p, #[trigger] s[j]),
        decreases i,
    {
        assert(s[i - 1] == v@[i - 1]@);
        assert(!le(s[i - 1], p));
        assert(le(p, s[i - 1]));
        i -= 1;
    }
    assert(i > 0 ==> s[i - 1] == v@[i - 1]@);
    v.insert(i, pair);
    let ghost t = pairs_view(v@);
    assert(t =~= s.insert(i as int, p));
    assert forall|a: int, b: int| 0 <= a < b < t.len() implies #[trigger] le(t[a], t[b]) by {
        if b < i {
            assert(le(s[a], s[b]));
        } else if b == i {
            assert(t[b] == p && t[a] == s[a]);
            assert(le(s[i - 1], p));
            if a < i - 1 {
                assert(le(s[a], s[i - 1]));
            }
        } else if a < i {
            assert(le(s[a], s[b - 1]));
        } else if a == i {
            assert(le(p, s[b - 1]));
        } else {
            assert(le(s[a - 1], s[b - 1]));
        }
    }
    proof {
        broadcast use vstd::seq_lib::group_to_multiset_ensures;

    }
}

/// The stale files, each below both roots, sorted as pairs.
fn stale_pairs(
    source: &SyncPath,
    target: &SyncPath,
    src: &Snapshot,
    dst: &Snapshot,
    tolerance: Span,
) -> (r: Vec<PathPair>)
    ensures
        pairs_view(r@) == pairs_below(
            source@,
            target@,
            stale_files(src@, dst@, tolerance@).to_sorted_seq(path_order()),
        ).sort_by(pair_order()),
{
    let (src_files, src_times) = src.file_list();
    let (dst_files, dst_times) = dst.file_list();
    let ghost (s, d) = (paths_view(src_files@), paths_view(dst_files@));
    let ghost stale = stale_files(src@, dst@, tolerance@);
    let ghost mut rels: Seq<PathView> = Seq::empty();
    let mut r: Vec<PathPair> = Vec::new();
    let mut i: usize = 0;
    assert(pairs_view(r@) =~= pairs_below(source@, target@, rels));
    while i < src_files.len()
        invariant
            s == paths_view(src_files@),
            d == paths_view(dst_files@),
            ascending(s),
            ascending(d),
            src_files.len() == src_times.len(),
            dst_files.len() == dst_times.len(),
            src@.files == crate::snapshot::times_by_path(s, src_times@),
            dst@.files == crate::snapshot::times_by_path(d, dst_times@),
            stale == stale_files(src@, dst@, tolerance@),
            i <= src_files.len(),
            ascending(rels),
            forall|p: PathView| #[trigger]
                rels.contains(p) <==> s.take(i as int).contains(p) && stale.contains(p),
            sorted_by(pairs_view(r@), pair_order()),
            pairs_view(r@).to_multiset() == pairs_below(source@, target@, rels).to_multiset(),
        decreases src_files.len() - i,
    {
        let ghost p = s[i as int];
        let ghost held = rels;
        assert(p == src_files@[i as int]@);
        assert(s.take(i + 1) =~= s.take(i as int).push(p));
        assert(s.contains(p));
        proof {
            lemma_ascending_index(s, i as int);
        }
        let ghost mut joined = false;
        match find(dst_files, &src_files[i]) {
            Ok(j) => {
                proof {
                    assert(d.contains(p));
                    lemma_ascending_index(d, j as int);
                }
                assert(src@.files[p] == src_times@[i as int]@);
                assert(dst@.files[p] == dst_times@[j as int]@);
                if is_newer_than_with_tolerance(src_times[i], dst_times[j], tolerance) {
                    let pair = PathPair {
                        src: source.join(&src_files[i]),
                        dst: target.join(&src_files[i]),
                    };
                    assert(pair@ == pair_below(source@, target@, p));
                    insert_pair(&mut r, pair);
                    proof {
                        broadcast use vstd::seq_lib::group_to_multiset_ensures;

                        joined = true;
                        rels = rels.push(p);
                        assert(pairs_below(source@, target@, rels) =~= pairs_below(
                            source@,
                            target@,
                            held,
                        ).push(pair@));
                        assert forall|k: int| 0 <= k < held.len() implies before(
                            #[trigger] held[k],
                            p,
                        ) by {
                            assert(held.contains(held[k]));
                            let m = choose|m: int| 0 <= m < i && s.take(i as int)[m] == held[k];
                            assert(before(s[m], s[i as int]));
                        }
                        lemma_push_keeps_ascending(held, p);
                    }
                }
            },
            Err(_) => {},
        }
        assert(joined == stale.contains(p));
        assert forall|q: PathView| #[trigger] rels.contains(q) <==> s.take(i + 1).contains(q)
            && stale.contains(q) by {
            lemma_push_contains(s.take(i as int), p, q);
            lemma_push_contains(held, p, q);
        }
        i += 1;
    }
    proof {
        assert(s.take(i as int) =~= s);
        assert forall|q: PathView| rels.contains(q) <==> stale.contains(q) by {
            assert(s.to_set().contains(q) == src@.files.dom().contains(q));
        }
        lemma_ascending_is_sorted_listing(rels, stale);
        lemma_pair_order_is_total();
        let all = pairs_below(source@, target@, rels);
        all.lemma_sort_by_ensures(pair_order());
        lemma_sorted_unique(pairs_view(r@), all.sort_by(pair_order()), pair_order());
    }
    r
}

/// The relative paths `rels`, each below `root`.
fn paths_below(root: &SyncPath, rels: &Vec<SyncPath>) -> (r: Vec<SyncPath>)
    ensures
        paths_view(r@) == below(root@, paths_view(rels@)),
{
    let mut r: Vec<SyncPath> = Vec::new();
    let mut i: usize = 0;
    while i < rels.len()
        invariant
            i <= rels.len(),
            paths_view(r@) =~= below(root@, paths_view(rels@)).take(i as int),
        decreases rels.len() - i,
    {
        let ghost held = r@;
        let path = root.join(&rels[i]);
        r.push(path);
        assert(paths_view(r@) =~= paths_view(held).push(path@));
        assert(paths_view(rels@)[i as int] == rels@[i as int]@);
        i += 1;
    }
    r
}

/// The relative paths `rels`, each below both roots.
fn path_pairs_below(source: &SyncPath, target: &SyncPath, rels: &Vec<SyncPath>) -> (r: Vec<PathPair>)
    ensures
        pairs_view(r@) == pairs_below(source@, target@, paths_view(rels@)),
{
    let mut r: Vec<PathPair> = Vec::new();
    let mut i: usize = 0;
    while i < rels.len()
        invariant
            i <= rels.len(),
            pairs_view(r@) =~= pairs_below(source@, target@, paths_view(rels@)).take(i as int),
        decreases rels.len() - i,
    {
        let ghost held = r@;
        let pair = PathPair { src: source.join(&rels[i]), dst: target.join(&rels[i]) };
        r.push(pair);
        assert(pairs_view(r@) =~= pairs_view(held).push(pair@));
        assert(paths_view(rels@)[i as int] == rels@[i as int]@);
        i += 1;
    }
    r
}

/// Compares two snapshots into the plan that takes the target towards the source.
pub fn build_plan(
    source: &SyncPath,
    target: &SyncPath,
    src: &Snapshot,
    dst: &Snapshot,
    opts: &SyncOptions,
    tolerance: Span,
) -> (plan: Plan)
    ensures
        plan@ == plan_for(source@, target@, src@, dst@, *opts, tolerance@),
        src@.finite(),
        dst@.finite(),
{
    let mut plan = Plan {
        overwrite_pairs: Vec::new(),
        new_dirs: Vec::new(),
        new_pairs: Vec::new(),
        delete_files: Vec::new(),
        delete_dirs: Vec::new(),
    };
    assert(plan@ =~= PlanView::empty());
    let src_dirs = src.dir_list();
    let dst_dirs = dst.dir_list();
    let (src_files, _) = src.file_list();
    let (dst_files, _) = dst.file_list();
    if opts.overwrite {
        plan.overwrite_pairs = stale_pairs(source, target, src, dst, tolerance);
    }
    if opts.new {
        let dirs = difference(src_dirs, dst_dirs);
        let dirs = shallow_first(&dirs);
        plan.new_dirs = paths_below(target, &dirs);
        let files = difference(src_files, dst_files);
        plan.new_pairs = path_pairs_below(source, target, &files);
    }
    if opts.delete {
        let files = difference(dst_files, src_files);
        plan.delete_files = paths_below(target, &files);
        let extra = difference(dst_dirs, src_dirs);
        let ignored = dst.ignored_list();
        let dirs = without_above(&extra, ignored);
        proof {
            let (e, g, d) = (paths_view(extra@), paths_view(ignored@), paths_view(dirs@));
            assert forall|p: PathView| lies_above(g, p) == dst@.shelters(p) by {
                lemma_lists_shelters(dst@, g, p);
            }
            assert forall|p: PathView| d.to_set().contains(p) == extra_dirs(src@, dst@).contains(
                p,
            ) by {
                assert(e.to_set().contains(p) == (dst@.dirs.contains(p) && !src@.dirs.contains(p)));
            }
            assert(d.to_set() =~= extra_dirs(src@, dst@));
        }
        let dirs = deep_first(&dirs);
        plan.delete_dirs = paths_below(target, &dirs);
    }
    plan
}

/// The directory or the file `rel` is missing from the target, so that it is to be created.
pub open spec fn is_missing(src: SnapshotView, dst: SnapshotView, rel: PathView) -> bool {
    ||| src.dirs.contains(rel) && !dst.dirs.contains(rel)
    ||| src.files.contains_key(rel) && !dst.files.contains_key(rel)
}

/// Something is to be created at `place`, and what the target has there can be deleted: it is not
/// a directory above something ignored.
pub open spec fn is_vacated(src: SnapshotView, dst: SnapshotView, place: PathView) -> bool {
    is_missing(src, dst, place) && !(dst.dirs.contains(place) && dst.shelters(place))
}

/// What is at `rel` is at or below a place that is vacated for something to be created.
pub open spec fn obstructs(src: SnapshotView, dst: SnapshotView, rel: PathView) -> bool {
    exists|k: int| 0 < k <= rel.len() && is_vacated(src, dst, #[trigger] rel.take(k))
}

/// With creating and deleting on, what is at `p` has to go before something can be created.
pub open spec fn is_obstacle(
    target: PathView,
    src: SnapshotView,
    dst: SnapshotView,
    opts: SyncOptions,
    p: PathView,
) -> bool {
    opts.new && opts.delete && target.is_prefix_of(p) && obstructs(
        src,
        dst,
        p.skip(target.len() as int),
    )
}

/// The deletion of the file at `p` is planned, for a directory to be created in its place.
pub open spec fn is_replaced(
    target: PathView,
    src: SnapshotView,
    dst: SnapshotView,
    opts: SyncOptions,
    p: PathView,
) -> bool {
    let rel = p.skip(target.len() as int);
    opts.new && opts.delete && target.is_prefix_of(p) && dst.files.contains_key(rel)
        && !src.files.contains_key(rel)
}

/// The paths for which `is_obstacle` has this answer.
pub open spec fn obstacle_filter(
    target: PathView,
    src: SnapshotView,
    dst: SnapshotView,
    opts: SyncOptions,
    answer: bool,
) -> spec_fn(PathView) -> bool {
    |p: PathView| is_obstacle(target, src, dst, opts, p) == answer
}

/// The part of a plan that comes first: overwriting, and deleting what is in the way.
pub open spec fn first_part(
    plan: PlanView,
    target: PathView,
    src: SnapshotView,
    dst: SnapshotView,
    opts: SyncOptions,
) -> PlanView {
    let obstacles = obstacle_filter(target, src, dst, opts, true);
    PlanView {
        overwrite_pairs: plan.overwrite_pairs,
        new_dirs: Seq::empty(),
        new_pairs: Seq::empty(),
        delete_files: plan.delete_files.filter(obstacles),
        delete_dirs: plan.delete_dirs.filter(obstacles),
    }
}

/// The part of a plan that comes second: creating, and deleting what is not in the way.
pub open spec fn second_part(
    plan: PlanView,
    target: PathView,
    src: SnapshotView,
    dst: SnapshotView,
    opts: SyncOptions,
) -> PlanView {
    let others = obstacle_filter(target, src, dst, opts, false);
    PlanView {
        overwrite_pairs: Seq::empty(),
        new_dirs: plan.new_dirs,
        new_pairs: plan.new_pairs,
        delete_files: plan.delete_files.filter(others),
        delete_dirs: plan.delete_dirs.filter(others),
    }
}

pub proof fn lemma_filter_push<T>(s: Seq<T>, x: T, f: spec_fn(T) -> bool)
    ensures
        s.push(x).filter(f) == if f(x) {
            s.filter(f).push(x)
        } else {
            s.filter(f)
        },
{
    reveal(Seq::filter);
    assert(s.push(x).drop_last() =~= s);
}

pub proof fn lemma_filter_contains<T>(s: Seq<T>, x: T, f: spec_fn(T) -> bool)
    ensures
        s.filter(f).contains(x) <==> s.contains(x) && f(x),
    decreases s.len(),
{
    if s.len() == 0 {
        reveal(Seq::filter);
    } else {
        let (rest, last) = (s.drop_last(), s.last());
        assert(s =~= rest.push(last));
        lemma_filter_contains(rest, x, f);
        lemma_filter_push(rest, last, f);
        lemma_push_contains(rest, last, x);
        lemma_push_contains(rest.filter(f), last, x);
    }
}

/// Whether `place` is a directory above something ignored.
fn keeps_ignored(dst: &Snapshot, place: &SyncPath) -> (r: bool)
    ensures
        r == (dst@.dirs.contains(place@) && dst@.shelters(place@)),
{
    let ignored = dst.ignored_list();
    proof {
        lemma_lists_shelters(dst@, paths_view(ignored@), place@);
    }
    dst.contains_dir(place) && is_above_any(place, ignored)
}

/// The list of what is ignored tells what is above something ignored.
proof fn lemma_lists_shelters(dst: SnapshotView, tops: Seq<PathView>, p: PathView)
    requires
        tops.to_set() == dst.ignored,
    ensures
        lies_above(tops, p) == dst.shelters(p),
{
    if lies_above(tops, p) {
        let top = choose|top: PathView| #[trigger]
            tops.contains(top) && p.is_prefix_of(top) && p != top;
        assert(dst.ignored.contains(top));
    }
    if dst.shelters(p) {
        let top = choose|top: PathView| #[trigger]
            dst.ignored.contains(top) && p.is_prefix_of(top) && p != top;
        assert(tops.to_set().contains(top));
    }
}

fn stands_in_the_way(
    target: &SyncPath,
    src: &Snapshot,
    dst: &Snapshot,
    opts: &SyncOptions,
    p: &SyncPath,
) -> (r: bool)
    ensures
        r == is_obstacle(target@, src@, dst@, *opts, p@),
{
    if !opts.new || !opts.delete {
        return false;
    }
    match relative_path(target, p) {
        Err(_) => false,
        Ok(rel) => {
            let n = path_depth(&rel);
            let mut k: usize = 1;
            while k <= n
                invariant
                    1 <= k <= n + 1,
                    n == rel@.len(),
                    opts.new && opts.delete,
                    target@.is_prefix_of(p@),
                    rel@ == p@.skip(target@.len() as int),
                    forall|j: int|
                        0 < j < k ==> !is_vacated(src@, dst@, #[trigger] rel@.take(j)),
                decreases n + 1 - k,
            {
                let place = rel.start(k);
                let dir_missing = src.contains_dir(&place) && !dst.contains_dir(&place);
                let file_missing = src.file_mtime(&place).is_some() && dst.file_mtime(
                    &place,
                ).is_none();
                if (dir_missing || file_missing) && !keeps_ignored(dst, &place) {
                    assert(is_vacated(src@, dst@, rel@.take(k as int)));
                    return true;
                }
                if k == n {
                    return false;
                }
                k += 1;
            }
            false
        },
    }
}

/// Whether the deletion of the file at `p` is planned, for a directory in its place.
pub(crate) fn gets_replaced(
    target: &SyncPath,
    src: &Snapshot,
    dst: &Snapshot,
    opts: &SyncOptions,
    p: &SyncPath,
) -> (r: bool)
    ensures
        r == is_replaced(target@, src@, dst@, *opts, p@),
{
    if !opts.new || !opts.delete {
        return false;
    }
    match relative_path(target, p) {
        Err(_) => false,
        Ok(rel) => dst.file_mtime(&rel).is_some() && src.file_mtime(&rel).is_none(),
    }
}

/// Parts paths into those that are in the way and the others, each in their order.
fn part_obstacles(
    target: &SyncPath,
    src: &Snapshot,
    dst: &Snapshot,
    opts: &SyncOptions,
    paths: &Vec<SyncPath>,
) -> (r: (Vec<SyncPath>, Vec<SyncPath>))
    ensures
        paths_view(r.0@) == paths_view(paths@).filter(
            obstacle_filter(target@, src@, dst@, *opts, true),
        ),
        paths_view(r.1@) == paths_view(paths@).filter(
            obstacle_filter(target@, src@, dst@, *opts, false),
        ),
{
    let ghost s = paths_view(paths@);
    let ghost yes = obstacle_filter(target@, src@, dst@, *opts, true);
    let ghost no = obstacle_filter(target@, src@, dst@, *opts, false);
    let mut first: Vec<SyncPath> = Vec::new();
    let mut second: Vec<SyncPath> = Vec::new();
    let mut i: usize = 0;
    proof {
        reveal(Seq::filter);
        assert(paths_view(first@) =~= s.take(0).filter(yes));
        assert(paths_view(second@) =~= s.take(0).filter(no));
    }
    while i < paths.len()
        invariant
            s == paths_view(paths@),
            yes == obstacle_filter(target@, src@, dst@, *opts, true),
            no == obstacle_filter(target@, src@, dst@, *opts, false),
            i <= paths.len(),
            paths_view(first@) == s.take(i as int).filter(yes),
            paths_view(second@) == s.take(i as int).filter(no),
        decreases paths.len() - i,
    {
        let ghost (a, b) = (paths_view(first@), paths_view(second@));
        let path = paths[i].clone();
        let ghost p = path@;
        proof {
            assert(s[i as int] == paths@[i as int]@);
            assert(s.take(i + 1) =~= s.take(i as int).push(p));
            lemma_filter_push(s.take(i as int), p, yes);
            lemma_filter_push(s.take(i as int), p, no);
        }
        if stands_in_the_way(target, src, dst, opts, &path) {
            first.push(path);
            assert(paths_view(first@) =~= a.push(p));
        } else {
            second.push(path);
            assert(paths_view(second@) =~= b.push(p));
        }
        i += 1;
    }
    assert(s.take(i as int) =~= s);
    (first, second)
}

/// Parts a plan into what comes first and what comes second.
pub(crate) fn part_plan(
    plan: Plan,
    target: &SyncPath,
    src: &Snapshot,
    dst: &Snapshot,
    opts: &SyncOptions,
) -> (r: (Plan, Plan))
    ensures
        r.0@ == first_part(plan@, target@, src@, dst@, *opts),
        r.1@ == second_part(plan@, target@, src@, dst@, *opts),
{
    let (files_first, files_second) = part_obstacles(target, src, dst, opts, &plan.delete_files);
    let (dirs_first, dirs_second) = part_obstacles(target, src, dst, opts, &plan.delete_dirs);
    let first = Plan {
        overwrite_pairs: plan.overwrite_pairs,
        new_dirs: Vec::new(),
        new_pairs: Vec::new(),
        delete_files: files_first,
        delete_dirs: dirs_first,
    };
    let second = Plan {
        overwrite_pairs: Vec::new(),
        new_dirs: plan.new_dirs,
        new_pairs: plan.new_pairs,
        delete_files: files_second,
        delete_dirs: dirs_second,
    };
    assert(first@ =~= first_part(plan@, target@, src@, dst@, *opts));
    assert(second@ =~= second_part(plan@, target@, src@, dst@, *opts));
    (first, second)
}

} // verus!
