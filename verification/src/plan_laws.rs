//! What a plan holds, told by the two snapshots alone.

use vstd::prelude::*;
use vstd::relations::*;

use crate::laws::{
    lemma_below_contains, lemma_extra_dirs_are_finite, lemma_pairs_below_contains,
    lemma_place_in_list, proper,
};
use crate::listing::{
    deep_order, lemma_deep_order_is_total, lemma_shallow_order_is_total, shallow_order,
};
use crate::order::lemma_to_sorted_seq;
use crate::path::{
    descends, join_view, law_join_is_under_root, law_join_keeps_order, lemma_path_order_is_total,
    path_le, path_order,
};
use crate::path::PathView;
use crate::plan::{
    below, extra_dirs, lemma_pair_order_is_total, pair_order, pairs_below, plan_for, stale_files,
};
use crate::plan::{PairView, SyncOptions};
use crate::snapshot::SnapshotView;
use crate::time::Span;

verus! {

proof fn lemma_stale_is_finite(src: SnapshotView, dst: SnapshotView, tolerance: int)
    requires
        src.finite(),
    ensures
        stale_files(src, dst, tolerance).finite(),
{
    let stale = stale_files(src, dst, tolerance);
    assert(stale.subset_of(src.files.dom()));
    vstd::set_lib::lemma_set_subset_finite(src.files.dom(), stale);
}

proof fn lemma_listed_below(
    root: PathView,
    set: Set<PathView>,
    le: spec_fn(PathView, PathView) -> bool,
    rel: PathView,
)
    requires
        total_ordering(le),
        set.finite(),
        forall|p: PathView| #[trigger] set.contains(p) ==> descends(p),
        descends(rel),
    ensures
        below(root, set.to_sorted_seq(le)).contains(root + rel) <==> set.contains(rel),
{
    lemma_to_sorted_seq(set, le);
    law_join_is_under_root(root, rel);
    lemma_place_in_list(root, set.to_sorted_seq(le), rel);
}

proof fn lemma_paired_below(
    source: PathView,
    target: PathView,
    rels: Seq<PathView>,
    rel: PathView,
)
    requires
        forall|p: PathView| #[trigger] rels.contains(p) ==> descends(p),
        descends(rel),
    ensures
        pairs_below(source, target, rels).contains(
            (PairView { src: source + rel, dst: target + rel }),
        ) <==> rels.contains(rel),
{
    let pairs = pairs_below(source, target, rels);
    let pair = PairView { src: source + rel, dst: target + rel };
    law_join_is_under_root(source, rel);
    law_join_is_under_root(target, rel);
    if rels.contains(rel) {
        let k = choose|k: int| 0 <= k < rels.len() && rels[k] == rel;
        assert(pairs[k] == pair);
    }
    if pairs.contains(pair) {
        let other = lemma_pairs_below_contains(source, target, rels, pair);
        law_join_is_under_root(source, other);
    }
}

proof fn lemma_sorting_keeps_pairs(pairs: Seq<PairView>, pair: PairView)
    ensures
        pairs.sort_by(pair_order()).contains(pair) <==> pairs.contains(pair),
{
    broadcast use vstd::seq_lib::group_to_multiset_ensures;

    lemma_pair_order_is_total();
    pairs.lemma_sort_by_ensures(pair_order());
    assert(pairs.to_multiset().contains(pair) == pairs.sort_by(pair_order()).to_multiset().contains(
        pair,
    ));
}

/// A file is overwritten exactly when overwriting is on, both trees hold it, and the source's is
/// newer by more than the tolerance.
pub proof fn law_plan_overwrites_what_is_newer(
    source: PathView,
    target: PathView,
    src: SnapshotView,
    dst: SnapshotView,
    opts: SyncOptions,
    tolerance: int,
    rel: PathView,
)
    requires
        src.finite(),
        proper(src),
        descends(rel),
    ensures
        plan_for(source, target, src, dst, opts, tolerance).overwrite_pairs.contains(
            (PairView { src: source + rel, dst: target + rel }),
        ) <==> opts.overwrite && src.files.contains_key(rel) && dst.files.contains_key(rel)
            && src.files[rel] - dst.files[rel] > tolerance,
{
    let stale = stale_files(src, dst, tolerance);
    lemma_stale_is_finite(src, dst, tolerance);
    lemma_path_order_is_total();
    lemma_to_sorted_seq(stale, path_order());
    let rels = stale.to_sorted_seq(path_order());
    assert forall|p: PathView| #[trigger] rels.contains(p) implies descends(p) by {
        assert(src.files.contains_key(p));
    }
    lemma_paired_below(source, target, rels, rel);
    lemma_sorting_keeps_pairs(
        pairs_below(source, target, rels),
        PairView { src: source + rel, dst: target + rel },
    );
    assert(stale.contains(rel) <==> src.files.contains_key(rel) && dst.files.contains_key(rel)
        && src.files[rel] - dst.files[rel] > tolerance);
}

/// What a plan overwrites is a file of both trees, under one relative path, that is newer in the
/// source by more than the tolerance. It is never the other way about.
pub proof fn law_overwritten_is_newer(
    source: PathView,
    target: PathView,
    src: SnapshotView,
    dst: SnapshotView,
    opts: SyncOptions,
    tolerance: int,
    pair: PairView,
) -> (rel: PathView)
    requires
        src.finite(),
        proper(src),
        plan_for(source, target, src, dst, opts, tolerance).overwrite_pairs.contains(pair),
    ensures
        opts.overwrite,
        pair.src == source + rel,
        pair.dst == target + rel,
        src.files.contains_key(rel),
        dst.files.contains_key(rel),
        src.files[rel] - dst.files[rel] > tolerance,
{
    let stale = stale_files(src, dst, tolerance);
    lemma_stale_is_finite(src, dst, tolerance);
    lemma_path_order_is_total();
    lemma_to_sorted_seq(stale, path_order());
    let rels = stale.to_sorted_seq(path_order());
    lemma_sorting_keeps_pairs(pairs_below(source, target, rels), pair);
    let rel = lemma_pairs_below_contains(source, target, rels, pair);
    assert(src.files.contains_key(rel));
    law_join_is_under_root(source, rel);
    law_join_is_under_root(target, rel);
    law_plan_overwrites_what_is_newer(source, target, src, dst, opts, tolerance, rel);
    rel
}

/// A file that is not later in the source than in the target is in no pair to overwrite.
pub proof fn law_up_to_date_is_not_overwritten(
    source: PathView,
    target: PathView,
    src: SnapshotView,
    dst: SnapshotView,
    opts: SyncOptions,
    tolerance: Span,
    rel: PathView,
    pair: PairView,
)
    requires
        src.finite(),
        proper(src),
        dst.files.contains_key(rel),
        src.files.contains_key(rel) ==> src.files[rel] <= dst.files[rel],
        plan_for(source, target, src, dst, opts, tolerance@).overwrite_pairs.contains(pair),
    ensures
        pair.src != source + rel,
        pair.dst != target + rel,
{
    let x = law_overwritten_is_newer(source, target, src, dst, opts, tolerance@, pair);
    if pair.src == source + rel {
        assert((source + x).skip(source.len() as int) =~= x);
        assert((source + rel).skip(source.len() as int) =~= rel);
    }
    if pair.dst == target + rel {
        assert((target + x).skip(target.len() as int) =~= x);
        assert((target + rel).skip(target.len() as int) =~= rel);
    }
}

/// A larger tolerance overwrites no more.
pub proof fn law_tolerance_spares(
    source: PathView,
    target: PathView,
    src: SnapshotView,
    dst: SnapshotView,
    opts: SyncOptions,
    less: int,
    more: int,
    pair: PairView,
)
    requires
        src.finite(),
        proper(src),
        less <= more,
        plan_for(source, target, src, dst, opts, more).overwrite_pairs.contains(pair),
    ensures
        plan_for(source, target, src, dst, opts, less).overwrite_pairs.contains(pair),
{
    let rel = law_overwritten_is_newer(source, target, src, dst, opts, more, pair);
    law_plan_overwrites_what_is_newer(source, target, src, dst, opts, less, rel);
    assert(pair == PairView { src: source + rel, dst: target + rel });
}

/// What a plan creates is what only the source holds, and what it deletes is what only the target
/// holds, each exactly where its option is on; but a directory with something ignored below it is
/// not deleted.
pub proof fn law_plan_creates_and_deletes_what_differs(
    source: PathView,
    target: PathView,
    src: SnapshotView,
    dst: SnapshotView,
    opts: SyncOptions,
    tolerance: int,
    rel: PathView,
)
    requires
        src.finite(),
        dst.finite(),
        proper(src),
        proper(dst),
        descends(rel),
    ensures
        ({
            let plan = plan_for(source, target, src, dst, opts, tolerance);
            &&& plan.new_dirs.contains(target + rel) <==> opts.new && src.dirs.contains(rel)
                && !dst.dirs.contains(rel)
            &&& plan.new_pairs.contains((PairView { src: source + rel, dst: target + rel }))
                <==> opts.new && src.files.contains_key(rel) && !dst.files.contains_key(rel)
            &&& plan.delete_files.contains(target + rel) <==> opts.delete && dst.files.contains_key(
                rel,
            ) && !src.files.contains_key(rel)
            &&& plan.delete_dirs.contains(target + rel) <==> opts.delete && dst.dirs.contains(rel)
                && !src.dirs.contains(rel) && forall|e: PathView| #[trigger]
                dst.ignored.contains(e) && rel.is_prefix_of(e) ==> e == rel
        }),
{
    lemma_path_order_is_total();
    lemma_shallow_order_is_total();
    lemma_deep_order_is_total();
    lemma_extra_dirs_are_finite(src, dst);
    lemma_listed_below(target, src.dirs.difference(dst.dirs), shallow_order(), rel);
    lemma_listed_below(target, dst.files.dom().difference(src.files.dom()), path_order(), rel);
    lemma_listed_below(target, extra_dirs(src, dst), deep_order(), rel);
    let files = src.files.dom().difference(dst.files.dom());
    lemma_to_sorted_seq(files, path_order());
    lemma_paired_below(source, target, files.to_sorted_seq(path_order()), rel);
}

/// Every path that a plan names leads down from its root, and the two paths of a pair lead down
/// alike.
pub proof fn law_plan_names_paths_below_the_roots(
    source: PathView,
    target: PathView,
    src: SnapshotView,
    dst: SnapshotView,
    opts: SyncOptions,
    tolerance: int,
    p: PathView,
    pair: PairView,
)
    requires
        src.finite(),
        dst.finite(),
        proper(src),
        proper(dst),
    ensures
        ({
            let plan = plan_for(source, target, src, dst, opts, tolerance);
            &&& plan.new_dirs.contains(p) || plan.delete_files.contains(p)
                || plan.delete_dirs.contains(p) ==> descends(p.skip(target.len() as int)) && p
                == target + p.skip(target.len() as int) && p.len() > target.len()
            &&& plan.new_pairs.contains(pair) || plan.overwrite_pairs.contains(pair) ==> {
                let rel = pair.dst.skip(target.len() as int);
                &&& descends(rel)
                &&& rel.len() > 0
                &&& pair.dst == target + rel
                &&& pair.src == source + rel
            }
        }),
{
    let plan = plan_for(source, target, src, dst, opts, tolerance);
    lemma_path_order_is_total();
    lemma_shallow_order_is_total();
    lemma_deep_order_is_total();
    lemma_extra_dirs_are_finite(src, dst);
    if plan.new_dirs.contains(p) {
        let set = src.dirs.difference(dst.dirs);
        lemma_to_sorted_seq(set, shallow_order());
        let rel = lemma_below_contains(target, set.to_sorted_seq(shallow_order()), p);
        assert(src.dirs.contains(rel));
        law_join_is_under_root(target, rel);
    }
    if plan.delete_files.contains(p) {
        let set = dst.files.dom().difference(src.files.dom());
        lemma_to_sorted_seq(set, path_order());
        let rel = lemma_below_contains(target, set.to_sorted_seq(path_order()), p);
        assert(dst.files.contains_key(rel));
        law_join_is_under_root(target, rel);
    }
    if plan.delete_dirs.contains(p) {
        let set = extra_dirs(src, dst);
        lemma_to_sorted_seq(set, deep_order());
        let rel = lemma_below_contains(target, set.to_sorted_seq(deep_order()), p);
        assert(dst.dirs.contains(rel));
        law_join_is_under_root(target, rel);
    }
    if plan.new_pairs.contains(pair) {
        let set = src.files.dom().difference(dst.files.dom());
        lemma_to_sorted_seq(set, path_order());
        let rel = lemma_pairs_below_contains(source, target, set.to_sorted_seq(path_order()), pair);
        assert(src.files.contains_key(rel));
        law_join_is_under_root(source, rel);
        law_join_is_under_root(target, rel);
    }
    if plan.overwrite_pairs.contains(pair) {
        let rel = law_overwritten_is_newer(source, target, src, dst, opts, tolerance, pair);
        assert((target + rel).skip(target.len() as int) =~= rel);
    }
}

/// A plan goes in order and names nothing twice: directories are created with fewer components
/// first and deleted with more components first, and among as many, as everything else, in the
/// order of paths.
pub proof fn law_plan_goes_in_order(
    source: PathView,
    target: PathView,
    src: SnapshotView,
    dst: SnapshotView,
    opts: SyncOptions,
    tolerance: int,
    i: int,
    j: int,
)
    requires
        src.finite(),
        dst.finite(),
        proper(src),
        proper(dst),
        0 <= i < j,
    ensures
        ({
            let plan = plan_for(source, target, src, dst, opts, tolerance);
            let (a, b, c) = (plan.new_dirs, plan.delete_dirs, plan.delete_files);
            &&& j < a.len() ==> a[i] != a[j] && (a[i].len() < a[j].len() || a[i].len() == a[j].len()
                && path_le(a[i], a[j]))
            &&& j < b.len() ==> b[i] != b[j] && (b[i].len() > b[j].len() || b[i].len() == b[j].len()
                && path_le(b[i], b[j]))
            &&& j < c.len() ==> c[i] != c[j] && path_le(c[i], c[j])
            &&& j < plan.new_pairs.len() ==> plan.new_pairs[i].src != plan.new_pairs[j].src
                && path_le(plan.new_pairs[i].src, plan.new_pairs[j].src)
            &&& j < plan.overwrite_pairs.len() ==> plan.overwrite_pairs[i]
                != plan.overwrite_pairs[j] && path_le(
                plan.overwrite_pairs[i].src,
                plan.overwrite_pairs[j].src,
            )
        }),
{
    let plan = plan_for(source, target, src, dst, opts, tolerance);
    lemma_path_order_is_total();
    lemma_shallow_order_is_total();
    lemma_deep_order_is_total();
    lemma_extra_dirs_are_finite(src, dst);
    if j < plan.new_dirs.len() {
        let set = src.dirs.difference(dst.dirs);
        let rels = set.to_sorted_seq(shallow_order());
        lemma_to_sorted_seq(set, shallow_order());
        assert(rels.contains(rels[i]) && rels.contains(rels[j]));
        lemma_order_below(target, rels, shallow_order(), i, j);
    }
    if j < plan.delete_dirs.len() {
        let set = extra_dirs(src, dst);
        let rels = set.to_sorted_seq(deep_order());
        lemma_to_sorted_seq(set, deep_order());
        assert(rels.contains(rels[i]) && rels.contains(rels[j]));
        assert(dst.dirs.contains(rels[i]) && dst.dirs.contains(rels[j]));
        lemma_order_below(target, rels, deep_order(), i, j);
    }
    if j < plan.delete_files.len() {
        let set = dst.files.dom().difference(src.files.dom());
        let rels = set.to_sorted_seq(path_order());
        lemma_to_sorted_seq(set, path_order());
        assert(rels.contains(rels[i]) && rels.contains(rels[j]));
        lemma_order_below(target, rels, path_order(), i, j);
    }
    if j < plan.new_pairs.len() {
        let set = src.files.dom().difference(dst.files.dom());
        let rels = set.to_sorted_seq(path_order());
        lemma_to_sorted_seq(set, path_order());
        assert(rels.contains(rels[i]) && rels.contains(rels[j]));
        lemma_order_below(source, rels, path_order(), i, j);
    }
    if j < plan.overwrite_pairs.len() {
        let stale = stale_files(src, dst, tolerance);
        let pairs = pairs_below(source, target, stale.to_sorted_seq(path_order()));
        let (le, ple) = (pair_order(), path_order());
        lemma_pair_order_is_total();
        pairs.lemma_sort_by_ensures(le);
        let (p, q) = (plan.overwrite_pairs[i], plan.overwrite_pairs[j]);
        assert(le(p, q));
        assert(ple(p.src, p.src));
        lemma_stale_pairs_are_apart(source, target, src, dst, tolerance);
    }
}

proof fn lemma_stale_pairs_are_apart(
    source: PathView,
    target: PathView,
    src: SnapshotView,
    dst: SnapshotView,
    tolerance: int,
)
    requires
        src.finite(),
        proper(src),
    ensures
        pairs_below(
            source,
            target,
            stale_files(src, dst, tolerance).to_sorted_seq(path_order()),
        ).sort_by(pair_order()).no_duplicates(),
{
    broadcast use vstd::seq_lib::group_to_multiset_ensures;
    broadcast use vstd::multiset::group_multiset_axioms;

    let stale = stale_files(src, dst, tolerance);
    let rels = stale.to_sorted_seq(path_order());
    let pairs = pairs_below(source, target, rels);
    lemma_stale_is_finite(src, dst, tolerance);
    lemma_path_order_is_total();
    lemma_to_sorted_seq(stale, path_order());
    assert forall|i: int, j: int| 0 <= i < pairs.len() && 0 <= j < pairs.len() && i != j implies
        pairs[i] != pairs[j] by {
        assert(rels.contains(rels[i]) && rels.contains(rels[j]));
        assert(src.files.contains_key(rels[i]) && src.files.contains_key(rels[j]));
        law_join_is_under_root(source, rels[i]);
        law_join_is_under_root(source, rels[j]);
    }
    assert(pairs.no_duplicates());
    lemma_pair_order_is_total();
    pairs.lemma_sort_by_ensures(pair_order());
    pairs.lemma_multiset_has_no_duplicates();
    let sorted = pairs.sort_by(pair_order());
    assert forall|x: PairView| sorted.to_multiset().contains(x) implies sorted.to_multiset().count(
        x,
    ) == 1 by {
        assert(pairs.to_multiset().contains(x));
    }
    sorted.lemma_multiset_has_no_duplicates_conv();
}

proof fn lemma_order_below(
    root: PathView,
    rels: Seq<PathView>,
    le: spec_fn(PathView, PathView) -> bool,
    i: int,
    j: int,
)
    requires
        sorted_by(rels, le),
        rels.no_duplicates(),
        0 <= i < j < rels.len(),
        descends(rels[i]),
        descends(rels[j]),
    ensures
        ({
            let (a, b) = (join_view(root, rels[i]), join_view(root, rels[j]));
            &&& a != b
            &&& le(rels[i], rels[j])
            &&& a.len() == root.len() + rels[i].len()
            &&& b.len() == root.len() + rels[j].len()
            &&& path_le(a, b) <==> path_le(rels[i], rels[j])
        }),
{
    law_join_is_under_root(root, rels[i]);
    law_join_is_under_root(root, rels[j]);
    law_join_keeps_order(root, rels[i], rels[j]);
    assert(rels[i] != rels[j]);
    assert(le(rels[i], rels[j]));
}

} // verus!
