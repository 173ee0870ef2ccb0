//! Ascending lists of paths: search, insertion, difference, and order by depth.

use vstd::prelude::*;
use vstd::relations::*;

use crate::order::Comparison;
use crate::order::{lemma_sorted_listing, lemma_to_sorted_seq};
use crate::path::{lemma_path_order_is_total, path_le, path_order};
use crate::path::{is_above, path_depth, PathView, SyncPath};

verus! {

/// The paths that the sequence `s` holds.
pub open spec fn paths_view(s: Seq<SyncPath>) -> Seq<PathView> {
    s.map_values(|p: SyncPath| p@)
}

/// `a` stands before `b` in the order of paths.
pub open spec fn before(a: PathView, b: PathView) -> bool {
    a != b && path_le(a, b)
}

/// Each path stands before all that follow it.
pub open spec fn ascending(s: Seq<PathView>) -> bool {
    forall|i: int, j: int| 0 <= i < j < s.len() ==> before(#[trigger] s[i], #[trigger] s[j])
}

/// Fewer components first, then in the order of paths.
pub open spec fn shallow_le(a: PathView, b: PathView) -> bool {
    a.len() < b.len() || (a.len() == b.len() && path_le(a, b))
}

pub open spec fn shallow_order() -> spec_fn(PathView, PathView) -> bool {
    |a: PathView, b: PathView| shallow_le(a, b)
}

/// More components first, then in the order of paths.
pub open spec fn deep_le(a: PathView, b: PathView) -> bool {
    a.len() > b.len() || (a.len() == b.len() && path_le(a, b))
}

pub open spec fn deep_order() -> spec_fn(PathView, PathView) -> bool {
    |a: PathView, b: PathView| deep_le(a, b)
}

pub proof fn lemma_shallow_order_is_total()
    ensures
        total_ordering(shallow_order()),
{
    lemma_path_order_is_total();
    let (le, ple) = (shallow_order(), path_order());
    assert forall|a: PathView| #[trigger] le(a, a) by {
        assert(ple(a, a));
    }
    assert forall|a: PathView, b: PathView| #[trigger] le(a, b) && #[trigger] le(b, a) implies a
        == b by {
        assert(ple(a, b) && ple(b, a));
    }
    assert forall|a: PathView, b: PathView, c: PathView| #[trigger] le(a, b) && #[trigger] le(
        b,
        c,
    ) implies le(a, c) by {
        if a.len() == c.len() {
            assert(ple(a, b) && ple(b, c));
            assert(ple(a, c));
        }
    }
    assert forall|a: PathView, b: PathView| #[trigger] le(a, b) || #[trigger] le(b, a) by {
        assert(ple(a, b) || ple(b, a));
    }
}

pub proof fn lemma_deep_order_is_total()
    ensures
        total_ordering(deep_order()),
{
    lemma_path_order_is_total();
    let (le, ple) = (deep_order(), path_order());
    assert forall|a: PathView| #[trigger] le(a, a) by {
        assert(ple(a, a));
    }
    assert forall|a: PathView, b: PathView| #[trigger] le(a, b) && #[trigger] le(b, a) implies a
        == b by {
        assert(ple(a, b) && ple(b, a));
    }
    assert forall|a: PathView, b: PathView, c: PathView| #[trigger] le(a, b) && #[trigger] le(
        b,
        c,
    ) implies le(a, c) by {
        if a.len() == c.len() {
            assert(ple(a, b) && ple(b, c));
            assert(ple(a, c));
        }
    }
    assert forall|a: PathView, b: PathView| #[trigger] le(a, b) || #[trigger] le(b, a) by {
        assert(ple(a, b) || ple(b, a));
    }
}

pub proof fn lemma_before_transitive(a: PathView, b: PathView, c: PathView)
    requires
        before(a, b),
        before(b, c),
    ensures
        before(a, c),
{
    lemma_path_order_is_total();
    let le = path_order();
    assert(le(a, b) && le(b, c));
    assert(le(a, c));
    if a == c {
        assert(le(b, a));
    }
}

/// An ascending list is the sorted listing of the set of its paths.
pub proof fn lemma_ascending_is_sorted_listing(s: Seq<PathView>, set: Set<PathView>)
    requires
        ascending(s),
        forall|p: PathView| s.contains(p) <==> set.contains(p),
    ensures
        s == set.to_sorted_seq(path_order()),
        set.finite(),
{
    lemma_path_order_is_total();
    let le = path_order();
    assert forall|i: int, j: int| 0 <= i < j < s.len() implies #[trigger] le(s[i], s[j]) by {
        assert(before(s[i], s[j]));
    }
    assert(s.no_duplicates()) by {
        assert forall|i: int, j: int| 0 <= i < s.len() && 0 <= j < s.len() && i != j implies s[i]
            != s[j] by {
            if i < j {
                assert(before(s[i], s[j]));
            } else {
                assert(before(s[j], s[i]));
            }
        }
    }
    lemma_sorted_listing(s, set, le);
}

/// The sorted listing of a finite set of paths is ascending.
pub proof fn lemma_sorted_listing_is_ascending(set: Set<PathView>)
    requires
        set.finite(),
    ensures
        ascending(set.to_sorted_seq(path_order())),
        forall|p: PathView| #[trigger]
            set.to_sorted_seq(path_order()).contains(p) <==> set.contains(p),
{
    lemma_path_order_is_total();
    let le = path_order();
    lemma_to_sorted_seq(set, le);
    let s = set.to_sorted_seq(le);
    assert forall|i: int, j: int| 0 <= i < j < s.len() implies before(
        #[trigger] s[i],
        #[trigger] s[j],
    ) by {
        assert(le(s[i], s[j]));
    }
}

/// Where `p` stands in the ascending list `v`: at the position found, or at the one that keeps
/// the list ascending.
pub open spec fn stands_at(v: Seq<PathView>, p: PathView, r: Result<usize, usize>) -> bool {
    match r {
        Ok(i) => i < v.len() && v[i as int] == p,
        Err(i) => {
            &&& i <= v.len()
            &&& forall|j: int| 0 <= j < i ==> before(#[trigger] v[j], p)
            &&& forall|j: int| i <= j < v.len() ==> before(p, #[trigger] v[j])
        },
    }
}

pub proof fn lemma_stands_outside(v: Seq<PathView>, p: PathView, i: usize)
    requires
        stands_at(v, p, Err(i)),
    ensures
        !v.contains(p),
{
    if v.contains(p) {
        let j = choose|j: int| 0 <= j < v.len() && v[j] == p;
        assert(before(v[j], p) || before(p, v[j]));
    }
}

/// Looks `p` up in an ascending list.
pub(crate) fn find(v: &Vec<SyncPath>, p: &SyncPath) -> (r: Result<usize, usize>)
    requires
        ascending(paths_view(v@)),
    ensures
        stands_at(paths_view(v@), p@, r),
        r is Ok <==> paths_view(v@).contains(p@),
{
    let ghost s = paths_view(v@);
    let mut low: usize = 0;
    let mut high: usize = v.len();
    while low < high
        invariant
            s == paths_view(v@),
            ascending(s),
            low <= high <= v.len(),
            forall|j: int| 0 <= j < low ==> before(#[trigger] s[j], p@),
            forall|j: int| high <= j < v.len() ==> before(p@, #[trigger] s[j]),
        decreases high - low,
    {
        let mid: usize = low + (high - low) / 2;
        assert(s[mid as int] == v@[mid as int]@);
        match v[mid].compare(p) {
            Comparison::Same => {
                assert(s.contains(p@));
                return Ok(mid);
            },
            Comparison::Before => {
                assert forall|j: int| 0 <= j <= mid implies before(#[trigger] s[j], p@) by {
                    if j < mid {
                        lemma_before_transitive(s[j], s[mid as int], p@);
                    }
                }
                low = mid + 1;
            },
            Comparison::After => {
                assert forall|j: int| mid <= j < v.len() implies before(p@, #[trigger] s[j]) by {
                    if mid < j {
                        lemma_before_transitive(p@, s[mid as int], s[j]);
                    }
                }
                high = mid;
            },
        }
    }
    proof {
        lemma_stands_outside(s, p@, low);
    }
    Err(low)
}

/// Inserting a path where it stands keeps a list ascending.
pub proof fn lemma_insert_keeps_ascending(s: Seq<PathView>, p: PathView, i: usize)
    requires
        ascending(s),
        stands_at(s, p, Err(i)),
    ensures
        ascending(s.insert(i as int, p)),
        forall|q: PathView| #[trigger] s.insert(i as int, p).contains(q) <==> s.contains(q) || q
            == p,
{
    let t = s.insert(i as int, p);
    assert forall|a: int, b: int| 0 <= a < b < t.len() implies before(
        #[trigger] t[a],
        #[trigger] t[b],
    ) by {
        let x = if a < i {
            s[a]
        } else {
            s[a - 1]
        };
        let y = if b < i {
            s[b]
        } else {
            s[b - 1]
        };
    }
    assert forall|q: PathView| #[trigger] t.contains(q) <==> s.contains(q) || q == p by {
        if t.contains(q) {
            let k = choose|k: int| 0 <= k < t.len() && t[k] == q;
            if k < i {
                assert(s[k] == q);
            } else if k > i {
                assert(s[k - 1] == q);
            }
        }
        if s.contains(q) {
            let k = choose|k: int| 0 <= k < s.len() && s[k] == q;
            if k < i {
                assert(t[k] == q);
            } else {
                assert(t[k + 1] == q);
            }
        }
        assert(t[i as int] == p);
    }
}

/// A path that all of an ascending list stands before extends it.
pub proof fn lemma_push_keeps_ascending(s: Seq<PathView>, p: PathView)
    requires
        ascending(s),
        forall|i: int| 0 <= i < s.len() ==> before(#[trigger] s[i], p),
    ensures
        ascending(s.push(p)),
{
    let t = s.push(p);
    assert forall|a: int, b: int| 0 <= a < b < t.len() implies before(
        #[trigger] t[a],
        #[trigger] t[b],
    ) by {
        if b < s.len() {
            assert(before(s[a], s[b]));
        }
    }
}

/// The paths of `a` that `b` does not hold.
pub(crate) fn difference(a: &Vec<SyncPath>, b: &Vec<SyncPath>) -> (r: Vec<SyncPath>)
    requires
        ascending(paths_view(a@)),
        ascending(paths_view(b@)),
    ensures
        ascending(paths_view(r@)),
        paths_view(r@).to_set() == paths_view(a@).to_set().difference(paths_view(b@).to_set()),
        paths_view(r@) == paths_view(a@).to_set().difference(
            paths_view(b@).to_set(),
        ).to_sorted_seq(path_order()),
{
    let ghost (s, t) = (paths_view(a@), paths_view(b@));
    let mut r: Vec<SyncPath> = Vec::new();
    let mut i: usize = 0;
    while i < a.len()
        invariant
            s == paths_view(a@),
            t == paths_view(b@),
            ascending(s),
            ascending(t),
            i <= a.len(),
            ascending(paths_view(r@)),
            forall|p: PathView| #[trigger]
                paths_view(r@).contains(p) <==> s.take(i as int).contains(p) && !t.contains(p),
        decreases a.len() - i,
    {
        let ghost held = paths_view(r@);
        let ghost p = s[i as int];
        assert(p == a@[i as int]@);
        assert(s.take(i + 1) =~= s.take(i as int).push(p));
        let found = find(b, &a[i]);
        match found {
            Ok(_) => {
                assert(t.contains(p));
                assert forall|q: PathView| #[trigger] paths_view(r@).contains(q) <==> s.take(
                    i + 1,
                ).contains(q) && !t.contains(q) by {
                    lemma_push_contains(s.take(i as int), p, q);
                }
            },
            Err(_) => {
                let copy = a[i].clone();
                r.push(copy);
                assert(paths_view(r@) =~= held.push(p));
                assert forall|k: int| 0 <= k < held.len() implies before(#[trigger] held[k], p) by {
                    assert(held.contains(held[k]));
                    let j = choose|j: int| 0 <= j < i && s.take(i as int)[j] == held[k];
                    assert(before(s[j], s[i as int]));
                }
                proof {
                    lemma_push_keeps_ascending(held, p);
                }
                assert forall|q: PathView| #[trigger] paths_view(r@).contains(q) <==> s.take(
                    i + 1,
                ).contains(q) && !t.contains(q) by {
                    lemma_push_contains(s.take(i as int), p, q);
                    lemma_push_contains(held, p, q);
                }
            },
        }
        i += 1;
    }
    proof {
        assert(s.take(i as int) =~= s);
        let set = s.to_set().difference(t.to_set());
        assert(paths_view(r@).to_set() =~= set);
        lemma_ascending_is_sorted_listing(paths_view(r@), set);
    }
    r
}

/// One of `tops` lies below `p`.
pub open spec fn lies_above(tops: Seq<PathView>, p: PathView) -> bool {
    exists|e: PathView| #[trigger] tops.contains(e) && p.is_prefix_of(e) && p != e
}

/// Whether one of `tops` lies below `p`.
pub(crate) fn is_above_any(p: &SyncPath, tops: &Vec<SyncPath>) -> (r: bool)
    ensures
        r == lies_above(paths_view(tops@), p@),
{
    let ghost s = paths_view(tops@);
    let mut i: usize = 0;
    while i < tops.len()
        invariant
            s == paths_view(tops@),
            i <= tops.len(),
            forall|j: int| 0 <= j < i ==> !(p@.is_prefix_of(#[trigger] s[j]) && p@ != s[j]),
        decreases tops.len() - i,
    {
        assert(s[i as int] == tops@[i as int]@);
        if is_above(p, &tops[i]) {
            assert(s.contains(s[i as int]));
            return true;
        }
        i += 1;
    }
    false
}

/// The paths of `a` below which none of `tops` lies.
pub(crate) fn without_above(a: &Vec<SyncPath>, tops: &Vec<SyncPath>) -> (r: Vec<SyncPath>)
    requires
        ascending(paths_view(a@)),
    ensures
        ascending(paths_view(r@)),
        forall|p: PathView| #[trigger]
            paths_view(r@).contains(p) <==> paths_view(a@).contains(p) && !lies_above(
                paths_view(tops@),
                p,
            ),
{
    let ghost (s, t) = (paths_view(a@), paths_view(tops@));
    let mut r: Vec<SyncPath> = Vec::new();
    let mut i: usize = 0;
    while i < a.len()
        invariant
            s == paths_view(a@),
            t == paths_view(tops@),
            ascending(s),
            i <= a.len(),
            ascending(paths_view(r@)),
            forall|p: PathView| #[trigger]
                paths_view(r@).contains(p) <==> s.take(i as int).contains(p) && !lies_above(t, p),
        decreases a.len() - i,
    {
        let ghost held = paths_view(r@);
        let ghost p = s[i as int];
        assert(p == a@[i as int]@);
        assert(s.take(i + 1) =~= s.take(i as int).push(p));
        if !is_above_any(&a[i], tops) {
            let copy = a[i].clone();
            r.push(copy);
            assert(paths_view(r@) =~= held.push(p));
            assert forall|k: int| 0 <= k < held.len() implies before(#[trigger] held[k], p) by {
                assert(held.contains(held[k]));
                let j = choose|j: int| 0 <= j < i && s.take(i as int)[j] == held[k];
                assert(before(s[j], s[i as int]));
            }
            proof {
                lemma_push_keeps_ascending(held, p);
            }
        }
        assert forall|q: PathView| #[trigger] paths_view(r@).contains(q) <==> s.take(
            i + 1,
        ).contains(q) && !lies_above(t, q) by {
            lemma_push_contains(s.take(i as int), p, q);
            lemma_push_contains(held, p, q);
        }
        i += 1;
    }
    assert(s.take(i as int) =~= s);
    r
}

pub proof fn lemma_push_contains<T>(s: Seq<T>, p: T, q: T)
    ensures
        s.push(p).contains(q) <==> s.contains(q) || q == p,
{
    if s.push(p).contains(q) {
        let k = choose|k: int| 0 <= k < s.push(p).len() && s.push(p)[k] == q;
        if k < s.len() {
            assert(s[k] == q);
        }
    }
    if s.contains(q) {
        let k = choose|k: int| 0 <= k < s.len() && s[k] == q;
        assert(s.push(p)[k] == q);
    }
    assert(s.push(p)[s.len() as int] == p);
}

/// The greatest number of components of a path in `v`.
fn greatest_depth(v: &Vec<SyncPath>) -> (r: usize)
    ensures
        forall|i: int| 0 <= i < v.len() ==> (#[trigger] paths_view(v@)[i]).len() <= r,
{
    let mut r: usize = 0;
    let mut i: usize = 0;
    while i < v.len()
        invariant
            i <= v.len(),
            forall|j: int| 0 <= j < i ==> (#[trigger] paths_view(v@)[j]).len() <= r,
        decreases v.len() - i,
    {
        assert(paths_view(v@)[i as int] == v@[i as int]@);
        let d = path_depth(&v[i]);
        if d > r {
            r = d;
        }
        i += 1;
    }
    r
}

/// Appends the paths of `v` that have `depth` components, in their order.
fn append_depth(out: &mut Vec<SyncPath>, v: &Vec<SyncPath>, depth: usize) -> (added: Ghost<
    Seq<PathView>,
>)
    requires
        ascending(paths_view(v@)),
    ensures
        paths_view(final(out)@) == paths_view(old(out)@) + added@,
        ascending(added@),
        forall|q: PathView| #[trigger]
            added@.contains(q) <==> paths_view(v@).contains(q) && q.len() == depth,
{
    let ghost s = paths_view(v@);
    let ghost start = paths_view(out@);
    let ghost mut tail: Seq<PathView> = Seq::empty();
    let mut i: usize = 0;
    assert(start + tail =~= start);
    while i < v.len()
        invariant
            s == paths_view(v@),
            ascending(s),
            i <= v.len(),
            paths_view(out@) == start + tail,
            ascending(tail),
            forall|q: PathView| #[trigger]
                tail.contains(q) <==> s.take(i as int).contains(q) && q.len() == depth,
        decreases v.len() - i,
    {
        let ghost p = s[i as int];
        assert(p == v@[i as int]@);
        assert(s.take(i + 1) =~= s.take(i as int).push(p));
        let ghost held = tail;
        if path_depth(&v[i]) == depth {
            let copy = v[i].clone();
            let ghost out_before = out@;
            out.push(copy);
            proof {
                tail = tail.push(p);
                assert(paths_view(out@) =~= paths_view(out_before).push(p));
                assert(paths_view(out@) =~= start + tail);
                assert forall|k: int| 0 <= k < held.len() implies before(
                    #[trigger] held[k],
                    p,
                ) by {
                    assert(held.contains(held[k]));
                    let j = choose|j: int| 0 <= j < i && s.take(i as int)[j] == held[k];
                    assert(before(s[j], s[i as int]));
                }
                lemma_push_keeps_ascending(held, p);
            }
        }
        assert forall|q: PathView| #[trigger] tail.contains(q) <==> s.take(i + 1).contains(q)
            && q.len() == depth by {
            lemma_push_contains(s.take(i as int), p, q);
            lemma_push_contains(held, p, q);
        }
        i += 1;
    }
    assert(s.take(i as int) =~= s);
    Ghost(tail)
}

/// Appending paths of one depth behind paths that rank before them keeps a list sorted.
proof fn lemma_append_depth(
    s: Seq<PathView>,
    tail: Seq<PathView>,
    depth: nat,
    le: spec_fn(PathView, PathView) -> bool,
)
    requires
        sorted_by(s, le),
        s.no_duplicates(),
        ascending(tail),
        forall|q: PathView| #[trigger] tail.contains(q) ==> q.len() == depth,
        forall|q: PathView| #[trigger] s.contains(q) ==> q.len() != depth,
        forall|p: PathView, q: PathView|
            s.contains(p) && tail.contains(q) ==> #[trigger] le(p, q),
        forall|p: PathView, q: PathView|
            p.len() == q.len() && path_le(p, q) ==> #[trigger] le(p, q),
    ensures
        sorted_by(s + tail, le),
        (s + tail).no_duplicates(),
        forall|q: PathView| #[trigger] (s + tail).contains(q) <==> s.contains(q) || tail.contains(
            q,
        ),
{
    let t = s + tail;
    let n = s.len() as int;
    assert forall|i: int, j: int| 0 <= i < j < t.len() implies #[trigger] le(t[i], t[j]) by {
        if j < n {
            assert(le(s[i], s[j]));
        } else {
            assert(tail.contains(tail[j - n]));
            if i < n {
                assert(s.contains(s[i]));
            } else {
                assert(tail.contains(tail[i - n]));
                assert(before(tail[i - n], tail[j - n]));
            }
        }
    }
    assert forall|i: int, j: int| 0 <= i < t.len() && 0 <= j < t.len() && i != j implies t[i]
        != t[j] by {
        if i < n {
            assert(s.contains(s[i]));
        } else {
            assert(tail.contains(tail[i - n]));
        }
        if j < n {
            assert(s.contains(s[j]));
        } else {
            assert(tail.contains(tail[j - n]));
        }
        if i >= n && j >= n {
            if i < j {
                assert(before(tail[i - n], tail[j - n]));
            } else {
                assert(before(tail[j - n], tail[i - n]));
            }
        }
    }
    assert forall|q: PathView| #[trigger] t.contains(q) <==> s.contains(q) || tail.contains(q) by {
        if t.contains(q) {
            let k = choose|k: int| 0 <= k < t.len() && t[k] == q;
            if k < n {
                assert(s[k] == q);
            } else {
                assert(tail[k - n] == q);
            }
        }
        if s.contains(q) {
            let k = choose|k: int| 0 <= k < s.len() && s[k] == q;
            assert(t[k] == q);
        }
        if tail.contains(q) {
            let k = choose|k: int| 0 <= k < tail.len() && tail[k] == q;
            assert(t[n + k] == q);
        }
    }
}

/// The paths of `v`, those with fewer components first.
pub(crate) fn shallow_first(v: &Vec<SyncPath>) -> (r: Vec<SyncPath>)
    requires
        ascending(paths_view(v@)),
    ensures
        paths_view(r@) == paths_view(v@).to_set().to_sorted_seq(shallow_order()),
{
    let ghost s = paths_view(v@);
    let ghost le = shallow_order();
    let deepest = greatest_depth(v);
    let mut r: Vec<SyncPath> = Vec::new();
    let mut depth: usize = 0;
    while depth < deepest
        invariant
            s == paths_view(v@),
            le == shallow_order(),
            ascending(s),
            depth <= deepest,
            sorted_by(paths_view(r@), le),
            paths_view(r@).no_duplicates(),
            forall|q: PathView| #[trigger]
                paths_view(r@).contains(q) <==> s.contains(q) && q.len() < depth,
        decreases deepest - depth,
    {
        let ghost held = paths_view(r@);
        let added = append_depth(&mut r, v, depth);
        proof {
            lemma_append_depth(held, added@, depth as nat, le);
        }
        depth += 1;
    }
    let ghost held = paths_view(r@);
    let added = append_depth(&mut r, v, deepest);
    proof {
        lemma_append_depth(held, added@, deepest as nat, le);
    }
    assert forall|q: PathView| #[trigger] paths_view(r@).contains(q) <==> s.contains(q) by {
        if s.contains(q) {
            let k = choose|k: int| 0 <= k < s.len() && s[k] == q;
            assert(s[k].len() <= deepest);
        }
    }
    proof {
        lemma_shallow_order_is_total();
        lemma_sorted_listing(paths_view(r@), s.to_set(), le);
    }
    r
}

/// The paths of `v`, those with more components first.
pub(crate) fn deep_first(v: &Vec<SyncPath>) -> (r: Vec<SyncPath>)
    requires
        ascending(paths_view(v@)),
    ensures
        paths_view(r@) == paths_view(v@).to_set().to_sorted_seq(deep_order()),
{
    let ghost s = paths_view(v@);
    let ghost le = deep_order();
    let mut r: Vec<SyncPath> = Vec::new();
    let mut depth: usize = greatest_depth(v);
    assert forall|q: PathView| s.contains(q) implies q.len() <= depth by {
        let k = choose|k: int| 0 <= k < s.len() && s[k] == q;
        assert(s[k].len() <= depth);
    }
    while depth > 0
        invariant
            s == paths_view(v@),
            le == deep_order(),
            ascending(s),
            sorted_by(paths_view(r@), le),
            paths_view(r@).no_duplicates(),
            forall|q: PathView| #[trigger]
                paths_view(r@).contains(q) <==> s.contains(q) && q.len() > depth,
        decreases depth,
    {
        let ghost held = paths_view(r@);
        let added = append_depth(&mut r, v, depth);
        proof {
            lemma_append_depth(held, added@, depth as nat, le);
        }
        depth -= 1;
    }
    let ghost held = paths_view(r@);
    let added = append_depth(&mut r, v, 0);
    proof {
        lemma_append_depth(held, added@, 0, le);
    }
    proof {
        lemma_deep_order_is_total();
        lemma_sorted_listing(paths_view(r@), s.to_set(), le);
    }
    r
}

} // verus!
