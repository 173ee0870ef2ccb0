//! Lexicographic order of sequences, and what a sorted listing of a set is.

use vstd::prelude::*;
use vstd::relations::*;
use vstd::seq_lib::*;

verus! {

/// The outcome of comparing two values.
#[derive(Debug, Clone, Copy, PartialEq, Eq, Structural)]
pub enum Comparison {
    Before,
    Same,
    After,
}

/// `c` is where `a` stands relative to `b` in the order `le`.
pub open spec fn compares<T>(c: Comparison, a: T, b: T, le: spec_fn(T, T) -> bool) -> bool {
    match c {
        Comparison::Before => a != b && le(a, b),
        Comparison::Same => a == b,
        Comparison::After => a != b && le(b, a),
    }
}

/// `a` and `b` agree before position `k`, and what happens there puts `a` no later than `b`.
pub open spec fn lex_le_at<T>(a: Seq<T>, b: Seq<T>, le: spec_fn(T, T) -> bool, k: int) -> bool {
    &&& 0 <= k <= a.len()
    &&& k <= b.len()
    &&& forall|i: int| 0 <= i < k ==> a[i] == b[i]
    &&& k == a.len() || (k < b.len() && a[k] != b[k] && le(a[k], b[k]))
}

/// Lexicographic order: a prefix stands before what extends it, otherwise the first
/// difference decides.
pub open spec fn lex_le<T>(a: Seq<T>, b: Seq<T>, le: spec_fn(T, T) -> bool) -> bool {
    exists|k: int| lex_le_at(a, b, le, k)
}

/// The first position at which `a` and `b` differ, or where one of them ends.
proof fn lemma_first_difference<T>(a: Seq<T>, b: Seq<T>, from: int) -> (k: int)
    requires
        0 <= from <= a.len(),
        from <= b.len(),
        forall|i: int| 0 <= i < from ==> a[i] == b[i],
    ensures
        0 <= k <= a.len(),
        k <= b.len(),
        forall|i: int| 0 <= i < k ==> a[i] == b[i],
        k == a.len() || k == b.len() || a[k] != b[k],
    decreases a.len() - from,
{
    if from == a.len() || from == b.len() || a[from] != b[from] {
        from
    } else {
        lemma_first_difference(a, b, from + 1)
    }
}

proof fn lemma_lex_le_transitive<T>(
    a: Seq<T>,
    b: Seq<T>,
    c: Seq<T>,
    le: spec_fn(T, T) -> bool,
)
    requires
        total_ordering(le),
        lex_le(a, b, le),
        lex_le(b, c, le),
    ensures
        lex_le(a, c, le),
{
    let j = choose|k: int| lex_le_at(a, b, le, k);
    let k = choose|k: int| lex_le_at(b, c, le, k);
    let m = if j <= k {
        j
    } else {
        k
    };
    if m < a.len() {
        if j == k {
            assert(le(a[m], b[m]) && le(b[m], c[m]));
        }
    }
    assert(lex_le_at(a, c, le, m));
}

/// The lexicographic order over a total order is total.
pub proof fn lemma_lex_le_is_total_ordering<T>(
    le: spec_fn(T, T) -> bool,
    lex: spec_fn(Seq<T>, Seq<T>) -> bool,
)
    requires
        total_ordering(le),
        forall|a: Seq<T>, b: Seq<T>| #[trigger] lex(a, b) == lex_le(a, b, le),
    ensures
        total_ordering(lex),
{
    assert forall|a: Seq<T>| #[trigger] lex(a, a) by {
        assert(lex_le_at(a, a, le, a.len() as int));
    }
    assert forall|a: Seq<T>, b: Seq<T>| #[trigger] lex(a, b) && #[trigger] lex(b, a) implies a
        == b by {
        let j = choose|k: int| lex_le_at(a, b, le, k);
        let k = choose|k: int| lex_le_at(b, a, le, k);
        if j < k {
            assert(a[j] == b[j]);
        } else if k < j {
            assert(a[k] == b[k]);
        }
        assert(j == k);
        if j < a.len() {
            assert(le(a[j], b[j]) && le(b[j], a[j]));
        }
        assert(a =~= b);
    }
    assert forall|a: Seq<T>, b: Seq<T>, c: Seq<T>| #[trigger] lex(a, b) && #[trigger] lex(
        b,
        c,
    ) implies lex(a, c) by {
        lemma_lex_le_transitive(a, b, c, le);
    }
    assert forall|a: Seq<T>, b: Seq<T>| #[trigger] lex(a, b) || #[trigger] lex(b, a) by {
        let k = lemma_first_difference(a, b, 0);
        if k == a.len() {
            assert(lex_le_at(a, b, le, k));
        } else if k == b.len() {
            assert(lex_le_at(b, a, le, k));
        } else if le(a[k], b[k]) {
            assert(lex_le_at(a, b, le, k));
        } else {
            assert(le(b[k], a[k]));
            assert(lex_le_at(b, a, le, k));
        }
    }
}

/// A sorted sequence without repetition that holds exactly the elements of a set is that
/// set's sorted listing.
pub proof fn lemma_sorted_listing<T>(s: Seq<T>, set: Set<T>, le: spec_fn(T, T) -> bool)
    requires
        total_ordering(le),
        sorted_by(s, le),
        s.no_duplicates(),
        forall|x: T| s.contains(x) <==> set.contains(x),
    ensures
        set.finite(),
        s == set.to_sorted_seq(le),
{
    broadcast use vstd::seq_lib::group_to_multiset_ensures;
    broadcast use vstd::multiset::group_multiset_axioms;

    assert(s.to_set() =~= set);
    seq_to_set_is_finite(s);
    let l = set.to_seq();
    lemma_to_seq_no_duplicates(set);
    set.lemma_to_seq_to_set_id();
    assert(l.to_set() == set);
    s.lemma_multiset_has_no_duplicates();
    l.lemma_multiset_has_no_duplicates();
    assert(s.to_multiset() =~= l.to_multiset()) by {
        assert forall|x: T| s.to_multiset().count(x) == l.to_multiset().count(x) by {
            assert(s.to_set().contains(x) == l.to_set().contains(x));
            assert(s.contains(x) == l.contains(x));
            if s.contains(x) {
                assert(s.to_multiset().contains(x) && l.to_multiset().contains(x));
            }
        }
    }
    l.lemma_sort_by_ensures(le);
    lemma_sorted_unique(s, l.sort_by(le), le);
}

proof fn lemma_to_seq_no_duplicates<T>(set: Set<T>)
    requires
        set.finite(),
    ensures
        set.to_seq().no_duplicates(),
    decreases set.len(),
{
    if set.len() != 0 {
        let x = set.choose();
        let rest = set.remove(x).to_seq();
        lemma_to_seq_no_duplicates(set.remove(x));
        set.remove(x).lemma_to_seq_to_set_id();
        assert(!set.remove(x).contains(x));
        assert(!rest.to_set().contains(x));
        assert(set.to_seq() =~= Seq::<T>::empty().push(x) + rest);
    }
}

/// The sorted listing of a finite set is sorted, has no repetition, and holds exactly the
/// set's elements.
pub proof fn lemma_to_sorted_seq<T>(set: Set<T>, le: spec_fn(T, T) -> bool)
    requires
        total_ordering(le),
        set.finite(),
    ensures
        sorted_by(set.to_sorted_seq(le), le),
        set.to_sorted_seq(le).no_duplicates(),
        forall|x: T| #[trigger] set.to_sorted_seq(le).contains(x) <==> set.contains(x),
{
    broadcast use vstd::seq_lib::group_to_multiset_ensures;
    broadcast use vstd::multiset::group_multiset_axioms;

    let l = set.to_seq();
    let r = set.to_sorted_seq(le);
    lemma_to_seq_no_duplicates(set);
    set.lemma_to_seq_to_set_id();
    l.lemma_sort_by_ensures(le);
    l.lemma_multiset_has_no_duplicates();
    assert forall|x: T| #[trigger] r.contains(x) <==> set.contains(x) by {
        assert(l.to_set().contains(x) == set.contains(x));
        assert(r.to_multiset().contains(x) == l.to_multiset().contains(x));
    }
    assert forall|x: T| r.to_multiset().contains(x) implies r.to_multiset().count(x) == 1 by {
        assert(l.to_multiset().contains(x));
    }
    r.lemma_multiset_has_no_duplicates_conv();
}

} // verus!
