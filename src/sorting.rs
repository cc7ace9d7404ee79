//! Stable insertion order under a comparison, stated once for every element type.
use vstd::prelude::*;

verus! {

/// Inserts `x` into `s` just before the first element that `x` must precede,
/// i.e. after every leading element `e` with `le(e, x)`.
pub open spec fn insert_by<T>(x: T, s: Seq<T>, le: spec_fn(T, T) -> bool) -> Seq<T>
    decreases s.len(),
{
    if s.len() == 0 {
        seq![x]
    } else if le(s[0], x) {
        seq![s[0]] + insert_by(x, s.drop_first(), le)
    } else {
        seq![x] + s
    }
}

/// Position at which `insert_by` places `x`.
pub open spec fn insertion_point<T>(x: T, s: Seq<T>, le: spec_fn(T, T) -> bool) -> nat
    decreases s.len(),
{
    if s.len() == 0 {
        0
    } else if le(s[0], x) {
        1 + insertion_point(x, s.drop_first(), le)
    } else {
        0
    }
}

/// Stable sort: elements are inserted in input order, so elements that
/// compare equal keep their relative order.
pub open spec fn stable_sort<T>(s: Seq<T>, le: spec_fn(T, T) -> bool) -> Seq<T>
    decreases s.len(),
{
    if s.len() == 0 {
        s
    } else {
        insert_by(s.last(), stable_sort(s.drop_last(), le), le)
    }
}

pub open spec fn is_ordered_by<T>(s: Seq<T>, le: spec_fn(T, T) -> bool) -> bool {
    forall|i: int, j: int| 0 <= i < j < s.len() ==> #[trigger] le(s[i], s[j])
}

pub open spec fn is_total_preorder<T>(le: spec_fn(T, T) -> bool) -> bool {
    &&& forall|a: T, b: T| #[trigger] le(a, b) || le(b, a)
    &&& forall|a: T, b: T, c: T| #[trigger] le(a, b) && #[trigger] le(b, c) ==> le(a, c)
}

pub proof fn lemma_insertion_point<T>(x: T, s: Seq<T>, le: spec_fn(T, T) -> bool)
    ensures
        insertion_point(x, s, le) <= s.len(),
        insert_by(x, s, le) == s.insert(insertion_point(x, s, le) as int, x),
        forall|j: int| 0 <= j < insertion_point(x, s, le) ==> le(s[j], x),
        insertion_point(x, s, le) < s.len() ==> !le(s[insertion_point(x, s, le) as int], x),
    decreases s.len(),
{
    if s.len() > 0 {
        if le(s[0], x) {
            let t = s.drop_first();
            lemma_insertion_point(x, t, le);
            let k = insertion_point(x, t, le) as int;
            assert(insert_by(x, s, le) =~= s.insert(k + 1, x));
            assert forall|j: int| 0 <= j < k + 1 implies le(s[j], x) by {
                if j > 0 {
                    assert(s[j] == t[j - 1]);
                }
            }
        } else {
            assert(insert_by(x, s, le) =~= s.insert(0, x));
        }
    } else {
        assert(insert_by(x, s, le) =~= s.insert(0, x));
    }
}

/// Any position that splits `s` into a prefix of elements `x` may follow and a
/// rest that starts with an element `x` must precede is the insertion point.
pub proof fn lemma_insertion_point_unique<T>(x: T, s: Seq<T>, le: spec_fn(T, T) -> bool, i: int)
    requires
        0 <= i <= s.len(),
        forall|j: int| 0 <= j < i ==> le(s[j], x),
        i < s.len() ==> !le(s[i], x),
    ensures
        insertion_point(x, s, le) == i,
{
    lemma_insertion_point(x, s, le);
    let k = insertion_point(x, s, le) as int;
    if k < i {
        assert(le(s[k], x));
    } else if i < k {
        assert(le(s[i], x));
    }
}

pub proof fn lemma_insert_by_elements<T>(x: T, s: Seq<T>, le: spec_fn(T, T) -> bool)
    ensures
        insert_by(x, s, le).len() == s.len() + 1,
        forall|y: T| #[trigger] insert_by(x, s, le).contains(y) <==> (y == x || s.contains(y)),
{
    lemma_insertion_point(x, s, le);
    let k = insertion_point(x, s, le) as int;
    let r = insert_by(x, s, le);
    assert forall|y: T| #[trigger] r.contains(y) <==> (y == x || s.contains(y)) by {
        if r.contains(y) {
            let i = choose|i: int| 0 <= i < r.len() && r[i] == y;
            if i < k {
                assert(s[i] == y);
            } else if i > k {
                assert(s[i - 1] == y);
            }
        }
        if s.contains(y) {
            let i = choose|i: int| 0 <= i < s.len() && s[i] == y;
            if i < k {
                assert(r[i] == y);
            } else {
                assert(r[i + 1] == y);
            }
        }
        if y == x {
            assert(r[k] == y);
        }
    }
}

/// Sorting keeps exactly the elements of its input.
pub proof fn lemma_sort_elements<T>(s: Seq<T>, le: spec_fn(T, T) -> bool)
    ensures
        stable_sort(s, le).len() == s.len(),
        forall|y: T| #[trigger] stable_sort(s, le).contains(y) <==> s.contains(y),
    decreases s.len(),
{
    if s.len() > 0 {
        let d = s.drop_last();
        lemma_sort_elements(d, le);
        lemma_insert_by_elements(s.last(), stable_sort(d, le), le);
        assert forall|y: T| #[trigger] stable_sort(s, le).contains(y) <==> s.contains(y) by {
            if s.contains(y) && y != s.last() {
                let i = choose|i: int| 0 <= i < s.len() && s[i] == y;
                assert(d[i] == y);
            }
            if d.contains(y) {
                let i = choose|i: int| 0 <= i < d.len() && d[i] == y;
                assert(s[i] == y);
            }
        }
    }
}

pub proof fn lemma_insert_by_ordered<T>(x: T, s: Seq<T>, le: spec_fn(T, T) -> bool)
    requires
        is_total_preorder(le),
        is_ordered_by(s, le),
    ensures
        is_ordered_by(insert_by(x, s, le), le),
{
    lemma_insertion_point(x, s, le);
    let k = insertion_point(x, s, le) as int;
    let r = insert_by(x, s, le);
    if k < s.len() {
        assert(le(x, s[k]));
    }
    assert forall|i: int, j: int| 0 <= i < j < r.len() implies #[trigger] le(r[i], r[j]) by {
        if j < k {
            assert(le(s[i], s[j]));
        } else if j == k {
            assert(le(s[i], x));
        } else if i < k {
            assert(le(s[i], s[j - 1]));
        } else if i == k {
            if j - 1 > k {
                assert(le(s[k], s[j - 1]));
            }
            assert(le(x, s[j - 1]));
        } else {
            assert(le(s[i - 1], s[j - 1]));
        }
    }
}

/// Under a total preorder the sorted sequence is ordered.
pub proof fn lemma_sort_ordered<T>(s: Seq<T>, le: spec_fn(T, T) -> bool)
    requires
        is_total_preorder(le),
    ensures
        is_ordered_by(stable_sort(s, le), le),
    decreases s.len(),
{
    if s.len() > 0 {
        lemma_sort_ordered(s.drop_last(), le);
        lemma_insert_by_ordered(s.last(), stable_sort(s.drop_last(), le), le);
    }
}

/// Sorting a sequence that is already ordered changes nothing.
pub proof fn lemma_sort_of_ordered<T>(s: Seq<T>, le: spec_fn(T, T) -> bool)
    requires
        is_ordered_by(s, le),
    ensures
        stable_sort(s, le) == s,
    decreases s.len(),
{
    if s.len() > 0 {
        let d = s.drop_last();
        assert(is_ordered_by(d, le)) by {
            assert forall|i: int, j: int| 0 <= i < j < d.len() implies #[trigger] le(d[i], d[j]) by {
                assert(le(s[i], s[j]));
            }
        }
        lemma_sort_of_ordered(d, le);
        assert forall|j: int| 0 <= j < d.len() implies le(d[j], s.last()) by {
            assert(le(s[j], s[s.len() - 1]));
        }
        lemma_insertion_point_unique(s.last(), d, le, d.len() as int);
        lemma_insertion_point(s.last(), d, le);
        assert(d.insert(d.len() as int, s.last()) =~= s);
    }
}

/// Keeping the elements that satisfy a predicate keeps their order.
pub proof fn lemma_filter_ordered<T>(s: Seq<T>, p: spec_fn(T) -> bool, le: spec_fn(T, T) -> bool)
    requires
        is_ordered_by(s, le),
    ensures
        is_ordered_by(s.filter(p), le),
    decreases s.len(),
{
    reveal(Seq::filter);
    if s.len() > 0 {
        let d = s.drop_last();
        assert(is_ordered_by(d, le)) by {
            assert forall|i: int, j: int| 0 <= i < j < d.len() implies #[trigger] le(d[i], d[j]) by {
                assert(le(s[i], s[j]));
            }
        }
        lemma_filter_ordered(d, p, le);
        let f = d.filter(p);
        if p(s.last()) {
            let r = f.push(s.last());
            assert forall|i: int, j: int| 0 <= i < j < r.len() implies #[trigger] le(r[i], r[j]) by {
                if j == r.len() - 1 {
                    assert(f.contains(r[i]));
                    d.lemma_filter_contains_rev(p, r[i]);
                    let k = choose|k: int| 0 <= k < d.len() && d[k] == r[i];
                    assert(le(s[k], s[s.len() - 1]));
                } else {
                    assert(le(f[i], f[j]));
                }
            }
        }
    }
}

/// Sorting is a permutation: the multiset of elements is unchanged.
pub proof fn lemma_sort_multiset<T>(s: Seq<T>, le: spec_fn(T, T) -> bool)
    ensures
        stable_sort(s, le).to_multiset() == s.to_multiset(),
    decreases s.len(),
{
    broadcast use vstd::seq_lib::group_to_multiset_ensures;

    if s.len() > 0 {
        let d = s.drop_last();
        lemma_sort_multiset(d, le);
        let sd = stable_sort(d, le);
        lemma_insertion_point(s.last(), sd, le);
        let k = insertion_point(s.last(), sd, le) as int;
        vstd::seq_lib::to_multiset_insert(sd, k, s.last());
        assert(d.push(s.last()) =~= s);
    }
}

/// The elements kept by a filter form a sub-multiset of the input.
pub proof fn lemma_filter_sub_multiset<T>(s: Seq<T>, p: spec_fn(T) -> bool)
    ensures
        s.filter(p).to_multiset().subset_of(s.to_multiset()),
    decreases s.len(),
{
    broadcast use vstd::seq_lib::group_to_multiset_ensures;
    broadcast use vstd::multiset::group_multiset_axioms;

    reveal(Seq::filter);
    if s.len() > 0 {
        let d = s.drop_last();
        lemma_filter_sub_multiset(d, p);
        assert(d.push(s.last()) =~= s);
        assert forall|v: T| s.filter(p).to_multiset().count(v) <= s.to_multiset().count(v) by {
            assert(d.filter(p).to_multiset().count(v) <= d.to_multiset().count(v));
        }
    }
}

/// A prefix is a sub-multiset of the whole sequence.
pub proof fn lemma_take_sub_multiset<T>(s: Seq<T>, n: int)
    requires
        0 <= n <= s.len(),
    ensures
        s.take(n).to_multiset().subset_of(s.to_multiset()),
{
    broadcast use vstd::multiset::group_multiset_axioms;

    assert(s.take(n) + s.skip(n) =~= s);
    vstd::seq_lib::lemma_multiset_commutative(s.take(n), s.skip(n));
    assert forall|v: T| s.take(n).to_multiset().count(v) <= s.to_multiset().count(v) by {}
}

} // verus!
