//! Sorting a vector by an order on its items.
//!
//! The sort is a merge sort that only ever moves items, so it asks nothing
//! of the item type. It leaves a vector that is already sorted as it is.

use vstd::multiset::Multiset;
use vstd::prelude::*;
use vstd::seq_lib::{lemma_multiset_commutative, to_multiset_build};

use crate::vecs::{lemma_empty_to_multiset, reverse};

verus! {

broadcast use vstd::multiset::group_multiset_axioms;

/// An order on items of type `T`: total, transitive, and with an
/// executable test.
pub trait ItemOrder<T> {
    /// `a` sorts at or before `b`.
    spec fn leq(a: &T, b: &T) -> bool;

    /// Any two items are comparable.
    proof fn leq_total(a: &T, b: &T)
        ensures
            Self::leq(a, b) || Self::leq(b, a),
    ;

    /// The order is transitive.
    proof fn leq_transitive(a: &T, b: &T, c: &T)
        requires
            Self::leq(a, b),
            Self::leq(b, c),
        ensures
            Self::leq(a, c),
    ;

    /// Tests whether `a` sorts at or before `b`.
    fn is_leq(a: &T, b: &T) -> (r: bool)
        ensures
            r == Self::leq(a, b),
    ;
}

/// Every item of `s` sorts at or before those that follow it.
pub open spec fn sorted<T, R: ItemOrder<T>>(s: Seq<T>) -> bool {
    forall|i: int, j: int| #![trigger s[i], s[j]] 0 <= i < j < s.len() ==> R::leq(&s[i], &s[j])
}

/// Every item of `s` sorts at or after those that follow it.
spec fn descending<T, R: ItemOrder<T>>(s: Seq<T>) -> bool {
    forall|i: int, j: int| #![trigger s[i], s[j]] 0 <= i < j < s.len() ==> R::leq(&s[j], &s[i])
}

/// Every item of `low` sorts at or before every item of `high`.
spec fn all_leq<T, R: ItemOrder<T>>(low: Seq<T>, high: Seq<T>) -> bool {
    forall|i: int, k: int|
        #![trigger low[i], high[k]]
        0 <= i < low.len() && 0 <= k < high.len() ==> R::leq(&low[i], &high[k])
}

/// `left` followed by `right` is in order where the two meet: one of them
/// is empty, or the last item of `left` sorts at or before the first of
/// `right`.
pub open spec fn meet_in_order<T, R: ItemOrder<T>>(left: Seq<T>, right: Seq<T>) -> bool {
    left.len() == 0 || right.len() == 0 || R::leq(&left.last(), &right.first())
}

/// `after` holds the items of `before`, each as often, in sorted order;
/// and it is `before` itself where that was sorted already.
pub open spec fn is_sort_of<T, R: ItemOrder<T>>(before: Seq<T>, after: Seq<T>) -> bool {
    &&& sorted::<T, R>(after)
    &&& after.to_multiset() == before.to_multiset()
    &&& sorted::<T, R>(before) ==> after == before
}

/// Sorting a sequence that is sorted already changes nothing: a sorted
/// sequence that is turned into a plain one and sorted again comes back as
/// it was.
pub proof fn lemma_sort_round_trip<T, R: ItemOrder<T>>(items: Seq<T>, again: Seq<T>)
    requires
        sorted::<T, R>(items),
        is_sort_of::<T, R>(items, again),
    ensures
        again == items,
{
}

/// Two sorted runs that meet in order make one sorted run.
pub proof fn lemma_sorted_concat<T, R: ItemOrder<T>>(left: Seq<T>, right: Seq<T>)
    requires
        sorted::<T, R>(left),
        sorted::<T, R>(right),
        meet_in_order::<T, R>(left, right),
    ensures
        sorted::<T, R>(left + right),
{
    let s = left + right;
    assert forall|i: int, j: int|
        #![trigger s[i], s[j]]
        0 <= i < j < s.len() implies R::leq(&s[i], &s[j]) by {
        if j < left.len() {
            assert(R::leq(&left[i], &left[j]));
        } else if i >= left.len() {
            assert(R::leq(&right[i - left.len()], &right[j - left.len()]));
        } else {
            let last = left.len() - 1;
            if i < last {
                assert(R::leq(&left[i], &left[last]));
            } else {
                R::leq_total(&left[i], &left[i]);
            }
            if j > left.len() {
                assert(R::leq(&right[0], &right[j - left.len()]));
            } else {
                R::leq_total(&right[0], &right[0]);
            }
            R::leq_transitive(&left[i], &left[last], &right[0]);
            R::leq_transitive(&left[i], &right[0], &right[j - left.len()]);
        }
    }
}

/// The two halves of a sorted run are sorted, and meet in order.
pub proof fn lemma_sorted_split<T, R: ItemOrder<T>>(s: Seq<T>, at: int)
    requires
        sorted::<T, R>(s),
        0 <= at <= s.len(),
    ensures
        sorted::<T, R>(s.subrange(0, at)),
        sorted::<T, R>(s.subrange(at, s.len() as int)),
        meet_in_order::<T, R>(s.subrange(0, at), s.subrange(at, s.len() as int)),
{
    let left = s.subrange(0, at);
    let right = s.subrange(at, s.len() as int);
    assert forall|i: int, j: int|
        #![trigger left[i], left[j]]
        0 <= i < j < left.len() implies R::leq(&left[i], &left[j]) by {
        assert(R::leq(&s[i], &s[j]));
    }
    assert forall|i: int, j: int|
        #![trigger right[i], right[j]]
        0 <= i < j < right.len() implies R::leq(&right[i], &right[j]) by {
        assert(R::leq(&s[at + i], &s[at + j]));
    }
    if left.len() > 0 && right.len() > 0 {
        assert(R::leq(&s[at - 1], &s[at]));
    }
}

/// A sorted run stays sorted when an item is put where it belongs.
pub proof fn lemma_sorted_insert<T, R: ItemOrder<T>>(s: Seq<T>, at: int, item: T)
    requires
        sorted::<T, R>(s),
        0 <= at <= s.len(),
        forall|j: int| 0 <= j < at ==> R::leq(#[trigger] &s[j], &item),
        forall|j: int| at <= j < s.len() ==> R::leq(&item, #[trigger] &s[j]),
    ensures
        sorted::<T, R>(s.insert(at, item)),
{
    let grown = s.insert(at, item);
    assert forall|i: int, j: int|
        #![trigger grown[i], grown[j]]
        0 <= i < j < grown.len() implies R::leq(&grown[i], &grown[j]) by {
        if j < at {
            assert(R::leq(&s[i], &s[j]));
        } else if j == at {
            assert(R::leq(&s[i], &item));
        } else if i < at {
            assert(R::leq(&s[i], &s[j - 1]));
        } else if i == at {
            assert(R::leq(&item, &s[j - 1]));
        } else {
            assert(R::leq(&s[i - 1], &s[j - 1]));
        }
    }
}

/// A sorted run stays sorted when an item is taken out.
pub proof fn lemma_sorted_remove<T, R: ItemOrder<T>>(s: Seq<T>, at: int)
    requires
        sorted::<T, R>(s),
        0 <= at < s.len(),
    ensures
        sorted::<T, R>(s.remove(at)),
{
    let rest = s.remove(at);
    assert forall|i: int, j: int|
        #![trigger rest[i], rest[j]]
        0 <= i < j < rest.len() implies R::leq(&rest[i], &rest[j]) by {
        if j < at {
            assert(R::leq(&s[i], &s[j]));
        } else if i < at {
            assert(R::leq(&s[i], &s[j + 1]));
        } else {
            assert(R::leq(&s[i + 1], &s[j + 1]));
        }
    }
}

/// In a sorted run, an item sorts at or before each one at or after it.
pub proof fn lemma_sorted_leq<T, R: ItemOrder<T>>(s: Seq<T>, i: int, j: int)
    requires
        sorted::<T, R>(s),
        0 <= i <= j < s.len(),
    ensures
        R::leq(&s[i], &s[j]),
{
    if i == j {
        R::leq_total(&s[i], &s[i]);
    } else {
        assert(R::leq(&s[i], &s[j]));
    }
}

/// Moves the last item of `from` to the end of `rev`, in the course of a
/// merge: `from` and `other` are what is left of the two runs, `rev` holds
/// what has been taken from them, largest first.
fn take_last<T, R: ItemOrder<T>>(
    from: &mut Vec<T>,
    rev: &mut Vec<T>,
    Ghost(other): Ghost<Seq<T>>,
)
    requires
        old(from)@.len() > 0,
        sorted::<T, R>(old(from)@),
        descending::<T, R>(old(rev)@),
        all_leq::<T, R>(old(from)@, old(rev)@),
        all_leq::<T, R>(other, old(rev)@),
        other.len() > 0 ==> R::leq(&other.last(), &old(from)@.last()),
        sorted::<T, R>(other),
    ensures
        final(from)@ == old(from)@.drop_last(),
        final(rev)@ == old(rev)@.push(old(from)@.last()),
        sorted::<T, R>(final(from)@),
        descending::<T, R>(final(rev)@),
        all_leq::<T, R>(final(from)@, final(rev)@),
        all_leq::<T, R>(other, final(rev)@),
        old(from)@.to_multiset() == final(from)@.to_multiset().insert(old(from)@.last()),
        final(rev)@.to_multiset() == old(rev)@.to_multiset().insert(old(from)@.last()),
{
    let ghost before = from@;
    let ghost taken = rev@;
    let x = from.pop().unwrap();
    rev.push(x);
    proof {
        let rest = from@;
        let grown = rev@;
        let n = taken.len() as int;
        assert(before =~= rest.push(x));
        to_multiset_build(rest, x);
        to_multiset_build(taken, x);
        assert forall|i: int, j: int|
            #![trigger rest[i], rest[j]]
            0 <= i < j < rest.len() implies R::leq(&rest[i], &rest[j]) by {
            assert(R::leq(&before[i], &before[j]));
        }
        assert forall|i: int, j: int|
            #![trigger grown[i], grown[j]]
            0 <= i < j < grown.len() implies R::leq(&grown[j], &grown[i]) by {
            if j < n {
                assert(R::leq(&taken[j], &taken[i]));
            } else {
                assert(R::leq(&before[before.len() - 1], &taken[i]));
            }
        }
        assert forall|i: int, k: int|
            #![trigger rest[i], grown[k]]
            0 <= i < rest.len() && 0 <= k < grown.len() implies R::leq(&rest[i], &grown[k]) by {
            if k < n {
                assert(R::leq(&before[i], &taken[k]));
            } else {
                assert(R::leq(&before[i], &before[before.len() - 1]));
            }
        }
        assert forall|i: int, k: int|
            #![trigger other[i], grown[k]]
            0 <= i < other.len() && 0 <= k < grown.len() implies R::leq(&other[i], &grown[k]) by {
            if k < n {
                assert(R::leq(&other[i], &taken[k]));
            } else {
                let last = other.len() - 1;
                if i < last {
                    assert(R::leq(&other[i], &other[last]));
                } else {
                    R::leq_total(&other[i], &other[i]);
                }
                R::leq_transitive(&other[i], &other[last], &x);
            }
        }
    }
}

/// Merges two sorted runs into one.
fn merge<T, R: ItemOrder<T>>(left: Vec<T>, right: Vec<T>) -> (out: Vec<T>)
    requires
        sorted::<T, R>(left@),
        sorted::<T, R>(right@),
    ensures
        sorted::<T, R>(out@),
        out@.to_multiset() == (left@ + right@).to_multiset(),
        meet_in_order::<T, R>(left@, right@) ==> out@ == left@ + right@,
{
    let mut left = left;
    let mut right = right;
    let ghost first = left@;
    let ghost second = right@;
    proof {
        lemma_multiset_commutative(first, second);
    }
    if left.len() == 0 {
        assert(first + second =~= second);
        return right;
    }
    if right.len() == 0 {
        assert(first + second =~= first);
        return left;
    }
    if R::is_leq(&left[left.len() - 1], &right[0]) {
        proof {
            lemma_sorted_concat::<T, R>(first, second);
        }
        left.append(&mut right);
        return left;
    }
    let mut rev: Vec<T> = Vec::new();
    proof {
        lemma_empty_to_multiset(rev@);
        assert(first.to_multiset().add(second.to_multiset()).add(Multiset::<T>::empty())
            =~= first.to_multiset().add(second.to_multiset()));
    }
    while left.len() > 0 && right.len() > 0
        invariant
            sorted::<T, R>(left@),
            sorted::<T, R>(right@),
            descending::<T, R>(rev@),
            all_leq::<T, R>(left@, rev@),
            all_leq::<T, R>(right@, rev@),
            left@.to_multiset().add(right@.to_multiset()).add(rev@.to_multiset())
                == first.to_multiset().add(second.to_multiset()),
        decreases left@.len() + right@.len(),
    {
        let ghost l = left@;
        let ghost r = right@;
        let ghost t = rev@;
        if R::is_leq(&left[left.len() - 1], &right[right.len() - 1]) {
            take_last::<T, R>(&mut right, &mut rev, Ghost(left@));
            assert(l.to_multiset().add(right@.to_multiset()).add(
                t.to_multiset().insert(r.last()),
            ) =~= l.to_multiset().add(right@.to_multiset().insert(r.last())).add(t.to_multiset()));
        } else {
            proof {
                R::leq_total(&left@.last(), &right@.last());
            }
            take_last::<T, R>(&mut left, &mut rev, Ghost(right@));
            assert(left@.to_multiset().add(r.to_multiset()).add(t.to_multiset().insert(l.last()))
                =~= left@.to_multiset().insert(l.last()).add(r.to_multiset()).add(
                t.to_multiset(),
            ));
        }
    }
    while left.len() > 0
        invariant
            sorted::<T, R>(left@),
            sorted::<T, R>(right@),
            descending::<T, R>(rev@),
            all_leq::<T, R>(left@, rev@),
            all_leq::<T, R>(right@, rev@),
            left@.len() == 0 || right@.len() == 0,
            left@.to_multiset().add(right@.to_multiset()).add(rev@.to_multiset())
                == first.to_multiset().add(second.to_multiset()),
        decreases left@.len(),
    {
        let ghost l = left@;
        let ghost r = right@;
        let ghost t = rev@;
        take_last::<T, R>(&mut left, &mut rev, Ghost(right@));
        assert(left@.to_multiset().add(r.to_multiset()).add(t.to_multiset().insert(l.last()))
            =~= left@.to_multiset().insert(l.last()).add(r.to_multiset()).add(t.to_multiset()));
    }
    while right.len() > 0
        invariant
            sorted::<T, R>(left@),
            sorted::<T, R>(right@),
            descending::<T, R>(rev@),
            all_leq::<T, R>(left@, rev@),
            all_leq::<T, R>(right@, rev@),
            left@.len() == 0,
            left@.to_multiset().add(right@.to_multiset()).add(rev@.to_multiset())
                == first.to_multiset().add(second.to_multiset()),
        decreases right@.len(),
    {
        let ghost l = left@;
        let ghost r = right@;
        let ghost t = rev@;
        take_last::<T, R>(&mut right, &mut rev, Ghost(left@));
        assert(l.to_multiset().add(right@.to_multiset()).add(t.to_multiset().insert(r.last()))
            =~= l.to_multiset().add(right@.to_multiset().insert(r.last())).add(t.to_multiset()));
    }
    let ghost taken = rev@;
    let out = reverse(rev);
    proof {
        lemma_empty_to_multiset(left@);
        lemma_empty_to_multiset(right@);
        assert(Multiset::<T>::empty().add(Multiset::<T>::empty()).add(
            taken.to_multiset(),
        ) =~= taken.to_multiset());
        taken.lemma_reverse_to_multiset();
        let n = taken.len() as int;
        assert forall|i: int, j: int|
            #![trigger out@[i], out@[j]]
            0 <= i < j < out@.len() implies R::leq(&out@[i], &out@[j]) by {
            assert(R::leq(&taken[n - 1 - i], &taken[n - 1 - j]));
        }
    }
    out
}

/// Sorts `v`.
pub fn merge_sort<T, R: ItemOrder<T>>(v: Vec<T>) -> (out: Vec<T>)
    ensures
        is_sort_of::<T, R>(v@, out@),
    decreases v@.len(),
{
    if v.len() <= 1 {
        return v;
    }
    let ghost whole = v@;
    let mut left = v;
    let mid = left.len() / 2;
    let right = left.split_off(mid);
    let ghost first = left@;
    let ghost second = right@;
    let left = merge_sort::<T, R>(left);
    let right = merge_sort::<T, R>(right);
    proof {
        assert(whole =~= first + second);
        lemma_multiset_commutative(first, second);
        lemma_multiset_commutative(left@, right@);
        if sorted::<T, R>(whole) {
            lemma_sorted_split::<T, R>(whole, mid as int);
        }
    }
    merge::<T, R>(left, right)
}

/// Tests whether `v` is sorted.
pub fn is_sorted<T, R: ItemOrder<T>>(v: &Vec<T>) -> (b: bool)
    ensures
        b == sorted::<T, R>(v@),
{
    if v.len() < 2 {
        return true;
    }
    let mut i: usize = 1;
    while i < v.len()
        invariant
            1 <= i <= v@.len(),
            sorted::<T, R>(v@.subrange(0, i as int)),
        decreases v@.len() - i,
    {
        if !R::is_leq(&v[i - 1], &v[i]) {
            return false;
        }
        proof {
            let shorter = v@.subrange(0, i as int);
            let longer = v@.subrange(0, i + 1);
            assert forall|a: int, b: int|
                #![trigger longer[a], longer[b]]
                0 <= a < b < longer.len() implies R::leq(&longer[a], &longer[b]) by {
                if b < i {
                    assert(R::leq(&shorter[a], &shorter[b]));
                } else if a < i - 1 {
                    assert(R::leq(&shorter[a], &shorter[i - 1]));
                    R::leq_transitive(&v@[a], &v@[i - 1], &v@[i as int]);
                }
            }
        }
        i = i + 1;
    }
    assert(v@.subrange(0, i as int) =~= v@);
    true
}

} // verus!
