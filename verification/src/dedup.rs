//! Dropping items that repeat the one before them.
//!
//! Two items repeat each other where each sorts at or before the other. Of
//! a run of such items only the first is kept.

use vstd::prelude::*;

use crate::sort::{sorted, ItemOrder};
use crate::vecs::reverse;

verus! {

/// Each of `a` and `b` sorts at or before the other.
pub open spec fn same<T, R: ItemOrder<T>>(a: &T, b: &T) -> bool {
    R::leq(a, b) && R::leq(b, a)
}

/// `s` without the items that repeat the item just before them.
pub open spec fn dedup_spec<T, R: ItemOrder<T>>(s: Seq<T>) -> Seq<T>
    decreases s.len(),
{
    if s.len() == 0 {
        s
    } else if s.len() >= 2 && same::<T, R>(&s[s.len() - 2], &s.last()) {
        dedup_spec::<T, R>(s.drop_last())
    } else {
        dedup_spec::<T, R>(s.drop_last()).push(s.last())
    }
}

/// No item of `s` repeats the item just before it.
pub open spec fn no_repeats<T, R: ItemOrder<T>>(s: Seq<T>) -> bool {
    forall|i: int| #![trigger s[i]] 0 < i < s.len() ==> !same::<T, R>(&s[i - 1], &s[i])
}

/// Items that repeat a common third repeat each other.
proof fn lemma_same_transitive<T, R: ItemOrder<T>>(a: &T, b: &T, c: &T)
    requires
        same::<T, R>(a, b),
        same::<T, R>(b, c),
    ensures
        same::<T, R>(a, c),
{
    R::leq_transitive(a, b, c);
    R::leq_transitive(c, b, a);
}

/// What is left of a sequence that is not empty is not empty, and ends in
/// an item that repeats the last item of the sequence.
pub proof fn lemma_dedup_last<T, R: ItemOrder<T>>(s: Seq<T>)
    requires
        s.len() > 0,
    ensures
        dedup_spec::<T, R>(s).len() > 0,
        same::<T, R>(&dedup_spec::<T, R>(s).last(), &s.last()),
    decreases s.len(),
{
    if s.len() >= 2 && same::<T, R>(&s[s.len() - 2], &s.last()) {
        lemma_dedup_last::<T, R>(s.drop_last());
        lemma_same_transitive::<T, R>(&dedup_spec::<T, R>(s).last(), &s[s.len() - 2], &s.last());
    } else {
        R::leq_total(&s.last(), &s.last());
    }
}

/// Every item that is kept is an item of the sequence.
pub proof fn lemma_dedup_keeps_items<T, R: ItemOrder<T>>(s: Seq<T>)
    ensures
        dedup_spec::<T, R>(s).len() <= s.len(),
        forall|k: int|
            0 <= k < dedup_spec::<T, R>(s).len() ==> s.contains(
                #[trigger] dedup_spec::<T, R>(s)[k],
            ),
    decreases s.len(),
{
    if s.len() > 0 {
        let shorter = s.drop_last();
        lemma_dedup_keeps_items::<T, R>(shorter);
        let kept = dedup_spec::<T, R>(s);
        assert forall|k: int| 0 <= k < kept.len() implies s.contains(#[trigger] kept[k]) by {
            if k < dedup_spec::<T, R>(shorter).len() {
                let j = choose|j: int| 0 <= j < shorter.len() && shorter[j] == kept[k];
                assert(s[j] == kept[k]);
            } else {
                assert(s[s.len() - 1] == kept[k]);
            }
        }
    }
}

/// Every item of the sequence repeats an item that is kept.
pub proof fn lemma_dedup_covers<T, R: ItemOrder<T>>(s: Seq<T>, i: int)
    requires
        0 <= i < s.len(),
    ensures
        exists|k: int|
            0 <= k < dedup_spec::<T, R>(s).len() && same::<T, R>(
                &s[i],
                #[trigger] &dedup_spec::<T, R>(s)[k],
            ),
    decreases s.len(),
{
    let kept = dedup_spec::<T, R>(s);
    if i == s.len() - 1 {
        lemma_dedup_last::<T, R>(s);
        assert(same::<T, R>(&s[i], &kept[kept.len() - 1]));
    } else {
        let shorter = s.drop_last();
        lemma_dedup_covers::<T, R>(shorter, i);
        let k = choose|k: int|
            0 <= k < dedup_spec::<T, R>(shorter).len() && same::<T, R>(
                &shorter[i],
                #[trigger] &dedup_spec::<T, R>(shorter)[k],
            );
        assert(same::<T, R>(&s[i], &kept[k]));
    }
}

/// What is left holds no repeats.
pub proof fn lemma_dedup_no_repeats<T, R: ItemOrder<T>>(s: Seq<T>)
    ensures
        no_repeats::<T, R>(dedup_spec::<T, R>(s)),
    decreases s.len(),
{
    if s.len() > 0 {
        let shorter = s.drop_last();
        lemma_dedup_no_repeats::<T, R>(shorter);
        let kept = dedup_spec::<T, R>(s);
        let before = dedup_spec::<T, R>(shorter);
        if !(s.len() >= 2 && same::<T, R>(&s[s.len() - 2], &s.last())) {
            assert forall|i: int| #![trigger kept[i]] 0 < i < kept.len() implies !same::<T, R>(
                &kept[i - 1],
                &kept[i],
            ) by {
                if i < before.len() {
                    assert(!same::<T, R>(&before[i - 1], &before[i]));
                } else {
                    lemma_dedup_last::<T, R>(shorter);
                    if same::<T, R>(&kept[i - 1], &kept[i]) {
                        R::leq_transitive(&shorter.last(), &before.last(), &s.last());
                        R::leq_transitive(&s.last(), &before.last(), &shorter.last());
                    }
                }
            }
        }
    }
}

/// A sequence without repeats is left as it is.
pub proof fn lemma_dedup_fixed<T, R: ItemOrder<T>>(s: Seq<T>)
    requires
        no_repeats::<T, R>(s),
    ensures
        dedup_spec::<T, R>(s) == s,
    decreases s.len(),
{
    if s.len() > 0 {
        let shorter = s.drop_last();
        assert forall|i: int| #![trigger shorter[i]] 0 < i < shorter.len() implies !same::<T, R>(
            &shorter[i - 1],
            &shorter[i],
        ) by {
            assert(!same::<T, R>(&s[i - 1], &s[i]));
        }
        lemma_dedup_fixed::<T, R>(shorter);
        if s.len() >= 2 {
            assert(!same::<T, R>(&s[s.len() - 1 - 1], &s[s.len() - 1]));
        }
        assert(shorter.push(s.last()) =~= s);
    }
}

/// Dropping repeats a second time drops nothing more.
pub proof fn lemma_dedup_idempotent<T, R: ItemOrder<T>>(s: Seq<T>)
    ensures
        dedup_spec::<T, R>(dedup_spec::<T, R>(s)) == dedup_spec::<T, R>(s),
{
    lemma_dedup_no_repeats::<T, R>(s);
    lemma_dedup_fixed::<T, R>(dedup_spec::<T, R>(s));
}

/// What is left of a sorted sequence is sorted.
pub proof fn lemma_dedup_sorted<T, R: ItemOrder<T>>(s: Seq<T>)
    requires
        sorted::<T, R>(s),
    ensures
        sorted::<T, R>(dedup_spec::<T, R>(s)),
    decreases s.len(),
{
    if s.len() > 0 {
        let shorter = s.drop_last();
        assert forall|i: int, j: int|
            #![trigger shorter[i], shorter[j]]
            0 <= i < j < shorter.len() implies R::leq(&shorter[i], &shorter[j]) by {
            assert(R::leq(&s[i], &s[j]));
        }
        lemma_dedup_sorted::<T, R>(shorter);
        lemma_dedup_keeps_items::<T, R>(shorter);
        let kept = dedup_spec::<T, R>(s);
        let before = dedup_spec::<T, R>(shorter);
        assert forall|i: int, j: int|
            #![trigger kept[i], kept[j]]
            0 <= i < j < kept.len() implies R::leq(&kept[i], &kept[j]) by {
            if j < before.len() {
                assert(R::leq(&before[i], &before[j]));
            } else {
                assert(shorter.contains(before[i]));
                let k = choose|k: int| 0 <= k < shorter.len() && shorter[k] == before[i];
                assert(R::leq(&s[k], &s[s.len() - 1]));
            }
        }
    }
}

/// Drops from the sorted vector `v` the items that repeat the item just
/// before them.
pub fn dedup_sorted<T, R: ItemOrder<T>>(v: Vec<T>) -> (out: Vec<T>)
    requires
        sorted::<T, R>(v@),
    ensures
        out@ == dedup_spec::<T, R>(v@),
{
    let ghost items = v@;
    let mut rest = reverse(v);
    let mut out: Vec<T> = Vec::new();
    let ghost mut done: int = 0;
    assert(items.subrange(0, 0) =~= Seq::<T>::empty());
    while rest.len() > 0
        invariant
            sorted::<T, R>(items),
            0 <= done <= items.len(),
            rest@ == items.reverse().subrange(0, items.len() - done),
            out@ == dedup_spec::<T, R>(items.subrange(0, done)),
        decreases rest@.len(),
    {
        let x = rest.pop().unwrap();
        proof {
            let shorter = items.subrange(0, done);
            let longer = items.subrange(0, done + 1);
            assert(x == items[done]);
            assert(longer.drop_last() =~= shorter);
            assert(longer.last() == x);
            if done > 0 {
                lemma_dedup_last::<T, R>(shorter);
                assert(longer[longer.len() - 2] == items[done - 1]);
                assert(shorter.last() == items[done - 1]);
                assert(R::leq(&items[done - 1], &items[done]));
                if R::leq(&x, &out@.last()) {
                    R::leq_transitive(&x, &out@.last(), &items[done - 1]);
                }
                if R::leq(&x, &items[done - 1]) {
                    R::leq_transitive(&x, &items[done - 1], &out@.last());
                }
            }
            done = done + 1;
        }
        if out.len() == 0 || !R::is_leq(&x, &out[out.len() - 1]) {
            out.push(x);
        }
    }
    assert(items.subrange(0, done) =~= items);
    out
}

} // verus!
