//! Small things done to vectors, and what is true of the sequences they
//! hold.

use vstd::multiset::Multiset;
use vstd::prelude::*;
use vstd::std_specs::iter::IteratorSpec;

verus! {

broadcast use vstd::multiset::group_multiset_axioms;

/// The items of the slice `s`.
pub open spec fn slice_items<T>(s: &[T]) -> Seq<T> {
    s@
}

/// The items of the vector `v`.
pub open spec fn vec_items<T>(v: &Vec<T>) -> Seq<T> {
    v@
}

/// Each item of `copies` is a clone of the item of `items` at its index.
pub open spec fn clones_of<T: Clone>(items: Seq<T>, copies: Seq<T>) -> bool {
    &&& copies.len() == items.len()
    &&& forall|i: int| #![all_triggers] 0 <= i < items.len() ==> cloned::<T>(items[i], copies[i])
}

/// Sequences that hold the same items, each as often, hold the same items.
pub proof fn lemma_same_items<T>(a: Seq<T>, b: Seq<T>)
    requires
        a.to_multiset() == b.to_multiset(),
    ensures
        a.len() == b.len(),
        forall|x: T| a.contains(x) <==> b.contains(x),
{
    a.to_multiset_ensures();
    b.to_multiset_ensures();
    assert forall|x: T| a.contains(x) <==> b.contains(x) by {
        assert(a.contains(x) <==> a.to_multiset().count(x) > 0);
        assert(b.contains(x) <==> b.to_multiset().count(x) > 0);
    }
}

/// An empty sequence holds nothing.
pub proof fn lemma_empty_to_multiset<T>(s: Seq<T>)
    requires
        s.len() == 0,
    ensures
        s.to_multiset() == Multiset::<T>::empty(),
{
    s.to_multiset_ensures();
    assert(s.to_multiset() =~= Multiset::<T>::empty());
}

/// `iter` is known to come to an end.
pub open spec fn comes_to_an_end<I: Iterator>(iter: &I) -> bool {
    iter.obeys_prophetic_iter_laws() && iter.decrease() is Some
}

/// Moves everything that `iter` yields to the end of `v`.
pub fn push_all<T, I: Iterator<Item = T>>(v: &mut Vec<T>, iter: I)
    requires
        comes_to_an_end(&iter),
    ensures
        final(v)@ == old(v)@ + iter.remaining(),
{
    let mut iter = iter;
    let ghost start = v@;
    let ghost all = iter.remaining();
    loop
        invariant
            comes_to_an_end(&iter),
            v@ + iter.remaining() == start + all,
        ensures
            v@ == start + all,
        decreases iter.decrease()->0,
    {
        let ghost before = iter.remaining();
        match iter.next() {
            Some(x) => {
                v.push(x);
                assert(before =~= seq![x] + iter.remaining());
                assert(v@ + iter.remaining() =~= start + all);
            },
            None => {
                assert(v@ =~= start + all);
                break ;
            },
        }
    }
}

/// Turns `v` back to front.
pub fn reverse<T>(v: Vec<T>) -> (out: Vec<T>)
    ensures
        out@ == v@.reverse(),
{
    let mut v = v;
    let ghost whole = v@;
    let mut out: Vec<T> = Vec::new();
    while v.len() > 0
        invariant
            v@ == whole.subrange(0, v@.len() as int),
            out@.len() + v@.len() == whole.len(),
            forall|k: int| 0 <= k < out@.len() ==> out@[k] == whole[whole.len() - 1 - k],
        decreases v@.len(),
    {
        let x = v.pop().unwrap();
        out.push(x);
    }
    assert(out@ =~= whole.reverse());
    out
}

} // verus!
