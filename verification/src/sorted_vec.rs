//! A vector kept sorted by a key of its items.

use core::marker::PhantomData;

use vstd::prelude::*;
use vstd::std_specs::iter::IteratorSpec;

use crate::dedup::{
    dedup_sorted, dedup_spec, lemma_dedup_covers, lemma_dedup_keeps_items, lemma_dedup_sorted, same,
};
use crate::order::{equivalent, lemma_leq_less, lemma_less_leq, less, Comparison, TotalOrder};
use crate::sort::{
    is_sort_of, lemma_sorted_insert, lemma_sorted_leq, lemma_sorted_remove, lemma_sorted_split,
    merge_sort, sorted, ItemOrder,
};
use crate::vecs::{clones_of, comes_to_an_end, lemma_same_items, push_all, slice_items, vec_items};

verus! {

/// How items of type `T` get the keys by which a [`SortedVec`] sorts them.
///
/// An implementation names the type of the keys, and says how a key is
/// derived from an item. The key of an item
/// must depend on the item alone: the container compares keys that it
/// derived at different times.
///
/// A verified implementation defines `key` and proves that `derive_key`
/// computes it. An implementation in ordinary Rust only has to provide
/// `derive_key`.
pub trait KeyFn<T> {
    /// The keys by which they are sorted and found.
    type Key: TotalOrder;

    /// The key of `item`.
    open spec fn key(item: &T) -> Self::Key {
        arbitrary()
    }

    /// Derives the key of `item`.
    fn derive_key(item: &T) -> (k: Self::Key)
        ensures
            k == Self::key(item),
    ;
}

/// The order in which a [`SortedVec`] keeps its items: the order of their
/// keys.
pub struct ByKey<S> {
    key_fn: PhantomData<S>,
}

impl<T, S: KeyFn<T>> ItemOrder<T> for ByKey<S> {
    open spec fn leq(a: &T, b: &T) -> bool {
        S::key(a).leq(&S::key(b))
    }

    proof fn leq_total(a: &T, b: &T) {
        S::Key::leq_total(&S::key(a), &S::key(b));
    }

    proof fn leq_transitive(a: &T, b: &T, c: &T) {
        S::Key::leq_transitive(&S::key(a), &S::key(b), &S::key(c));
    }

    fn is_leq(a: &T, b: &T) -> (r: bool) {
        match S::derive_key(a).compare(&S::derive_key(b)) {
            Comparison::Greater => false,
            _ => true,
        }
    }
}

/// Some item of `s` has a key equivalent to `key`.
pub open spec fn has_key<T, S: KeyFn<T>>(s: Seq<T>, key: &S::Key) -> bool {
    exists|i: int| #![trigger s[i]] 0 <= i < s.len() && equivalent(&S::key(&s[i]), key)
}

/// No item of `s` has a key equivalent to `key`, and an item with that key
/// put at index `at` would leave `s` sorted: the keys before `at` are
/// smaller, those from `at` on are greater.
pub open spec fn is_insertion_point<T, S: KeyFn<T>>(s: Seq<T>, key: &S::Key, at: int) -> bool {
    &&& 0 <= at <= s.len()
    &&& forall|j: int| #![trigger s[j]] 0 <= j < at ==> less(&S::key(&s[j]), key)
    &&& forall|j: int| #![trigger s[j]] at <= j < s.len() ==> less(key, &S::key(&s[j]))
}

/// `item` may be put at index `at` of the sorted sequence `s`: no key before
/// `at` is greater than its key, and none from `at` on is smaller.
pub open spec fn is_place_for<T, S: KeyFn<T>>(s: Seq<T>, item: &T, at: int) -> bool {
    &&& 0 <= at <= s.len()
    &&& forall|j: int| #![trigger s[j]] 0 <= j < at ==> S::key(&s[j]).leq(&S::key(item))
    &&& forall|j: int| #![trigger s[j]] at <= j < s.len() ==> S::key(item).leq(&S::key(&s[j]))
}

/// Where the keys before `at` are smaller than `key` and those from `at`
/// on are greater, no item has a key equivalent to `key`.
pub proof fn lemma_insertion_point_excludes_key<T, S: KeyFn<T>>(s: Seq<T>, key: &S::Key, at: int)
    requires
        is_insertion_point::<T, S>(s, key, at),
    ensures
        !has_key::<T, S>(s, key),
{
    assert forall|i: int| #![trigger s[i]] 0 <= i < s.len() implies !equivalent(
        &S::key(&s[i]),
        key,
    ) by {
        if i < at {
            assert(less(&S::key(&s[i]), key));
        } else {
            assert(less(key, &S::key(&s[i])));
        }
    }
}

/// Sorting keeps the keys: what was sorted holds an item with a given key
/// exactly when what it was sorted from does.
pub proof fn lemma_sort_keeps_keys<T, S: KeyFn<T>>(items: Seq<T>, built: Seq<T>, key: &S::Key)
    requires
        is_sort_of::<T, ByKey<S>>(items, built),
    ensures
        has_key::<T, S>(built, key) <==> has_key::<T, S>(items, key),
{
    lemma_same_items(items, built);
    if has_key::<T, S>(items, key) {
        let i = choose|i: int|
            #![trigger items[i]]
            0 <= i < items.len() && equivalent(&S::key(&items[i]), key);
        assert(items.contains(items[i]));
        let j = choose|j: int| 0 <= j < built.len() && built[j] == items[i];
        assert(equivalent(&S::key(&built[j]), key));
    }
    if has_key::<T, S>(built, key) {
        let i = choose|i: int|
            #![trigger built[i]]
            0 <= i < built.len() && equivalent(&S::key(&built[i]), key);
        assert(built.contains(built[i]));
        let j = choose|j: int| 0 <= j < items.len() && items[j] == built[i];
        assert(equivalent(&S::key(&items[j]), key));
    }
}

/// An item that is put anywhere into a sequence is found by its key in the
/// collection that is built from the sequence.
pub proof fn lemma_inserted_is_found<T, S: KeyFn<T>>(
    items: Seq<T>,
    item: T,
    at: int,
    built: Seq<T>,
)
    requires
        0 <= at <= items.len(),
        is_sort_of::<T, ByKey<S>>(items.insert(at, item), built),
    ensures
        has_key::<T, S>(built, &S::key(&item)),
{
    let grown = items.insert(at, item);
    S::Key::leq_total(&S::key(&item), &S::key(&item));
    assert(equivalent(&S::key(&grown[at]), &S::key(&item)));
    lemma_sort_keeps_keys::<T, S>(grown, built, &S::key(&item));
}

/// Dropping repeats keeps the keys: what is left holds an item with a given
/// key exactly when the whole did.
pub proof fn lemma_dedup_keeps_keys<T, S: KeyFn<T>>(items: Seq<T>, key: &S::Key)
    ensures
        has_key::<T, S>(dedup_spec::<T, ByKey<S>>(items), key) <==> has_key::<T, S>(items, key),
{
    let kept = dedup_spec::<T, ByKey<S>>(items);
    if has_key::<T, S>(items, key) {
        let i = choose|i: int|
            #![trigger items[i]]
            0 <= i < items.len() && equivalent(&S::key(&items[i]), key);
        lemma_dedup_covers::<T, ByKey<S>>(items, i);
        let k = choose|k: int|
            0 <= k < kept.len() && same::<T, ByKey<S>>(&items[i], #[trigger] &kept[k]);
        S::Key::leq_transitive(&S::key(&kept[k]), &S::key(&items[i]), key);
        S::Key::leq_transitive(key, &S::key(&items[i]), &S::key(&kept[k]));
        assert(equivalent(&S::key(&kept[k]), key));
    }
    if has_key::<T, S>(kept, key) {
        let k = choose|k: int|
            #![trigger kept[k]]
            0 <= k < kept.len() && equivalent(&S::key(&kept[k]), key);
        lemma_dedup_keeps_items::<T, ByKey<S>>(items);
        assert(items.contains(kept[k]));
        let i = choose|i: int| 0 <= i < items.len() && items[i] == kept[k];
        assert(equivalent(&S::key(&items[i]), key));
    }
}

/// A vector whose items are sorted by the key that `S` derives from them.
///
/// Items with equivalent keys may stand in any order among themselves.
pub struct SortedVec<T, S: KeyFn<T>> {
    inner: Vec<T>,
    key_fn: PhantomData<S>,
}

impl<T, S: KeyFn<T>> View for SortedVec<T, S> {
    type V = Seq<T>;

    /// The items, in the order in which they are kept.
    closed spec fn view(&self) -> Seq<T> {
        self.inner@
    }
}

impl<T, S: KeyFn<T>> SortedVec<T, S> {
    /// What holds of every collection: its items are in ascending order
    /// of their keys.
    #[verifier::type_invariant]
    spec fn ordered(&self) -> bool {
        sorted::<T, ByKey<S>>(self.inner@)
    }

    /// The items are in ascending order of their keys.
    pub open spec fn spec_is_sorted(&self) -> bool {
        sorted::<T, ByKey<S>>(self@)
    }

    /// Tests whether the items are in ascending order of their keys. They
    /// always are where the key of an item is what its key function says
    /// it is; the test is for key functions of which that is not known.
    #[verifier::when_used_as_spec(spec_is_sorted)]
    pub fn is_sorted(&self) -> (b: bool)
        ensures
            b == self.spec_is_sorted(),
            self.spec_is_sorted(),
    {
        proof {
            use_type_invariant(self);
        }
        crate::sort::is_sorted::<T, ByKey<S>>(&self.inner)
    }

    /// Takes the items out, to be put back in order. The collection is
    /// empty in the meantime.
    fn take_items(&mut self) -> (items: Vec<T>)
        ensures
            items@ == old(self)@,
            sorted::<T, ByKey<S>>(items@),
            final(self)@ == Seq::<T>::empty(),
    {
        proof {
            use_type_invariant(&*self);
        }
        let mut items: Vec<T> = Vec::new();
        core::mem::swap(&mut self.inner, &mut items);
        items
    }

    /// An empty collection.
    pub fn new() -> (r: Self)
        ensures
            r@ == Seq::<T>::empty(),
            r.is_sorted(),
    {
        SortedVec { inner: Vec::new(), key_fn: PhantomData }
    }

    /// Sorts `vec` into a collection.
    pub fn from_vec(vec: Vec<T>) -> (r: Self)
        ensures
            is_sort_of::<T, ByKey<S>>(vec@, r@),
            r.is_sorted(),
    {
        SortedVec { inner: merge_sort::<T, ByKey<S>>(vec), key_fn: PhantomData }
    }

    /// Sorts what `iter` yields into a collection.
    pub fn from_iter<I: Iterator<Item = T>>(iter: I) -> (r: Self)
        requires
            comes_to_an_end(&iter),
        ensures
            is_sort_of::<T, ByKey<S>>(iter.remaining(), r@),
            r.is_sorted(),
    {
        let mut inner: Vec<T> = Vec::new();
        push_all(&mut inner, iter);
        assert(inner@ =~= iter.remaining());
        Self::from_vec(inner)
    }

    /// Gives up the items as a plain vector, in ascending order of their
    /// keys.
    pub fn into_vec(self) -> (r: Vec<T>)
        ensures
            r@ == self@,
            self.is_sorted(),
    {
        proof {
            use_type_invariant(&self);
        }
        self.inner
    }

    /// The items as a slice, in ascending order of their keys.
    pub fn as_slice(&self) -> (r: &[T])
        ensures
            r@ == self@,
            self.is_sorted(),
    {
        proof {
            use_type_invariant(self);
        }
        self.inner.as_slice()
    }

    /// Looks for an item with a key equivalent to `key`. Returns the index
    /// of one where there is any, and otherwise the index at which an item
    /// with that key is to be inserted. The search takes logarithmic time.
    pub fn position(&self, key: &S::Key) -> (r: Result<usize, usize>)
        ensures
            self.is_sorted(),
            match r {
                Ok(i) => i < self@.len() && equivalent(&S::key(&self@[i as int]), key),
                Err(i) => is_insertion_point::<T, S>(self@, key, i as int),
            },
    {
        proof {
            use_type_invariant(self);
        }
        let mut low: usize = 0;
        let mut high: usize = self.inner.len();
        while low < high
            invariant
                low <= high <= self.inner@.len(),
                sorted::<T, ByKey<S>>(self.inner@),
                forall|j: int|
                    #![trigger self.inner@[j]]
                    0 <= j < low ==> less(&S::key(&self.inner@[j]), key),
                forall|j: int|
                    #![trigger self.inner@[j]]
                    high <= j < self.inner@.len() ==> less(key, &S::key(&self.inner@[j])),
            decreases high - low,
        {
            let mid = low + (high - low) / 2;
            let ghost probe = S::key(&self.inner@[mid as int]);
            match S::derive_key(&self.inner[mid]).compare(key) {
                Comparison::Equal => {
                    return Ok(mid);
                },
                Comparison::Less => {
                    assert forall|j: int| #![trigger self.inner@[j]] 0 <= j < mid + 1 implies less(
                        &S::key(&self.inner@[j]),
                        key,
                    ) by {
                        lemma_sorted_leq::<T, ByKey<S>>(self.inner@, j, mid as int);
                        lemma_leq_less(&S::key(&self.inner@[j]), &probe, key);
                    }
                    low = mid + 1;
                },
                Comparison::Greater => {
                    assert forall|j: int|
                        #![trigger self.inner@[j]]
                        mid <= j < self.inner@.len() implies less(
                        key,
                        &S::key(&self.inner@[j]),
                    ) by {
                        lemma_sorted_leq::<T, ByKey<S>>(self.inner@, mid as int, j);
                        lemma_less_leq(key, &probe, &S::key(&self.inner@[j]));
                    }
                    high = mid;
                },
            }
        }
        Err(low)
    }

    /// Finds an item with a key equivalent to `key`. Where several items
    /// have such a key, any one of them may be returned.
    pub fn find(&self, key: &S::Key) -> (r: Option<&T>)
        ensures
            self.is_sorted(),
            r.is_some() == has_key::<T, S>(self@, key),
            match r {
                Some(item) => self@.contains(*item) && equivalent(&S::key(item), key),
                None => true,
            },
    {
        match self.position(key) {
            Ok(i) => Some(&self.inner[i]),
            Err(i) => {
                proof {
                    lemma_insertion_point_excludes_key::<T, S>(self@, key, i as int);
                }
                None
            },
        }
    }

    /// Tells whether some item has a key equivalent to `key`.
    pub fn contains(&self, key: &S::Key) -> (b: bool)
        ensures
            self.is_sorted(),
            b == has_key::<T, S>(self@, key),
    {
        match self.position(key) {
            Ok(i) => true,
            Err(i) => {
                proof {
                    lemma_insertion_point_excludes_key::<T, S>(self@, key, i as int);
                }
                false
            },
        }
    }

    /// Removes and returns one item with a key equivalent to `key`, where
    /// there is any. This takes linear time.
    pub fn remove(&mut self, key: &S::Key) -> (r: Option<T>)
        ensures
            final(self).is_sorted(),
            match r {
                Some(item) => exists|i: int|
                    #![trigger old(self)@[i]]
                    0 <= i < old(self)@.len() && old(self)@[i] == item && final(self)@ == old(
                        self,
                    )@.remove(i) && equivalent(&S::key(&item), key),
                None => !has_key::<T, S>(old(self)@, key) && final(self)@ == old(self)@,
            },
    {
        proof {
            use_type_invariant(&*self);
        }
        match self.position(key) {
            Ok(i) => {
                proof {
                    lemma_sorted_remove::<T, ByKey<S>>(self@, i as int);
                }
                let mut items = self.take_items();
                let item = items.remove(i);
                self.inner = items;
                Some(item)
            },
            Err(i) => {
                proof {
                    lemma_insertion_point_excludes_key::<T, S>(self@, key, i as int);
                }
                None
            },
        }
    }

    /// Inserts `val` where it keeps the items sorted. This takes linear
    /// time.
    pub fn insert(&mut self, val: T)
        ensures
            final(self).is_sorted(),
            exists|i: int|
                is_place_for::<T, S>(old(self)@, &val, i) && final(self)@ == old(self)@.insert(
                    i,
                    val,
                ),
    {
        proof {
            use_type_invariant(&*self);
        }
        let key = S::derive_key(&val);
        let idx = match self.position(&key) {
            Ok(i) => i,
            Err(i) => i,
        };
        proof {
            let s = self@;
            assert forall|j: int| 0 <= j < idx implies S::key(#[trigger] &s[j]).leq(&key) by {
                if j < idx && idx < s.len() && equivalent(&S::key(&s[idx as int]), &key) {
                    lemma_sorted_leq::<T, ByKey<S>>(s, j, idx as int);
                    S::Key::leq_transitive(&S::key(&s[j]), &S::key(&s[idx as int]), &key);
                } else {
                    S::Key::leq_total(&S::key(&s[j]), &key);
                }
            }
            assert forall|j: int| idx <= j < s.len() implies key.leq(&S::key(#[trigger] &s[j])) by {
                if equivalent(&S::key(&s[idx as int]), &key) {
                    lemma_sorted_leq::<T, ByKey<S>>(s, idx as int, j);
                    S::Key::leq_transitive(&key, &S::key(&s[idx as int]), &S::key(&s[j]));
                } else {
                    S::Key::leq_total(&S::key(&s[j]), &key);
                }
            }
            lemma_sorted_insert::<T, ByKey<S>>(s, idx as int, val);
            assert(is_place_for::<T, S>(s, &val, idx as int));
        }
        let mut items = self.take_items();
        items.insert(idx, val);
        self.inner = items;
    }

    /// Splits the collection in two at index `at`. The items before `at`
    /// stay; those from `at` on are returned as a collection of their own.
    pub fn split_off(&mut self, at: usize) -> (r: Self)
        requires
            at <= old(self)@.len(),
        ensures
            final(self).is_sorted(),
            r.is_sorted(),
            final(self)@ == old(self)@.subrange(0, at as int),
            r@ == old(self)@.subrange(at as int, old(self)@.len() as int),
            final(self)@ + r@ == old(self)@,
    {
        proof {
            use_type_invariant(&*self);
            lemma_sorted_split::<T, ByKey<S>>(self@, at as int);
        }
        let mut items = self.take_items();
        let other_inner = items.split_off(at);
        self.inner = items;
        SortedVec { inner: other_inner, key_fn: PhantomData }
    }

    /// Removes every item whose key is equivalent to that of the item
    /// before it, so that of the items with one key only the first stays.
    pub fn dedup(&mut self)
        ensures
            final(self).is_sorted(),
            final(self)@ == dedup_spec::<T, ByKey<S>>(old(self)@),
            forall|key: S::Key|
                has_key::<T, S>(final(self)@, &key) == has_key::<T, S>(old(self)@, &key),
    {
        proof {
            use_type_invariant(&*self);
            lemma_dedup_sorted::<T, ByKey<S>>(self@);
            assert forall|key: S::Key|
                has_key::<T, S>(dedup_spec::<T, ByKey<S>>(self@), &key) == has_key::<T, S>(
                    self@,
                    &key,
                ) by {
                lemma_dedup_keeps_keys::<T, S>(self@, &key);
            }
        }
        let items = self.take_items();
        self.inner = dedup_sorted::<T, ByKey<S>>(items);
    }

    /// Removes and returns the last item, which has the greatest key.
    pub fn pop(&mut self) -> (r: Option<T>)
        ensures
            final(self).is_sorted(),
            match r {
                Some(item) => old(self)@.len() > 0 && item == old(self)@.last() && final(self)@
                    == old(self)@.drop_last() && forall|i: int|
                    #![trigger old(self)@[i]]
                    0 <= i < old(self)@.len() ==> S::key(&old(self)@[i]).leq(&S::key(&item)),
                None => old(self)@.len() == 0 && final(self)@ == old(self)@,
            },
    {
        proof {
            use_type_invariant(&*self);
            if self@.len() > 0 {
                lemma_sorted_split::<T, ByKey<S>>(self@, self@.len() - 1);
                assert forall|i: int| #![trigger self@[i]] 0 <= i < self@.len() implies S::key(
                    &self@[i],
                ).leq(&S::key(&self@.last())) by {
                    lemma_sorted_leq::<T, ByKey<S>>(self@, i, self@.len() - 1);
                }
            }
        }
        let mut items = self.take_items();
        let item = items.pop();
        self.inner = items;
        item
    }

    /// Adds everything that `iter` yields, then sorts the whole once.
    pub fn extend<I: Iterator<Item = T>>(&mut self, iter: I)
        requires
            comes_to_an_end(&iter),
        ensures
            final(self).is_sorted(),
            is_sort_of::<T, ByKey<S>>(old(self)@ + iter.remaining(), final(self)@),
    {
        let mut items = self.take_items();
        push_all(&mut items, iter);
        self.inner = merge_sort::<T, ByKey<S>>(items);
    }
}

impl<T: Clone, S: KeyFn<T>> Clone for SortedVec<T, S> {
    /// A collection of clones of the items. The clones are sorted anew
    /// where they are not in order as they come.
    fn clone(&self) -> (r: Self)
        ensures
            r.is_sorted(),
            exists|clones: Seq<T>|
                #[trigger] clones_of(self@, clones) && is_sort_of::<T, ByKey<S>>(clones, r@),
    {
        let items = self.inner.clone();
        let ghost clones = items@;
        let inner = if crate::sort::is_sorted::<T, ByKey<S>>(&items) {
            items
        } else {
            merge_sort::<T, ByKey<S>>(items)
        };
        proof {
            assert(clones_of(self@, clones));
            assert(is_sort_of::<T, ByKey<S>>(clones, inner@));
        }
        SortedVec { inner, key_fn: PhantomData }
    }
}

impl<T, S: KeyFn<T>> vstd::std_specs::convert::FromSpecImpl<Vec<T>> for SortedVec<T, S> {
    /// What `from` returns is told by its own contract.
    open spec fn obeys_from_spec() -> bool {
        false
    }

    open spec fn from_spec(vec: Vec<T>) -> Self {
        arbitrary()
    }
}

impl<T, S: KeyFn<T>> From<Vec<T>> for SortedVec<T, S> {
    /// Sorts `vec` into a collection.
    fn from(vec: Vec<T>) -> (r: Self)
        ensures
            is_sort_of::<T, ByKey<S>>(vec@, r@),
            r.is_sorted(),
    {
        Self::from_vec(vec)
    }
}

impl<T, S: KeyFn<T>> vstd::std_specs::convert::IntoSpecImpl<Vec<T>> for SortedVec<T, S> {
    /// What `into` returns is told by its own contract.
    open spec fn obeys_into_spec() -> bool {
        false
    }

    open spec fn into_spec(self) -> Vec<T> {
        arbitrary()
    }
}

impl<T, S: KeyFn<T>> Into<Vec<T>> for SortedVec<T, S> {
    /// Gives up the items as a plain vector, in ascending order of their
    /// keys.
    fn into(self) -> (r: Vec<T>)
        ensures
            vec_items(&r) == self@,
    {
        self.inner
    }
}

impl<T, S: KeyFn<T>> core::borrow::Borrow<[T]> for SortedVec<T, S> {
    /// The items as a slice, in ascending order of their keys.
    fn borrow(&self) -> (r: &[T])
        ensures
            slice_items(r) == self@,
    {
        self.inner.as_slice()
    }
}

impl<T, S: KeyFn<T>> AsRef<[T]> for SortedVec<T, S> {
    /// The items as a slice, in ascending order of their keys.
    fn as_ref(&self) -> (r: &[T])
        ensures
            slice_items(r) == self@,
    {
        self.inner.as_slice()
    }
}

impl<T, S: KeyFn<T>> AsRef<Vec<T>> for SortedVec<T, S> {
    /// The items as a vector that can be read, in ascending order of their
    /// keys.
    fn as_ref(&self) -> (r: &Vec<T>)
        ensures
            vec_items(r) == self@,
    {
        &self.inner
    }
}

impl<T, S: KeyFn<T>> IntoIterator for SortedVec<T, S> {
    type Item = T;

    type IntoIter = std::vec::IntoIter<T>;

    /// Yields the items in ascending order of their keys.
    fn into_iter(self) -> (iter: std::vec::IntoIter<T>)
        ensures
            iter.remaining() == self@,
            comes_to_an_end(&iter),
    {
        broadcast use vstd::std_specs::vec::axiom_spec_into_iter;

        self.inner.into_iter()
    }
}

impl<T, S: KeyFn<T>> Default for SortedVec<T, S> {
    /// An empty collection.
    fn default() -> (r: Self)
        ensures
            r@ == Seq::<T>::empty(),
            r.is_sorted(),
    {
        SortedVec { inner: Vec::new(), key_fn: PhantomData }
    }
}

impl<T, S: KeyFn<T>> core::ops::Deref for SortedVec<T, S> {
    type Target = Vec<T>;

    /// The items as a vector that can be read, in ascending order of their
    /// keys.
    fn deref(&self) -> (r: &Vec<T>)
        ensures
            r@ == self@,
    {
        &self.inner
    }
}

} // verus!
