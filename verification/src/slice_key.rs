//! A vector kept sorted by a key that is a slice.
//!
//! Keys that are slices are ordered lexicographically. A search among such
//! keys can do better than to compare whole keys at every step. The keys
//! it has found too small, and those it has found too large, narrow the
//! range that is left; every key in that range starts with whatever the
//! two keys at its borders share with the key that is looked for. The
//! search keeps track of how much that is, and compares only what comes
//! after.

use core::marker::PhantomData;

use vstd::prelude::*;
use vstd::slice::slice_subrange;
use vstd::std_specs::iter::IteratorSpec;

use crate::dedup::{
    dedup_sorted, dedup_spec, lemma_dedup_covers, lemma_dedup_keeps_items, lemma_dedup_sorted, same,
};
use crate::lexical::{
    common_prefix_len, lemma_common_prefix_between, lemma_common_prefix_len,
    lemma_compare_after_skip, lemma_lex_compare_mirror, lemma_lex_compare_reflexive,
    lemma_lex_leq_less, lemma_lex_leq_total, lemma_lex_leq_transitive, lemma_lex_less_leq,
    lex_compare, lex_leq, lex_less,
};
use crate::order::{Comparison, TotalOrder};
use crate::slice_ord::SliceOrd;
use crate::sort::{
    is_sort_of, lemma_sorted_insert, lemma_sorted_leq, lemma_sorted_remove, lemma_sorted_split,
    merge_sort, sorted, ItemOrder,
};
use crate::vecs::{clones_of, comes_to_an_end, lemma_same_items, push_all, slice_items, vec_items};

verus! {

/// How items of type `T` get the keys by which a [`SliceKeySortedVec`]
/// sorts them.
///
/// The key of an item is a slice that the item holds. It must depend on
/// the item alone.
///
/// A verified implementation defines `key` and proves that `derive_key`
/// returns it. An implementation in ordinary Rust only has to provide
/// `derive_key`.
pub trait SliceKeyFn<T> {
    /// The elements that their keys are made of.
    type Elem: TotalOrder;

    /// The key of `item`.
    open spec fn key(item: &T) -> Seq<Self::Elem> {
        arbitrary()
    }

    /// Borrows the key of `item`.
    fn derive_key(item: &T) -> (k: &[Self::Elem])
        ensures
            k@ == Self::key(item),
    ;
}

/// The order in which a [`SliceKeySortedVec`] keeps its items: the
/// lexicographic order of their keys. `C` is what compares the keys.
pub struct BySliceKey<S, C> {
    key_fn: PhantomData<S>,
    comparator: PhantomData<C>,
}

impl<T, S: SliceKeyFn<T>, C: SliceOrd<S::Elem>> ItemOrder<T> for BySliceKey<S, C> {
    open spec fn leq(a: &T, b: &T) -> bool {
        lex_leq(S::key(a), S::key(b))
    }

    proof fn leq_total(a: &T, b: &T) {
        lemma_lex_leq_total(S::key(a), S::key(b));
    }

    proof fn leq_transitive(a: &T, b: &T, c: &T) {
        lemma_lex_leq_transitive(S::key(a), S::key(b), S::key(c));
    }

    fn is_leq(a: &T, b: &T) -> (r: bool) {
        match C::compare(S::derive_key(a), S::derive_key(b)).1 {
            Comparison::Greater => false,
            _ => true,
        }
    }
}

/// Some item of `s` has a key that compares equal to `key`.
pub open spec fn has_slice_key<T, S: SliceKeyFn<T>>(s: Seq<T>, key: Seq<S::Elem>) -> bool {
    exists|i: int|
        #![trigger s[i]]
        0 <= i < s.len() && lex_compare(S::key(&s[i]), key) == Comparison::Equal
}

/// No item of `s` has a key that compares equal to `key`, and an item with
/// that key put at index `at` would leave `s` sorted: the keys before `at`
/// are smaller, those from `at` on are greater.
pub open spec fn is_slice_insertion_point<T, S: SliceKeyFn<T>>(
    s: Seq<T>,
    key: Seq<S::Elem>,
    at: int,
) -> bool {
    &&& 0 <= at <= s.len()
    &&& forall|j: int| #![trigger s[j]] 0 <= j < at ==> lex_less(S::key(&s[j]), key)
    &&& forall|j: int| #![trigger s[j]] at <= j < s.len() ==> lex_less(key, S::key(&s[j]))
}

/// `item` may be put at index `at` of the sorted sequence `s`: no key before
/// `at` is greater than its key, and none from `at` on is smaller.
pub open spec fn is_place_for_slice_key<T, S: SliceKeyFn<T>>(s: Seq<T>, item: &T, at: int) -> bool {
    &&& 0 <= at <= s.len()
    &&& forall|j: int| #![trigger s[j]] 0 <= j < at ==> lex_leq(S::key(&s[j]), S::key(item))
    &&& forall|j: int| #![trigger s[j]] at <= j < s.len() ==> lex_leq(S::key(item), S::key(&s[j]))
}

/// Where the keys before `at` are smaller than `key` and those from `at`
/// on are greater, no item has a key that compares equal to `key`.
pub proof fn lemma_slice_insertion_point_excludes_key<T, S: SliceKeyFn<T>>(
    s: Seq<T>,
    key: Seq<S::Elem>,
    at: int,
)
    requires
        is_slice_insertion_point::<T, S>(s, key, at),
    ensures
        !has_slice_key::<T, S>(s, key),
{
    assert forall|i: int| #![trigger s[i]] 0 <= i < s.len() implies lex_compare(S::key(&s[i]), key)
        != Comparison::Equal by {
        if i < at {
            assert(lex_less(S::key(&s[i]), key));
        } else {
            assert(lex_less(key, S::key(&s[i])));
            lemma_lex_compare_mirror(key, S::key(&s[i]));
        }
    }
}

/// Sorting keeps the keys: what was sorted holds an item with a given key
/// exactly when what it was sorted from does.
pub proof fn lemma_sort_keeps_slice_keys<T, S: SliceKeyFn<T>, C: SliceOrd<S::Elem>>(
    items: Seq<T>,
    built: Seq<T>,
    key: Seq<S::Elem>,
)
    requires
        is_sort_of::<T, BySliceKey<S, C>>(items, built),
    ensures
        has_slice_key::<T, S>(built, key) <==> has_slice_key::<T, S>(items, key),
{
    lemma_same_items(items, built);
    if has_slice_key::<T, S>(items, key) {
        let i = choose|i: int|
            #![trigger items[i]]
            0 <= i < items.len() && lex_compare(S::key(&items[i]), key) == Comparison::Equal;
        assert(items.contains(items[i]));
        let j = choose|j: int| 0 <= j < built.len() && built[j] == items[i];
        assert(lex_compare(S::key(&built[j]), key) == Comparison::Equal);
    }
    if has_slice_key::<T, S>(built, key) {
        let i = choose|i: int|
            #![trigger built[i]]
            0 <= i < built.len() && lex_compare(S::key(&built[i]), key) == Comparison::Equal;
        assert(built.contains(built[i]));
        let j = choose|j: int| 0 <= j < items.len() && items[j] == built[i];
        assert(lex_compare(S::key(&items[j]), key) == Comparison::Equal);
    }
}

/// An item that is put anywhere into a sequence is found by its key in the
/// collection that is built from the sequence.
pub proof fn lemma_inserted_is_found_by_slice<T, S: SliceKeyFn<T>, C: SliceOrd<S::Elem>>(
    items: Seq<T>,
    item: T,
    at: int,
    built: Seq<T>,
)
    requires
        0 <= at <= items.len(),
        is_sort_of::<T, BySliceKey<S, C>>(items.insert(at, item), built),
    ensures
        has_slice_key::<T, S>(built, S::key(&item)),
{
    let grown = items.insert(at, item);
    lemma_lex_compare_reflexive(S::key(&item));
    assert(lex_compare(S::key(&grown[at]), S::key(&item)) == Comparison::Equal);
    lemma_sort_keeps_slice_keys::<T, S, C>(grown, built, S::key(&item));
}

/// Dropping repeats keeps the keys: what is left holds an item with a given
/// key exactly when the whole did.
pub proof fn lemma_dedup_keeps_slice_keys<T, S: SliceKeyFn<T>, C: SliceOrd<S::Elem>>(
    items: Seq<T>,
    key: Seq<S::Elem>,
)
    ensures
        has_slice_key::<T, S>(dedup_spec::<T, BySliceKey<S, C>>(items), key)
            <==> has_slice_key::<T, S>(items, key),
{
    let kept = dedup_spec::<T, BySliceKey<S, C>>(items);
    if has_slice_key::<T, S>(items, key) {
        let i = choose|i: int|
            #![trigger items[i]]
            0 <= i < items.len() && lex_compare(S::key(&items[i]), key) == Comparison::Equal;
        lemma_dedup_covers::<T, BySliceKey<S, C>>(items, i);
        let k = choose|k: int|
            0 <= k < kept.len() && same::<T, BySliceKey<S, C>>(&items[i], #[trigger] &kept[k]);
        lemma_lex_compare_mirror(S::key(&items[i]), key);
        lemma_lex_leq_transitive(S::key(&kept[k]), S::key(&items[i]), key);
        lemma_lex_leq_transitive(key, S::key(&items[i]), S::key(&kept[k]));
        lemma_lex_compare_mirror(S::key(&kept[k]), key);
        assert(lex_compare(S::key(&kept[k]), key) == Comparison::Equal);
    }
    if has_slice_key::<T, S>(kept, key) {
        let k = choose|k: int|
            #![trigger kept[k]]
            0 <= k < kept.len() && lex_compare(S::key(&kept[k]), key) == Comparison::Equal;
        lemma_dedup_keeps_items::<T, BySliceKey<S, C>>(items);
        assert(items.contains(kept[k]));
        let i = choose|i: int| 0 <= i < items.len() && items[i] == kept[k];
        assert(lex_compare(S::key(&items[i]), key) == Comparison::Equal);
    }
}

/// A vector whose items are sorted by the slice that `S` derives from
/// them, compared by `C`.
///
/// Items whose keys compare equal may stand in any order among themselves.
pub struct SliceKeySortedVec<T, S: SliceKeyFn<T>, C: SliceOrd<S::Elem>> {
    inner: Vec<T>,
    key_fn: PhantomData<S>,
    comparator: PhantomData<C>,
}

impl<T, S: SliceKeyFn<T>, C: SliceOrd<S::Elem>> View for SliceKeySortedVec<T, S, C> {
    type V = Seq<T>;

    /// The items, in the order in which they are kept.
    closed spec fn view(&self) -> Seq<T> {
        self.inner@
    }
}

impl<T, S: SliceKeyFn<T>, C: SliceOrd<S::Elem>> SliceKeySortedVec<T, S, C> {
    /// What holds of every collection: its items are in ascending order
    /// of their keys.
    #[verifier::type_invariant]
    spec fn ordered(&self) -> bool {
        sorted::<T, BySliceKey<S, C>>(self.inner@)
    }

    /// The items are in ascending order of their keys.
    pub open spec fn spec_is_sorted(&self) -> bool {
        sorted::<T, BySliceKey<S, C>>(self@)
    }

    /// Tests whether the items are in ascending order of their keys. They
    /// always are where the key of an item is what its key function says
    /// it is; the test is for key functions of which that is not known.
    #[verifier::when_used_as_spec(spec_is_sorted)]
    pub fn is_sorted(&self) -> (b: bool)
        ensures
            b == self.spec_is_sorted(),
            self.spec_is_sorted(),
    {
        proof {
            use_type_invariant(self);
        }
        crate::sort::is_sorted::<T, BySliceKey<S, C>>(&self.inner)
    }

    /// Takes the items out, to be put back in order. The collection is
    /// empty in the meantime.
    fn take_items(&mut self) -> (items: Vec<T>)
        ensures
            items@ == old(self)@,
            sorted::<T, BySliceKey<S, C>>(items@),
            final(self)@ == Seq::<T>::empty(),
    {
        proof {
            use_type_invariant(&*self);
        }
        let mut items: Vec<T> = Vec::new();
        core::mem::swap(&mut self.inner, &mut items);
        items
    }

    /// An empty collection.
    pub fn new() -> (r: Self)
        ensures
            r@ == Seq::<T>::empty(),
            r.is_sorted(),
    {
        SliceKeySortedVec { inner: Vec::new(), key_fn: PhantomData, comparator: PhantomData }
    }

    /// Sorts `vec` into a collection.
    pub fn from_vec(vec: Vec<T>) -> (r: Self)
        ensures
            is_sort_of::<T, BySliceKey<S, C>>(vec@, r@),
            r.is_sorted(),
    {
        SliceKeySortedVec {
            inner: merge_sort::<T, BySliceKey<S, C>>(vec),
            key_fn: PhantomData,
            comparator: PhantomData,
        }
    }

    /// Sorts what `iter` yields into a collection.
    pub fn from_iter<I: Iterator<Item = T>>(iter: I) -> (r: Self)
        requires
            comes_to_an_end(&iter),
        ensures
            is_sort_of::<T, BySliceKey<S, C>>(iter.remaining(), r@),
            r.is_sorted(),
    {
        let mut inner: Vec<T> = Vec::new();
        push_all(&mut inner, iter);
        assert(inner@ =~= iter.remaining());
        Self::from_vec(inner)
    }

    /// Gives up the items as a plain vector, in ascending order of their
    /// keys.
    pub fn into_vec(self) -> (r: Vec<T>)
        ensures
            r@ == self@,
            self.is_sorted(),
    {
        proof {
            use_type_invariant(&self);
        }
        self.inner
    }

    /// The items as a slice, in ascending order of their keys.
    pub fn as_slice(&self) -> (r: &[T])
        ensures
            r@ == self@,
            self.is_sorted(),
    {
        proof {
            use_type_invariant(self);
        }
        self.inner.as_slice()
    }

    /// Looks for an item with a key that compares equal to `key`. Returns
    /// the index of one where there is any, and otherwise the index at
    /// which an item with that key is to be inserted.
    ///
    /// The search halves the range of candidates at every step. It
    /// remembers how many leading elements `key` shares with the key just
    /// below that range and with the key just above it, and skips the
    /// smaller of the two counts in every comparison.
    pub fn position(&self, key: &[S::Elem]) -> (r: Result<usize, usize>)
        ensures
            self.is_sorted(),
            match r {
                Ok(i) => i < self@.len() && lex_compare(S::key(&self@[i as int]), key@)
                    == Comparison::Equal,
                Err(i) => is_slice_insertion_point::<T, S>(self@, key@, i as int),
            },
    {
        proof {
            use_type_invariant(self);
        }
        let mut size: usize = self.inner.len();
        let mut upper_shared_prefix: usize = 0;
        let mut lower_shared_prefix: usize = 0;
        if size == 0 {
            return Err(0);
        }
        let mut base: usize = 0;
        let ghost items = self.inner@;
        let ghost target = key@;
        // The index of the item whose key `upper_shared_prefix` speaks of.
        let ghost mut upper: int = 0;
        while size > 1
            invariant
                items == self.inner@,
                items.len() <= usize::MAX,
                target == key@,
                sorted::<T, BySliceKey<S, C>>(items),
                1 <= size,
                base + size <= items.len(),
                base == 0 || lex_less(S::key(&items[base as int]), target),
                forall|j: int|
                    #![trigger items[j]]
                    base + size <= j < items.len() ==> lex_less(target, S::key(&items[j])),
                lower_shared_prefix <= common_prefix_len(S::key(&items[base as int]), target),
                upper_shared_prefix == 0 || (base + size <= upper + 1 && upper < items.len()
                    && upper_shared_prefix <= common_prefix_len(S::key(&items[upper]), target)),
            decreases size,
        {
            let half = size / 2;
            let mid = base + half;
            let prefix_skip = if lower_shared_prefix < upper_shared_prefix {
                lower_shared_prefix
            } else {
                upper_shared_prefix
            };
            let probe = S::derive_key(&self.inner[mid]);
            proof {
                if prefix_skip > 0 {
                    lemma_sorted_leq::<T, BySliceKey<S, C>>(items, base as int, mid as int);
                    lemma_sorted_leq::<T, BySliceKey<S, C>>(items, mid as int, upper);
                    lemma_common_prefix_between(
                        S::key(&items[base as int]),
                        probe@,
                        S::key(&items[upper]),
                        target,
                        prefix_skip as int,
                    );
                }
                lemma_compare_after_skip(probe@, target, prefix_skip as int);
            }
            let (prefix_len, order) = C::compare(
                slice_subrange(probe, prefix_skip, probe.len()),
                slice_subrange(key, prefix_skip, key.len()),
            );
            proof {
                lemma_common_prefix_len(probe@, target);
            }
            match order {
                Comparison::Greater => {
                    proof {
                        lemma_lex_compare_mirror(probe@, target);
                        assert forall|j: int|
                            #![trigger items[j]]
                            base + size - half <= j < items.len() implies lex_less(
                            target,
                            S::key(&items[j]),
                        ) by {
                            lemma_sorted_leq::<T, BySliceKey<S, C>>(items, mid as int, j);
                            lemma_lex_less_leq(target, probe@, S::key(&items[j]));
                        }
                        upper = mid as int;
                    }
                    upper_shared_prefix = prefix_skip + prefix_len;
                },
                Comparison::Less => {
                    lower_shared_prefix = prefix_skip + prefix_len;
                    base = mid;
                },
                Comparison::Equal => {
                    return Ok(mid);
                },
            }
            size = size - half;
        }
        let prefix_skip = if lower_shared_prefix < upper_shared_prefix {
            lower_shared_prefix
        } else {
            upper_shared_prefix
        };
        let probe = S::derive_key(&self.inner[base]);
        proof {
            lemma_compare_after_skip(probe@, target, prefix_skip as int);
        }
        let (_prefix_len, order) = C::compare(
            slice_subrange(probe, prefix_skip, probe.len()),
            slice_subrange(key, prefix_skip, key.len()),
        );
        match order {
            Comparison::Equal => Ok(base),
            Comparison::Less => {
                proof {
                    assert forall|j: int| #![trigger items[j]] 0 <= j < base + 1 implies lex_less(
                        S::key(&items[j]),
                        target,
                    ) by {
                        lemma_sorted_leq::<T, BySliceKey<S, C>>(items, j, base as int);
                        lemma_lex_leq_less(S::key(&items[j]), probe@, target);
                    }
                }
                Err(base + 1)
            },
            Comparison::Greater => {
                proof {
                    lemma_lex_compare_mirror(probe@, target);
                    assert forall|j: int|
                        #![trigger items[j]]
                        base <= j < items.len() implies lex_less(target, S::key(&items[j])) by {
                        lemma_sorted_leq::<T, BySliceKey<S, C>>(items, base as int, j);
                        lemma_lex_less_leq(target, probe@, S::key(&items[j]));
                    }
                }
                Err(base)
            },
        }
    }

    /// Finds an item with a key that compares equal to `key`. Where
    /// several items have such a key, any one of them may be returned.
    pub fn find(&self, key: &[S::Elem]) -> (r: Option<&T>)
        ensures
            self.is_sorted(),
            r.is_some() == has_slice_key::<T, S>(self@, key@),
            match r {
                Some(item) => self@.contains(*item) && lex_compare(S::key(item), key@)
                    == Comparison::Equal,
                None => true,
            },
    {
        match self.position(key) {
            Ok(i) => Some(&self.inner[i]),
            Err(i) => {
                proof {
                    lemma_slice_insertion_point_excludes_key::<T, S>(self@, key@, i as int);
                }
                None
            },
        }
    }

    /// Tells whether some item has a key that compares equal to `key`.
    pub fn contains(&self, key: &[S::Elem]) -> (b: bool)
        ensures
            self.is_sorted(),
            b == has_slice_key::<T, S>(self@, key@),
    {
        match self.position(key) {
            Ok(i) => true,
            Err(i) => {
                proof {
                    lemma_slice_insertion_point_excludes_key::<T, S>(self@, key@, i as int);
                }
                false
            },
        }
    }

    /// Removes and returns one item with a key that compares equal to
    /// `key`, where there is any. This takes linear time.
    pub fn remove(&mut self, key: &[S::Elem]) -> (r: Option<T>)
        ensures
            final(self).is_sorted(),
            match r {
                Some(item) => exists|i: int|
                    #![trigger old(self)@[i]]
                    0 <= i < old(self)@.len() && old(self)@[i] == item && final(self)@ == old(
                        self,
                    )@.remove(i) && lex_compare(S::key(&item), key@) == Comparison::Equal,
                None => !has_slice_key::<T, S>(old(self)@, key@) && final(self)@ == old(self)@,
            },
    {
        proof {
            use_type_invariant(&*self);
        }
        match self.position(key) {
            Ok(i) => {
                proof {
                    lemma_sorted_remove::<T, BySliceKey<S, C>>(self@, i as int);
                }
                let mut items = self.take_items();
                let item = items.remove(i);
                self.inner = items;
                Some(item)
            },
            Err(i) => {
                proof {
                    lemma_slice_insertion_point_excludes_key::<T, S>(self@, key@, i as int);
                }
                None
            },
        }
    }

    /// Inserts `val` where it keeps the items sorted. This takes linear
    /// time.
    pub fn insert(&mut self, val: T)
        ensures
            final(self).is_sorted(),
            exists|i: int|
                is_place_for_slice_key::<T, S>(old(self)@, &val, i) && final(self)@ == old(
                    self,
                )@.insert(i, val),
    {
        proof {
            use_type_invariant(&*self);
        }
        let idx = match self.position(S::derive_key(&val)) {
            Ok(i) => i,
            Err(i) => i,
        };
        proof {
            let s = self@;
            let key = S::key(&val);
            assert forall|j: int| 0 <= j < idx implies lex_leq(S::key(#[trigger] &s[j]), key) by {
                if idx < s.len() && lex_compare(S::key(&s[idx as int]), key) == Comparison::Equal {
                    lemma_sorted_leq::<T, BySliceKey<S, C>>(s, j, idx as int);
                    lemma_lex_leq_transitive(S::key(&s[j]), S::key(&s[idx as int]), key);
                }
            }
            assert forall|j: int| idx <= j < s.len() implies lex_leq(
                key,
                S::key(#[trigger] &s[j]),
            ) by {
                if lex_compare(S::key(&s[idx as int]), key) == Comparison::Equal {
                    lemma_lex_compare_mirror(S::key(&s[idx as int]), key);
                    lemma_sorted_leq::<T, BySliceKey<S, C>>(s, idx as int, j);
                    lemma_lex_leq_transitive(key, S::key(&s[idx as int]), S::key(&s[j]));
                }
            }
            lemma_sorted_insert::<T, BySliceKey<S, C>>(s, idx as int, val);
            assert(is_place_for_slice_key::<T, S>(s, &val, idx as int));
        }
        let mut items = self.take_items();
        items.insert(idx, val);
        self.inner = items;
    }

    /// Splits the collection in two at index `at`. The items before `at`
    /// stay; those from `at` on are returned as a collection of their own.
    pub fn split_off(&mut self, at: usize) -> (r: Self)
        requires
            at <= old(self)@.len(),
        ensures
            final(self).is_sorted(),
            r.is_sorted(),
            final(self)@ == old(self)@.subrange(0, at as int),
            r@ == old(self)@.subrange(at as int, old(self)@.len() as int),
            final(self)@ + r@ == old(self)@,
    {
        proof {
            use_type_invariant(&*self);
            lemma_sorted_split::<T, BySliceKey<S, C>>(self@, at as int);
        }
        let mut items = self.take_items();
        let other_inner = items.split_off(at);
        self.inner = items;
        SliceKeySortedVec { inner: other_inner, key_fn: PhantomData, comparator: PhantomData }
    }

    /// Removes every item whose key compares equal to that of the item
    /// before it, so that of the items with one key only the first stays.
    pub fn dedup(&mut self)
        ensures
            final(self).is_sorted(),
            final(self)@ == dedup_spec::<T, BySliceKey<S, C>>(old(self)@),
            forall|key: Seq<S::Elem>|
                has_slice_key::<T, S>(final(self)@, key) == has_slice_key::<T, S>(old(self)@, key),
    {
        proof {
            use_type_invariant(&*self);
            lemma_dedup_sorted::<T, BySliceKey<S, C>>(self@);
            assert forall|key: Seq<S::Elem>|
                has_slice_key::<T, S>(dedup_spec::<T, BySliceKey<S, C>>(self@), key)
                    == has_slice_key::<T, S>(self@, key) by {
                lemma_dedup_keeps_slice_keys::<T, S, C>(self@, key);
            }
        }
        let items = self.take_items();
        self.inner = dedup_sorted::<T, BySliceKey<S, C>>(items);
    }

    /// Removes and returns the last item, which has the greatest key.
    pub fn pop(&mut self) -> (r: Option<T>)
        ensures
            final(self).is_sorted(),
            match r {
                Some(item) => old(self)@.len() > 0 && item == old(self)@.last() && final(self)@
                    == old(self)@.drop_last() && forall|i: int|
                    #![trigger old(self)@[i]]
                    0 <= i < old(self)@.len() ==> lex_leq(S::key(&old(self)@[i]), S::key(&item)),
                None => old(self)@.len() == 0 && final(self)@ == old(self)@,
            },
    {
        proof {
            use_type_invariant(&*self);
            if self@.len() > 0 {
                lemma_sorted_split::<T, BySliceKey<S, C>>(self@, self@.len() - 1);
                assert forall|i: int| #![trigger self@[i]] 0 <= i < self@.len() implies lex_leq(
                    S::key(&self@[i]),
                    S::key(&self@.last()),
                ) by {
                    lemma_sorted_leq::<T, BySliceKey<S, C>>(self@, i, self@.len() - 1);
                }
            }
        }
        let mut items = self.take_items();
        let item = items.pop();
        self.inner = items;
        item
    }

    /// Adds everything that `iter` yields, then sorts the whole once.
    pub fn extend<I: Iterator<Item = T>>(&mut self, iter: I)
        requires
            comes_to_an_end(&iter),
        ensures
            final(self).is_sorted(),
            is_sort_of::<T, BySliceKey<S, C>>(old(self)@ + iter.remaining(), final(self)@),
    {
        let mut items = self.take_items();
        push_all(&mut items, iter);
        self.inner = merge_sort::<T, BySliceKey<S, C>>(items);
    }
}

impl<T: Clone, S: SliceKeyFn<T>, C: SliceOrd<S::Elem>> Clone for SliceKeySortedVec<T, S, C> {
    /// A collection of clones of the items. The clones are sorted anew
    /// where they are not in order as they come.
    fn clone(&self) -> (r: Self)
        ensures
            r.is_sorted(),
            exists|clones: Seq<T>|
                #[trigger] clones_of(self@, clones) && is_sort_of::<T, BySliceKey<S, C>>(
                    clones,
                    r@,
                ),
    {
        let items = self.inner.clone();
        let ghost clones = items@;
        let inner = if crate::sort::is_sorted::<T, BySliceKey<S, C>>(&items) {
            items
        } else {
            merge_sort::<T, BySliceKey<S, C>>(items)
        };
        proof {
            assert(clones_of(self@, clones));
            assert(is_sort_of::<T, BySliceKey<S, C>>(clones, inner@));
        }
        SliceKeySortedVec { inner, key_fn: PhantomData, comparator: PhantomData }
    }
}

impl<T, S: SliceKeyFn<T>, C: SliceOrd<S::Elem>> vstd::std_specs::convert::FromSpecImpl<Vec<T>> for SliceKeySortedVec<T, S, C> {
    /// What `from` returns is told by its own contract.
    open spec fn obeys_from_spec() -> bool {
        false
    }

    open spec fn from_spec(vec: Vec<T>) -> Self {
        arbitrary()
    }
}

impl<T, S: SliceKeyFn<T>, C: SliceOrd<S::Elem>> From<Vec<T>> for SliceKeySortedVec<T, S, C> {
    /// Sorts `vec` into a collection.
    fn from(vec: Vec<T>) -> (r: Self)
        ensures
            is_sort_of::<T, BySliceKey<S, C>>(vec@, r@),
            r.is_sorted(),
    {
        Self::from_vec(vec)
    }
}

impl<T, S: SliceKeyFn<T>, C: SliceOrd<S::Elem>> vstd::std_specs::convert::IntoSpecImpl<Vec<T>> for SliceKeySortedVec<T, S, C> {
    /// What `into` returns is told by its own contract.
    open spec fn obeys_into_spec() -> bool {
        false
    }

    open spec fn into_spec(self) -> Vec<T> {
        arbitrary()
    }
}

impl<T, S: SliceKeyFn<T>, C: SliceOrd<S::Elem>> Into<Vec<T>> for SliceKeySortedVec<T, S, C> {
    /// Gives up the items as a plain vector, in ascending order of their
    /// keys.
    fn into(self) -> (r: Vec<T>)
        ensures
            vec_items(&r) == self@,
    {
        self.inner
    }
}

impl<T, S: SliceKeyFn<T>, C: SliceOrd<S::Elem>> core::borrow::Borrow<[T]> for SliceKeySortedVec<
    T,
    S,
    C,
> {
    /// The items as a slice, in ascending order of their keys.
    fn borrow(&self) -> (r: &[T])
        ensures
            slice_items(r) == self@,
    {
        self.inner.as_slice()
    }
}

impl<T, S: SliceKeyFn<T>, C: SliceOrd<S::Elem>> AsRef<[T]> for SliceKeySortedVec<T, S, C> {
    /// The items as a slice, in ascending order of their keys.
    fn as_ref(&self) -> (r: &[T])
        ensures
            slice_items(r) == self@,
    {
        self.inner.as_slice()
    }
}

impl<T, S: SliceKeyFn<T>, C: SliceOrd<S::Elem>> AsRef<Vec<T>> for SliceKeySortedVec<T, S, C> {
    /// The items as a vector that can be read, in ascending order of their
    /// keys.
    fn as_ref(&self) -> (r: &Vec<T>)
        ensures
            vec_items(r) == self@,
    {
        &self.inner
    }
}

impl<T, S: SliceKeyFn<T>, C: SliceOrd<S::Elem>> IntoIterator for SliceKeySortedVec<T, S, C> {
    type Item = T;

    type IntoIter = std::vec::IntoIter<T>;

    /// Yields the items in ascending order of their keys.
    fn into_iter(self) -> (iter: std::vec::IntoIter<T>)
        ensures
            iter.remaining() == self@,
            comes_to_an_end(&iter),
    {
        broadcast use vstd::std_specs::vec::axiom_spec_into_iter;

        self.inner.into_iter()
    }
}

impl<T, S: SliceKeyFn<T>, C: SliceOrd<S::Elem>> Default for SliceKeySortedVec<T, S, C> {
    /// An empty collection.
    fn default() -> (r: Self)
        ensures
            r@ == Seq::<T>::empty(),
            r.is_sorted(),
    {
        SliceKeySortedVec { inner: Vec::new(), key_fn: PhantomData, comparator: PhantomData }
    }
}

impl<T, S: SliceKeyFn<T>, C: SliceOrd<S::Elem>> core::ops::Deref for SliceKeySortedVec<T, S, C> {
    type Target = Vec<T>;

    /// The items as a vector that can be read, in ascending order of their
    /// keys.
    fn deref(&self) -> (r: &Vec<T>)
        ensures
            r@ == self@,
    {
        &self.inner
    }
}

} // verus!
