//! A small collection to show how the pieces fit: values of type [`T`],
//! sorted and found by their key of type [`K`].

use vstd::prelude::*;

use crate::order::{Comparison, TotalOrder};
use crate::sorted_vec::{KeyFn, SortedVec};

verus! {

/// Example key.
#[derive(PartialOrd, Ord, PartialEq, Eq, Clone, Copy, Debug)]
pub struct K;

/// There is one key, equivalent to itself.
impl TotalOrder for K {
    open spec fn leq(&self, other: &K) -> bool {
        true
    }

    proof fn leq_total(a: &K, b: &K) {
    }

    proof fn leq_transitive(a: &K, b: &K, c: &K) {
    }

    fn compare(&self, other: &K) -> (c: Comparison) {
        Comparison::Equal
    }
}

/// Example value.
#[derive(Debug)]
pub struct T {
    key: K,
}

impl Clone for T {
    fn clone(&self) -> (t: T)
        ensures
            t == *self,
    {
        T { key: self.key }
    }
}

impl T {
    /// The key of this value.
    pub closed spec fn key(&self) -> K {
        self.key
    }

    /// A value with the key `key`.
    pub fn new(key: K) -> (t: T)
        ensures
            t.key() == key,
    {
        T { key }
    }
}

/// Derives the key of a [`T`].
pub struct ExampleKey;

impl KeyFn<T> for ExampleKey {
    type Key = K;

    open spec fn key(item: &T) -> K {
        item.key()
    }

    fn derive_key(item: &T) -> (k: K) {
        item.key
    }
}

/// Sorted vector type that provides quick access to `T`s through `K`s.
pub type ExampleSortedVec = SortedVec<T, ExampleKey>;

} // verus!
