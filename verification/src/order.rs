//! Total orders on key values.
//!
//! Every container in this crate keeps its items sorted by a key, and finds
//! items by comparing keys. [`TotalOrder`] is what a key type has to offer
//! for that: a relation `leq` that is total and transitive, and an
//! executable three-way comparison that agrees with it.
//!
//! Two keys may be *equivalent* (each `leq` the other) without being the
//! same value; a lookup treats equivalent keys as equal.

use vstd::prelude::*;

mod scalars;
mod sequences;
mod tuples;

verus! {

/// The outcome of comparing two values.
#[derive(Clone, Copy, PartialEq, Eq, Structural, Debug)]
pub enum Comparison {
    /// The first value sorts strictly before the second.
    Less,
    /// The two values are equivalent.
    Equal,
    /// The first value sorts strictly after the second.
    Greater,
}

/// A type whose values are totally ordered.
///
/// `leq` is the order itself. The two proof functions are the laws that
/// every implementation has to establish; reflexivity follows from
/// totality. `compare` is what runs.
///
/// An implementation in ordinary Rust writes `leq` and `compare` to agree
/// with each other, and leaves the bodies of the two laws empty.
pub trait TotalOrder: Sized {
    /// `a.leq(b)` holds when `a` sorts at or before `b`.
    spec fn leq(&self, other: &Self) -> bool;

    /// Any two values are comparable.
    proof fn leq_total(a: &Self, b: &Self)
        ensures
            a.leq(b) || b.leq(a),
    ;

    /// The order is transitive.
    proof fn leq_transitive(a: &Self, b: &Self, c: &Self)
        requires
            a.leq(b),
            b.leq(c),
        ensures
            a.leq(c),
    ;

    /// Compares `self` with `other`.
    fn compare(&self, other: &Self) -> (c: Comparison)
        ensures
            c == Comparison::Less <==> self.leq(other) && !other.leq(self),
            c == Comparison::Equal <==> self.leq(other) && other.leq(self),
            c == Comparison::Greater <==> !self.leq(other),
    ;
}

/// `a` and `b` are equivalent: each sorts at or before the other.
pub open spec fn equivalent<K: TotalOrder>(a: &K, b: &K) -> bool {
    a.leq(b) && b.leq(a)
}

/// `a` sorts strictly before `b`.
pub open spec fn less<K: TotalOrder>(a: &K, b: &K) -> bool {
    !b.leq(a)
}

/// The three-way comparison that `leq` determines.
pub open spec fn compare_spec<K: TotalOrder>(a: &K, b: &K) -> Comparison {
    if !a.leq(b) {
        Comparison::Greater
    } else if !b.leq(a) {
        Comparison::Less
    } else {
        Comparison::Equal
    }
}

/// `a <= b < c` gives `a < c`.
pub proof fn lemma_leq_less<K: TotalOrder>(a: &K, b: &K, c: &K)
    requires
        a.leq(b),
        less(b, c),
    ensures
        less(a, c),
{
    if c.leq(a) {
        K::leq_transitive(c, a, b);
    }
}

/// `a < b <= c` gives `a < c`.
pub proof fn lemma_less_leq<K: TotalOrder>(a: &K, b: &K, c: &K)
    requires
        less(a, b),
        b.leq(c),
    ensures
        less(a, c),
{
    if c.leq(a) {
        K::leq_transitive(b, c, a);
    }
}

/// Swapping the arguments of a comparison mirrors its outcome.
pub proof fn lemma_compare_mirror<K: TotalOrder>(a: &K, b: &K)
    ensures
        compare_spec(a, b) == Comparison::Less <==> compare_spec(b, a) == Comparison::Greater,
        compare_spec(a, b) == Comparison::Equal <==> compare_spec(b, a) == Comparison::Equal,
{
    K::leq_total(a, b);
}

} // verus!
