//! Comparing two slices, and learning how much they share.
//!
//! A [`SliceOrd`] compares two slices and also reports the length of their
//! common prefix. [`ElementWise`] does so for any ordered element type by
//! walking both slices in step. [`ByteChunks`] does it for bytes, many
//! bytes at a time; it gives the same answers.

use vstd::prelude::*;

use crate::byte_prefix::simd_common_prefix_len;
use crate::lexical::{
    agree_at, common_prefix_len, compare_lengths, is_common_prefix_len, lemma_common_prefix_len,
    lemma_common_prefix_len_unique, lemma_lex_equal, lex_compare,
};
use crate::order::{compare_spec, Comparison, TotalOrder};

verus! {

/// A way to compare slices of `B` that also tells how long a prefix the
/// two slices share.
///
/// Every implementation returns the same pair for the same slices: the
/// length of the longest common prefix, and the lexicographic comparison.
pub trait SliceOrd<B: TotalOrder> {
    /// Compares `a` with `b`.
    fn compare(a: &[B], b: &[B]) -> (r: (usize, Comparison))
        ensures
            is_comparison_of(a@, b@, r),
    ;
}

/// `r` is what comparing `a` with `b` gives: the length of their longest
/// common prefix, and the lexicographic comparison.
pub open spec fn is_comparison_of<B: TotalOrder>(
    a: Seq<B>,
    b: Seq<B>,
    r: (usize, Comparison),
) -> bool {
    &&& r.0 == common_prefix_len(a, b)
    &&& r.1 == lex_compare(a, b)
}

/// Any two ways to compare slices give the same result. What the fast way
/// for bytes returns is what going through the slices one element at a
/// time returns.
pub proof fn lemma_comparators_agree<B: TotalOrder>(
    a: Seq<B>,
    b: Seq<B>,
    one: (usize, Comparison),
    other: (usize, Comparison),
)
    requires
        is_comparison_of(a, b, one),
        is_comparison_of(a, b, other),
    ensures
        one == other,
{
}

/// The prefix that a comparison reports fits into both slices, and where
/// the slices compare equal it is all of both.
pub proof fn lemma_comparison_bounds<B: TotalOrder>(a: Seq<B>, b: Seq<B>, r: (usize, Comparison))
    requires
        is_comparison_of(a, b, r),
    ensures
        r.0 <= a.len(),
        r.0 <= b.len(),
        r.1 == Comparison::Equal ==> r.0 == a.len() && a.len() == b.len(),
{
    lemma_common_prefix_len(a, b);
    lemma_lex_equal(a, b);
}

/// Compares slices one element at a time.
#[derive(Clone, Copy, Debug, Default)]
pub struct ElementWise;

/// Compares byte slices several bytes at a time.
#[derive(Clone, Copy, Debug, Default)]
pub struct ByteChunks;

/// How the length `m` compares with the length `n`.
fn compare_len(m: usize, n: usize) -> (c: Comparison)
    ensures
        c == compare_lengths(m as nat, n as nat),
{
    if m < n {
        Comparison::Less
    } else if m > n {
        Comparison::Greater
    } else {
        Comparison::Equal
    }
}

/// Compares `a` with `b` by what follows their first `prefix_len`
/// elements: by the elements at that index where both slices reach so far,
/// and by length where they do not.
///
/// Where `prefix_len` is the length of the longest common prefix of `a`
/// and `b`, this is the comparison of `a` with `b`.
pub fn compare_from_prefix<B: TotalOrder>(a: &[B], b: &[B], prefix_len: usize) -> (r: (
    usize,
    Comparison,
))
    ensures
        r.0 == prefix_len,
        r.1 == if prefix_len < a@.len() && prefix_len < b@.len() {
            compare_spec(&a@[prefix_len as int], &b@[prefix_len as int])
        } else {
            compare_lengths(a@.len(), b@.len())
        },
        prefix_len == common_prefix_len(a@, b@) ==> is_comparison_of(a@, b@, r),
{
    if prefix_len < a.len() && prefix_len < b.len() {
        (prefix_len, a[prefix_len].compare(&b[prefix_len]))
    } else {
        (prefix_len, compare_len(a.len(), b.len()))
    }
}

impl<B: TotalOrder> SliceOrd<B> for ElementWise {
    fn compare(a: &[B], b: &[B]) -> (r: (usize, Comparison)) {
        let shared_len = if a.len() < b.len() {
            a.len()
        } else {
            b.len()
        };
        let mut prefix_len: usize = 0;
        while prefix_len < shared_len
            invariant
                prefix_len <= shared_len,
                shared_len <= a@.len(),
                shared_len <= b@.len(),
                forall|i: int| 0 <= i < prefix_len ==> #[trigger] agree_at(a@, b@, i),
            decreases shared_len - prefix_len,
        {
            match a[prefix_len].compare(&b[prefix_len]) {
                Comparison::Equal => {
                    prefix_len = prefix_len + 1;
                },
                Comparison::Less => {
                    proof {
                        lemma_common_prefix_len_unique(a@, b@, prefix_len as int);
                    }
                    return (prefix_len, Comparison::Less);
                },
                Comparison::Greater => {
                    proof {
                        lemma_common_prefix_len_unique(a@, b@, prefix_len as int);
                    }
                    return (prefix_len, Comparison::Greater);
                },
            }
        }
        proof {
            lemma_common_prefix_len_unique(a@, b@, prefix_len as int);
        }
        (prefix_len, compare_len(a.len(), b.len()))
    }
}

impl SliceOrd<u8> for ByteChunks {
    fn compare(a: &[u8], b: &[u8]) -> (r: (usize, Comparison)) {
        compare_from_prefix(a, b, simd_common_prefix_len(a, b))
    }
}

} // verus!
