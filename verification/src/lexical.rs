//! The lexicographic order on sequences, told through common prefixes.
//!
//! Two sequences are compared by finding the longest prefix on which they
//! agree. Where that prefix ends inside both, the elements that follow it
//! decide; where it uses up one of them, the shorter sequence sorts first.
//! Knowing the length of the common prefix is what lets a search skip
//! elements it has already matched, so this module states the order in
//! those terms and proves that it is the familiar one.

use vstd::prelude::*;

use crate::order::{compare_spec, equivalent, lemma_compare_mirror, Comparison, TotalOrder};

verus! {

/// The elements of `a` and `b` at index `i` are equivalent.
pub open spec fn agree_at<E: TotalOrder>(a: Seq<E>, b: Seq<E>, i: int) -> bool {
    equivalent(&a[i], &b[i])
}

/// The first index at or after `i` where `a` and `b` stop agreeing, or
/// where one of them ends.
pub open spec fn common_prefix_from<E: TotalOrder>(a: Seq<E>, b: Seq<E>, i: int) -> int
    decreases a.len() - i,
{
    if 0 <= i < a.len() && i < b.len() && agree_at(a, b, i) {
        common_prefix_from(a, b, i + 1)
    } else {
        i
    }
}

/// The length of the longest prefix on which `a` and `b` agree.
pub open spec fn common_prefix_len<E: TotalOrder>(a: Seq<E>, b: Seq<E>) -> nat {
    common_prefix_from(a, b, 0) as nat
}

/// `p` is the length of the longest prefix on which `a` and `b` agree:
/// they agree below `p`, and at `p` one of them ends or they differ.
pub open spec fn is_common_prefix_len<E: TotalOrder>(a: Seq<E>, b: Seq<E>, p: int) -> bool {
    &&& 0 <= p <= a.len()
    &&& p <= b.len()
    &&& forall|i: int| 0 <= i < p ==> #[trigger] agree_at(a, b, i)
    &&& (p < a.len() && p < b.len() ==> !agree_at(a, b, p))
}

/// How two lengths compare.
pub open spec fn compare_lengths(m: nat, n: nat) -> Comparison {
    if m < n {
        Comparison::Less
    } else if m > n {
        Comparison::Greater
    } else {
        Comparison::Equal
    }
}

/// How `a` compares with `b`: by the elements that follow their common
/// prefix, or by length where the prefix uses up one of them.
pub open spec fn lex_compare<E: TotalOrder>(a: Seq<E>, b: Seq<E>) -> Comparison {
    let p = common_prefix_len(a, b) as int;
    if p < a.len() && p < b.len() {
        compare_spec(&a[p], &b[p])
    } else {
        compare_lengths(a.len(), b.len())
    }
}

/// `a` sorts at or before `b`.
pub open spec fn lex_leq<E: TotalOrder>(a: Seq<E>, b: Seq<E>) -> bool {
    lex_compare(a, b) != Comparison::Greater
}

/// `a` sorts strictly before `b`.
pub open spec fn lex_less<E: TotalOrder>(a: Seq<E>, b: Seq<E>) -> bool {
    lex_compare(a, b) == Comparison::Less
}

/// The lexicographic order as it is usually defined: compare the first
/// elements, and go on to the rest where they are equivalent; a sequence
/// that runs out first sorts first.
pub open spec fn lexicographic<E: TotalOrder>(a: Seq<E>, b: Seq<E>) -> Comparison
    decreases a.len(),
{
    if a.len() == 0 {
        if b.len() == 0 {
            Comparison::Equal
        } else {
            Comparison::Less
        }
    } else if b.len() == 0 {
        Comparison::Greater
    } else {
        match compare_spec(&a[0], &b[0]) {
            Comparison::Less => Comparison::Less,
            Comparison::Greater => Comparison::Greater,
            Comparison::Equal => lexicographic(a.drop_first(), b.drop_first()),
        }
    }
}

proof fn lemma_common_prefix_from<E: TotalOrder>(a: Seq<E>, b: Seq<E>, i: int)
    requires
        0 <= i <= a.len(),
        i <= b.len(),
        forall|j: int| 0 <= j < i ==> #[trigger] agree_at(a, b, j),
    ensures
        is_common_prefix_len(a, b, common_prefix_from(a, b, i)),
    decreases a.len() - i,
{
    if i < a.len() && i < b.len() && agree_at(a, b, i) {
        lemma_common_prefix_from(a, b, i + 1);
    }
}

/// `common_prefix_len` is the length of the longest common prefix.
pub proof fn lemma_common_prefix_len<E: TotalOrder>(a: Seq<E>, b: Seq<E>)
    ensures
        is_common_prefix_len(a, b, common_prefix_len(a, b) as int),
{
    lemma_common_prefix_from(a, b, 0);
}

/// Only one length is that of the longest common prefix.
pub proof fn lemma_common_prefix_len_unique<E: TotalOrder>(a: Seq<E>, b: Seq<E>, p: int)
    requires
        is_common_prefix_len(a, b, p),
    ensures
        p == common_prefix_len(a, b),
{
    lemma_common_prefix_len(a, b);
    let q = common_prefix_len(a, b) as int;
    if p < q {
        assert(agree_at(a, b, p));
    } else if q < p {
        assert(agree_at(a, b, q));
    }
}

/// A prefix on which `a` and `b` agree is no longer than their longest.
pub proof fn lemma_common_prefix_at_least<E: TotalOrder>(a: Seq<E>, b: Seq<E>, n: int)
    requires
        0 <= n <= a.len(),
        n <= b.len(),
        forall|i: int| 0 <= i < n ==> #[trigger] agree_at(a, b, i),
    ensures
        n <= common_prefix_len(a, b),
{
    lemma_common_prefix_len(a, b);
    let q = common_prefix_len(a, b) as int;
    if q < n {
        assert(agree_at(a, b, q));
    }
}

/// The common prefix of `a` and `b` is that of `b` and `a`.
pub proof fn lemma_common_prefix_symmetric<E: TotalOrder>(a: Seq<E>, b: Seq<E>)
    ensures
        common_prefix_len(a, b) == common_prefix_len(b, a),
{
    lemma_common_prefix_len(a, b);
    let p = common_prefix_len(a, b) as int;
    assert forall|i: int| 0 <= i < p implies #[trigger] agree_at(b, a, i) by {
        assert(agree_at(a, b, i));
    }
    lemma_common_prefix_len_unique(b, a, p);
}

/// Swapping the two sequences mirrors the outcome of the comparison.
pub proof fn lemma_lex_compare_mirror<E: TotalOrder>(a: Seq<E>, b: Seq<E>)
    ensures
        lex_compare(a, b) == Comparison::Less <==> lex_compare(b, a) == Comparison::Greater,
        lex_compare(a, b) == Comparison::Equal <==> lex_compare(b, a) == Comparison::Equal,
        lex_compare(a, b) == Comparison::Greater <==> lex_compare(b, a) == Comparison::Less,
{
    lemma_common_prefix_symmetric(a, b);
    let p = common_prefix_len(a, b) as int;
    if p < a.len() && p < b.len() {
        lemma_compare_mirror(&a[p], &b[p]);
        lemma_compare_mirror(&b[p], &a[p]);
    }
}

/// Any two sequences are comparable.
pub proof fn lemma_lex_leq_total<E: TotalOrder>(a: Seq<E>, b: Seq<E>)
    ensures
        lex_leq(a, b) || lex_leq(b, a),
{
    lemma_lex_compare_mirror(a, b);
}

/// Every sequence compares equal to itself.
pub proof fn lemma_lex_compare_reflexive<E: TotalOrder>(a: Seq<E>)
    ensures
        common_prefix_len(a, a) == a.len(),
        lex_compare(a, a) == Comparison::Equal,
{
    assert forall|i: int| 0 <= i < a.len() implies #[trigger] agree_at(a, a, i) by {
        E::leq_total(&a[i], &a[i]);
    }
    lemma_common_prefix_len_unique(a, a, a.len() as int);
}

/// Two sequences compare equal exactly when they have the same length and
/// agree everywhere.
pub proof fn lemma_lex_equal<E: TotalOrder>(a: Seq<E>, b: Seq<E>)
    ensures
        lex_compare(a, b) == Comparison::Equal <==> a.len() == b.len() && common_prefix_len(a, b)
            == a.len(),
{
    lemma_common_prefix_len(a, b);
    let p = common_prefix_len(a, b) as int;
    if p < a.len() && p < b.len() {
        assert(!agree_at(a, b, p));
    }
}

/// Where the elements of three sequences at one index are equivalent in
/// turn, so are the first and the last.
proof fn lemma_agree_transitive<E: TotalOrder>(a: Seq<E>, b: Seq<E>, c: Seq<E>, i: int)
    requires
        agree_at(a, b, i),
        agree_at(b, c, i),
    ensures
        agree_at(a, c, i),
{
    E::leq_transitive(&a[i], &b[i], &c[i]);
    E::leq_transitive(&c[i], &b[i], &a[i]);
}

/// The order on sequences is transitive.
pub proof fn lemma_lex_leq_transitive<E: TotalOrder>(a: Seq<E>, b: Seq<E>, c: Seq<E>)
    requires
        lex_leq(a, b),
        lex_leq(b, c),
    ensures
        lex_leq(a, c),
{
    lemma_common_prefix_len(a, b);
    lemma_common_prefix_len(b, c);
    lemma_common_prefix_len(a, c);
    let p = common_prefix_len(a, b) as int;
    let q = common_prefix_len(b, c) as int;
    let m = if p <= q {
        p
    } else {
        q
    };
    assert forall|i: int| 0 <= i < m implies #[trigger] agree_at(a, c, i) by {
        assert(agree_at(a, b, i));
        assert(agree_at(b, c, i));
        lemma_agree_transitive(a, b, c, i);
    }
    lemma_common_prefix_at_least(a, c, m);
    if m < a.len() && m < c.len() {
        // `b` reaches index `m` too, or one of the two premises would fail.
        assert(m < b.len());
        if p < q {
            assert(agree_at(b, c, m));
            E::leq_transitive(&a[m], &b[m], &c[m]);
            if c[m].leq(&a[m]) {
                E::leq_transitive(&b[m], &c[m], &a[m]);
            }
        } else if q < p {
            assert(agree_at(a, b, m));
            E::leq_transitive(&a[m], &b[m], &c[m]);
            if c[m].leq(&a[m]) {
                E::leq_transitive(&c[m], &a[m], &b[m]);
            }
        } else {
            E::leq_transitive(&a[m], &b[m], &c[m]);
            if c[m].leq(&a[m]) {
                E::leq_transitive(&c[m], &a[m], &b[m]);
            }
        }
        assert(!agree_at(a, c, m));
        assert(is_common_prefix_len(a, c, m));
        lemma_common_prefix_len_unique(a, c, m);
    }
}

/// `a <= b < c` gives `a < c`.
pub proof fn lemma_lex_leq_less<E: TotalOrder>(a: Seq<E>, b: Seq<E>, c: Seq<E>)
    requires
        lex_leq(a, b),
        lex_less(b, c),
    ensures
        lex_less(a, c),
{
    lemma_lex_leq_transitive(a, b, c);
    if lex_compare(a, c) == Comparison::Equal {
        lemma_lex_compare_mirror(a, c);
        lemma_lex_leq_transitive(c, a, b);
        lemma_lex_compare_mirror(b, c);
    }
}

/// `a < b <= c` gives `a < c`.
pub proof fn lemma_lex_less_leq<E: TotalOrder>(a: Seq<E>, b: Seq<E>, c: Seq<E>)
    requires
        lex_less(a, b),
        lex_leq(b, c),
    ensures
        lex_less(a, c),
{
    lemma_lex_leq_transitive(a, b, c);
    if lex_compare(a, c) == Comparison::Equal {
        lemma_lex_compare_mirror(a, c);
        lemma_lex_leq_transitive(b, c, a);
        lemma_lex_compare_mirror(a, b);
    }
}

/// What lies between two sequences shares what they share.
///
/// Where `lo <= mid <= hi`, and `lo` and `hi` both agree with `target` on
/// their first `n` elements, `mid` agrees with `target` on its first `n`
/// elements too. A search that has met `lo` and `hi` may therefore skip
/// `n` elements when it compares `mid` with `target`.
pub proof fn lemma_common_prefix_between<E: TotalOrder>(
    lo: Seq<E>,
    mid: Seq<E>,
    hi: Seq<E>,
    target: Seq<E>,
    n: int,
)
    requires
        lex_leq(lo, mid),
        lex_leq(mid, hi),
        0 <= n <= common_prefix_len(lo, target),
        n <= common_prefix_len(hi, target),
    ensures
        n <= common_prefix_len(mid, target),
{
    lemma_common_prefix_len(lo, target);
    lemma_common_prefix_len(hi, target);
    lemma_common_prefix_len(lo, mid);
    lemma_common_prefix_len(mid, hi);
    let d = common_prefix_len(lo, mid) as int;
    if d < n {
        // `mid` leaves `lo` at index `d`, upwards; `hi` still agrees with
        // `lo` there, so `mid` would sort after `hi`.
        assert(d < mid.len());
        assert forall|i: int| 0 <= i < d implies #[trigger] agree_at(mid, hi, i) by {
            assert(agree_at(lo, mid, i));
            assert(agree_at(lo, target, i));
            assert(agree_at(hi, target, i));
            lemma_agree_transitive(mid, lo, target, i);
            lemma_agree_transitive(mid, target, hi, i);
        }
        assert(agree_at(lo, target, d));
        assert(agree_at(hi, target, d));
        lemma_agree_transitive(lo, target, hi, d);
        if hi[d].leq(&mid[d]) {
            if mid[d].leq(&hi[d]) {
                E::leq_transitive(&mid[d], &hi[d], &lo[d]);
            }
        } else {
            E::leq_total(&hi[d], &mid[d]);
        }
        if mid[d].leq(&hi[d]) {
            E::leq_transitive(&mid[d], &hi[d], &lo[d]);
        }
        assert(!agree_at(mid, hi, d));
        assert(is_common_prefix_len(mid, hi, d));
        lemma_common_prefix_len_unique(mid, hi, d);
        assert(false);
    }
    assert forall|i: int| 0 <= i < n implies #[trigger] agree_at(mid, target, i) by {
        assert(agree_at(lo, mid, i));
        assert(agree_at(lo, target, i));
        lemma_agree_transitive(mid, lo, target, i);
    }
    lemma_common_prefix_at_least(mid, target, n);
}

/// Skipping a prefix on which two sequences agree changes neither how
/// they compare nor where they part, counted from the skip.
pub proof fn lemma_compare_after_skip<E: TotalOrder>(a: Seq<E>, b: Seq<E>, skip: int)
    requires
        0 <= skip <= common_prefix_len(a, b),
    ensures
        skip <= a.len(),
        skip <= b.len(),
        common_prefix_len(a, b) == skip + common_prefix_len(
            a.subrange(skip, a.len() as int),
            b.subrange(skip, b.len() as int),
        ),
        lex_compare(a, b) == lex_compare(
            a.subrange(skip, a.len() as int),
            b.subrange(skip, b.len() as int),
        ),
{
    lemma_common_prefix_len(a, b);
    let rest_a = a.subrange(skip, a.len() as int);
    let rest_b = b.subrange(skip, b.len() as int);
    lemma_common_prefix_len(rest_a, rest_b);
    let p = common_prefix_len(rest_a, rest_b) as int;
    assert forall|i: int| 0 <= i < skip + p implies #[trigger] agree_at(a, b, i) by {
        if i >= skip {
            assert(agree_at(rest_a, rest_b, i - skip));
        }
    }
    if skip + p < a.len() && skip + p < b.len() {
        assert(!agree_at(rest_a, rest_b, p));
    }
    lemma_common_prefix_len_unique(a, b, skip + p);
}

/// The comparison by common prefix is the lexicographic order.
pub proof fn lemma_lex_compare_is_lexicographic<E: TotalOrder>(a: Seq<E>, b: Seq<E>)
    ensures
        lex_compare(a, b) == lexicographic(a, b),
    decreases a.len(),
{
    lemma_common_prefix_len(a, b);
    if a.len() > 0 && b.len() > 0 {
        if agree_at(a, b, 0) {
            assert forall|i: int| 0 <= i < 1 implies #[trigger] agree_at(a, b, i) by {}
            lemma_common_prefix_at_least(a, b, 1);
            lemma_compare_after_skip(a, b, 1);
            lemma_lex_compare_is_lexicographic(a.drop_first(), b.drop_first());
        } else {
            lemma_common_prefix_len_unique(a, b, 0);
        }
    }
}

} // verus!
