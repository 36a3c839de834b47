//! The common prefix of two byte slices, found several bytes at a time.
//!
//! Bytes are read eight at a time into a word. Two words are compared by
//! their exclusive or: it is zero where the sixteen bytes match pairwise,
//! and otherwise its lowest set bit lies in the first byte that differs.
//! [`usize_common_prefix_len`] walks the slices a word at a time;
//! [`simd_common_prefix_len`] takes two words at a step and finishes with
//! one probe that may overlap what it has already matched, so that it never
//! reads past the end of the shared region.

use vstd::prelude::*;
use vstd::std_specs::bits::axiom_u64_trailing_zeros;

use crate::lexical::{agree_at, common_prefix_len, lemma_common_prefix_len_unique};

verus! {

/// The number of bytes in a word.
pub const WORD_BYTES: usize = 8;

/// The number of bytes that [`simd_common_prefix_len`] compares at a step.
pub const CHUNK_BYTES: usize = 16;

/// The word whose bytes, lowest first, are `b0` to `b7`.
pub open spec fn pack_word(b0: u8, b1: u8, b2: u8, b3: u8, b4: u8, b5: u8, b6: u8, b7: u8) -> u64 {
    (b0 as u64) | ((b1 as u64) << 8) | ((b2 as u64) << 16) | ((b3 as u64) << 24) | ((b4 as u64)
        << 32) | ((b5 as u64) << 40) | ((b6 as u64) << 48) | ((b7 as u64) << 56)
}

/// The word made of the eight bytes of `s` that start at index `at`.
pub open spec fn word_at(s: Seq<u8>, at: int) -> u64 {
    pack_word(s[at], s[at + 1], s[at + 2], s[at + 3], s[at + 4], s[at + 5], s[at + 6], s[at + 7])
}

/// `a` and `b` hold the same bytes from index `from` up to index `to`.
pub open spec fn same_bytes(a: Seq<u8>, b: Seq<u8>, from: int, to: int) -> bool {
    forall|i: int| from <= i < to ==> a[i] == b[i]
}

/// Two words are equal exactly where their bytes are.
proof fn lemma_words_equal(
    a0: u8,
    a1: u8,
    a2: u8,
    a3: u8,
    a4: u8,
    a5: u8,
    a6: u8,
    a7: u8,
    b0: u8,
    b1: u8,
    b2: u8,
    b3: u8,
    b4: u8,
    b5: u8,
    b6: u8,
    b7: u8,
)
    by (bit_vector)
    ensures
        (pack_word(a0, a1, a2, a3, a4, a5, a6, a7) ^ pack_word(b0, b1, b2, b3, b4, b5, b6, b7)) == 0
            <==> (a0 == b0 && a1 == b1 && a2 == b2 && a3 == b3 && a4 == b4 && a5 == b5 && a6 == b6
            && a7 == b7),
{
}

/// The lowest set bit of the exclusive or of two words lies in the first
/// byte in which they differ. `tz` is the position of that bit.
proof fn lemma_first_difference(
    a0: u8,
    a1: u8,
    a2: u8,
    a3: u8,
    a4: u8,
    a5: u8,
    a6: u8,
    a7: u8,
    b0: u8,
    b1: u8,
    b2: u8,
    b3: u8,
    b4: u8,
    b5: u8,
    b6: u8,
    b7: u8,
    tz: u64,
)
    by (bit_vector)
    requires
        tz < 64,
        ((pack_word(a0, a1, a2, a3, a4, a5, a6, a7) ^ pack_word(b0, b1, b2, b3, b4, b5, b6, b7))
            >> tz) & 1 == 1,
        (pack_word(a0, a1, a2, a3, a4, a5, a6, a7) ^ pack_word(b0, b1, b2, b3, b4, b5, b6, b7)) << (
        (64 - tz) as u64) == 0,
    ensures
        tz / 8 == 0 ==> a0 != b0,
        tz / 8 == 1 ==> a0 == b0 && a1 != b1,
        tz / 8 == 2 ==> a0 == b0 && a1 == b1 && a2 != b2,
        tz / 8 == 3 ==> a0 == b0 && a1 == b1 && a2 == b2 && a3 != b3,
        tz / 8 == 4 ==> a0 == b0 && a1 == b1 && a2 == b2 && a3 == b3 && a4 != b4,
        tz / 8 == 5 ==> a0 == b0 && a1 == b1 && a2 == b2 && a3 == b3 && a4 == b4 && a5 != b5,
        tz / 8 == 6 ==> a0 == b0 && a1 == b1 && a2 == b2 && a3 == b3 && a4 == b4 && a5 == b5 && a6
            != b6,
        tz / 8 == 7 ==> a0 == b0 && a1 == b1 && a2 == b2 && a3 == b3 && a4 == b4 && a5 == b5 && a6
            == b6 && a7 != b7,
{
}

/// Bytes are equivalent exactly when they are equal.
pub proof fn lemma_bytes_agree(a: Seq<u8>, b: Seq<u8>, i: int)
    ensures
        agree_at(a, b, i) <==> a[i] == b[i],
{
}

/// Where `a` and `b` hold the same bytes below `p`, and at `p` one of them
/// ends or they differ, `p` is the length of their common prefix.
pub proof fn lemma_byte_prefix(a: Seq<u8>, b: Seq<u8>, p: int)
    requires
        0 <= p <= a.len(),
        p <= b.len(),
        same_bytes(a, b, 0, p),
        p < a.len() && p < b.len() ==> a[p] != b[p],
    ensures
        p == common_prefix_len(a, b),
{
    assert forall|i: int| 0 <= i < p implies #[trigger] agree_at(a, b, i) by {
        lemma_bytes_agree(a, b, i);
    }
    lemma_common_prefix_len_unique(a, b, p);
}

/// Reads the eight bytes of `s` that start at index `at` as one word.
fn load_word(s: &[u8], at: usize) -> (w: u64)
    requires
        at + 8 <= s.len(),
    ensures
        w == word_at(s@, at as int),
{
    (s[at] as u64) | ((s[at + 1] as u64) << 8) | ((s[at + 2] as u64) << 16) | ((s[at + 3] as u64)
        << 24) | ((s[at + 4] as u64) << 32) | ((s[at + 5] as u64) << 40) | ((s[at + 6] as u64)
        << 48) | ((s[at + 7] as u64) << 56)
}

/// Finds the first of the eight bytes from index `at` in which `a` and `b`
/// differ, counted from `at`; eight where they do not.
fn word_mismatch(a: &[u8], b: &[u8], at: usize) -> (k: usize)
    requires
        at + 8 <= a.len(),
        at + 8 <= b.len(),
    ensures
        k <= 8,
        same_bytes(a@, b@, at as int, at + k),
        k < 8 ==> a@[at + k] != b@[at + k],
{
    let xor = load_word(a, at) ^ load_word(b, at);
    let ghost i = at as int;
    proof {
        lemma_words_equal(
            a@[i],
            a@[i + 1],
            a@[i + 2],
            a@[i + 3],
            a@[i + 4],
            a@[i + 5],
            a@[i + 6],
            a@[i + 7],
            b@[i],
            b@[i + 1],
            b@[i + 2],
            b@[i + 3],
            b@[i + 4],
            b@[i + 5],
            b@[i + 6],
            b@[i + 7],
        );
    }
    if xor == 0 {
        8
    } else {
        let tz = xor.trailing_zeros();
        proof {
            axiom_u64_trailing_zeros(xor);
            lemma_first_difference(
                a@[i],
                a@[i + 1],
                a@[i + 2],
                a@[i + 3],
                a@[i + 4],
                a@[i + 5],
                a@[i + 6],
                a@[i + 7],
                b@[i],
                b@[i + 1],
                b@[i + 2],
                b@[i + 3],
                b@[i + 4],
                b@[i + 5],
                b@[i + 6],
                b@[i + 7],
                tz as u64,
            );
        }
        (tz / 8) as usize
    }
}

/// The length of the longest common prefix of `a` and `b`, found a word at
/// a time. What is left over at the end, less than a word, is compared
/// byte by byte.
pub fn usize_common_prefix_len(a: &[u8], b: &[u8]) -> (r: usize)
    ensures
        r == common_prefix_len(a@, b@),
{
    let shared_len = if a.len() < b.len() {
        a.len()
    } else {
        b.len()
    };
    let mut i: usize = 0;
    while shared_len - i >= WORD_BYTES
        invariant
            i <= shared_len,
            shared_len <= a.len(),
            shared_len <= b.len(),
            same_bytes(a@, b@, 0, i as int),
        decreases shared_len - i,
    {
        let k = word_mismatch(a, b, i);
        if k < WORD_BYTES {
            proof {
                lemma_byte_prefix(a@, b@, i + k);
            }
            return i + k;
        }
        i = i + WORD_BYTES;
    }
    while i < shared_len
        invariant
            i <= shared_len,
            shared_len <= a.len(),
            shared_len <= b.len(),
            same_bytes(a@, b@, 0, i as int),
        decreases shared_len - i,
    {
        if a[i] != b[i] {
            proof {
                lemma_byte_prefix(a@, b@, i as int);
            }
            return i;
        }
        i = i + 1;
    }
    proof {
        lemma_byte_prefix(a@, b@, i as int);
    }
    i
}

/// Whether `a` and `b` hold the same sixteen bytes from index `at`.
fn chunks_match(a: &[u8], b: &[u8], at: usize) -> (m: bool)
    requires
        at + 16 <= a.len(),
        at + 16 <= b.len(),
    ensures
        m == same_bytes(a@, b@, at as int, at + 16),
{
    let low = load_word(a, at) ^ load_word(b, at);
    let high = load_word(a, at + 8) ^ load_word(b, at + 8);
    let ghost i = at as int;
    proof {
        lemma_words_equal(
            a@[i],
            a@[i + 1],
            a@[i + 2],
            a@[i + 3],
            a@[i + 4],
            a@[i + 5],
            a@[i + 6],
            a@[i + 7],
            b@[i],
            b@[i + 1],
            b@[i + 2],
            b@[i + 3],
            b@[i + 4],
            b@[i + 5],
            b@[i + 6],
            b@[i + 7],
        );
        lemma_words_equal(
            a@[i + 8],
            a@[i + 9],
            a@[i + 10],
            a@[i + 11],
            a@[i + 12],
            a@[i + 13],
            a@[i + 14],
            a@[i + 15],
            b@[i + 8],
            b@[i + 9],
            b@[i + 10],
            b@[i + 11],
            b@[i + 12],
            b@[i + 13],
            b@[i + 14],
            b@[i + 15],
        );
        assert((low | high) == 0 <==> low == 0 && high == 0) by (bit_vector);
    }
    (low | high) == 0
}

/// Counts the chunks at the start of `a` and `b` that are the same in both.
/// Only whole chunks within the first `shared_len` bytes are looked at.
fn matching_chunks(a: &[u8], b: &[u8], shared_len: usize) -> (n: usize)
    requires
        shared_len <= a.len(),
        shared_len <= b.len(),
    ensures
        n * CHUNK_BYTES <= shared_len,
        same_bytes(a@, b@, 0, n * CHUNK_BYTES),
        (n + 1) * CHUNK_BYTES <= shared_len ==> !same_bytes(
            a@,
            b@,
            n * CHUNK_BYTES,
            (n + 1) * CHUNK_BYTES,
        ),
{
    let mut n: usize = 0;
    let mut at: usize = 0;
    while shared_len - at >= CHUNK_BYTES
        invariant
            at == n * CHUNK_BYTES,
            at <= shared_len,
            shared_len <= a.len(),
            shared_len <= b.len(),
            same_bytes(a@, b@, 0, at as int),
        decreases shared_len - at,
    {
        if !chunks_match(a, b, at) {
            return n;
        }
        at = at + CHUNK_BYTES;
        n = n + 1;
    }
    n
}

/// Finds the first of the sixteen bytes from index `at` in which `a` and
/// `b` differ, counted from `at`; sixteen where they do not.
fn chunk_mismatch(a: &[u8], b: &[u8], at: usize) -> (k: usize)
    requires
        at + 16 <= a.len(),
        at + 16 <= b.len(),
    ensures
        k <= 16,
        same_bytes(a@, b@, at as int, at + k),
        k < 16 ==> a@[at + k] != b@[at + k],
{
    let low = word_mismatch(a, b, at);
    if low < WORD_BYTES {
        low
    } else {
        WORD_BYTES + word_mismatch(a, b, at + WORD_BYTES)
    }
}

/// Says where the last probe is to be made, once `prefix_len` bytes at the
/// start of a shared region of `shared_len` bytes are known to match.
///
/// The probe reads `width` bytes. It starts where the match ended, or
/// earlier where it would otherwise run past the shared region. No probe
/// is needed where the whole region matched.
pub fn probe_offset(shared_len: usize, width: usize, prefix_len: usize) -> (at: Option<usize>)
    requires
        width <= shared_len,
    ensures
        prefix_len >= shared_len ==> at.is_none(),
        prefix_len < shared_len ==> at == Some(
            if shared_len - width < prefix_len {
                (shared_len - width) as usize
            } else {
                prefix_len
            },
        ),
{
    if prefix_len < shared_len {
        if shared_len - width < prefix_len {
            Some(shared_len - width)
        } else {
            Some(prefix_len)
        }
    } else {
        None
    }
}

/// The length of the longest common prefix of `a` and `b`, found a chunk
/// at a time.
///
/// Whole chunks are compared from the start for as long as they match. One
/// more chunk is then examined byte by byte: the one where the match
/// ended, or the last whole chunk of the shared region where fewer bytes
/// than a chunk are left. Slices that share less than a chunk are handed
/// to [`usize_common_prefix_len`].
pub fn simd_common_prefix_len(a: &[u8], b: &[u8]) -> (r: usize)
    ensures
        r == common_prefix_len(a@, b@),
{
    let shared_len = if a.len() < b.len() {
        a.len()
    } else {
        b.len()
    };
    let width = CHUNK_BYTES;
    if width <= shared_len {
        let prefix_len = if shared_len > width {
            matching_chunks(a, b, shared_len) * width
        } else {
            0
        };
        match probe_offset(shared_len, width, prefix_len) {
            Some(ix) => {
                let k = chunk_mismatch(a, b, ix);
                proof {
                    lemma_byte_prefix(a@, b@, ix + k);
                }
                ix + k
            },
            None => {
                proof {
                    lemma_byte_prefix(a@, b@, prefix_len as int);
                }
                prefix_len
            },
        }
    } else {
        usize_common_prefix_len(a, b)
    }
}

} // verus!
