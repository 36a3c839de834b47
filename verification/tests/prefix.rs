use sortedvec::byte_prefix::probe_offset;
use sortedvec::slice_ord::compare_from_prefix;
use sortedvec::{
    simd_common_prefix_len, usize_common_prefix_len, ByteChunks, Comparison, ElementWise, SliceOrd,
    TotalOrder,
};

// naive implementation of u8 slice compare for reference
fn common_prefix_len(a: &[u8], b: &[u8]) -> usize {
    let shared_len = std::cmp::min(a.len(), b.len());
    a[..shared_len].iter().zip(b[..shared_len].iter()).take_while(|(a, b)| a == b).count()
}

fn native(a: &[u8], b: &[u8]) -> Comparison {
    match a.cmp(b) {
        std::cmp::Ordering::Less => Comparison::Less,
        std::cmp::Ordering::Equal => Comparison::Equal,
        std::cmp::Ordering::Greater => Comparison::Greater,
    }
}

#[test]
fn prefix_of_empty_slices() {
    assert_eq!(simd_common_prefix_len(b"", b""), 0);
    assert_eq!(usize_common_prefix_len(b"", b""), 0);
    assert_eq!(simd_common_prefix_len(b"", b"abc"), 0);
    assert_eq!(usize_common_prefix_len(b"abc", b""), 0);
    assert_eq!(<ElementWise as SliceOrd<u8>>::compare(b"", b""), (0, Comparison::Equal));
    assert_eq!(ByteChunks::compare(b"", b""), (0, Comparison::Equal));
    assert_eq!(ByteChunks::compare(b"", b"a"), (0, Comparison::Less));
    assert_eq!(ByteChunks::compare(b"a", b""), (0, Comparison::Greater));
}

#[test]
fn prefix_of_a_prefix() {
    assert_eq!(ByteChunks::compare(b"abc", b"abcdef"), (3, Comparison::Less));
    assert_eq!(ByteChunks::compare(b"abcdef", b"abc"), (3, Comparison::Greater));
    assert_eq!(<ElementWise as SliceOrd<u8>>::compare(b"abc", b"abcdef"), (3, Comparison::Less));
    assert_eq!(<ElementWise as SliceOrd<u8>>::compare(b"abcdef", b"abc"), (3, Comparison::Greater));
    assert_eq!(ByteChunks::compare(b"abc", b"abc"), (3, Comparison::Equal));
}

#[test]
fn first_difference_at_every_index() {
    let base: Vec<u8> = (0..100u32).map(|i| (i * 7 % 251) as u8).collect();
    for len in 0..base.len() {
        let a = &base[..len];
        assert_eq!(simd_common_prefix_len(a, a), len);
        assert_eq!(usize_common_prefix_len(a, a), len);
        assert_eq!(simd_common_prefix_len(a, &base), len);
        assert_eq!(usize_common_prefix_len(&base, a), len);
        for at in 0..len {
            let mut b = a.to_vec();
            b[at] ^= 0x40;
            assert_eq!(simd_common_prefix_len(a, &b), at);
            assert_eq!(usize_common_prefix_len(a, &b), at);
            assert_eq!(simd_common_prefix_len(&b, &base), at);
            assert_eq!(ByteChunks::compare(a, &b), (at, native(a, &b)));
            assert_eq!(ByteChunks::compare(&b, a), (at, native(&b, a)));
            assert_eq!(<ElementWise as SliceOrd<u8>>::compare(a, &b), (at, native(a, &b)));
        }
    }
}

#[test]
fn difference_in_the_high_bit_only() {
    let a = [0u8, 0, 0, 0, 0, 0, 0, 0, 0, 0, 0, 0, 0, 0, 0, 0, 0, 0, 0, 0];
    for at in 0..a.len() {
        for bit in 0..8 {
            let mut b = a;
            b[at] = 1 << bit;
            assert_eq!(simd_common_prefix_len(&a, &b), at);
            assert_eq!(usize_common_prefix_len(&a, &b), at);
        }
    }
}

#[test]
fn where_the_last_probe_goes() {
    assert_eq!(probe_offset(100, 16, 0), Some(0));
    assert_eq!(probe_offset(100, 16, 48), Some(48));
    assert_eq!(probe_offset(100, 16, 84), Some(84));
    assert_eq!(probe_offset(100, 16, 96), Some(84));
    assert_eq!(probe_offset(100, 16, 100), None);
    assert_eq!(probe_offset(100, 16, 112), None);
    assert_eq!(probe_offset(16, 16, 0), Some(0));
    assert_eq!(probe_offset(16, 16, 16), None);
    assert_eq!(probe_offset(40, 32, 32), Some(8));
}

#[test]
fn comparison_after_a_given_prefix() {
    assert_eq!(compare_from_prefix(b"abc", b"abd", 2), (2, Comparison::Less));
    assert_eq!(compare_from_prefix(b"abd", b"abc", 2), (2, Comparison::Greater));
    assert_eq!(compare_from_prefix(b"ab", b"abc", 2), (2, Comparison::Less));
    assert_eq!(compare_from_prefix(b"abc", b"ab", 2), (2, Comparison::Greater));
    assert_eq!(compare_from_prefix(b"abc", b"abc", 3), (3, Comparison::Equal));
    assert_eq!(compare_from_prefix(b"", b"", 0), (0, Comparison::Equal));
    assert_eq!(compare_from_prefix(b"abc", b"abd", 1), (1, Comparison::Equal));
    assert_eq!(compare_from_prefix(b"abc", b"abcd", 9), (9, Comparison::Less));
}

#[test]
fn elements_other_than_bytes() {
    let a: [i32; 4] = [-5, 0, 7, 7];
    let b: [i32; 5] = [-5, 0, 7, 9, 1];
    assert_eq!(ElementWise::compare(&a[..], &b[..]), (3, Comparison::Less));
    assert_eq!(ElementWise::compare(&b[..], &a[..]), (3, Comparison::Greater));
    assert_eq!(ElementWise::compare(&a[..3], &b[..]), (3, Comparison::Less));
    assert_eq!(ElementWise::compare(&a[..], &a[..]), (4, Comparison::Equal));
    let words = ["ab".to_string(), "cd".to_string()];
    let other = ["ab".to_string(), "cc".to_string()];
    assert_eq!(ElementWise::compare(&words[..], &other[..]), (1, Comparison::Greater));
}

#[test]
fn several_differences() {
    let a = b"the quick brown fox jumps over the lazy dog";
    let b = b"the quick brown fax jumps over the hazy dog";
    assert_eq!(simd_common_prefix_len(a, b), 17);
    assert_eq!(usize_common_prefix_len(a, b), 17);
    assert_eq!(ByteChunks::compare(a, b), (17, Comparison::Greater));
    assert_eq!(ByteChunks::compare(b, a), (17, Comparison::Less));
}

#[test]
fn long_shared_prefix() {
    let mut a = vec![b'u'; 831];
    let mut b = a.clone();
    a.push(b'a');
    b.push(b'b');
    a.extend_from_slice(b"same tail");
    b.extend_from_slice(b"same tail");
    assert_eq!(simd_common_prefix_len(&a, &b), 831);
    assert_eq!(usize_common_prefix_len(&a, &b), 831);
    assert_eq!(ByteChunks::compare(&a, &b), <ElementWise as SliceOrd<u8>>::compare(&a, &b));
    assert_eq!(ByteChunks::compare(&a, &b), (831, Comparison::Less));
}

fn simd_prefix_len(a: Vec<u8>, b: Vec<u8>) -> bool {
    simd_common_prefix_len(&a, &b) == common_prefix_len(&a, &b)
}

fn usize_prefix_len(a: Vec<u8>, b: Vec<u8>) -> bool {
    usize_common_prefix_len(&a, &b) == common_prefix_len(&a, &b)
}

fn simd_prefix_len_with_prefix(a: Vec<u8>, b: Vec<u8>, mut c: Vec<u8>) -> bool {
    let mut a_extended = c.clone();
    a_extended.extend(a);
    c.extend(b);

    simd_common_prefix_len(&a_extended, &c) == common_prefix_len(&a_extended, &c)
}

fn compare_slices_works(a: Vec<u8>, b: Vec<u8>) -> bool {
    ByteChunks::compare(&a, &b).1 == native(&a, &b)
}

fn comparators_agree(a: Vec<u8>, b: Vec<u8>, mut c: Vec<u8>) -> bool {
    let mut a_extended = c.clone();
    a_extended.extend(a);
    c.extend(b);
    ByteChunks::compare(&a_extended, &c) == <ElementWise as SliceOrd<u8>>::compare(&a_extended, &c)
        && ByteChunks::compare(&a_extended, &c)
            == (common_prefix_len(&a_extended, &c), native(&a_extended, &c))
}

#[test]
fn random_prefix_lengths() {
    let two: fn(Vec<u8>, Vec<u8>) -> bool = simd_prefix_len;
    quickcheck::quickcheck(two);
    let two: fn(Vec<u8>, Vec<u8>) -> bool = usize_prefix_len;
    quickcheck::quickcheck(two);
    let three: fn(Vec<u8>, Vec<u8>, Vec<u8>) -> bool = simd_prefix_len_with_prefix;
    quickcheck::quickcheck(three);
}

#[test]
fn random_comparisons() {
    let two: fn(Vec<u8>, Vec<u8>) -> bool = compare_slices_works;
    quickcheck::quickcheck(two);
    let three: fn(Vec<u8>, Vec<u8>, Vec<u8>) -> bool = comparators_agree;
    quickcheck::quickcheck(three);
}

#[test]
fn order_of_numbers() {
    assert_eq!(3u8.compare(&4), Comparison::Less);
    assert_eq!(4u8.compare(&4), Comparison::Equal);
    assert_eq!(5u8.compare(&4), Comparison::Greater);
    assert_eq!((-3i64).compare(&2), Comparison::Less);
    assert_eq!(i128::MAX.compare(&i128::MIN), Comparison::Greater);
    assert_eq!(usize::MAX.compare(&usize::MAX), Comparison::Equal);
    assert_eq!(false.compare(&true), Comparison::Less);
    assert_eq!(true.compare(&false), Comparison::Greater);
    assert_eq!(true.compare(&true), Comparison::Equal);
    assert_eq!('a'.compare(&'b'), Comparison::Less);
    assert_eq!('é'.compare(&'z'), Comparison::Greater);
    assert_eq!(().compare(&()), Comparison::Equal);
}

#[test]
fn order_of_pairs() {
    assert_eq!((1u8, 9u8).compare(&(2, 0)), Comparison::Less);
    assert_eq!((2u8, 0u8).compare(&(1, 9)), Comparison::Greater);
    assert_eq!((1u8, 3u8).compare(&(1, 4)), Comparison::Less);
    assert_eq!((1u8, 4u8).compare(&(1, 4)), Comparison::Equal);
    assert_eq!((1u8, 5u8).compare(&(1, 4)), Comparison::Greater);
}

#[test]
fn order_of_triples_and_options() {
    assert_eq!((1u8, 2u8, 3u8).compare(&(1, 2, 4)), Comparison::Less);
    assert_eq!((1u8, 3u8, 0u8).compare(&(1, 2, 9)), Comparison::Greater);
    assert_eq!((0u8, 9u8, 9u8).compare(&(1, 0, 0)), Comparison::Less);
    assert_eq!((1u8, 2u8, 3u8).compare(&(1, 2, 3)), Comparison::Equal);
    assert_eq!(None::<u8>.compare(&None), Comparison::Equal);
    assert_eq!(None.compare(&Some(0u8)), Comparison::Less);
    assert_eq!(Some(0u8).compare(&None), Comparison::Greater);
    assert_eq!(Some(3u8).compare(&Some(4)), Comparison::Less);
    assert_eq!(Some(4u8).compare(&Some(4)), Comparison::Equal);
}

#[test]
fn order_of_vectors() {
    assert_eq!(vec![1i32, 2].compare(&vec![1, 2, 0]), Comparison::Less);
    assert_eq!(vec![1i32, 3].compare(&vec![1, 2, 0]), Comparison::Greater);
    assert_eq!(Vec::<i32>::new().compare(&vec![]), Comparison::Equal);
    assert_eq!(vec![-1i32].compare(&vec![-1]), Comparison::Equal);
}

#[test]
fn order_of_strings() {
    let order = |a: &str, b: &str| a.to_string().compare(&b.to_string());
    assert_eq!(order("", ""), Comparison::Equal);
    assert_eq!(order("", "a"), Comparison::Less);
    assert_eq!(order("abc", "abd"), Comparison::Less);
    assert_eq!(order("abc", "ab"), Comparison::Greater);
    assert_eq!(order("b", "abc"), Comparison::Greater);
    assert_eq!(order("¤", "¥"), Comparison::Less);
    assert_eq!(order("\u{80}", "¤"), Comparison::Less);
    assert_eq!(order("same", "same"), Comparison::Equal);
}

fn as_native<K: Ord + TotalOrder>(a: &K, b: &K) -> bool {
    let native = match a.cmp(b) {
        std::cmp::Ordering::Less => Comparison::Less,
        std::cmp::Ordering::Equal => Comparison::Equal,
        std::cmp::Ordering::Greater => Comparison::Greater,
    };
    a.compare(b) == native
}

fn pairs_as_native(a: (u8, i16), b: (u8, i16)) -> bool {
    as_native(&a, &b)
}

fn triples_as_native(a: (bool, u8, u8), b: (bool, u8, u8)) -> bool {
    as_native(&a, &b)
}

fn options_as_native(a: Option<u8>, b: Option<u8>) -> bool {
    as_native(&a, &b)
}

fn vectors_as_native(a: Vec<i8>, b: Vec<i8>) -> bool {
    as_native(&a, &b)
}

fn strings_as_native(a: String, b: String) -> bool {
    as_native(&a, &b)
}

fn chars_as_native(a: char, b: char) -> bool {
    as_native(&a, &b)
}

fn numbers_as_native(a: i64, b: i64, c: u128, d: u128) -> bool {
    as_native(&a, &b) && as_native(&c, &d) && as_native(&(a < b), &(c < d))
}

#[test]
fn random_orders_agree_with_the_native_ones() {
    let f: fn((u8, i16), (u8, i16)) -> bool = pairs_as_native;
    quickcheck::quickcheck(f);
    let f: fn((bool, u8, u8), (bool, u8, u8)) -> bool = triples_as_native;
    quickcheck::quickcheck(f);
    let f: fn(Option<u8>, Option<u8>) -> bool = options_as_native;
    quickcheck::quickcheck(f);
    let f: fn(Vec<i8>, Vec<i8>) -> bool = vectors_as_native;
    quickcheck::quickcheck(f);
    let f: fn(String, String) -> bool = strings_as_native;
    quickcheck::quickcheck(f);
    let f: fn(char, char) -> bool = chars_as_native;
    quickcheck::quickcheck(f);
    let f: fn(i64, i64, u128, u128) -> bool = numbers_as_native;
    quickcheck::quickcheck(f);
}
