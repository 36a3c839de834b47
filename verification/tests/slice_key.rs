use sortedvec::{ByteChunks, ElementWise, SliceKeyFn, SliceKeySortedVec, StringBytes, VecElements};

struct SortKey;

impl SliceKeyFn<String> for SortKey {
    type Elem = u8;

    fn derive_key(t: &String) -> &[u8] {
        t.as_bytes()
    }
}

type SortedVecOfListLikes = SliceKeySortedVec<String, SortKey, ElementWise>;

type SortedVecOfByteStrings = SliceKeySortedVec<String, SortKey, ByteChunks>;

const BAD_CASE: [&str; 29] = [
    "\u{80}", "\u{80}", "\u{80}", "\u{80}", "", "\u{80}", "", "", "¤", "", "", "\u{80}", "",
    "\u{80}", "", "\u{80}", "", "¤\u{0}", "¥", "", "", "¥", "", "\u{80}", "", "", "¥", "\u{80}",
    "",
];

#[test]
fn lib_bad_case() {
    let case = &BAD_CASE;
    let sorted: SortedVecOfListLikes =
        SortedVecOfListLikes::from_iter(case.into_iter().map(|&x| x.to_owned()));

    for s in case {
        assert_eq!(s, sorted.find(s.as_bytes()).unwrap());
    }
}

#[test]
fn list_experiment_bad_case() {
    let case = &BAD_CASE;
    let sorted: SortedVecOfByteStrings =
        SortedVecOfByteStrings::from_iter(case.into_iter().map(|&x| x.to_owned()));

    for s in case {
        assert_eq!(s, sorted.find(s.as_bytes()).unwrap());
    }
}

fn strings(items: &[&str]) -> Vec<String> {
    items.iter().map(|s| s.to_string()).collect()
}

#[test]
fn find_among_strings() {
    let input = strings(&["abc", "aaa", "bcd", "a", "bda", "aacb"]);
    let sorted = SliceKeySortedVec::<String, StringBytes, ElementWise>::from_vec(input.clone());
    assert_eq!(sorted.as_slice(), strings(&["a", "aaa", "aacb", "abc", "bcd", "bda"]).as_slice());
    assert!(sorted.find("abc".as_bytes()).is_some());
    assert!(sorted.find("aa".as_bytes()).is_none());
    let fast = SliceKeySortedVec::<String, StringBytes, ByteChunks>::from_vec(input);
    assert_eq!(fast.as_slice(), sorted.as_slice());
    assert_eq!(fast.find("abc".as_bytes()), Some(&"abc".to_string()));
    assert!(fast.find("aa".as_bytes()).is_none());
}

#[test]
fn position_among_strings() {
    let sorted = SliceKeySortedVec::<String, StringBytes, ElementWise>::from_vec(strings(&[
        "pear", "apple", "peach", "plum", "apricot",
    ]));
    assert_eq!(
        sorted.as_slice(),
        strings(&["apple", "apricot", "peach", "pear", "plum"]).as_slice()
    );
    assert_eq!(sorted.position(b"apple"), Ok(0));
    assert_eq!(sorted.position(b"apricot"), Ok(1));
    assert_eq!(sorted.position(b"peach"), Ok(2));
    assert_eq!(sorted.position(b"pear"), Ok(3));
    assert_eq!(sorted.position(b"plum"), Ok(4));
    assert_eq!(sorted.position(b""), Err(0));
    assert_eq!(sorted.position(b"app"), Err(0));
    assert_eq!(sorted.position(b"applf"), Err(1));
    assert_eq!(sorted.position(b"banana"), Err(2));
    assert_eq!(sorted.position(b"pea"), Err(2));
    assert_eq!(sorted.position(b"peaches"), Err(3));
    assert_eq!(sorted.position(b"pearl"), Err(4));
    assert_eq!(sorted.position(b"zebra"), Err(5));
}

#[test]
fn position_in_an_empty_collection() {
    let empty = SliceKeySortedVec::<String, StringBytes, ByteChunks>::new();
    assert_eq!(empty.position(b"anything"), Err(0));
    assert!(empty.find(b"anything").is_none());
    assert!(!empty.contains(b""));
}

#[test]
fn position_in_a_collection_of_one() {
    let one = SliceKeySortedVec::<String, StringBytes, ElementWise>::from_vec(strings(&["m"]));
    assert_eq!(one.position(b"a"), Err(0));
    assert_eq!(one.position(b"m"), Ok(0));
    assert_eq!(one.position(b"z"), Err(1));
}

#[test]
fn insert_keeps_order_among_strings() {
    let mut sv = SliceKeySortedVec::<String, StringBytes, ByteChunks>::new();
    for s in ["b", "a", "c", "ab", "", "abc", "b", "aa", "ca"] {
        sv.insert(s.to_string());
        assert!(sv.is_sorted());
    }
    assert_eq!(
        sv.as_slice(),
        strings(&["", "a", "aa", "ab", "abc", "b", "b", "c", "ca"]).as_slice()
    );
}

fn long_strings() -> Vec<String> {
    let prefix = "x".repeat(800);
    let mut out = Vec::new();
    for c in ['q', 'd', 'z', 'a', 'm', 'k', 'b', 'y'] {
        let mut s = prefix.clone();
        s.push(c);
        s.push_str("tail");
        out.push(s);
    }
    out
}

#[test]
fn long_shared_prefixes() {
    let input = long_strings();
    let fast = SliceKeySortedVec::<String, StringBytes, ByteChunks>::from_vec(input.clone());
    let plain = SliceKeySortedVec::<String, StringBytes, ElementWise>::from_vec(input.clone());
    let mut expected = input.clone();
    expected.sort();
    assert_eq!(fast.as_slice(), expected.as_slice());
    assert_eq!(plain.as_slice(), expected.as_slice());
    for s in &input {
        assert_eq!(fast.find(s.as_bytes()), Some(s));
        assert_eq!(plain.find(s.as_bytes()), Some(s));
        assert_eq!(fast.position(s.as_bytes()), plain.position(s.as_bytes()));
    }
    let mut absent = "x".repeat(800);
    absent.push('c');
    assert!(fast.find(absent.as_bytes()).is_none());
    assert_eq!(fast.position(absent.as_bytes()), Err(2));
    assert_eq!(plain.position(absent.as_bytes()), Err(2));
    assert_eq!(fast.position("x".repeat(800).as_bytes()), Err(0));
    assert_eq!(fast.position("x".repeat(801).as_bytes()), Err(6));
}

#[test]
fn remove_among_strings() {
    let mut sv = SliceKeySortedVec::<String, StringBytes, ByteChunks>::from_vec(strings(&[
        "bb", "a", "bb", "c",
    ]));
    assert_eq!(sv.remove(b"bb"), Some("bb".to_string()));
    assert_eq!(sv.remove(b"b"), None);
    assert_eq!(sv.as_slice(), strings(&["a", "bb", "c"]).as_slice());
    assert_eq!(sv.remove(b"bb"), Some("bb".to_string()));
    assert_eq!(sv.remove(b"bb"), None);
    assert_eq!(sv.len(), 2);
}

#[test]
fn dedup_pop_split_and_extend_among_strings() {
    let mut sv = SliceKeySortedVec::<String, StringBytes, ElementWise>::from_vec(strings(&[
        "b", "a", "b", "c", "a", "a",
    ]));
    sv.dedup();
    assert_eq!(sv.as_slice(), strings(&["a", "b", "c"]).as_slice());
    sv.dedup();
    assert_eq!(sv.as_slice(), strings(&["a", "b", "c"]).as_slice());
    sv.extend(strings(&["bb", "", "d"]).into_iter());
    assert_eq!(sv.as_slice(), strings(&["", "a", "b", "bb", "c", "d"]).as_slice());
    assert_eq!(sv.pop(), Some("d".to_string()));
    let tail = sv.split_off(2);
    assert_eq!(sv.as_slice(), strings(&["", "a"]).as_slice());
    assert_eq!(tail.as_slice(), strings(&["b", "bb", "c"]).as_slice());
    assert!(tail.is_sorted());
    let copy = tail.clone();
    assert_eq!(copy.into_vec(), strings(&["b", "bb", "c"]));
    let again = SliceKeySortedVec::<String, StringBytes, ElementWise>::from(strings(&["z", "y"]));
    let yielded: Vec<String> = again.into_iter().collect();
    assert_eq!(yielded, strings(&["y", "z"]));
}

#[test]
fn keys_of_numbers() {
    let input: Vec<Vec<u32>> = vec![vec![3, 1], vec![], vec![3], vec![2, 9, 9], vec![3, 0, 7]];
    let sorted = SliceKeySortedVec::<Vec<u32>, VecElements, ElementWise>::from_vec(input);
    let expected: Vec<Vec<u32>> = vec![vec![], vec![2, 9, 9], vec![3], vec![3, 0, 7], vec![3, 1]];
    assert_eq!(sorted.as_slice(), expected.as_slice());
    assert_eq!(sorted.position(&[3, 0, 7]), Ok(3));
    assert_eq!(sorted.position(&[3, 0]), Err(3));
    assert_eq!(sorted.position(&[4]), Err(5));
}

#[test]
fn every_string_is_found_again() {
    let mut seed: u32 = 0x9e37_79b9;
    let mut input: Vec<String> = Vec::new();
    for _ in 0..400 {
        let mut s = String::new();
        seed = seed.wrapping_mul(1_664_525).wrapping_add(1_013_904_223);
        let len = (seed >> 28) as usize;
        for _ in 0..len {
            seed = seed.wrapping_mul(1_664_525).wrapping_add(1_013_904_223);
            s.push(['a', 'b', 'c'][(seed >> 30) as usize % 3]);
        }
        input.push(s);
    }
    let fast = SliceKeySortedVec::<String, StringBytes, ByteChunks>::from_vec(input.clone());
    let plain = SliceKeySortedVec::<String, StringBytes, ElementWise>::from_vec(input.clone());
    let mut expected = input.clone();
    expected.sort();
    assert_eq!(fast.as_slice(), expected.as_slice());
    assert_eq!(plain.as_slice(), expected.as_slice());
    for s in &input {
        assert_eq!(fast.find(s.as_bytes()), Some(s));
        assert_eq!(plain.find(s.as_bytes()), Some(s));
    }
    for probe in ["", "ab", "abcabc", "cccccccccccccccccc", "d", "bbbbbbbbbbbbbbbbbbbbbbb"] {
        let present = input.iter().any(|s| s == probe);
        assert_eq!(fast.contains(probe.as_bytes()), present);
        assert_eq!(plain.contains(probe.as_bytes()), present);
        let at = expected.binary_search(&probe.to_string());
        match (at, fast.position(probe.as_bytes())) {
            (Ok(_), Ok(i)) => assert_eq!(expected[i], probe),
            (Err(i), Err(j)) => assert_eq!(i, j),
            (a, b) => panic!("{:?} against {:?}", a, b),
        }
    }
}

fn string_in_vec(mut xs: Vec<String>, s: String) -> bool {
    let s_clone = s.clone();
    xs.insert(xs.len() / 2, s_clone);
    let sorted = SortedVecOfListLikes::from(xs);

    sorted.find(s.as_bytes()).is_some()
}

fn strings_in_vec(xs: Vec<String>) -> bool {
    let sorted = SortedVecOfListLikes::from(xs.clone());

    xs.into_iter().all(|s| sorted.find(s.as_bytes()).unwrap() == &s)
}

fn in_sorted_iff_in_source(xs: Vec<String>, s: String) -> bool {
    let sorted = SortedVecOfListLikes::from(xs.clone());

    sorted.find(s.as_bytes()).is_some() == xs.into_iter().any(|x| x == s)
}

fn byte_string_in_vec(mut xs: Vec<String>, s: String) -> bool {
    let s_clone = s.clone();
    xs.insert(xs.len() / 2, s_clone);
    let sorted = SortedVecOfByteStrings::from(xs);

    sorted.find(s.as_bytes()).is_some()
}

fn byte_strings_in_vec(xs: Vec<String>) -> bool {
    let sorted = SortedVecOfByteStrings::from(xs.clone());

    xs.into_iter().all(|s| sorted.find(s.as_bytes()).unwrap() == &s)
}

fn in_sorted_byte_strings_iff_in_source(xs: Vec<String>, s: String) -> bool {
    let sorted = SortedVecOfByteStrings::from(xs.clone());

    sorted.find(s.as_bytes()).is_some() == xs.into_iter().any(|x| x == s)
}

fn position_is_where_the_key_belongs(mut xs: Vec<Vec<u8>>, key: Vec<u8>) -> bool {
    let sorted = SliceKeySortedVec::<Vec<u8>, VecElements, ByteChunks>::from(xs.clone());
    xs.sort();
    if sorted.as_slice() != xs.as_slice() {
        return false;
    }
    match sorted.position(&key) {
        Ok(i) => xs[i] == key,
        Err(i) => xs[..i].iter().all(|x| *x < key) && xs[i..].iter().all(|x| *x > key),
    }
}

fn inserts_keep_the_order(xs: Vec<Vec<u8>>) -> bool {
    let mut sorted = SliceKeySortedVec::<Vec<u8>, VecElements, ElementWise>::new();
    for x in xs.iter() {
        sorted.insert(x.clone());
        if !sorted.is_sorted() {
            return false;
        }
    }
    let mut expected = xs;
    expected.sort();
    sorted.as_slice() == expected.as_slice()
}

#[test]
fn random_strings_are_found() {
    let two: fn(Vec<String>, String) -> bool = string_in_vec;
    quickcheck::quickcheck(two);
    let one: fn(Vec<String>) -> bool = strings_in_vec;
    quickcheck::quickcheck(one);
    let two: fn(Vec<String>, String) -> bool = in_sorted_iff_in_source;
    quickcheck::quickcheck(two);
}

#[test]
fn random_byte_strings_are_found() {
    let two: fn(Vec<String>, String) -> bool = byte_string_in_vec;
    quickcheck::quickcheck(two);
    let one: fn(Vec<String>) -> bool = byte_strings_in_vec;
    quickcheck::quickcheck(one);
    let two: fn(Vec<String>, String) -> bool = in_sorted_byte_strings_iff_in_source;
    quickcheck::quickcheck(two);
}

#[test]
fn random_positions_and_inserts() {
    let two: fn(Vec<Vec<u8>>, Vec<u8>) -> bool = position_is_where_the_key_belongs;
    quickcheck::quickcheck(two);
    let one: fn(Vec<Vec<u8>>) -> bool = inserts_keep_the_order;
    quickcheck::quickcheck(one);
}

fn all_keys(letters: &[u8], max_len: usize) -> Vec<Vec<u8>> {
    let mut out: Vec<Vec<u8>> = vec![Vec::new()];
    let mut last: Vec<Vec<u8>> = vec![Vec::new()];
    for _ in 0..max_len {
        let mut next: Vec<Vec<u8>> = Vec::new();
        for k in &last {
            for l in letters {
                let mut longer = k.clone();
                longer.push(*l);
                next.push(longer);
            }
        }
        out.extend(next.iter().cloned());
        last = next;
    }
    out
}

#[test]
fn every_probe_among_keys_with_much_in_common() {
    let keys = all_keys(b"ab", 6);
    assert_eq!(keys.len(), 127);
    // Every third key is kept; every key is looked for.
    let kept: Vec<Vec<u8>> = keys.iter().step_by(3).cloned().collect();
    let plain = SliceKeySortedVec::<Vec<u8>, VecElements, ElementWise>::from(kept.clone());
    let fast = SliceKeySortedVec::<Vec<u8>, VecElements, ByteChunks>::from(kept.clone());
    let mut expected = kept.clone();
    expected.sort();
    assert_eq!(plain.as_slice(), expected.as_slice());
    assert_eq!(fast.as_slice(), expected.as_slice());
    for probe in &keys {
        let wanted = expected.binary_search(probe);
        assert_eq!(plain.position(probe), wanted);
        assert_eq!(fast.position(probe), wanted);
        assert_eq!(plain.contains(probe), wanted.is_ok());
        assert_eq!(fast.find(probe).is_some(), wanted.is_ok());
    }
}

#[test]
fn every_probe_among_long_keys() {
    // Keys of forty bytes and more that agree on all but one or two bytes.
    let mut kept: Vec<Vec<u8>> = Vec::new();
    let base = vec![b'k'; 40];
    for at in [0usize, 7, 8, 15, 16, 17, 31, 32, 39] {
        for with in [b'a', b'z'] {
            let mut key = base.clone();
            key[at] = with;
            kept.push(key.clone());
            key.push(b'!');
            kept.push(key);
        }
    }
    kept.push(base.clone());
    kept.push(base[..20].to_vec());
    let fast = SliceKeySortedVec::<Vec<u8>, VecElements, ByteChunks>::from(kept.clone());
    let plain = SliceKeySortedVec::<Vec<u8>, VecElements, ElementWise>::from(kept.clone());
    let mut expected = kept.clone();
    expected.sort();
    assert_eq!(fast.as_slice(), expected.as_slice());
    let mut probes = kept.clone();
    for at in 0..40 {
        let mut key = base.clone();
        key[at] = b'm';
        probes.push(key);
        probes.push(base[..at].to_vec());
    }
    for probe in &probes {
        let wanted = expected.binary_search(probe);
        assert_eq!(fast.position(probe), wanted);
        assert_eq!(plain.position(probe), wanted);
    }
}
