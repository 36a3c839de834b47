//! Key functions for common cases.

use vstd::prelude::*;
use vstd::utf8::encode_utf8;

use crate::order::TotalOrder;
use crate::slice_key::SliceKeyFn;
use crate::sorted_vec::KeyFn;

verus! {

/// Items that are their own keys.
pub struct ByValue;

impl<K: TotalOrder + Copy> KeyFn<K> for ByValue {
    type Key = K;

    open spec fn key(item: &K) -> K {
        *item
    }

    fn derive_key(item: &K) -> (k: K) {
        *item
    }
}

/// Strings, keyed by their bytes.
pub struct StringBytes;

impl SliceKeyFn<String> for StringBytes {
    type Elem = u8;

    open spec fn key(item: &String) -> Seq<u8> {
        encode_utf8(item@)
    }

    fn derive_key(item: &String) -> (k: &[u8]) {
        item.as_str().as_bytes()
    }
}

/// Vectors, keyed by their own elements.
pub struct VecElements;

impl<E: TotalOrder> SliceKeyFn<Vec<E>> for VecElements {
    type Elem = E;

    open spec fn key(item: &Vec<E>) -> Seq<E> {
        item@
    }

    fn derive_key(item: &Vec<E>) -> (k: &[E]) {
        item.as_slice()
    }
}

} // verus!
