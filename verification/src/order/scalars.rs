//! The usual order on the integers, on `bool`, on `char` and on `()`.

use vstd::prelude::*;

use super::{Comparison, TotalOrder};

verus! {

impl TotalOrder for u8 {
    open spec fn leq(&self, other: &u8) -> bool {
        *self <= *other
    }

    proof fn leq_total(a: &u8, b: &u8) {
    }

    proof fn leq_transitive(a: &u8, b: &u8, c: &u8) {
    }

    fn compare(&self, other: &u8) -> (c: Comparison) {
        if *self < *other {
            Comparison::Less
        } else if *self > *other {
            Comparison::Greater
        } else {
            Comparison::Equal
        }
    }
}

impl TotalOrder for u16 {
    open spec fn leq(&self, other: &u16) -> bool {
        *self <= *other
    }

    proof fn leq_total(a: &u16, b: &u16) {
    }

    proof fn leq_transitive(a: &u16, b: &u16, c: &u16) {
    }

    fn compare(&self, other: &u16) -> (c: Comparison) {
        if *self < *other {
            Comparison::Less
        } else if *self > *other {
            Comparison::Greater
        } else {
            Comparison::Equal
        }
    }
}

impl TotalOrder for u32 {
    open spec fn leq(&self, other: &u32) -> bool {
        *self <= *other
    }

    proof fn leq_total(a: &u32, b: &u32) {
    }

    proof fn leq_transitive(a: &u32, b: &u32, c: &u32) {
    }

    fn compare(&self, other: &u32) -> (c: Comparison) {
        if *self < *other {
            Comparison::Less
        } else if *self > *other {
            Comparison::Greater
        } else {
            Comparison::Equal
        }
    }
}

impl TotalOrder for u64 {
    open spec fn leq(&self, other: &u64) -> bool {
        *self <= *other
    }

    proof fn leq_total(a: &u64, b: &u64) {
    }

    proof fn leq_transitive(a: &u64, b: &u64, c: &u64) {
    }

    fn compare(&self, other: &u64) -> (c: Comparison) {
        if *self < *other {
            Comparison::Less
        } else if *self > *other {
            Comparison::Greater
        } else {
            Comparison::Equal
        }
    }
}

impl TotalOrder for u128 {
    open spec fn leq(&self, other: &u128) -> bool {
        *self <= *other
    }

    proof fn leq_total(a: &u128, b: &u128) {
    }

    proof fn leq_transitive(a: &u128, b: &u128, c: &u128) {
    }

    fn compare(&self, other: &u128) -> (c: Comparison) {
        if *self < *other {
            Comparison::Less
        } else if *self > *other {
            Comparison::Greater
        } else {
            Comparison::Equal
        }
    }
}

impl TotalOrder for usize {
    open spec fn leq(&self, other: &usize) -> bool {
        *self <= *other
    }

    proof fn leq_total(a: &usize, b: &usize) {
    }

    proof fn leq_transitive(a: &usize, b: &usize, c: &usize) {
    }

    fn compare(&self, other: &usize) -> (c: Comparison) {
        if *self < *other {
            Comparison::Less
        } else if *self > *other {
            Comparison::Greater
        } else {
            Comparison::Equal
        }
    }
}

impl TotalOrder for i8 {
    open spec fn leq(&self, other: &i8) -> bool {
        *self <= *other
    }

    proof fn leq_total(a: &i8, b: &i8) {
    }

    proof fn leq_transitive(a: &i8, b: &i8, c: &i8) {
    }

    fn compare(&self, other: &i8) -> (c: Comparison) {
        if *self < *other {
            Comparison::Less
        } else if *self > *other {
            Comparison::Greater
        } else {
            Comparison::Equal
        }
    }
}

impl TotalOrder for i16 {
    open spec fn leq(&self, other: &i16) -> bool {
        *self <= *other
    }

    proof fn leq_total(a: &i16, b: &i16) {
    }

    proof fn leq_transitive(a: &i16, b: &i16, c: &i16) {
    }

    fn compare(&self, other: &i16) -> (c: Comparison) {
        if *self < *other {
            Comparison::Less
        } else if *self > *other {
            Comparison::Greater
        } else {
            Comparison::Equal
        }
    }
}

impl TotalOrder for i32 {
    open spec fn leq(&self, other: &i32) -> bool {
        *self <= *other
    }

    proof fn leq_total(a: &i32, b: &i32) {
    }

    proof fn leq_transitive(a: &i32, b: &i32, c: &i32) {
    }

    fn compare(&self, other: &i32) -> (c: Comparison) {
        if *self < *other {
            Comparison::Less
        } else if *self > *other {
            Comparison::Greater
        } else {
            Comparison::Equal
        }
    }
}

impl TotalOrder for i64 {
    open spec fn leq(&self, other: &i64) -> bool {
        *self <= *other
    }

    proof fn leq_total(a: &i64, b: &i64) {
    }

    proof fn leq_transitive(a: &i64, b: &i64, c: &i64) {
    }

    fn compare(&self, other: &i64) -> (c: Comparison) {
        if *self < *other {
            Comparison::Less
        } else if *self > *other {
            Comparison::Greater
        } else {
            Comparison::Equal
        }
    }
}

impl TotalOrder for i128 {
    open spec fn leq(&self, other: &i128) -> bool {
        *self <= *other
    }

    proof fn leq_total(a: &i128, b: &i128) {
    }

    proof fn leq_transitive(a: &i128, b: &i128, c: &i128) {
    }

    fn compare(&self, other: &i128) -> (c: Comparison) {
        if *self < *other {
            Comparison::Less
        } else if *self > *other {
            Comparison::Greater
        } else {
            Comparison::Equal
        }
    }
}

impl TotalOrder for isize {
    open spec fn leq(&self, other: &isize) -> bool {
        *self <= *other
    }

    proof fn leq_total(a: &isize, b: &isize) {
    }

    proof fn leq_transitive(a: &isize, b: &isize, c: &isize) {
    }

    fn compare(&self, other: &isize) -> (c: Comparison) {
        if *self < *other {
            Comparison::Less
        } else if *self > *other {
            Comparison::Greater
        } else {
            Comparison::Equal
        }
    }
}

/// `false` sorts before `true`.
impl TotalOrder for bool {
    open spec fn leq(&self, other: &bool) -> bool {
        !*self || *other
    }

    proof fn leq_total(a: &bool, b: &bool) {
    }

    proof fn leq_transitive(a: &bool, b: &bool, c: &bool) {
    }

    fn compare(&self, other: &bool) -> (c: Comparison) {
        if *self == *other {
            Comparison::Equal
        } else if *other {
            Comparison::Less
        } else {
            Comparison::Greater
        }
    }
}

/// Characters are ordered by their code points.
impl TotalOrder for char {
    open spec fn leq(&self, other: &char) -> bool {
        *self as u32 <= *other as u32
    }

    proof fn leq_total(a: &char, b: &char) {
    }

    proof fn leq_transitive(a: &char, b: &char, c: &char) {
    }

    fn compare(&self, other: &char) -> (c: Comparison) {
        let a: u32 = *self as u32;
        let b: u32 = *other as u32;
        if a < b {
            Comparison::Less
        } else if a > b {
            Comparison::Greater
        } else {
            Comparison::Equal
        }
    }
}

/// The unit type has one value, equivalent to itself.
impl TotalOrder for () {
    open spec fn leq(&self, other: &()) -> bool {
        true
    }

    proof fn leq_total(a: &(), b: &()) {
    }

    proof fn leq_transitive(a: &(), b: &(), c: &()) {
    }

    fn compare(&self, other: &()) -> (c: Comparison) {
        Comparison::Equal
    }
}

} // verus!
