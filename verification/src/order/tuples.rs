//! Tuples are ordered by their first component, then by the next. An
//! `Option` is ordered with `None` before every `Some`.

use vstd::prelude::*;

use super::{Comparison, TotalOrder};

verus! {

impl<A: TotalOrder, B: TotalOrder> TotalOrder for (A, B) {
    open spec fn leq(&self, other: &(A, B)) -> bool {
        self.0.leq(&other.0) && (other.0.leq(&self.0) ==> self.1.leq(&other.1))
    }

    proof fn leq_total(a: &(A, B), b: &(A, B)) {
        A::leq_total(&a.0, &b.0);
        B::leq_total(&a.1, &b.1);
    }

    proof fn leq_transitive(a: &(A, B), b: &(A, B), c: &(A, B)) {
        A::leq_transitive(&a.0, &b.0, &c.0);
        if c.0.leq(&a.0) {
            A::leq_transitive(&c.0, &a.0, &b.0);
            A::leq_transitive(&b.0, &c.0, &a.0);
            B::leq_transitive(&a.1, &b.1, &c.1);
        }
    }

    fn compare(&self, other: &(A, B)) -> (c: Comparison) {
        match self.0.compare(&other.0) {
            Comparison::Less => Comparison::Less,
            Comparison::Greater => Comparison::Greater,
            Comparison::Equal => self.1.compare(&other.1),
        }
    }
}

impl<A: TotalOrder, B: TotalOrder, C: TotalOrder> TotalOrder for (A, B, C) {
    open spec fn leq(&self, other: &(A, B, C)) -> bool {
        (self.0, (self.1, self.2)).leq(&(other.0, (other.1, other.2)))
    }

    proof fn leq_total(a: &(A, B, C), b: &(A, B, C)) {
        <(A, (B, C))>::leq_total(&(a.0, (a.1, a.2)), &(b.0, (b.1, b.2)));
    }

    proof fn leq_transitive(a: &(A, B, C), b: &(A, B, C), c: &(A, B, C)) {
        <(A, (B, C))>::leq_transitive(&(a.0, (a.1, a.2)), &(b.0, (b.1, b.2)), &(c.0, (c.1, c.2)));
    }

    fn compare(&self, other: &(A, B, C)) -> (c: Comparison) {
        match self.0.compare(&other.0) {
            Comparison::Less => Comparison::Less,
            Comparison::Greater => Comparison::Greater,
            Comparison::Equal => match self.1.compare(&other.1) {
                Comparison::Less => Comparison::Less,
                Comparison::Greater => Comparison::Greater,
                Comparison::Equal => self.2.compare(&other.2),
            },
        }
    }
}

impl<K: TotalOrder> TotalOrder for Option<K> {
    open spec fn leq(&self, other: &Option<K>) -> bool {
        match (*self, *other) {
            (None, _) => true,
            (Some(_), None) => false,
            (Some(a), Some(b)) => a.leq(&b),
        }
    }

    proof fn leq_total(a: &Option<K>, b: &Option<K>) {
        if let (Some(x), Some(y)) = (*a, *b) {
            K::leq_total(&x, &y);
        }
    }

    proof fn leq_transitive(a: &Option<K>, b: &Option<K>, c: &Option<K>) {
        if let (Some(x), Some(y), Some(z)) = (*a, *b, *c) {
            K::leq_transitive(&x, &y, &z);
        }
    }

    fn compare(&self, other: &Option<K>) -> (c: Comparison) {
        match (self, other) {
            (None, None) => Comparison::Equal,
            (None, Some(_)) => Comparison::Less,
            (Some(_), None) => Comparison::Greater,
            (Some(a), Some(b)) => a.compare(b),
        }
    }
}

} // verus!
