//! Strings are ordered by their bytes, and vectors by their elements,
//! lexicographically.

use vstd::prelude::*;
use vstd::utf8::encode_utf8;

use super::{Comparison, TotalOrder};
use crate::lexical::{
    lemma_lex_compare_mirror, lemma_lex_leq_total, lemma_lex_leq_transitive, lex_leq,
};
use crate::slice_ord::{ByteChunks, ElementWise, SliceOrd};

verus! {

impl TotalOrder for String {
    open spec fn leq(&self, other: &String) -> bool {
        lex_leq(encode_utf8(self@), encode_utf8(other@))
    }

    proof fn leq_total(a: &String, b: &String) {
        lemma_lex_leq_total(encode_utf8(a@), encode_utf8(b@));
    }

    proof fn leq_transitive(a: &String, b: &String, c: &String) {
        lemma_lex_leq_transitive(encode_utf8(a@), encode_utf8(b@), encode_utf8(c@));
    }

    fn compare(&self, other: &String) -> (c: Comparison) {
        proof {
            lemma_lex_compare_mirror(encode_utf8(self@), encode_utf8(other@));
        }
        ByteChunks::compare(self.as_str().as_bytes(), other.as_str().as_bytes()).1
    }
}

impl<E: TotalOrder> TotalOrder for Vec<E> {
    open spec fn leq(&self, other: &Vec<E>) -> bool {
        lex_leq(self@, other@)
    }

    proof fn leq_total(a: &Vec<E>, b: &Vec<E>) {
        lemma_lex_leq_total(a@, b@);
    }

    proof fn leq_transitive(a: &Vec<E>, b: &Vec<E>, c: &Vec<E>) {
        lemma_lex_leq_transitive(a@, b@, c@);
    }

    fn compare(&self, other: &Vec<E>) -> (c: Comparison) {
        proof {
            lemma_lex_compare_mirror(self@, other@);
        }
        ElementWise::compare(self.as_slice(), other.as_slice()).1
    }
}

} // verus!
