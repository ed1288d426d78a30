//! The ordering capability that the skiplist consumes.

use crate::byte::{lemma_lex_irreflexive, lemma_lex_total, lemma_lex_transitive, lex_cmp, lex_less};
use crate::slice::Slice;
use std::cmp::Ordering;
use vstd::prelude::*;

verus! {

/// A total order over byte keys, with a stable name that identifies the order
/// (so a store reopened under another order can be detected).
pub trait Comparator {
    /// The strict order that `compare` decides.
    spec fn less(&self, a: Seq<u8>, b: Seq<u8>) -> bool;

    proof fn lemma_irreflexive(&self, a: Seq<u8>)
        ensures
            !self.less(a, a),
    ;

    proof fn lemma_transitive(&self, a: Seq<u8>, b: Seq<u8>, c: Seq<u8>)
        requires
            self.less(a, b),
            self.less(b, c),
        ensures
            self.less(a, c),
    ;

    proof fn lemma_total(&self, a: Seq<u8>, b: Seq<u8>)
        requires
            a != b,
        ensures
            self.less(a, b) || self.less(b, a),
    ;

    /// Three-way comparison: `Less` iff `a < b`, `Equal` iff the bytes are
    /// the same, `Greater` iff `b < a`.
    fn compare(&self, a: &Slice, b: &Slice) -> (r: Ordering)
        ensures
            (r == Ordering::Less) == self.less(a@, b@),
            (r == Ordering::Equal) == (a@ == b@),
            (r == Ordering::Greater) == self.less(b@, a@),
    ;

    /// The name of the ordering scheme.
    fn name(&self) -> &str;
}

/// Orders keys by their raw bytes, lexicographically.
pub struct BytewiseComparator {}

impl BytewiseComparator {
    pub fn new() -> (r: BytewiseComparator) {
        BytewiseComparator {  }
    }
}

impl Comparator for BytewiseComparator {
    open spec fn less(&self, a: Seq<u8>, b: Seq<u8>) -> bool {
        lex_less(a, b)
    }

    proof fn lemma_irreflexive(&self, a: Seq<u8>) {
        lemma_lex_irreflexive(a);
    }

    proof fn lemma_transitive(&self, a: Seq<u8>, b: Seq<u8>, c: Seq<u8>) {
        lemma_lex_transitive(a, b, c);
    }

    proof fn lemma_total(&self, a: Seq<u8>, b: Seq<u8>) {
        lemma_lex_total(a, b);
    }

    fn compare(&self, a: &Slice, b: &Slice) -> (r: Ordering) {
        let r = a.compare(b);
        proof {
            lemma_lex_irreflexive(a@);
            if lex_less(a@, b@) {
                crate::byte::lemma_lex_asymmetric(a@, b@);
            }
            if a@ != b@ {
                lemma_lex_total(a@, b@);
            }
            assert(r == lex_cmp(a@, b@));
        }
        r
    }

    fn name(&self) -> &str {
        "tinydb.BytewiseComparator"
    }
}

} // verus!
