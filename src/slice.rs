//! An owned, immutable run of bytes.

use crate::byte::{compare, lex_cmp};
use std::cmp::Ordering;
use vstd::prelude::*;

verus! {

/// A run of bytes, compared lexicographically.
#[derive(Debug)]
pub struct Slice {
    data: Vec<u8>,
}

impl View for Slice {
    type V = Seq<u8>;

    closed spec fn view(&self) -> Seq<u8> {
        self.data@
    }
}

impl Slice {
    /// Copies `data` into a new slice.
    pub fn new(data: &[u8]) -> (r: Slice)
        ensures
            r@ == data@,
    {
        let mut v: Vec<u8> = Vec::with_capacity(data.len());
        let mut i: usize = 0;
        while i < data.len()
            invariant
                i <= data@.len(),
                v@ == data@.subrange(0, i as int),
            decreases data@.len() - i,
        {
            v.push(data[i]);
            i = i + 1;
            proof {
                assert(v@ =~= data@.subrange(0, i as int));
            }
        }
        proof {
            assert(v@ =~= data@);
        }
        Slice { data: v }
    }

    pub fn new_empty() -> (r: Slice)
        ensures
            r@ == Seq::<u8>::empty(),
    {
        Slice { data: Vec::new() }
    }

    /// Takes ownership of the bytes of `v`.
    pub fn from_vec(v: Vec<u8>) -> (r: Slice)
        ensures
            r@ == v@,
    {
        Slice { data: v }
    }

    pub fn to_slice(&self) -> (r: &[u8])
        ensures
            r@ == self@,
    {
        self.data.as_slice()
    }

    pub fn size(&self) -> (r: usize)
        ensures
            r == self@.len(),
    {
        self.data.len()
    }

    /// Lexicographic three-way comparison of the two byte runs.
    pub fn compare(&self, other: &Slice) -> (r: Ordering)
        ensures
            r == lex_cmp(self@, other@),
    {
        compare(self.data.as_slice(), other.data.as_slice())
    }

    pub fn clear(&mut self)
        ensures
            final(self)@ == Seq::<u8>::empty(),
    {
        self.data = Vec::new();
    }
}

impl PartialEq for Slice {
    fn eq(&self, other: &Slice) -> (r: bool) {
        proof {
            crate::byte::lemma_lex_irreflexive(self@);
        }
        match self.compare(other) {
            Ordering::Equal => true,
            _ => false,
        }
    }
}

impl vstd::std_specs::cmp::PartialEqSpecImpl for Slice {
    open spec fn obeys_eq_spec() -> bool {
        true
    }

    open spec fn eq_spec(&self, other: &Slice) -> bool {
        self@ == other@
    }
}

impl From<Vec<u8>> for Slice {
    fn from(v: Vec<u8>) -> (r: Slice) {
        Slice { data: v }
    }
}

impl vstd::std_specs::convert::FromSpecImpl<Vec<u8>> for Slice {
    open spec fn obeys_from_spec() -> bool {
        true
    }

    closed spec fn from_spec(v: Vec<u8>) -> Slice {
        Slice { data: v }
    }
}

} // verus!
