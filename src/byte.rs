//! Raw lexicographic comparison of byte strings.

use std::cmp::Ordering;
use vstd::prelude::*;

verus! {

/// Strict lexicographic order on byte strings; a proper prefix sorts first.
pub open spec fn lex_less(a: Seq<u8>, b: Seq<u8>) -> bool
    decreases a.len(),
{
    if a.len() == 0 {
        b.len() > 0
    } else if b.len() == 0 {
        false
    } else if a[0] != b[0] {
        a[0] < b[0]
    } else {
        lex_less(a.drop_first(), b.drop_first())
    }
}

/// Three-way lexicographic comparison.
pub open spec fn lex_cmp(a: Seq<u8>, b: Seq<u8>) -> Ordering {
    if lex_less(a, b) {
        Ordering::Less
    } else if a == b {
        Ordering::Equal
    } else {
        Ordering::Greater
    }
}

pub proof fn lemma_lex_irreflexive(a: Seq<u8>)
    ensures
        !lex_less(a, a),
    decreases a.len(),
{
    if a.len() > 0 {
        lemma_lex_irreflexive(a.drop_first());
    }
}

pub proof fn lemma_lex_transitive(a: Seq<u8>, b: Seq<u8>, c: Seq<u8>)
    requires
        lex_less(a, b),
        lex_less(b, c),
    ensures
        lex_less(a, c),
    decreases a.len(),
{
    if a.len() > 0 && b.len() > 0 && c.len() > 0 && a[0] == b[0] && b[0] == c[0] {
        lemma_lex_transitive(a.drop_first(), b.drop_first(), c.drop_first());
    }
}

pub proof fn lemma_lex_total(a: Seq<u8>, b: Seq<u8>)
    requires
        a != b,
    ensures
        lex_less(a, b) || lex_less(b, a),
    decreases a.len(),
{
    if a.len() > 0 && b.len() > 0 && a[0] == b[0] {
        if a.drop_first() == b.drop_first() {
            assert(a =~= seq![a[0]] + a.drop_first());
            assert(b =~= seq![b[0]] + b.drop_first());
        }
        lemma_lex_total(a.drop_first(), b.drop_first());
    } else if a.len() == 0 && b.len() == 0 {
        assert(a =~= b);
    }
}

pub proof fn lemma_lex_asymmetric(a: Seq<u8>, b: Seq<u8>)
    requires
        lex_less(a, b),
    ensures
        !lex_less(b, a),
{
    if lex_less(b, a) {
        lemma_lex_transitive(a, b, a);
        lemma_lex_irreflexive(a);
    }
}

/// Dropping a common prefix does not change the order.
proof fn lemma_lex_skip_common(a: Seq<u8>, b: Seq<u8>, i: int)
    requires
        0 <= i <= a.len(),
        i <= b.len(),
        a.subrange(0, i) == b.subrange(0, i),
    ensures
        lex_less(a, b) == lex_less(a.subrange(i, a.len() as int), b.subrange(i, b.len() as int)),
    decreases i,
{
    if i == 0 {
        assert(a.subrange(0, a.len() as int) =~= a);
        assert(b.subrange(0, b.len() as int) =~= b);
    } else {
        assert(a[0] == a.subrange(0, i)[0]);
        assert(b[0] == b.subrange(0, i)[0]);
        assert(a.drop_first().subrange(0, i - 1) =~= a.subrange(0, i).drop_first());
        assert(b.drop_first().subrange(0, i - 1) =~= b.subrange(0, i).drop_first());
        lemma_lex_skip_common(a.drop_first(), b.drop_first(), i - 1);
        assert(a.drop_first().subrange(i - 1, a.len() - 1) =~= a.subrange(i, a.len() as int));
        assert(b.drop_first().subrange(i - 1, b.len() - 1) =~= b.subrange(i, b.len() as int));
    }
}

/// Compares two byte strings lexicographically; the empty string sorts first.
pub fn compare(b1: &[u8], b2: &[u8]) -> (r: Ordering)
    ensures
        r == lex_cmp(b1@, b2@),
{
    let n: usize = if b1.len() < b2.len() { b1.len() } else { b2.len() };
    let mut i: usize = 0;
    while i < n
        invariant
            n <= b1@.len(),
            n <= b2@.len(),
            n == b1@.len() || n == b2@.len(),
            i <= n,
            b1@.subrange(0, i as int) == b2@.subrange(0, i as int),
        decreases n - i,
    {
        if b1[i] != b2[i] {
            proof {
                lemma_lex_skip_common(b1@, b2@, i as int);
                let s1 = b1@.subrange(i as int, b1@.len() as int);
                let s2 = b2@.subrange(i as int, b2@.len() as int);
                assert(s1[0] == b1@[i as int]);
                assert(s2[0] == b2@[i as int]);
                assert(b1@ != b2@);
            }
            if b1[i] < b2[i] {
                return Ordering::Less;
            } else {
                return Ordering::Greater;
            }
        }
        proof {
            assert(b1@.subrange(0, i + 1) =~= b1@.subrange(0, i as int).push(b1@[i as int]));
            assert(b2@.subrange(0, i + 1) =~= b2@.subrange(0, i as int).push(b2@[i as int]));
        }
        i = i + 1;
    }
    proof {
        lemma_lex_skip_common(b1@, b2@, n as int);
    }
    if b1.len() < b2.len() {
        Ordering::Less
    } else if b1.len() == b2.len() {
        proof {
            assert(b1@ =~= b1@.subrange(0, n as int));
            assert(b2@ =~= b2@.subrange(0, n as int));
        }
        Ordering::Equal
    } else {
        proof {
            assert(b1@.subrange(n as int, b1@.len() as int).len() > 0);
        }
        Ordering::Greater
    }
}

} // verus!
