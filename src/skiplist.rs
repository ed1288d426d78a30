//! An insert-only skiplist whose nodes live in an `AggressiveArena`.

use crate::arena::{node_size, AggressiveArena, LINK_SIZE, MAX_NODE_SIZE, NODE_HEADER_SIZE};
use std::cmp::Ordering;
use crate::comparator::Comparator;
use crate::error::TinyError;
use crate::slice::Slice;
use vstd::prelude::*;

verus! {

/// Tallest a node can be, and the height of the head sentinel.
pub const MAX_HEIGHT: usize = 12;

/// One in `BRANCHING` nodes of a level also appears on the level above.
pub const BRANCHING: u32 = 4;

/// One key/value pair: where its bytes lie in the arena, and its successor
/// on each level it belongs to (level `l` is slot `l - 1`; `None` ends the
/// level).
#[derive(Debug)]
pub struct Node {
    pub key_offset: usize,
    pub key_size: usize,
    pub value_offset: usize,
    pub value_size: usize,
    pub height: usize,
    pub next_nodes: Vec<Option<usize>>,
}

impl Node {
    pub open spec fn wf(&self) -> bool {
        &&& 1 <= self.height <= MAX_HEIGHT
        &&& self.next_nodes@.len() == self.height
    }

    /// Well formed, with both payloads inside the first `used` arena bytes.
    pub open spec fn wf_in(&self, used: nat) -> bool {
        &&& self.wf()
        &&& self.key_offset + self.key_size <= used
        &&& self.value_offset + self.value_size <= used
    }

    /// Same payload descriptors and height as `other`.
    pub open spec fn same_payload(&self, other: Node) -> bool {
        &&& self.key_offset == other.key_offset
        &&& self.key_size == other.key_size
        &&& self.value_offset == other.value_offset
        &&& self.value_size == other.value_size
        &&& self.height == other.height
    }

    /// The key bytes of this node in `arena`.
    pub open spec fn key_in(&self, arena: AggressiveArena) -> Seq<u8> {
        arena.bytes().subrange(self.key_offset as int, self.key_offset + self.key_size)
    }

    /// The value bytes of this node in `arena`.
    pub open spec fn value_in(&self, arena: AggressiveArena) -> Seq<u8> {
        arena.bytes().subrange(self.value_offset as int, self.value_offset + self.value_size)
    }

    /// Allocates a node of the given height in `arena` and copies the key
    /// and the value after it. Nothing is allocated unless all of it fits.
    pub fn new(key: &Slice, value: &Slice, height: usize, arena: &mut AggressiveArena) -> (r: Result<
        usize,
        TinyError,
    >)
        requires
            old(arena).wf(),
            1 <= height <= MAX_HEIGHT,
        ensures
            final(arena).wf(),
            final(arena).capacity() == old(arena).capacity(),
            old(arena).room_for(node_size(height as int) + key@.len() + value@.len()) ==> {
                &&& r == Ok::<usize, TinyError>(old(arena).nodes().len() as usize)
                &&& final(arena).used() == old(arena).used() + node_size(height as int)
                    + key@.len() + value@.len()
                &&& final(arena).bytes().subrange(0, old(arena).used() as int) == old(arena).bytes()
                &&& final(arena).nodes().len() == old(arena).nodes().len() + 1
                &&& final(arena).nodes().drop_last() == old(arena).nodes()
                &&& final(arena).nodes().last().height == height
                &&& final(arena).nodes().last().key_in(*final(arena)) == key@
                &&& final(arena).nodes().last().value_in(*final(arena)) == value@
            },
            !old(arena).room_for(node_size(height as int) + key@.len() + value@.len()) ==> {
                &&& r == Err::<usize, TinyError>(TinyError::OutOfSpace)
                &&& *final(arena) == *old(arena)
            },
    {
        let room = arena.size() - arena.memory_used();
        let need_node: usize = NODE_HEADER_SIZE + height * LINK_SIZE;
        if room < need_node || room - need_node < key.size() || room - need_node - key.size()
            < value.size() {
            return Err(TinyError::OutOfSpace);
        }
        let ghost a0 = *arena;
        let n = match arena.alloc_node(height) {
            Ok(n) => n,
            Err(e) => { return Err(e); },
        };
        let ghost a1 = *arena;
        let key_offset = match arena.alloc_bytes(key) {
            Ok(o) => o,
            Err(e) => { return Err(e); },
        };
        let ghost a2 = *arena;
        let value_offset = match arena.alloc_bytes(value) {
            Ok(o) => o,
            Err(e) => { return Err(e); },
        };
        let ghost a3 = *arena;
        arena.set_payload(n, key_offset, key.size(), value_offset, value.size());
        proof {
            assert(arena.bytes() == a3.bytes());
            assert(a3.bytes() == a1.bytes() + key@ + value@);
            assert(arena.bytes().subrange(key_offset as int, key_offset + key@.len()) =~= key@);
            assert(arena.bytes().subrange(value_offset as int, value_offset + value@.len())
                =~= value@);
            assert(arena.bytes().subrange(0, a0.used() as int) =~= a0.bytes());
            assert(a2.nodes() == a1.nodes());
            assert(a3.nodes() == a1.nodes());
            assert(n == a0.nodes().len());
            assert forall|j: int| 0 <= j < a0.nodes().len() implies arena.nodes()[j] == a0.nodes()[j] by {
                assert(a1.nodes().drop_last()[j] == a1.nodes()[j]);
            }
            assert(arena.nodes().drop_last() =~= a0.nodes());
        }
        Ok(n)
    }

    /// Successor at `height` (1 is the bottom level).
    pub fn get_next(&self, height: usize) -> (r: Option<usize>)
        requires
            self.wf(),
            1 <= height <= self.height,
        ensures
            r == self.next_nodes@[height - 1],
    {
        self.next_nodes[height - 1]
    }

    /// Sets the successor at `height` (1 is the bottom level).
    pub fn set_next(&mut self, height: usize, node: Option<usize>)
        requires
            old(self).wf(),
            1 <= height <= old(self).height,
        ensures
            final(self).wf(),
            final(self).same_payload(*old(self)),
            final(self).next_nodes@ == old(self).next_nodes@.update(height - 1, node),
    {
        self.next_nodes.set(height - 1, node);
    }

    /// The key bytes, read from `arena`.
    pub fn key(&self, arena: &AggressiveArena) -> (r: Slice)
        requires
            arena.wf(),
            self.key_offset + self.key_size <= arena.used(),
        ensures
            r@ == self.key_in(*arena),
    {
        match arena.get(self.key_offset, self.key_size) {
            Ok(s) => s,
            Err(_) => Slice::new_empty(),
        }
    }

    /// The value bytes, read from `arena`.
    pub fn value(&self, arena: &AggressiveArena) -> (r: Slice)
        requires
            arena.wf(),
            self.value_offset + self.value_size <= arena.used(),
        ensures
            r@ == self.value_in(*arena),
    {
        match arena.get(self.value_offset, self.value_size) {
            Ok(s) => s,
            Err(_) => Slice::new_empty(),
        }
    }
}


/// First position at or after `j` whose height reaches level `l`, or
/// `hs.len()` when there is none.
pub open spec fn succ_index(hs: Seq<int>, j: int, l: int) -> int
    decreases hs.len() - j,
{
    if j >= hs.len() {
        hs.len() as int
    } else if hs[j] >= l {
        j
    } else {
        succ_index(hs, j + 1, l)
    }
}

/// Last position before `j` whose height reaches level `l`, or -1 when
/// there is none.
pub open spec fn pred_index(hs: Seq<int>, j: int, l: int) -> int
    decreases j,
{
    if j <= 0 {
        -1
    } else if hs[j - 1] >= l {
        j - 1
    } else {
        pred_index(hs, j - 1, l)
    }
}

/// The node at `succ_index`, if any.
pub open spec fn succ_node(ord: Seq<usize>, hs: Seq<int>, j: int, l: int) -> Option<usize> {
    let k = succ_index(hs, j, l);
    if 0 <= k < ord.len() {
        Some(ord[k])
    } else {
        None
    }
}

/// Heights of the nodes listed in `ord`.
pub open spec fn heights_of(nodes: Seq<Node>, ord: Seq<usize>) -> Seq<int> {
    Seq::new(ord.len(), |i: int| nodes[ord[i] as int].height as int)
}

/// Level `l` is the chain, starting at `head`, of the nodes of `ord` that
/// are at least `l` tall, in the order of `ord`.
pub open spec fn level_linked(nodes: Seq<Node>, head: usize, ord: Seq<usize>, l: int) -> bool {
    let hs = heights_of(nodes, ord);
    &&& nodes[head as int].next_nodes@[l - 1] == succ_node(ord, hs, 0, l)
    &&& forall|i: int|
        0 <= i < ord.len() && l <= nodes[ord[i] as int].height ==> #[trigger] nodes[ord[i] as int].next_nodes@[l - 1]
            == succ_node(ord, hs, i + 1, l)
}

proof fn lemma_succ_index(hs: Seq<int>, j: int, l: int)
    requires
        0 <= j <= hs.len(),
    ensures
        j <= succ_index(hs, j, l) <= hs.len(),
        succ_index(hs, j, l) < hs.len() ==> hs[succ_index(hs, j, l)] >= l,
        forall|m: int| j <= m < succ_index(hs, j, l) ==> hs[m] < l,
    decreases hs.len() - j,
{
    if j < hs.len() && hs[j] < l {
        lemma_succ_index(hs, j + 1, l);
    }
}

proof fn lemma_succ_index_unique(hs: Seq<int>, j: int, l: int, k: int)
    requires
        0 <= j <= k <= hs.len(),
        k < hs.len() ==> hs[k] >= l,
        forall|m: int| j <= m < k ==> hs[m] < l,
    ensures
        succ_index(hs, j, l) == k,
    decreases k - j,
{
    if j < k {
        lemma_succ_index_unique(hs, j + 1, l, k);
    }
}

proof fn lemma_pred_index_unique(hs: Seq<int>, j: int, l: int, p: int)
    requires
        -1 <= p < j <= hs.len(),
        p >= 0 ==> hs[p] >= l,
        forall|m: int| p < m < j ==> hs[m] < l,
    ensures
        pred_index(hs, j, l) == p,
    decreases j,
{
    if j - 1 > p {
        lemma_pred_index_unique(hs, j - 1, l, p);
    }
}

proof fn lemma_pred_index(hs: Seq<int>, j: int, l: int)
    requires
        0 <= j <= hs.len(),
    ensures
        -1 <= pred_index(hs, j, l) < j,
        pred_index(hs, j, l) >= 0 ==> hs[pred_index(hs, j, l)] >= l,
        forall|m: int| pred_index(hs, j, l) < m < j ==> hs[m] < l,
    decreases j,
{
    if j > 0 && hs[j - 1] < l {
        lemma_pred_index(hs, j - 1, l);
    }
}

proof fn lemma_succ_insert(hs1: Seq<int>, idx: int, h: int, j: int, l: int)
    requires
        0 <= idx <= hs1.len(),
        0 <= j <= hs1.len(),
    ensures
        j <= idx && succ_index(hs1, j, l) < idx ==> succ_index(hs1.insert(idx, h), j, l)
            == succ_index(hs1, j, l),
        j <= idx && succ_index(hs1, j, l) >= idx && h >= l ==> succ_index(hs1.insert(idx, h), j, l)
            == idx,
        j <= idx && succ_index(hs1, j, l) >= idx && h < l ==> succ_index(hs1.insert(idx, h), j, l)
            == succ_index(hs1, j, l) + 1,
        j >= idx ==> succ_index(hs1.insert(idx, h), j + 1, l) == succ_index(hs1, j, l) + 1,
{
    let hs2 = hs1.insert(idx, h);
    lemma_succ_index(hs1, j, l);
    let s1 = succ_index(hs1, j, l);
    if j <= idx {
        if s1 < idx {
            lemma_succ_index_unique(hs2, j, l, s1);
        } else if h >= l {
            lemma_succ_index_unique(hs2, j, l, idx);
        } else {
            assert forall|m: int| j <= m < s1 + 1 implies hs2[m] < l by {
                if m > idx {
                    assert(hs2[m] == hs1[m - 1]);
                }
            }
            lemma_succ_index_unique(hs2, j, l, s1 + 1);
        }
    }
    if j >= idx {
        assert forall|m: int| j + 1 <= m < s1 + 1 implies hs2[m] < l by {
            assert(hs2[m] == hs1[m - 1]);
        }
        lemma_succ_index_unique(hs2, j + 1, l, s1 + 1);
    }
}

/// Changing links on other levels, or on nodes that `ord` does not hold,
/// keeps level `l` linked.
proof fn lemma_level_linked_frame(n1: Seq<Node>, n2: Seq<Node>, head: usize, ord: Seq<usize>, l: int)
    requires
        level_linked(n1, head, ord, l),
        head < n1.len(),
        n1.len() <= n2.len(),
        forall|k: int| 0 <= k < ord.len() ==> #[trigger] ord[k] < n1.len(),
        forall|k: int| 0 <= k < n1.len() ==> #[trigger] n2[k].height == n1[k].height,
        n2[head as int].next_nodes@[l - 1] == n1[head as int].next_nodes@[l - 1],
        forall|k: int|
            0 <= k < ord.len() && l <= n1[ord[k] as int].height ==> #[trigger] n2[ord[k] as int].next_nodes@[l
                - 1] == n1[ord[k] as int].next_nodes@[l - 1],
    ensures
        level_linked(n2, head, ord, l),
{
    assert(heights_of(n1, ord) =~= heights_of(n2, ord));
    assert forall|i: int|
        0 <= i < ord.len() && l <= n2[ord[i] as int].height implies #[trigger] n2[ord[i] as int].next_nodes@[l
            - 1] == succ_node(ord, heights_of(n2, ord), i + 1, l) by {
        assert(ord[i] < n1.len());
        assert(n1[ord[i] as int].next_nodes@[l - 1] == succ_node(ord, heights_of(n1, ord), i + 1, l));
    }
}

/// A node shorter than `l`, added to the order, leaves level `l` linked.
proof fn lemma_level_linked_extend(
    n: Seq<Node>,
    head: usize,
    ord1: Seq<usize>,
    idx: int,
    node: usize,
    l: int,
)
    requires
        level_linked(n, head, ord1, l),
        0 <= idx <= ord1.len(),
        node < n.len(),
        n[node as int].height < l,
        forall|k: int| 0 <= k < ord1.len() ==> #[trigger] ord1[k] < n.len(),
    ensures
        level_linked(n, head, ord1.insert(idx, node), l),
{
    let ord2 = ord1.insert(idx, node);
    let hs1 = heights_of(n, ord1);
    let h = n[node as int].height as int;
    let hs2 = heights_of(n, ord2);
    assert(hs2 =~= hs1.insert(idx, h));
    lemma_succ_insert(hs1, idx, h, 0, l);
    lemma_succ_index(hs1, 0, l);
    assert forall|i2: int|
        0 <= i2 < ord2.len() && l <= n[ord2[i2] as int].height implies #[trigger] n[ord2[i2] as int].next_nodes@[l
            - 1] == succ_node(ord2, hs2, i2 + 1, l) by {
        if i2 < idx {
            assert(ord2[i2] == ord1[i2]);
            lemma_succ_insert(hs1, idx, h, i2 + 1, l);
            lemma_succ_index(hs1, i2 + 1, l);
        } else {
            assert(i2 != idx);
            assert(ord2[i2] == ord1[i2 - 1]);
            lemma_succ_insert(hs1, idx, h, i2, l);
            lemma_succ_index(hs1, i2, l);
        }
    }
}

/// Splicing `node` in at position `idx` on level `l`, after the level's
/// predecessor of that position, links level `l` over the new order.
proof fn lemma_splice_level(
    n0: Seq<Node>,
    n1: Seq<Node>,
    head: usize,
    ord1: Seq<usize>,
    idx: int,
    node: usize,
    l: int,
)
    requires
        level_linked(n0, head, ord1, l),
        0 <= idx <= ord1.len(),
        head < n0.len(),
        node < n0.len(),
        node != head,
        1 <= l <= n0[node as int].height,
        l <= n0[head as int].height,
        forall|k: int|
            0 <= k < ord1.len() ==> #[trigger] ord1[k] < n0.len() && ord1[k] != head && ord1[k] != node,
        forall|a: int, b: int| 0 <= a < b < ord1.len() ==> #[trigger] ord1[a] != #[trigger] ord1[b],
        n1.len() == n0.len(),
        forall|k: int| 0 <= k < n0.len() ==> #[trigger] n1[k].height == n0[k].height,
        ({
            let pp = pred_index(heights_of(n0, ord1), idx, l);
            let p = if pp < 0 {
                head
            } else {
                ord1[pp]
            };
            &&& forall|k: int|
                0 <= k < n0.len() && k != node && k != p ==> #[trigger] n1[k] == n0[k]
            &&& n1[node as int].next_nodes@[l - 1] == n0[p as int].next_nodes@[l - 1]
            &&& n1[p as int].next_nodes@[l - 1] == Some(node)
        }),
    ensures
        level_linked(n1, head, ord1.insert(idx, node), l),
{
    let ord2 = ord1.insert(idx, node);
    let hs1 = heights_of(n0, ord1);
    let h = n0[node as int].height as int;
    let hs2 = heights_of(n1, ord2);
    assert(hs2 =~= hs1.insert(idx, h));
    let pp = pred_index(hs1, idx, l);
    let p = if pp < 0 {
        head
    } else {
        ord1[pp]
    };
    lemma_pred_index(hs1, idx, l);
    lemma_succ_index(hs1, pp + 1, l);
    let s = succ_index(hs1, pp + 1, l);
    assert(s >= idx);
    lemma_succ_index_unique(hs1, idx, l, s);
    lemma_succ_insert(hs1, idx, h, pp + 1, l);
    lemma_succ_insert(hs1, idx, h, idx, l);
    if pp >= 0 {
        assert(ord1[pp] < n0.len());
        assert(n0[ord1[pp] as int].next_nodes@[l - 1] == succ_node(ord1, hs1, pp + 1, l));
    }
    assert(n0[p as int].next_nodes@[l - 1] == succ_node(ord1, hs1, pp + 1, l));
    // the head
    if pp >= 0 {
        lemma_succ_index(hs1, 0, l);
        lemma_succ_insert(hs1, idx, h, 0, l);
        assert(n1[head as int] == n0[head as int]);
    }
    assert forall|i2: int|
        0 <= i2 < ord2.len() && l <= n1[ord2[i2] as int].height implies #[trigger] n1[ord2[i2] as int].next_nodes@[l
            - 1] == succ_node(ord2, hs2, i2 + 1, l) by {
        if i2 < idx {
            assert(ord2[i2] == ord1[i2]);
            assert(ord1[i2] < n0.len());
            if i2 == pp {
            } else if i2 < pp {
                assert(ord1[i2] != ord1[pp]);
                assert(n1[ord1[i2] as int] == n0[ord1[i2] as int]);
                assert(n0[ord1[i2] as int].next_nodes@[l - 1] == succ_node(ord1, hs1, i2 + 1, l));
                lemma_succ_index(hs1, i2 + 1, l);
                lemma_succ_insert(hs1, idx, h, i2 + 1, l);
            } else {
                assert(hs1[i2] < l);
            }
        } else if i2 == idx {
        } else {
            assert(ord2[i2] == ord1[i2 - 1]);
            assert(ord1[i2 - 1] < n0.len());
            if pp >= 0 {
                assert(ord1[i2 - 1] != ord1[pp]);
            }
            assert(n1[ord1[i2 - 1] as int] == n0[ord1[i2 - 1] as int]);
            assert(n0[ord1[i2 - 1] as int].next_nodes@[l - 1] == succ_node(ord1, hs1, i2, l));
            lemma_succ_index(hs1, i2, l);
            lemma_succ_insert(hs1, idx, h, i2, l);
        }
    }
}

/// Height given by a run of samples: one, plus one for each leading sample
/// divisible by `BRANCHING` (from position `i` on).
pub open spec fn sampled_height_from(samples: Seq<u32>, i: int) -> int
    decreases samples.len() - i,
{
    if i < 0 || i >= samples.len() || samples[i] % BRANCHING != 0 {
        1
    } else {
        1 + sampled_height_from(samples, i + 1)
    }
}

/// The height that a sequence of samples yields, capped at `MAX_HEIGHT`.
pub open spec fn sampled_height(samples: Seq<u32>) -> int {
    let h = sampled_height_from(samples, 0);
    if h < MAX_HEIGHT {
        h
    } else {
        MAX_HEIGHT as int
    }
}

proof fn lemma_sampled_height_from_pos(samples: Seq<u32>, i: int)
    ensures
        sampled_height_from(samples, i) >= 1,
    decreases samples.len() - i,
{
    if 0 <= i < samples.len() && samples[i] % BRANCHING == 0 {
        lemma_sampled_height_from_pos(samples, i + 1);
    }
}

/// Turns uniform samples into a node height: start at 1 and grow by one
/// while the next sample is divisible by `BRANCHING`, up to `MAX_HEIGHT`.
pub fn height_from_samples(samples: &[u32]) -> (r: usize)
    ensures
        r == sampled_height(samples@),
        1 <= r <= MAX_HEIGHT,
{
    let mut height: usize = 1;
    let mut i: usize = 0;
    proof {
        lemma_sampled_height_from_pos(samples@, 0);
    }
    while i < samples.len() && height < MAX_HEIGHT && samples[i] % BRANCHING == 0
        invariant
            i <= samples@.len(),
            height == i + 1,
            height <= MAX_HEIGHT,
            sampled_height_from(samples@, 0) == i + sampled_height_from(samples@, i as int),
        decreases samples@.len() - i,
    {
        height = height + 1;
        i = i + 1;
    }
    proof {
        lemma_sampled_height_from_pos(samples@, i as int);
    }
    height
}

/// Relies on rand::random: a uniformly drawn `u32`; nothing is promised of
/// its value.
#[verifier::external_body]
fn random_u32() -> (r: u32) {
    rand::random::<u32>()
}

/// Draws a random node height: P(height >= k) is (1/BRANCHING)^(k-1),
/// capped at `MAX_HEIGHT`.
pub fn rand_height() -> (r: usize)
    ensures
        1 <= r <= MAX_HEIGHT,
{
    let mut samples: Vec<u32> = Vec::new();
    let mut i: usize = 1;
    while i < MAX_HEIGHT
        invariant
            1 <= i <= MAX_HEIGHT,
        decreases MAX_HEIGHT - i,
    {
        samples.push(random_u32());
        i = i + 1;
    }
    height_from_samples(samples.as_slice())
}

/// An ordered index over byte keys. Level 1 links every stored node in key
/// order; each higher level links a subsequence of the level below.
pub struct SkipList<C: Comparator> {
    max_height: usize,
    comparator: C,
    head: usize,
    arena: AggressiveArena,
    order: Ghost<Seq<usize>>,
}

impl<C: Comparator> SkipList<C> {
    /// The stored nodes, in level-1 order.
    pub closed spec fn order(&self) -> Seq<usize> {
        self.order@
    }

    pub closed spec fn head_spec(&self) -> usize {
        self.head
    }

    pub closed spec fn cmp(&self) -> C {
        self.comparator
    }

    pub closed spec fn arena_spec(&self) -> AggressiveArena {
        self.arena
    }

    pub closed spec fn max_height_spec(&self) -> nat {
        self.max_height as nat
    }

    /// The key stored in node `n`.
    pub open spec fn key_of(&self, n: usize) -> Seq<u8> {
        self.arena_spec().nodes()[n as int].key_in(self.arena_spec())
    }

    /// The value stored in node `n`.
    pub open spec fn value_of(&self, n: usize) -> Seq<u8> {
        self.arena_spec().nodes()[n as int].value_in(self.arena_spec())
    }

    /// Stored keys, in level-1 order.
    pub open spec fn keys(&self) -> Seq<Seq<u8>> {
        self.order().map_values(|n: usize| self.key_of(n))
    }

    /// Stored values, in the order of their keys.
    pub open spec fn values(&self) -> Seq<Seq<u8>> {
        self.order().map_values(|n: usize| self.value_of(n))
    }

    pub open spec fn heights(&self) -> Seq<int> {
        heights_of(self.arena_spec().nodes(), self.order())
    }

    /// Number of stored keys that are less than `t`.
    pub open spec fn lower_bound(&self, t: Seq<u8>) -> int {
        self.lower_bound_from(t, 0)
    }

    pub open spec fn lower_bound_from(&self, t: Seq<u8>, j: int) -> int
        decreases self.keys().len() - j,
    {
        if j >= self.keys().len() {
            self.keys().len() as int
        } else if !self.cmp().less(self.keys()[j], t) {
            j
        } else {
            self.lower_bound_from(t, j + 1)
        }
    }

    /// The node that precedes position `idx` on level `l`: the last stored
    /// node before it that is at least `l` tall, or the head.
    pub open spec fn pred_node(&self, idx: int, l: int) -> usize {
        let p = pred_index(self.heights(), idx, l);
        if p < 0 {
            self.head_spec()
        } else {
            self.order()[p]
        }
    }

    /// The node a search for `t` ends at: the first whose key is not less
    /// than `t`, or `None` past the end.
    pub open spec fn ceiling_node(&self, t: Seq<u8>) -> Option<usize> {
        let idx = self.lower_bound(t);
        if idx < self.order().len() {
            Some(self.order()[idx])
        } else {
            None
        }
    }

    pub closed spec fn wf(&self) -> bool {
        let nodes = self.arena.nodes();
        let ord = self.order@;
        &&& self.arena.wf()
        &&& self.head < nodes.len()
        &&& nodes[self.head as int].height == MAX_HEIGHT
        &&& 1 <= self.max_height <= MAX_HEIGHT
        &&& forall|i: int|
            0 <= i < ord.len() ==> {
                &&& #[trigger] ord[i] < nodes.len()
                &&& ord[i] != self.head
                &&& nodes[ord[i] as int].height <= self.max_height
            }
        &&& forall|i: int, j: int|
            0 <= i < j < ord.len() ==> self.comparator.less(
                #[trigger] self.keys()[i],
                #[trigger] self.keys()[j],
            )
        &&& forall|l: int| 1 <= l <= MAX_HEIGHT ==> #[trigger] level_linked(nodes, self.head, ord, l)
    }

    /// Creates an empty list whose arena holds `arena_cap` bytes; the head
    /// node is allocated at full height first, so the arena must fit it.
    pub fn new(arena_cap: usize, cmp: C) -> (r: Result<SkipList<C>, TinyError>)
        ensures
            arena_cap >= MAX_NODE_SIZE ==> (r matches Ok(s) && {
                &&& s.wf()
                &&& s.keys() == Seq::<Seq<u8>>::empty()
                &&& s.cmp() == cmp
                &&& s.max_height_spec() == 1
                &&& s.arena_spec().capacity() == arena_cap
                &&& s.arena_spec().used() == MAX_NODE_SIZE
            }),
            arena_cap < MAX_NODE_SIZE ==> (r matches Err(TinyError::OutOfSpace)),
    {
        let mut arena = AggressiveArena::new(arena_cap);
        let head = match arena.alloc_node(MAX_HEIGHT) {
            Ok(h) => h,
            Err(e) => { return Err(e); },
        };
        let s = SkipList { max_height: 1, comparator: cmp, head, arena, order: Ghost(Seq::empty()) };
        proof {
            assert(s.keys() =~= Seq::<Seq<u8>>::empty());
            assert forall|l: int| 1 <= l <= MAX_HEIGHT implies #[trigger] level_linked(
                s.arena.nodes(),
                s.head,
                s.order@,
                l,
            ) by {
                assert(s.arena.nodes()[s.head as int] == s.arena.nodes().last());
            }
        }
        Ok(s)
    }

    pub fn arena(&self) -> (r: &AggressiveArena)
        ensures
            *r == self.arena_spec(),
    {
        &self.arena
    }

    /// Handle of the head sentinel.
    pub fn head(&self) -> (r: usize)
        ensures
            r == self.head_spec(),
    {
        self.head
    }

    /// Tallest level in use.
    pub fn max_height(&self) -> (r: usize)
        ensures
            r == self.max_height_spec(),
    {
        self.max_height
    }

    /// Whether the search for `key` stops before `next`: `next` is absent
    /// or its key is not less than `key`.
    fn stops_before(&self, key: &Slice, next: Option<usize>) -> (r: bool)
        requires
            self.wf(),
            next matches Some(n) ==> n < self.arena_spec().nodes().len(),
        ensures
            r == (match next {
                None => true,
                Some(n) => !self.cmp().less(self.key_of(n), key@),
            }),
    {
        match next {
            None => true,
            Some(n) => {
                let node = self.arena.node(n);
                assert(self.arena.nodes()[n as int].wf_in(self.arena.used()));
                let node_key = node.key(&self.arena);
                match self.comparator.compare(&node_key, key) {
                    Ordering::Less => false,
                    _ => true,
                }
            },
        }
    }

    /// Returns the first node whose key is not less than `key` (`None` when
    /// every key is less), and records in `prev_nodes[l - 1]`, for each
    /// level `l` in use, the last node on level `l` before that position.
    pub fn find_greater_or_equal(&self, key: &Slice, prev_nodes: &mut Vec<usize>) -> (r: Option<
        usize,
    >)
        requires
            self.wf(),
            old(prev_nodes)@.len() >= self.max_height_spec(),
        ensures
            r == self.ceiling_node(key@),
            final(prev_nodes)@.len() == old(prev_nodes)@.len(),
            forall|i: int|
                0 <= i < self.max_height_spec() ==> #[trigger] final(prev_nodes)@[i]
                    == self.pred_node(self.lower_bound(key@), i + 1),
            forall|i: int|
                self.max_height_spec() <= i < old(prev_nodes)@.len()
                    ==> #[trigger] final(prev_nodes)@[i] == old(prev_nodes)@[i],
    {
        let ghost t = key@;
        let ghost ord = self.order@;
        let ghost hs = self.heights();
        let ghost nodes = self.arena.nodes();
        let ghost idx = self.lower_bound(t);
        proof {
            self.lemma_lower_bound(t);
        }
        let mut level: usize = self.max_height;
        let mut node: usize = self.head;
        let ghost mut p: int = -1;
        loop
            invariant
                self.wf(),
                t == key@,
                ord == self.order@,
                hs == self.heights(),
                nodes == self.arena.nodes(),
                idx == self.lower_bound(t),
                0 <= idx <= ord.len(),
                forall|k: int| 0 <= k < idx ==> self.cmp().less(#[trigger] self.keys()[k], t),
                forall|k: int| idx <= k < ord.len() ==> !self.cmp().less(#[trigger] self.keys()[k], t),
                1 <= level <= self.max_height,
                prev_nodes@.len() == old(prev_nodes)@.len(),
                old(prev_nodes)@.len() >= self.max_height,
                -1 <= p < idx,
                p == -1 ==> node == self.head,
                p >= 0 ==> node == ord[p] && hs[p] >= level,
                forall|m: int| p < m < idx ==> hs[m] <= level,
                forall|i: int|
                    level <= i < self.max_height ==> #[trigger] prev_nodes@[i] == self.pred_node(idx, i + 1),
                forall|i: int|
                    self.max_height <= i < prev_nodes@.len()
                        ==> #[trigger] prev_nodes@[i] == old(prev_nodes)@[i],
            decreases level, ord.len() - p,
        {
            proof {
                if p >= 0 {
                    assert(ord[p] < nodes.len());
                }
                assert(level_linked(nodes, self.head, ord, level as int));
                assert(nodes[node as int].wf_in(self.arena.used()));
                lemma_succ_index(hs, p + 1, level as int);
            }
            let next = self.arena.node(node).get_next(level);
            let ghost q = succ_index(hs, p + 1, level as int);
            proof {
                if p >= 0 {
                    assert(nodes[ord[p] as int].next_nodes@[level - 1] == succ_node(ord, hs, p + 1, level as int));
                }
                assert(next == succ_node(ord, hs, p + 1, level as int));
                if q < ord.len() {
                    assert(self.keys()[q] == self.key_of(ord[q]));
                }
            }
            if self.stops_before(key, next) {
                proof {
                    assert(q >= idx);
                    lemma_pred_index_unique(hs, idx, level as int, p);
                }
                prev_nodes.set(level - 1, node);
                if level == 1 {
                    proof {
                        if p + 1 < ord.len() {
                            assert(ord[p + 1] < nodes.len());
                            assert(nodes[ord[p + 1] as int].wf_in(self.arena.used()));
                            assert(hs[p + 1] >= 1);
                            assert(q == p + 1);
                        }
                        assert(idx == p + 1);
                    }
                    return next;
                }
                level = level - 1;
            } else {
                proof {
                    assert(q < idx);
                }
                node = match next {
                    Some(n) => n,
                    None => node,
                };
                proof {
                    p = q;
                }
            }
        }
    }

    /// Every stored node is at least one level tall.
    proof fn lemma_heights_positive(&self)
        requires
            self.wf(),
        ensures
            forall|m: int| 0 <= m < self.order().len() ==> #[trigger] self.heights()[m] >= 1,
    {
        assert forall|m: int| 0 <= m < self.order().len() implies #[trigger] self.heights()[m] >= 1 by {
            assert(self.order@[m] < self.arena.nodes().len());
            assert(self.arena.nodes()[self.order@[m] as int].wf_in(self.arena.used()));
        }
    }

    /// Returns the last node whose key is less than `key`, or the head when
    /// no stored key is.
    pub fn find_less_than(&self, key: &Slice) -> (r: usize)
        requires
            self.wf(),
        ensures
            self.lower_bound(key@) == 0 ==> r == self.head_spec(),
            self.lower_bound(key@) > 0 ==> r == self.order()[self.lower_bound(key@) - 1],
            (forall|i: int| 0 <= i < self.keys().len() ==> !self.cmp().less(#[trigger] self.keys()[i], key@))
                ==> r == self.head_spec(),
    {
        let mut prev: Vec<usize> = Vec::new();
        let mut i: usize = 0;
        while i < MAX_HEIGHT
            invariant
                i <= MAX_HEIGHT,
                prev@.len() == i,
            decreases MAX_HEIGHT - i,
        {
            prev.push(self.head);
            i = i + 1;
        }
        let _ = self.find_greater_or_equal(key, &mut prev);
        proof {
            let idx = self.lower_bound(key@);
            self.lemma_lower_bound(key@);
            self.lemma_heights_positive();
            lemma_pred_index_unique(self.heights(), idx, 1, idx - 1);
            assert(prev@[0] == self.pred_node(idx, 1));
            if idx > 0 {
                assert(self.cmp().less(self.keys()[0], key@));
            }
        }
        prev[0]
    }

    /// Returns the node with the largest key, or the head when the list is
    /// empty.
    pub fn find_last(&self) -> (r: usize)
        requires
            self.wf(),
        ensures
            self.order().len() == 0 ==> r == self.head_spec(),
            self.order().len() > 0 ==> r == self.order().last(),
    {
        let ghost ord = self.order@;
        let ghost hs = self.heights();
        let ghost nodes = self.arena.nodes();
        let mut level: usize = self.max_height;
        let mut node: usize = self.head;
        let ghost mut p: int = -1;
        proof {
            self.lemma_heights_positive();
        }
        loop
            invariant
                self.wf(),
                ord == self.order@,
                hs == self.heights(),
                nodes == self.arena.nodes(),
                forall|m: int| 0 <= m < ord.len() ==> #[trigger] hs[m] >= 1,
                1 <= level <= self.max_height,
                -1 <= p < ord.len(),
                p == -1 ==> node == self.head,
                p >= 0 ==> node == ord[p] && hs[p] >= level,
                forall|m: int| p < m < ord.len() ==> hs[m] <= level,
            decreases level, ord.len() - p,
        {
            proof {
                if p >= 0 {
                    assert(ord[p] < nodes.len());
                }
                assert(level_linked(nodes, self.head, ord, level as int));
                assert(nodes[node as int].wf_in(self.arena.used()));
                lemma_succ_index(hs, p + 1, level as int);
            }
            let next = self.arena.node(node).get_next(level);
            let ghost q = succ_index(hs, p + 1, level as int);
            proof {
                if p >= 0 {
                    assert(nodes[ord[p] as int].next_nodes@[level - 1] == succ_node(ord, hs, p + 1, level as int));
                }
                assert(next == succ_node(ord, hs, p + 1, level as int));
            }
            match next {
                None => {
                    if level == 1 {
                        proof {
                            if p + 1 < ord.len() {
                                assert(hs[p + 1] >= 1);
                            }
                        }
                        return node;
                    }
                    level = level - 1;
                },
                Some(n) => {
                    node = n;
                    proof {
                        p = q;
                    }
                },
            }
        }
    }

    /// No node is listed twice.
    proof fn lemma_order_distinct(&self)
        requires
            self.wf(),
        ensures
            forall|a: int, b: int|
                0 <= a < b < self.order().len() ==> #[trigger] self.order()[a] != #[trigger] self.order()[b],
    {
        assert forall|a: int, b: int|
            0 <= a < b < self.order().len() implies #[trigger] self.order()[a] != #[trigger] self.order()[b] by {
            assert(self.cmp().less(self.keys()[a], self.keys()[b]));
            self.cmp().lemma_irreflexive(self.keys()[a]);
        }
    }

    /// Adds `key` with `value` on a new node `height` levels tall. A key
    /// that is already stored is refused, and so is a node that the arena
    /// has no room for; either way nothing changes.
    pub fn insert_with_height(&mut self, key: &Slice, value: &Slice, height: usize) -> (r: Result<
        (),
        TinyError,
    >)
        requires
            old(self).wf(),
            1 <= height <= MAX_HEIGHT,
        ensures
            final(self).wf(),
            final(self).cmp() == old(self).cmp(),
            final(self).head_spec() == old(self).head_spec(),
            old(self).keys().contains(key@) ==> {
                &&& r == Err::<(), TinyError>(TinyError::DuplicateKey)
                &&& *final(self) == *old(self)
            },
            !old(self).keys().contains(key@) && !old(self).arena_spec().room_for(
                node_size(height as int) + key@.len() + value@.len(),
            ) ==> {
                &&& r == Err::<(), TinyError>(TinyError::OutOfSpace)
                &&& *final(self) == *old(self)
            },
            !old(self).keys().contains(key@) && old(self).arena_spec().room_for(
                node_size(height as int) + key@.len() + value@.len(),
            ) ==> {
                &&& r == Ok::<(), TinyError>(())
                &&& final(self).keys() == old(self).keys().insert(old(self).lower_bound(key@), key@)
                &&& final(self).values() == old(self).values().insert(
                    old(self).lower_bound(key@),
                    value@,
                )
            },
    {
        let ghost t = key@;
        let ghost ord1 = self.order@;
        let ghost idx = self.lower_bound(t);
        let ghost hs1 = self.heights();
        let ghost keys1 = self.keys();
        let ghost values1 = self.values();
        let ghost a0 = self.arena;
        let ghost head = self.head;
        proof {
            self.lemma_lower_bound(t);
            self.lemma_order_distinct();
        }
        let mut prev: Vec<usize> = Vec::new();
        let mut i: usize = 0;
        while i < MAX_HEIGHT
            invariant
                i <= MAX_HEIGHT,
                prev@.len() == i,
                head == self.head,
                forall|k: int| 0 <= k < i ==> #[trigger] prev@[k] == head,
            decreases MAX_HEIGHT - i,
        {
            prev.push(self.head);
            i = i + 1;
        }
        let found = self.find_greater_or_equal(key, &mut prev);
        match found {
            Some(n) => {
                proof {
                    assert(ord1[idx] < a0.nodes().len());
                    assert(a0.nodes()[n as int].wf_in(a0.used()));
                    assert(keys1[idx] == self.key_of(n));
                }
                let node_key = self.arena.node(n).key(&self.arena);
                match self.comparator.compare(&node_key, key) {
                    Ordering::Equal => {
                        proof {
                            assert(keys1[idx] == t);
                        }
                        return Err(TinyError::DuplicateKey);
                    },
                    _ => {},
                }
            },
            None => {},
        }
        proof {
            if keys1.contains(t) {
                let k = choose|k: int| 0 <= k < keys1.len() && keys1[k] == t;
                self.cmp().lemma_irreflexive(t);
                if k > idx {
                    assert(self.cmp().less(keys1[idx], keys1[k]));
                }
                assert(k == idx);
            }
        }
        let node = match Node::new(key, value, height, &mut self.arena) {
            Ok(n) => n,
            Err(e) => { return Err(e); },
        };
        let ghost a1 = self.arena;
        let ghost old_max = self.max_height as int;
        // The predecessor slots above the old height already hold the head.
        if height > self.max_height {
            self.max_height = height;
        }
        let ghost ord2 = ord1.insert(idx, node);
        proof {
            assert forall|k: int| 0 <= k < a0.nodes().len() implies #[trigger] a1.nodes()[k] == a0.nodes()[k] by {
                assert(a1.nodes().drop_last()[k] == a1.nodes()[k]);
            }
            assert forall|k: int| 0 <= k < ord1.len() implies #[trigger] hs1[k] <= old_max by {
                assert(ord1[k] < a0.nodes().len());
            }
            assert forall|k: int| 0 <= k < height implies #[trigger] prev@[k] == (if pred_index(hs1, idx, k + 1) < 0 {
                head
            } else {
                ord1[pred_index(hs1, idx, k + 1)]
            }) by {
                if k >= old_max {
                    lemma_pred_index_unique(hs1, idx, k + 1, -1);
                }
            }
            assert forall|l: int| 1 <= l <= MAX_HEIGHT implies #[trigger] level_linked(a1.nodes(), head, ord1, l) by {
                assert(level_linked(a0.nodes(), head, ord1, l));
                lemma_level_linked_frame(a0.nodes(), a1.nodes(), head, ord1, l);
            }
        }
        let mut i: usize = 0;
        while i < height
            invariant
                i <= height,
                1 <= height <= MAX_HEIGHT,
                self.arena.wf(),
                self.arena.capacity() == a1.capacity(),
                self.arena.used() == a1.used(),
                self.arena.bytes() == a1.bytes(),
                self.arena.nodes().len() == a1.nodes().len(),
                forall|k: int|
                    0 <= k < a1.nodes().len() ==> #[trigger] self.arena.nodes()[k].same_payload(
                        a1.nodes()[k],
                    ),
                a1.nodes().len() == a0.nodes().len() + 1,
                node == a0.nodes().len(),
                a1.nodes()[node as int].height == height,
                head == self.head,
                head < a0.nodes().len(),
                a0.nodes()[head as int].height == MAX_HEIGHT,
                forall|k: int| 0 <= k < a0.nodes().len() ==> #[trigger] a1.nodes()[k] == a0.nodes()[k],
                hs1 == heights_of(a0.nodes(), ord1),
                0 <= idx <= ord1.len(),
                ord2 == ord1.insert(idx, node),
                forall|k: int|
                    0 <= k < ord1.len() ==> #[trigger] ord1[k] < a0.nodes().len() && ord1[k] != head,
                forall|a: int, b: int| 0 <= a < b < ord1.len() ==> #[trigger] ord1[a] != #[trigger] ord1[b],
                prev@.len() == MAX_HEIGHT,
                self.max_height as int == (if height > old_max {
                    height as int
                } else {
                    old_max
                }),
                1 <= old_max <= MAX_HEIGHT,
                forall|k: int| 0 <= k < ord1.len() ==> #[trigger] hs1[k] <= old_max,
                self.comparator == old(self).comparator,
                self.order == old(self).order,
                keys1.len() == ord1.len(),
                forall|a: int, b: int|
                    0 <= a < b < keys1.len() ==> self.comparator.less(#[trigger] keys1[a], #[trigger] keys1[b]),
                forall|k: int| 0 <= k < idx ==> self.comparator.less(#[trigger] keys1[k], t),
                forall|k: int| idx <= k < keys1.len() ==> !self.comparator.less(#[trigger] keys1[k], t),
                !keys1.contains(t),
                forall|k: int| 0 <= k < height ==> #[trigger] prev@[k] == (if pred_index(hs1, idx, k + 1) < 0 {
                    head
                } else {
                    ord1[pred_index(hs1, idx, k + 1)]
                }),
                forall|l: int| 1 <= l <= i ==> #[trigger] level_linked(self.arena.nodes(), head, ord2, l),
                forall|l: int|
                    i < l <= MAX_HEIGHT ==> #[trigger] level_linked(self.arena.nodes(), head, ord1, l),
            decreases height - i,
        {
            let ghost l = i + 1;
            let ghost pp = pred_index(hs1, idx, l as int);
            let ghost n0 = self.arena.nodes();
            proof {
                lemma_pred_index(hs1, idx, l as int);
                if pp >= 0 {
                    assert(ord1[pp] < a0.nodes().len());
                    assert(n0[ord1[pp] as int].same_payload(a1.nodes()[ord1[pp] as int]));
                }
                assert(n0[head as int].same_payload(a1.nodes()[head as int]));
                assert(n0[node as int].same_payload(a1.nodes()[node as int]));
            }
            let p = prev[i];
            proof {
                assert(n0[p as int].wf_in(self.arena.used()));
                assert(n0[node as int].wf_in(self.arena.used()));
            }
            let nx = self.arena.node(p).get_next(i + 1);
            self.arena.set_next(node, i + 1, nx);
            self.arena.set_next(p, i + 1, Some(node));
            proof {
                let n1 = self.arena.nodes();
                assert forall|k: int| 0 <= k < n0.len() implies #[trigger] n1[k].height == n0[k].height by {}
                assert forall|k: int| 0 <= k < ord1.len() implies #[trigger] ord1[k] < n0.len() && ord1[k] != head
                    && ord1[k] != node by {}
                assert(heights_of(n0, ord1) =~= hs1) by {
                    assert forall|k: int| 0 <= k < ord1.len() implies heights_of(n0, ord1)[k] == hs1[k] by {
                        assert(ord1[k] < a0.nodes().len());
                        assert(n0[ord1[k] as int].same_payload(a1.nodes()[ord1[k] as int]));
                    }
                }
                assert(level_linked(n0, head, ord1, l as int));
                lemma_splice_level(n0, n1, head, ord1, idx, node, l as int);
                assert forall|k: int| 0 <= k < ord2.len() implies #[trigger] ord2[k] < n0.len() by {
                    if k != idx {
                        if k < idx {
                            assert(ord2[k] == ord1[k]);
                        } else {
                            assert(ord2[k] == ord1[k - 1]);
                        }
                    }
                }
                assert forall|l2: int| 1 <= l2 <= l implies #[trigger] level_linked(n1, head, ord2, l2) by {
                    if l2 < l {
                        assert(level_linked(n0, head, ord2, l2));
                        lemma_level_linked_frame(n0, n1, head, ord2, l2);
                    }
                }
                assert forall|l2: int| l < l2 <= MAX_HEIGHT implies #[trigger] level_linked(n1, head, ord1, l2) by {
                    assert(level_linked(n0, head, ord1, l2));
                    lemma_level_linked_frame(n0, n1, head, ord1, l2);
                }
                assert forall|k: int| 0 <= k < a1.nodes().len() implies #[trigger] n1[k].same_payload(
                    a1.nodes()[k],
                ) by {
                    assert(n0[k].same_payload(a1.nodes()[k]));
                }
            }
            i = i + 1;
        }
        proof {
            let n2 = self.arena.nodes();
            assert(n2[node as int].same_payload(a1.nodes()[node as int]));
            assert forall|l: int| height < l <= MAX_HEIGHT implies #[trigger] level_linked(n2, head, ord2, l) by {
                lemma_level_linked_extend(n2, head, ord1, idx, node, l);
            }
        }
        self.order = Ghost(ord2);
        proof {
            let n2 = self.arena.nodes();
            assert forall|k: int| 0 <= k < a0.nodes().len() implies #[trigger] n2[k].value_in(self.arena)
                == a0.nodes()[k].value_in(a0) by {
                assert(n2[k].same_payload(a1.nodes()[k]));
                assert(a0.nodes()[k].wf_in(a0.used()));
                let nk = a0.nodes()[k];
                assert(a0.bytes().subrange(nk.value_offset as int, nk.value_offset + nk.value_size)
                    =~= a1.bytes().subrange(nk.value_offset as int, nk.value_offset + nk.value_size));
            }
            assert forall|k: int| 0 <= k < a0.nodes().len() implies #[trigger] n2[k].key_in(self.arena)
                == a0.nodes()[k].key_in(a0) by {
                assert(n2[k].same_payload(a1.nodes()[k]));
                assert(a0.nodes()[k].wf_in(a0.used()));
                let nk = a0.nodes()[k];
                assert(a0.bytes().subrange(nk.key_offset as int, nk.key_offset + nk.key_size)
                    =~= a1.bytes().subrange(nk.key_offset as int, nk.key_offset + nk.key_size));
                assert(a0.bytes().subrange(nk.value_offset as int, nk.value_offset + nk.value_size)
                    =~= a1.bytes().subrange(nk.value_offset as int, nk.value_offset + nk.value_size));
            }
            assert(n2[node as int].same_payload(a1.nodes()[node as int]));
            assert(a1.nodes()[node as int] == a1.nodes().last());
            assert(self.keys() =~= keys1.insert(idx, t)) by {
                assert forall|k: int| 0 <= k < ord2.len() implies self.keys()[k] == keys1.insert(idx, t)[k] by {
                    if k < idx {
                        assert(ord2[k] == ord1[k]);
                    } else if k > idx {
                        assert(ord2[k] == ord1[k - 1]);
                    }
                }
            }
            assert(self.values() =~= values1.insert(idx, value@)) by {
                assert forall|k: int| 0 <= k < ord2.len() implies self.values()[k] == values1.insert(idx, value@)[k] by {
                    if k < idx {
                        assert(ord2[k] == ord1[k]);
                    } else if k > idx {
                        assert(ord2[k] == ord1[k - 1]);
                    }
                }
            }
            assert forall|i: int| 0 <= i < ord2.len() implies {
                &&& #[trigger] ord2[i] < n2.len()
                &&& ord2[i] != self.head
                &&& n2[ord2[i] as int].height <= self.max_height
            } by {
                if i < idx {
                    assert(ord2[i] == ord1[i]);
                    assert(hs1[i] <= old_max);
                    assert(n2[ord1[i] as int].same_payload(a1.nodes()[ord1[i] as int]));
                } else if i > idx {
                    assert(ord2[i] == ord1[i - 1]);
                    assert(hs1[i - 1] <= old_max);
                    assert(n2[ord1[i - 1] as int].same_payload(a1.nodes()[ord1[i - 1] as int]));
                }
            }
            let keys2 = self.keys();
            assert forall|i: int, j: int| 0 <= i < j < ord2.len() implies self.comparator.less(
                #[trigger] keys2[i],
                #[trigger] keys2[j],
            ) by {
                if j < idx {
                    assert(self.comparator.less(keys1[i], keys1[j]));
                } else if i > idx {
                    assert(self.comparator.less(keys1[i - 1], keys1[j - 1]));
                } else if j == idx {
                    assert(self.comparator.less(keys1[i], t));
                } else if i == idx {
                    assert(!self.comparator.less(keys1[j - 1], t));
                    assert(keys1[j - 1] != t);
                    self.comparator.lemma_total(keys1[j - 1], t);
                } else {
                    assert(self.comparator.less(keys1[i], keys1[j - 1]));
                }
            }
            assert(n2[head as int].same_payload(a1.nodes()[head as int]));
        }
        Ok(())
    }

    /// Adds `key` with `value` on a node of random height; see
    /// `insert_with_height` for what is refused.
    pub fn insert(&mut self, key: &Slice, value: &Slice) -> (r: Result<(), TinyError>)
        requires
            old(self).wf(),
        ensures
            final(self).wf(),
            final(self).cmp() == old(self).cmp(),
            final(self).head_spec() == old(self).head_spec(),
            old(self).keys().contains(key@) ==> {
                &&& r == Err::<(), TinyError>(TinyError::DuplicateKey)
                &&& *final(self) == *old(self)
            },
            r matches Err(TinyError::OutOfSpace) ==> *final(self) == *old(self),
            !(r matches Err(TinyError::OutOfRange)),
            !old(self).keys().contains(key@) && old(self).arena_spec().room_for(
                MAX_NODE_SIZE + key@.len() + value@.len(),
            ) ==> r == Ok::<(), TinyError>(()),
            r is Ok ==> {
                &&& final(self).keys() == old(self).keys().insert(old(self).lower_bound(key@), key@)
                &&& final(self).values() == old(self).values().insert(
                    old(self).lower_bound(key@),
                    value@,
                )
            },
    {
        let height = rand_height();
        self.insert_with_height(key, value, height)
    }

    /// Level 1 visits every stored node once, in strictly increasing key
    /// order: the head links to the first, each to the next, the last to
    /// none.
    pub proof fn lemma_level_one_traversal(&self)
        requires
            self.wf(),
        ensures
            self.arena_spec().nodes()[self.head_spec() as int].next_nodes@[0] == (if self.order().len()
                == 0 {
                None
            } else {
                Some(self.order()[0])
            }),
            forall|i: int|
                0 <= i < self.order().len() ==> #[trigger] self.arena_spec().nodes()[self.order()[i] as int].next_nodes@[0]
                    == (if i + 1 < self.order().len() {
                    Some(self.order()[i + 1])
                } else {
                    None
                }),
            forall|i: int, j: int|
                0 <= i < j < self.keys().len() ==> self.cmp().less(
                    #[trigger] self.keys()[i],
                    #[trigger] self.keys()[j],
                ),
            forall|i: int, j: int|
                0 <= i < j < self.keys().len() ==> #[trigger] self.keys()[i] != #[trigger] self.keys()[j],
    {
        let nodes = self.arena.nodes();
        let ord = self.order@;
        let hs = self.heights();
        self.lemma_heights_positive();
        assert(level_linked(nodes, self.head, ord, 1));
        if ord.len() > 0 {
            lemma_succ_index_unique(hs, 0, 1, 0);
        } else {
            lemma_succ_index_unique(hs, 0, 1, 0);
        }
        assert forall|i: int| 0 <= i < ord.len() implies #[trigger] nodes[ord[i] as int].next_nodes@[0] == (if i
            + 1 < ord.len() {
            Some(ord[i + 1])
        } else {
            None
        }) by {
            assert(hs[i] >= 1);
            lemma_succ_index_unique(hs, i + 1, 1, i + 1);
        }
        assert forall|i: int, j: int| 0 <= i < j < self.keys().len() implies #[trigger] self.keys()[i]
            != #[trigger] self.keys()[j] by {
            assert(self.cmp().less(self.keys()[i], self.keys()[j]));
            self.cmp().lemma_irreflexive(self.keys()[i]);
        }
    }

    proof fn lemma_lower_bound_from(&self, t: Seq<u8>, j: int)
        requires
            0 <= j <= self.keys().len(),
        ensures
            j <= self.lower_bound_from(t, j) <= self.keys().len(),
            forall|k: int| j <= k < self.lower_bound_from(t, j) ==> self.cmp().less(self.keys()[k], t),
            self.lower_bound_from(t, j) < self.keys().len() ==> !self.cmp().less(
                self.keys()[self.lower_bound_from(t, j)],
                t,
            ),
        decreases self.keys().len() - j,
    {
        if j < self.keys().len() && self.cmp().less(self.keys()[j], t) {
            self.lemma_lower_bound_from(t, j + 1);
        }
    }

    /// Every key before `lower_bound(t)` is less than `t`, and no key from
    /// there on is.
    pub proof fn lemma_lower_bound(&self, t: Seq<u8>)
        requires
            self.wf(),
        ensures
            0 <= self.lower_bound(t) <= self.keys().len(),
            forall|k: int| 0 <= k < self.lower_bound(t) ==> self.cmp().less(#[trigger] self.keys()[k], t),
            forall|k: int|
                self.lower_bound(t) <= k < self.keys().len() ==> !self.cmp().less(
                    #[trigger] self.keys()[k],
                    t,
                ),
    {
        self.lemma_lower_bound_from(t, 0);
        let idx = self.lower_bound(t);
        assert forall|k: int| idx <= k < self.keys().len() implies !self.cmp().less(
            #[trigger] self.keys()[k],
            t,
        ) by {
            if k > idx && self.cmp().less(self.keys()[k], t) {
                assert(self.cmp().less(self.keys()[idx], self.keys()[k]));
                self.cmp().lemma_transitive(self.keys()[idx], self.keys()[k], t);
            }
        }
    }
}

} // verus!
