//! Append-only memory arena that holds node records and payload bytes.

use crate::error::TinyError;
use crate::skiplist::{Node, MAX_HEIGHT};
use crate::slice::Slice;
use vstd::prelude::*;

verus! {

/// Bytes taken by a node's fixed header: key and value descriptors and height.
pub const NODE_HEADER_SIZE: usize = 40;

/// Bytes taken by one successor link.
pub const LINK_SIZE: usize = 8;

/// Bytes taken by a node of the largest height.
pub const MAX_NODE_SIZE: usize = 136;

/// Arena room used by a node of height `height`: the header and exactly
/// `height` links.
pub open spec fn node_size(height: int) -> int {
    NODE_HEADER_SIZE + height * LINK_SIZE
}

/// A node record as handed out by `alloc_node`: no payload, no successors.
pub open spec fn is_blank_node(n: Node, height: int) -> bool {
    &&& n.key_offset == 0
    &&& n.key_size == 0
    &&& n.value_offset == 0
    &&& n.value_size == 0
    &&& n.height == height
    &&& n.next_nodes@ == Seq::new(height as nat, |l: int| None::<usize>)
}

/// Sum of a run of allocation sizes.
pub open spec fn sum_sizes(sizes: Seq<nat>) -> nat
    decreases sizes.len(),
{
    if sizes.len() == 0 {
        0
    } else {
        sum_sizes(sizes.drop_last()) + sizes.last()
    }
}

/// Along a run of allocations from a fresh arena, where each one moves the
/// cursor from `used[i]` to `used[i] + sizes[i]` (as `alloc_bytes` and
/// `alloc_node` ensure), the memory used is the sum of the requested sizes,
/// and no two regions handed out overlap.
pub proof fn lemma_allocations_sum(used: Seq<nat>, sizes: Seq<nat>)
    requires
        used.len() == sizes.len() + 1,
        used[0] == 0,
        forall|i: int| 0 <= i < sizes.len() ==> #[trigger] used[i + 1] == used[i] + sizes[i],
    ensures
        used.last() == sum_sizes(sizes),
        forall|i: int, j: int| 0 <= i < j < sizes.len() ==> #[trigger] used[i] + sizes[i] <= #[trigger] used[j],
    decreases sizes.len(),
{
    if sizes.len() > 0 {
        let n = sizes.len() - 1;
        let u = used.drop_last();
        let s = sizes.drop_last();
        assert forall|i: int| 0 <= i < s.len() implies #[trigger] u[i + 1] == u[i] + s[i] by {
            assert(used[i + 1] == used[i] + sizes[i]);
        }
        lemma_allocations_sum(u, s);
        assert(used[n + 1] == used[n] + sizes[n]);
        assert forall|i: int, j: int| 0 <= i < j < sizes.len() implies #[trigger] used[i] + sizes[i] <= #[trigger] used[j] by {
            if j < n {
                assert(u[i] + s[i] <= u[j]);
            } else {
                if i < n {
                    let k = n - 1;
                    if i < k {
                        assert(u[i] + s[i] <= u[k]);
                    }
                    assert(used[k + 1] == used[k] + sizes[k]);
                } else {
                    assert(used[i + 1] == used[i] + sizes[i]);
                }
            }
        }
    }
}

/// Memory that node records and payload bytes are allocated from. Nothing
/// is ever freed on its own, so handles and offsets stay valid.
pub trait Arena: Sized {
    /// Bytes handed out so far.
    spec fn spec_used(&self) -> nat;

    /// Bytes the arena can hand out in all.
    spec fn spec_capacity(&self) -> nat;

    /// The contents of the bytes handed out so far.
    spec fn spec_bytes(&self) -> Seq<u8>;

    /// The node records, indexed by handle.
    spec fn spec_nodes(&self) -> Seq<Node>;

    spec fn spec_wf(&self) -> bool;

    /// Reserves room for a node of the given height and returns the handle
    /// of a blank node record; fails with `OutOfSpace`, changing nothing,
    /// when the room is not there.
    fn alloc_node(&mut self, height: usize) -> (r: Result<usize, TinyError>)
        requires
            old(self).spec_wf(),
            1 <= height <= MAX_HEIGHT,
        ensures
            final(self).spec_wf(),
            final(self).spec_capacity() == old(self).spec_capacity(),
            old(self).spec_used() + node_size(height as int) <= old(self).spec_capacity() ==> {
                &&& r == Ok::<usize, TinyError>(old(self).spec_nodes().len() as usize)
                &&& final(self).spec_used() == old(self).spec_used() + node_size(height as int)
                &&& final(self).spec_bytes() == old(self).spec_bytes() + Seq::new(
                    node_size(height as int) as nat,
                    |i: int| 0u8,
                )
                &&& final(self).spec_nodes().drop_last() == old(self).spec_nodes()
                &&& final(self).spec_nodes().len() == old(self).spec_nodes().len() + 1
                &&& is_blank_node(final(self).spec_nodes().last(), height as int)
            },
            old(self).spec_used() + node_size(height as int) > old(self).spec_capacity() ==> {
                &&& r == Err::<usize, TinyError>(TinyError::OutOfSpace)
                &&& *final(self) == *old(self)
            },
    ;

    /// Copies `data` to the cursor and returns its offset; fails with
    /// `OutOfSpace`, changing nothing, when it does not fit.
    fn alloc_bytes(&mut self, data: &Slice) -> (r: Result<usize, TinyError>)
        requires
            old(self).spec_wf(),
        ensures
            final(self).spec_wf(),
            final(self).spec_capacity() == old(self).spec_capacity(),
            old(self).spec_used() + data@.len() <= old(self).spec_capacity() ==> {
                &&& r == Ok::<usize, TinyError>(old(self).spec_used() as usize)
                &&& final(self).spec_used() == old(self).spec_used() + data@.len()
                &&& final(self).spec_bytes() == old(self).spec_bytes() + data@
                &&& final(self).spec_nodes() == old(self).spec_nodes()
            },
            old(self).spec_used() + data@.len() > old(self).spec_capacity() ==> {
                &&& r == Err::<usize, TinyError>(TinyError::OutOfSpace)
                &&& *final(self) == *old(self)
            },
    ;

    /// A copy of `count` bytes at `offset`; `OutOfRange` when they reach
    /// past what has been handed out.
    fn get(&self, offset: usize, count: usize) -> (r: Result<Slice, TinyError>)
        requires
            self.spec_wf(),
        ensures
            offset + count <= self.spec_used() ==> (r matches Ok(s) && s@ == self.spec_bytes().subrange(
                offset as int,
                offset + count,
            )),
            offset + count > self.spec_used() ==> (r matches Err(TinyError::OutOfRange)),
    ;

    fn has_room_for(&self, size: usize) -> (r: bool)
        requires
            self.spec_wf(),
        ensures
            r == (self.spec_used() + size <= self.spec_capacity()),
    ;

    fn memory_used(&self) -> (r: usize)
        ensures
            r == self.spec_used(),
    ;

    fn size(&self) -> (r: usize)
        ensures
            r == self.spec_capacity(),
    ;
}

/// A fixed-capacity arena. Memory is handed out by advancing a cursor and is
/// only released with the arena as a whole, so an offset or a node index,
/// once handed out, stays valid for the arena's lifetime.
pub struct AggressiveArena {
    offset: usize,
    cap: usize,
    mem: Vec<u8>,
    nodes: Vec<Node>,
}

impl AggressiveArena {
    /// Bytes handed out so far (the cursor).
    pub closed spec fn used(&self) -> nat {
        self.offset as nat
    }

    pub closed spec fn capacity(&self) -> nat {
        self.cap as nat
    }

    /// The contents of every byte below the cursor.
    pub closed spec fn bytes(&self) -> Seq<u8> {
        self.mem@
    }

    /// The node records, indexed by the handle `alloc_node` returned.
    pub closed spec fn nodes(&self) -> Seq<Node> {
        self.nodes@
    }

    pub open spec fn room_for(&self, size: int) -> bool {
        self.used() + size <= self.capacity()
    }

    pub open spec fn wf(&self) -> bool {
        &&& self.bytes().len() == self.used()
        &&& self.used() <= self.capacity()
        &&& self.nodes().len() <= usize::MAX
        &&& forall|i: int|
            0 <= i < self.nodes().len() ==> #[trigger] self.nodes()[i].wf_in(self.used())
    }

    /// Creates an arena of `cap` bytes, reserving the whole block up front.
    pub fn new(cap: usize) -> (r: AggressiveArena)
        ensures
            r.wf(),
            r.used() == 0,
            r.capacity() == cap,
            r.bytes() == Seq::<u8>::empty(),
            r.nodes() == Seq::<Node>::empty(),
    {
        AggressiveArena { offset: 0, cap, mem: Vec::with_capacity(cap), nodes: Vec::new() }
    }

    /// A copy of every byte handed out so far.
    pub fn display_all(&self) -> (r: Vec<u8>)
        requires
            self.wf(),
        ensures
            r@ == self.bytes(),
    {
        let mut result: Vec<u8> = Vec::with_capacity(self.offset);
        let mut i: usize = 0;
        while i < self.offset
            invariant
                self.wf(),
                i <= self.offset,
                result@ == self.mem@.subrange(0, i as int),
            decreases self.offset - i,
        {
            result.push(self.mem[i]);
            i = i + 1;
            proof {
                assert(result@ =~= self.mem@.subrange(0, i as int));
            }
        }
        proof {
            assert(result@ =~= self.mem@);
        }
        result
    }

    /// Reserves room for a node of the given height (header plus exactly
    /// `height` links) and returns the handle of a blank node record.
    pub fn alloc_node(&mut self, height: usize) -> (r: Result<usize, TinyError>)
        requires
            old(self).wf(),
            1 <= height <= MAX_HEIGHT,
        ensures
            final(self).wf(),
            final(self).capacity() == old(self).capacity(),
            old(self).room_for(node_size(height as int)) ==> {
                &&& r == Ok::<usize, TinyError>(old(self).nodes().len() as usize)
                &&& final(self).used() == old(self).used() + node_size(height as int)
                &&& final(self).bytes() == old(self).bytes() + Seq::new(
                    node_size(height as int) as nat,
                    |i: int| 0u8,
                )
                &&& final(self).nodes().len() == old(self).nodes().len() + 1
                &&& final(self).nodes().drop_last() == old(self).nodes()
                &&& is_blank_node(final(self).nodes().last(), height as int)
            },
            !old(self).room_for(node_size(height as int)) ==> {
                &&& r == Err::<usize, TinyError>(TinyError::OutOfSpace)
                &&& *final(self) == *old(self)
            },
    {
        let size: usize = NODE_HEADER_SIZE + height * LINK_SIZE;
        if self.cap - self.offset < size {
            return Err(TinyError::OutOfSpace);
        }
        let ghost old_mem = self.mem@;
        let mut i: usize = 0;
        while i < size
            invariant
                i <= size,
                self.mem@ == old_mem + Seq::new(i as nat, |j: int| 0u8),
                old_mem == old(self).mem@,
                self.offset == old(self).offset,
                self.cap == old(self).cap,
                self.nodes == old(self).nodes,
                self.cap - self.offset >= size,
            decreases size - i,
        {
            self.mem.push(0u8);
            i = i + 1;
            proof {
                assert(self.mem@ =~= old_mem + Seq::new(i as nat, |j: int| 0u8));
            }
        }
        let mut links: Vec<Option<usize>> = Vec::new();
        let mut l: usize = 0;
        while l < height
            invariant
                l <= height,
                links@ == Seq::new(l as nat, |j: int| None::<usize>),
            decreases height - l,
        {
            links.push(None);
            l = l + 1;
            proof {
                assert(links@ =~= Seq::new(l as nat, |j: int| None::<usize>));
            }
        }
        let ghost old_nodes = self.nodes@;
        let idx = self.nodes.len();
        self.offset = self.offset + size;
        self.nodes.push(
            Node {
                key_offset: 0,
                key_size: 0,
                value_offset: 0,
                value_size: 0,
                height,
                next_nodes: links,
            },
        );
        let total = self.nodes.len();
        proof {
            assert(total == self.nodes@.len());
            assert(self.nodes@.drop_last() =~= old_nodes);
            assert forall|k: int| 0 <= k < self.nodes@.len() implies #[trigger] self.nodes@[k].wf_in(
                self.offset as nat,
            ) by {
                if k < old_nodes.len() {
                    assert(old(self).nodes()[k].wf_in(old(self).used()));
                }
            }
        }
        Ok(idx)
    }

    /// Copies `data` to the cursor and returns the offset where it starts.
    pub fn alloc_bytes(&mut self, data: &Slice) -> (r: Result<usize, TinyError>)
        requires
            old(self).wf(),
        ensures
            final(self).wf(),
            final(self).capacity() == old(self).capacity(),
            old(self).room_for(data@.len() as int) ==> {
                &&& r == Ok::<usize, TinyError>(old(self).used() as usize)
                &&& final(self).used() == old(self).used() + data@.len()
                &&& final(self).bytes() == old(self).bytes() + data@
                &&& final(self).nodes() == old(self).nodes()
            },
            !old(self).room_for(data@.len() as int) ==> {
                &&& r == Err::<usize, TinyError>(TinyError::OutOfSpace)
                &&& *final(self) == *old(self)
            },
    {
        let bytes = data.to_slice();
        let n = bytes.len();
        if self.cap - self.offset < n {
            return Err(TinyError::OutOfSpace);
        }
        let start = self.offset;
        let ghost old_mem = self.mem@;
        let mut i: usize = 0;
        while i < n
            invariant
                i <= n,
                n == bytes@.len(),
                self.mem@ == old_mem + bytes@.subrange(0, i as int),
                old_mem == old(self).mem@,
                self.offset == old(self).offset,
                self.cap == old(self).cap,
                self.nodes == old(self).nodes,
                self.cap - self.offset >= n,
            decreases n - i,
        {
            self.mem.push(bytes[i]);
            i = i + 1;
            proof {
                assert(self.mem@ =~= old_mem + bytes@.subrange(0, i as int));
            }
        }
        proof {
            assert(bytes@.subrange(0, n as int) =~= bytes@);
        }
        self.offset = self.offset + n;
        proof {
            assert forall|k: int| 0 <= k < self.nodes@.len() implies #[trigger] self.nodes@[k].wf_in(
                self.offset as nat,
            ) by {
                assert(old(self).nodes()[k].wf_in(old(self).used()));
            }
        }
        Ok(start)
    }

    /// A copy of the `count` bytes at `start`; fails with `OutOfRange` when
    /// they reach past what has been handed out.
    pub fn get(&self, start: usize, count: usize) -> (r: Result<Slice, TinyError>)
        requires
            self.wf(),
        ensures
            start + count <= self.used() ==> (r matches Ok(s) && s@ == self.bytes().subrange(
                start as int,
                start + count,
            )),
            start + count > self.used() ==> (r matches Err(TinyError::OutOfRange)),
    {
        if start > self.offset || count > self.offset - start {
            return Err(TinyError::OutOfRange);
        }
        let mut result: Vec<u8> = Vec::with_capacity(count);
        let mut i: usize = 0;
        while i < count
            invariant
                self.wf(),
                start + count <= self.offset,
                i <= count,
                result@ == self.mem@.subrange(start as int, start + i),
            decreases count - i,
        {
            result.push(self.mem[start + i]);
            i = i + 1;
            proof {
                assert(result@ =~= self.mem@.subrange(start as int, start + i));
            }
        }
        Ok(Slice::from_vec(result))
    }

    pub fn has_room_for(&self, size: usize) -> (r: bool)
        requires
            self.wf(),
        ensures
            r == self.room_for(size as int),
    {
        self.cap - self.offset >= size
    }

    pub fn memory_used(&self) -> (r: usize)
        ensures
            r == self.used(),
    {
        self.offset
    }

    pub fn size(&self) -> (r: usize)
        ensures
            r == self.capacity(),
    {
        self.cap
    }

    /// The node record behind a handle.
    pub fn node(&self, n: usize) -> (r: &Node)
        requires
            n < self.nodes().len(),
        ensures
            *r == self.nodes()[n as int],
    {
        &self.nodes[n]
    }

    /// Sets the successor of node `n` at `level`.
    pub fn set_next(&mut self, n: usize, level: usize, next: Option<usize>)
        requires
            old(self).wf(),
            n < old(self).nodes().len(),
            1 <= level <= old(self).nodes()[n as int].height,
        ensures
            final(self).wf(),
            final(self).used() == old(self).used(),
            final(self).capacity() == old(self).capacity(),
            final(self).bytes() == old(self).bytes(),
            final(self).nodes().len() == old(self).nodes().len(),
            forall|j: int|
                0 <= j < old(self).nodes().len() && j != n ==> final(self).nodes()[j] == old(
                    self,
                ).nodes()[j],
            final(self).nodes()[n as int].same_payload(old(self).nodes()[n as int]),
            final(self).nodes()[n as int].next_nodes@ == old(self).nodes()[n as int].next_nodes@.update(
                level - 1,
                next,
            ),
    {
        assert(self.nodes()[n as int].wf_in(self.used()));
        self.nodes[n].set_next(level, next);
        proof {
            assert forall|k: int| 0 <= k < self.nodes@.len() implies #[trigger] self.nodes@[k].wf_in(
                self.offset as nat,
            ) by {
                assert(old(self).nodes()[k].wf_in(old(self).used()));
            }
        }
    }

    /// Records where node `n`'s key and value bytes are.
    pub fn set_payload(
        &mut self,
        n: usize,
        key_offset: usize,
        key_size: usize,
        value_offset: usize,
        value_size: usize,
    )
        requires
            old(self).wf(),
            n < old(self).nodes().len(),
            key_offset + key_size <= old(self).used(),
            value_offset + value_size <= old(self).used(),
        ensures
            final(self).wf(),
            final(self).used() == old(self).used(),
            final(self).capacity() == old(self).capacity(),
            final(self).bytes() == old(self).bytes(),
            final(self).nodes().len() == old(self).nodes().len(),
            forall|j: int|
                0 <= j < old(self).nodes().len() && j != n ==> final(self).nodes()[j] == old(
                    self,
                ).nodes()[j],
            final(self).nodes()[n as int].key_offset == key_offset,
            final(self).nodes()[n as int].key_size == key_size,
            final(self).nodes()[n as int].value_offset == value_offset,
            final(self).nodes()[n as int].value_size == value_size,
            final(self).nodes()[n as int].height == old(self).nodes()[n as int].height,
            final(self).nodes()[n as int].next_nodes == old(self).nodes()[n as int].next_nodes,
    {
        assert(self.nodes()[n as int].wf_in(self.used()));
        self.nodes[n].key_offset = key_offset;
        self.nodes[n].key_size = key_size;
        self.nodes[n].value_offset = value_offset;
        self.nodes[n].value_size = value_size;
        proof {
            assert forall|k: int| 0 <= k < self.nodes@.len() implies #[trigger] self.nodes@[k].wf_in(
                self.offset as nat,
            ) by {
                assert(old(self).nodes()[k].wf_in(old(self).used()));
            }
        }
    }
}

impl Arena for AggressiveArena {
    open spec fn spec_used(&self) -> nat {
        self.used()
    }

    open spec fn spec_capacity(&self) -> nat {
        self.capacity()
    }

    open spec fn spec_bytes(&self) -> Seq<u8> {
        self.bytes()
    }

    open spec fn spec_nodes(&self) -> Seq<Node> {
        self.nodes()
    }

    open spec fn spec_wf(&self) -> bool {
        self.wf()
    }

    fn alloc_node(&mut self, height: usize) -> (r: Result<usize, TinyError>) {
        AggressiveArena::alloc_node(self, height)
    }

    fn alloc_bytes(&mut self, data: &Slice) -> (r: Result<usize, TinyError>) {
        AggressiveArena::alloc_bytes(self, data)
    }

    fn get(&self, offset: usize, count: usize) -> (r: Result<Slice, TinyError>) {
        AggressiveArena::get(self, offset, count)
    }

    fn has_room_for(&self, size: usize) -> (r: bool) {
        AggressiveArena::has_room_for(self, size)
    }

    fn memory_used(&self) -> (r: usize) {
        AggressiveArena::memory_used(self)
    }

    fn size(&self) -> (r: usize) {
        AggressiveArena::size(self)
    }
}

} // verus!
