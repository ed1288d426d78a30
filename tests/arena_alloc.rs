use tinydb::arena::{AggressiveArena, Arena, LINK_SIZE, MAX_NODE_SIZE, NODE_HEADER_SIZE};
use tinydb::error::TinyError;
use tinydb::skiplist::MAX_HEIGHT;
use tinydb::slice::Slice;

#[test]
fn test_new_arena() {
    let cap = 200;
    let arena = AggressiveArena::new(cap);
    assert_eq!(arena.memory_used(), 0);
    assert_eq!(arena.size(), cap);
}

#[test]
fn test_alloc_single_node() {
    let mut arena = AggressiveArena::new(64 << 20);
    let node = arena.alloc_node(MAX_HEIGHT).unwrap();
    let n = arena.node(node);
    assert_eq!(n.height, MAX_HEIGHT);
    assert_eq!(n.next_nodes.len(), MAX_HEIGHT);
    assert_eq!(n.key_size, 0);
    assert_eq!(n.key_offset, 0);
    assert_eq!(n.value_size, 0);
    assert_eq!(n.value_offset, 0);
    assert_eq!(arena.memory_used(), MAX_NODE_SIZE);
}

#[test]
fn test_alloc_nodes() {
    let mut arena = AggressiveArena::new(64 << 20);
    let node1 = arena.alloc_node(4).unwrap();
    let after_first = arena.memory_used();
    let node2 = arena.alloc_node(MAX_HEIGHT).unwrap();
    // node2's region starts right where node1's (header plus 4 links) ends
    assert_eq!(after_first, NODE_HEADER_SIZE + 4 * LINK_SIZE);
    assert_eq!(arena.memory_used(), after_first + MAX_NODE_SIZE);
    assert_eq!(node2, node1 + 1);
}

#[test]
fn alloc_bytes_are_copied_in_order() {
    let mut arena = AggressiveArena::new(500);
    let _node = arena.alloc_node(1).unwrap();
    let tests = vec![vec![1u8, 2, 3, 4, 5], vec![6u8, 7, 8, 9], vec![10u8, 11]];
    let mut offsets = vec![];
    for t in &tests {
        offsets.push(arena.alloc_bytes(&Slice::from_vec(t.clone())).unwrap());
    }
    let all = arena.display_all();
    for (offset, expect) in offsets.iter().zip(tests.iter()) {
        assert_eq!(&all[*offset..*offset + expect.len()], expect.as_slice());
        assert_eq!(arena.get(*offset, expect.len()).unwrap().to_slice(), expect.as_slice());
    }
    // the ranges are disjoint and consecutive
    assert_eq!(offsets, vec![NODE_HEADER_SIZE + LINK_SIZE, NODE_HEADER_SIZE + LINK_SIZE + 5, NODE_HEADER_SIZE + LINK_SIZE + 9]);
}

#[test]
fn memory_used_is_sum_of_requests() {
    let mut arena = AggressiveArena::new(1000);
    let sizes = [3usize, 0, 17, 1, 64];
    let mut total = 0;
    for s in sizes {
        arena.alloc_bytes(&Slice::from_vec(vec![7u8; s])).unwrap();
        total += s;
        assert_eq!(arena.memory_used(), total);
    }
    arena.alloc_node(3).unwrap();
    total += NODE_HEADER_SIZE + 3 * LINK_SIZE;
    assert_eq!(arena.memory_used(), total);
}

#[test]
fn no_room_means_out_of_space() {
    let mut arena = AggressiveArena::new(10);
    assert!(arena.has_room_for(10));
    arena.alloc_bytes(&Slice::new(&[1u8; 8])).unwrap();
    assert!(!arena.has_room_for(3));
    assert_eq!(arena.alloc_bytes(&Slice::new(&[1u8; 3])), Err(TinyError::OutOfSpace));
    assert_eq!(arena.memory_used(), 8);
    assert!(arena.has_room_for(2));
    assert_eq!(arena.alloc_bytes(&Slice::new(&[2u8; 2])), Ok(8));
    assert_eq!(arena.memory_used(), 10);
    assert_eq!(arena.alloc_node(1), Err(TinyError::OutOfSpace));
}

#[test]
fn get_past_cursor_is_out_of_range() {
    let mut arena = AggressiveArena::new(100);
    arena.alloc_bytes(&Slice::new(b"hello")).unwrap();
    assert_eq!(arena.get(1, 3).unwrap().to_slice(), b"ell");
    assert_eq!(arena.get(0, 5).unwrap().to_slice(), b"hello");
    assert!(matches!(arena.get(3, 3), Err(TinyError::OutOfRange)));
    assert!(matches!(arena.get(6, 0), Err(TinyError::OutOfRange)));
}

fn store_twice<A: Arena>(arena: &mut A, data: &[u8]) -> (usize, usize) {
    let first = arena.alloc_bytes(&Slice::new(data)).unwrap();
    let second = arena.alloc_bytes(&Slice::new(data)).unwrap();
    (first, second)
}

#[test]
fn arena_trait_on_aggressive_arena() {
    let mut arena = AggressiveArena::new(64);
    let (a, b) = store_twice(&mut arena, b"abcd");
    assert_eq!((a, b), (0, 4));
    assert_eq!(Arena::memory_used(&arena), 8);
    assert_eq!(Arena::size(&arena), 64);
    assert!(Arena::has_room_for(&arena, 56));
    assert!(!Arena::has_room_for(&arena, 57));
    assert_eq!(Arena::get(&arena, 4, 4).unwrap().to_slice(), b"abcd");
    assert_eq!(Arena::alloc_node(&mut arena, 2), Ok(0));
    assert_eq!(Arena::alloc_node(&mut arena, 1), Err(TinyError::OutOfSpace));
}
