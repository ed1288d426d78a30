use tinydb::comparator::BytewiseComparator;
use tinydb::error::TinyError;
use tinydb::skiplist::{height_from_samples, rand_height, Node, SkipList, MAX_HEIGHT};
use tinydb::slice::Slice;

fn new_test_skl() -> SkipList<BytewiseComparator> {
    SkipList::new(64 << 20, BytewiseComparator::new()).unwrap()
}

fn key_at(skl: &SkipList<BytewiseComparator>, n: usize) -> Vec<u8> {
    skl.arena().node(n).key(skl.arena()).to_slice().to_vec()
}

fn level_keys(skl: &SkipList<BytewiseComparator>, level: usize) -> Vec<Vec<u8>> {
    let arena = skl.arena();
    let mut out = vec![];
    let mut cur = arena.node(skl.head()).get_next(level);
    while let Some(n) = cur {
        out.push(key_at(skl, n));
        cur = arena.node(n).get_next(level);
    }
    out
}

#[test]
fn test_rand_height() {
    for _ in 0..100 {
        let height = rand_height();
        assert_eq!(height < MAX_HEIGHT, true);
    }
}

#[test]
fn rand_height_distribution() {
    let trials = 40000;
    let mut at_least = [0usize; MAX_HEIGHT + 1];
    for _ in 0..trials {
        let h = rand_height();
        assert!(h >= 1 && h <= MAX_HEIGHT);
        for k in 1..=h {
            at_least[k] += 1;
        }
    }
    assert_eq!(at_least[1], trials);
    let p2 = at_least[2] as f64 / trials as f64;
    let p3 = at_least[3] as f64 / trials as f64;
    assert!((p2 - 0.25).abs() < 0.02, "P(h>=2) = {}", p2);
    assert!((p3 - 0.0625).abs() < 0.01, "P(h>=3) = {}", p3);
}

#[test]
fn height_from_samples_counts_leading_multiples() {
    assert_eq!(height_from_samples(&[]), 1);
    assert_eq!(height_from_samples(&[1, 0, 0]), 1);
    assert_eq!(height_from_samples(&[4, 8, 3, 0]), 3);
    assert_eq!(height_from_samples(&[0; 11]), MAX_HEIGHT);
    assert_eq!(height_from_samples(&[0; 20]), MAX_HEIGHT);
}

#[test]
fn test_find_greater_or_equal() {
    let mut skl = new_test_skl();
    let value = Slice::new(b"");
    for (k, h) in [("key1", 5), ("key3", 1), ("key5", 2), ("key7", 4), ("key9", 3)] {
        skl.insert_with_height(&Slice::new(k.as_bytes()), &value, h).unwrap();
    }
    assert_eq!(skl.max_height(), 5);
    assert_eq!(
        level_keys(&skl, 1),
        vec![b"key1".to_vec(), b"key3".to_vec(), b"key5".to_vec(), b"key7".to_vec(), b"key9".to_vec()]
    );
    let mut prev_nodes = vec![0usize; 5];
    let target_key = Slice::new(b"key4");
    let res = skl.find_greater_or_equal(&target_key, &mut prev_nodes).unwrap();
    assert_eq!(key_at(&skl, res), b"key5".to_vec());
    // prev_nodes should be correct
    assert_eq!(key_at(&skl, prev_nodes[0]), b"key3".to_vec());
    for node in prev_nodes[1..5].iter() {
        assert_eq!(key_at(&skl, *node), b"key1".to_vec());
    }
}

#[test]
fn find_greater_or_equal_on_exact_key_and_past_end() {
    let mut skl = new_test_skl();
    for k in ["b", "d", "f"] {
        skl.insert_with_height(&Slice::new(k.as_bytes()), &Slice::new(b"v"), 2).unwrap();
    }
    let mut prev = vec![0usize; MAX_HEIGHT];
    let r = skl.find_greater_or_equal(&Slice::new(b"d"), &mut prev).unwrap();
    assert_eq!(key_at(&skl, r), b"d".to_vec());
    assert_eq!(key_at(&skl, prev[0]), b"b".to_vec());
    assert_eq!(skl.find_greater_or_equal(&Slice::new(b"g"), &mut prev), None);
    let r = skl.find_greater_or_equal(&Slice::new(b"a"), &mut prev).unwrap();
    assert_eq!(key_at(&skl, r), b"b".to_vec());
    assert_eq!(prev[0], skl.head());
}

#[test]
fn test_find_less_than() {
    let mut skl = new_test_skl();
    assert_eq!(skl.find_less_than(&Slice::new(b"x")), skl.head());
    for (k, h) in [("k3", 2), ("k1", 1), ("k5", 3)] {
        skl.insert_with_height(&Slice::new(k.as_bytes()), &Slice::new(b""), h).unwrap();
    }
    assert_eq!(skl.find_less_than(&Slice::new(b"k1")), skl.head());
    assert_eq!(skl.find_less_than(&Slice::new(b"a")), skl.head());
    assert_eq!(key_at(&skl, skl.find_less_than(&Slice::new(b"k2"))), b"k1".to_vec());
    assert_eq!(key_at(&skl, skl.find_less_than(&Slice::new(b"k5"))), b"k3".to_vec());
    assert_eq!(key_at(&skl, skl.find_less_than(&Slice::new(b"z"))), b"k5".to_vec());
}

#[test]
fn find_last_returns_largest_or_head() {
    let mut skl = new_test_skl();
    assert_eq!(skl.find_last(), skl.head());
    for k in ["m", "z", "a", "q"] {
        skl.insert(&Slice::new(k.as_bytes()), &Slice::new(b"v")).unwrap();
    }
    assert_eq!(key_at(&skl, skl.find_last()), b"z".to_vec());
}

#[test]
fn test_basic() {
    let mut skl = new_test_skl();
    let keys: Vec<Vec<u8>> = vec![
        b"delta".to_vec(),
        b"alpha".to_vec(),
        b"echo".to_vec(),
        b"".to_vec(),
        b"charlie".to_vec(),
        b"bravo".to_vec(),
        b"alpha2".to_vec(),
    ];
    for k in &keys {
        let mut v = k.clone();
        v.reverse();
        skl.insert(&Slice::from_vec(k.clone()), &Slice::from_vec(v)).unwrap();
    }
    let mut sorted = keys.clone();
    sorted.sort();
    assert_eq!(level_keys(&skl, 1), sorted);
    // every higher level is an ordered subsequence of level 1
    for level in 2..=skl.max_height() {
        let lk = level_keys(&skl, level);
        let mut it = sorted.iter();
        for k in &lk {
            assert!(it.any(|x| x == k));
        }
    }
    let mut prev = vec![0usize; MAX_HEIGHT];
    for k in &keys {
        let n = skl.find_greater_or_equal(&Slice::from_vec(k.clone()), &mut prev).unwrap();
        let mut v = k.clone();
        v.reverse();
        assert_eq!(skl.arena().node(n).value(skl.arena()).to_slice(), v.as_slice());
    }
}

#[test]
fn many_keys_in_random_order_come_out_sorted() {
    let mut skl = new_test_skl();
    let mut keys = vec![];
    let mut x: u32 = 12345;
    for _ in 0..500 {
        x = x.wrapping_mul(1103515245).wrapping_add(12345);
        let k = format!("{:08}", x % 100000).into_bytes();
        if !keys.contains(&k) {
            keys.push(k.clone());
            skl.insert(&Slice::from_vec(k), &Slice::new(b"v")).unwrap();
        }
    }
    keys.sort();
    assert_eq!(level_keys(&skl, 1), keys);
}

#[test]
fn duplicate_insert_is_rejected_and_changes_nothing() {
    let mut skl = new_test_skl();
    skl.insert_with_height(&Slice::new(b"a"), &Slice::new(b"1"), 3).unwrap();
    skl.insert_with_height(&Slice::new(b"b"), &Slice::new(b"2"), 1).unwrap();
    let used = skl.arena().memory_used();
    let height = skl.max_height();
    assert_eq!(skl.insert_with_height(&Slice::new(b"a"), &Slice::new(b"9"), 7), Err(TinyError::DuplicateKey));
    assert_eq!(skl.insert(&Slice::new(b"b"), &Slice::new(b"9")), Err(TinyError::DuplicateKey));
    assert_eq!(skl.arena().memory_used(), used);
    assert_eq!(skl.max_height(), height);
    assert_eq!(level_keys(&skl, 1), vec![b"a".to_vec(), b"b".to_vec()]);
    let mut prev = vec![0usize; MAX_HEIGHT];
    let n = skl.find_greater_or_equal(&Slice::new(b"a"), &mut prev).unwrap();
    assert_eq!(skl.arena().node(n).value(skl.arena()).to_slice(), b"1");
}

#[test]
fn insert_without_room_is_out_of_space() {
    assert!(matches!(SkipList::new(100, BytewiseComparator::new()), Err(TinyError::OutOfSpace)));
    let mut skl = SkipList::new(200, BytewiseComparator::new()).unwrap();
    assert_eq!(skl.arena().memory_used(), 136);
    // a node of height 1 with a 10-byte key takes 40 + 8 + 10 bytes
    assert_eq!(skl.insert_with_height(&Slice::new(&[1u8; 10]), &Slice::new(b""), 1), Ok(()));
    assert_eq!(skl.arena().memory_used(), 194);
    assert_eq!(
        skl.insert_with_height(&Slice::new(&[2u8; 10]), &Slice::new(b""), 1),
        Err(TinyError::OutOfSpace)
    );
    assert_eq!(skl.arena().memory_used(), 194);
    assert_eq!(level_keys(&skl, 1), vec![vec![1u8; 10]]);
}

#[test]
fn node_links_and_payload() {
    let mut skl = new_test_skl();
    let before = skl.arena().memory_used();
    let mut arena = tinydb::arena::AggressiveArena::new(1000);
    let n = Node::new(&Slice::new(b"key"), &Slice::new(b"value"), 3, &mut arena).unwrap();
    assert_eq!(arena.memory_used(), 40 + 3 * 8 + 3 + 5);
    let node = arena.node(n);
    assert_eq!(node.key(&arena).to_slice(), b"key");
    assert_eq!(node.value(&arena).to_slice(), b"value");
    assert_eq!(node.get_next(3), None);
    arena.set_next(n, 2, Some(7));
    assert_eq!(arena.node(n).get_next(2), Some(7));
    assert_eq!(arena.node(n).get_next(1), None);
    skl.insert(&Slice::new(b"x"), &Slice::new(b"y")).unwrap();
    assert!(skl.arena().memory_used() > before);
}
