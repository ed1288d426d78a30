use std::cmp::Ordering;
use tinydb::byte::compare;
use tinydb::comparator::{BytewiseComparator, Comparator};
use tinydb::config::Config;
use tinydb::db::{open_db, DB};
use tinydb::slice::Slice;

#[test]
fn it_works() {
    assert_eq!(2 + 2, 4);
}

#[test]
fn test_invarint_equal() {
    assert!(true, "equal");
}

#[test]
fn test_compare() {
    let tests = vec![
        (vec![], vec![], Ordering::Equal),
        (vec![], vec![1u8], Ordering::Less),
        (vec![1u8], vec![1u8, 2u8], Ordering::Less),
        (vec![1u8, 2u8], vec![1u8], Ordering::Greater),
        (vec![1u8, 2u8, 3u8], vec![1u8, 2u8, 3u8], Ordering::Equal),
        (vec![1u8, 3u8, 3u8], vec![1u8, 2u8, 2u8], Ordering::Greater),
    ];
    for (i, (b1, b2, expect)) in tests.iter().enumerate() {
        assert_eq!(compare(b1.as_slice(), b2.as_slice()), *expect, "compare testing :{}", i + 1);
    }
}

#[test]
fn compare_decides_on_first_differing_byte() {
    assert_eq!(compare(&[0u8, 255], &[1u8]), Ordering::Less);
    assert_eq!(compare(&[2u8], &[1u8, 9, 9]), Ordering::Greater);
}

#[test]
fn slice_basics() {
    let mut s = Slice::new(&[1u8, 2, 3]);
    assert_eq!(s.size(), 3);
    assert_eq!(s.to_slice(), &[1u8, 2, 3]);
    assert!(s == Slice::from(vec![1u8, 2, 3]));
    assert!(s != Slice::from_vec(vec![1u8, 2]));
    assert_eq!(s.compare(&Slice::new(&[1u8, 2, 4])), Ordering::Less);
    s.clear();
    assert_eq!(s.size(), 0);
    assert!(s == Slice::new_empty());
}

#[test]
fn bytewise_comparator() {
    let c = BytewiseComparator::new();
    assert_eq!(c.name(), "tinydb.BytewiseComparator");
    let a = Slice::new(b"abc");
    let b = Slice::new(b"abd");
    assert_eq!(c.compare(&a, &b), Ordering::Less);
    assert_eq!(c.compare(&b, &a), Ordering::Greater);
    assert_eq!(c.compare(&a, &Slice::new(b"abc")), Ordering::Equal);
}

#[test]
fn open_db_with_config() {
    let config = Config { dir: String::from("/tmp/db"), value_dir: String::from("/tmp/db") };
    let _db: DB = open_db(config);
    let _other = DB::new();
}
