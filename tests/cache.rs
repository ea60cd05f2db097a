use gdbm_core::avail::AvailElem;
use gdbm_core::bucket::{Bucket, BucketCache};

fn bucket(bits: u32) -> Bucket {
    Bucket {
        av_count: 0,
        avail: vec![AvailElem { sz: 0, addr: 0 }; 6],
        bits,
        count: 0,
        tab: Vec::new(),
    }
}

#[test]
fn dirty_offsets_ascending() {
    let mut c = BucketCache::new();
    c.update(300, bucket(1));
    c.update(100, bucket(2));
    c.update(200, bucket(3));
    assert_eq!(c.dirty_list(), vec![100, 200, 300]);
}

#[test]
fn clear_dirty_keeps_buckets() {
    let mut c = BucketCache::new();
    c.update(300, bucket(1));
    c.update(100, bucket(2));
    c.update(200, bucket(3));
    c.clear_dirty();
    assert_eq!(c.dirty_list(), Vec::<u64>::new());
    assert!(c.contains(100));
    assert!(c.contains(200));
    assert!(c.contains(300));
}

#[test]
fn insert_does_not_mark() {
    let mut c = BucketCache::new();
    assert!(!c.contains(8));
    c.insert(8, bucket(1));
    assert!(c.contains(8));
    assert!(c.dirty_list().is_empty());
    assert_eq!(c.bucket_map[&8].bits, 1);
}

#[test]
fn update_replaces_and_marks_once() {
    let mut c = BucketCache::new();
    c.insert(8, bucket(1));
    c.update(8, bucket(2));
    c.update(8, bucket(4));
    assert_eq!(c.bucket_map[&8].bits, 4);
    assert_eq!(c.dirty_list(), vec![8]);
}

#[test]
fn mark_without_content() {
    let mut c = BucketCache::new();
    c.dirty(u64::MAX);
    c.dirty(0);
    assert_eq!(c.dirty_list(), vec![0, u64::MAX]);
    assert!(!c.contains(0));
}
