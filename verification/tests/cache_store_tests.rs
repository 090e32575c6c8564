use cache::models::arena::{Arena, ArenaPtr};
use cache::models::cache_store::CacheStore;

fn usage(store: &CacheStore) -> f64 {
    let arena = store.arena();
    arena.alloc_offset as f64 / arena.capacity as f64
}

#[test]
fn test_compaction_reclaims_dead_space() {
    let mut store = CacheStore::new(100);

    store
        .set(b"baseline_key".to_vec(), b"baseline_data")
        .unwrap();

    for i in 0..10 {
        let val = format!("data_v{:02}", i);
        let res = store.set(b"churn_key".to_vec(), val.as_bytes());
        assert!(res.is_ok(), "Failed at iteration {}", i);
        println!("{}", usage(&store));
    }

    assert_eq!(store.get(b"baseline_key").unwrap(), b"baseline_data");

    assert_eq!(store.get(b"churn_key").unwrap(), b"data_v09");

    assert!(usage(&store) < 0.8, "Memory was not reclaimed");
}

#[test]
fn arena_allocates_front_to_back() {
    let mut arena = Arena::new(8);
    assert_eq!(arena.memory, vec![0; 8]);
    let p = arena.allocate(&[1, 2, 3]).unwrap();
    assert_eq!((p.offset, p.length), (0, 3));
    let q = arena.allocate(&[4, 5, 6, 7, 8]).unwrap();
    assert_eq!((q.offset, q.length), (3, 5));
    assert_eq!(arena.read(p), &[1, 2, 3]);
    assert_eq!(arena.read(q), &[4, 5, 6, 7, 8]);
    assert!(arena.allocate(&[9]).is_none());
    assert_eq!(arena.alloc_offset, 8);
    assert_eq!(arena.read(ArenaPtr { offset: 2, length: 2 }), &[3, 4]);
}

#[test]
fn store_get_set_delete() {
    let mut store = CacheStore::new(64);
    assert!(store.get(b"a").is_none());
    assert_eq!(store.set(b"a".to_vec(), b"one"), Ok(()));
    assert_eq!(store.set(b"b".to_vec(), b"two"), Ok(()));
    assert_eq!(store.get(b"a").unwrap(), b"one");
    assert_eq!(store.set(b"a".to_vec(), b"uno"), Ok(()));
    assert_eq!(store.get(b"a").unwrap(), b"uno");
    assert_eq!(store.get(b"b").unwrap(), b"two");
    assert!(store.delete(b"a"));
    assert!(!store.delete(b"a"));
    assert!(store.get(b"a").is_none());
    assert_eq!(store.get(b"b").unwrap(), b"two");
    assert_eq!(store.arena().alloc_offset, 9);
}

#[test]
fn store_refuses_value_that_does_not_fit() {
    let mut store = CacheStore::new(10);
    assert_eq!(store.set(b"k".to_vec(), b"12345678"), Ok(()));
    assert_eq!(store.set(b"j".to_vec(), b"123"), Err("Failed to allocate in arena"));
    assert_eq!(store.get(b"k").unwrap(), b"12345678");
    assert!(store.get(b"j").is_none());
}

#[test]
fn store_refuses_when_live_data_is_above_threshold() {
    let mut store = CacheStore::new(20);
    assert_eq!(store.set(b"k".to_vec(), &[7u8; 18]), Ok(()));
    assert_eq!(store.set(b"j".to_vec(), b"x"), Err("OOM: Arena full even after compaction"));
    assert_eq!(store.get(b"k").unwrap(), &[7u8; 18]);
}

#[test]
fn compaction_makes_room_for_overwrites() {
    let mut store = CacheStore::new(20);
    assert_eq!(store.set(b"k".to_vec(), &[1u8; 9]), Ok(()));
    assert_eq!(store.set(b"k".to_vec(), &[2u8; 9]), Ok(()));
    // 18 of 20 bytes used, 9 live: compaction brings usage down to 9, then
    // the new value follows
    assert_eq!(store.set(b"k".to_vec(), &[3u8; 9]), Ok(()));
    assert_eq!(store.arena().alloc_offset, 18);
    assert_eq!(store.get(b"k").unwrap(), &[3u8; 9]);
}

#[test]
fn large_value_refused_below_threshold() {
    // 84 of 100 bytes used, all dead: no compaction below 85%, so a value of
    // 20 bytes does not fit
    let mut store = CacheStore::new(100);
    assert_eq!(store.set(b"k".to_vec(), &[1u8; 84]), Ok(()));
    assert!(store.delete(b"k"));
    assert_eq!(store.set(b"j".to_vec(), &[2u8; 20]), Err("Failed to allocate in arena"));
}

#[test]
fn empty_arena_accepts_only_empty_values() {
    let mut store = CacheStore::new(0);
    assert_eq!(store.set(b"k".to_vec(), b""), Ok(()));
    assert_eq!(store.get(b"k").unwrap(), b"");
    assert_eq!(store.set(b"j".to_vec(), b"x"), Err("Failed to allocate in arena"));
}

#[test]
fn compaction_keeps_pairs_and_drops_dead_bytes() {
    let mut store = CacheStore::new(64);
    assert_eq!(store.set(b"a".to_vec(), b"1111"), Ok(()));
    assert_eq!(store.set(b"b".to_vec(), b"22"), Ok(()));
    assert_eq!(store.set(b"a".to_vec(), b"333"), Ok(()));
    assert!(store.delete(b"b"));
    assert_eq!(store.arena().alloc_offset, 9);
    store.compact();
    assert_eq!(store.arena().alloc_offset, 3);
    assert_eq!(store.arena().capacity, 64);
    assert_eq!(store.get(b"a").unwrap(), b"333");
    assert!(store.get(b"b").is_none());
}

#[test]
fn get_returns_last_stored_write() {
    let mut store = CacheStore::new(12);
    assert_eq!(store.set(b"k".to_vec(), b"first"), Ok(()));
    assert_eq!(store.set(b"k".to_vec(), b"too long value"), Err("Failed to allocate in arena"));
    assert_eq!(store.get(b"k").unwrap(), b"first");
    assert!(store.delete(b"k"));
    assert!(store.get(b"k").is_none());
    assert_eq!(store.set(b"k".to_vec(), b"again"), Ok(()));
    assert_eq!(store.get(b"k").unwrap(), b"again");
}
