use beet::storage::{hash_key, shard_index, Storage, TTL_MAX};
use bytes::Bytes;
use std::collections::hash_map::DefaultHasher;
use std::hash::Hasher;

fn b(s: &str) -> Bytes {
    Bytes::copy_from_slice(s.as_bytes())
}

#[test]
fn read_after_write_until_expiry() {
    let mut st = Storage::new();
    assert!(st.set_at(b("k"), b("v"), 100, 1000).is_none());
    assert_eq!(st.get_at(&b("k"), 1000).as_deref(), Some(&b"v"[..]));
    assert_eq!(st.get_at(&b("k"), 1100).as_deref(), Some(&b"v"[..]));
    assert_eq!(st.get_at(&b("k"), 1101), None);
    assert_eq!(st.get_at(&b("other"), 1000), None);
}

#[test]
fn overwrite_returns_previous_entry() {
    let mut st = Storage::new();
    st.set_at(b("k"), b("one"), 10, 0);
    let old = st.set_at(b("k"), b("two"), 50, 5).expect("previous entry");
    assert_eq!(&old.value[..], b"one");
    assert_eq!(old.ttl, 10);
    assert_eq!(st.get_at(&b("k"), 40).as_deref(), Some(&b"two"[..]));
}

#[test]
fn writes_to_other_keys_do_not_interfere() {
    let mut st = Storage::new();
    for i in 0..200u32 {
        st.set_at(b(&format!("key_{}", i)), b(&format!("val_{}", i)), 1000, 0);
    }
    for i in 0..200u32 {
        let got = st.get_at(&b(&format!("key_{}", i)), 500).expect("stored");
        assert_eq!(got, b(&format!("val_{}", i)));
    }
}

#[test]
fn eviction_drops_only_expired_entries() {
    let mut st = Storage::new();
    st.set_at(b("short"), b("s"), 10, 0);
    st.set_at(b("edge"), b("e"), 20, 0);
    st.set_at(b("long"), b("l"), 100, 0);
    assert!(!st.is_empty());
    st.evict_expired_at(20);
    assert_eq!(st.get_at(&b("short"), 0), None);
    assert_eq!(st.get_at(&b("edge"), 20).as_deref(), Some(&b"e"[..]));
    assert_eq!(st.get_at(&b("long"), 50).as_deref(), Some(&b"l"[..]));
    st.evict_expired_at(21);
    assert_eq!(st.get_at(&b("edge"), 0), None);
    st.evict_expired_at(1000);
    assert!(st.is_empty());
}

#[test]
fn eviction_is_idempotent() {
    let mut st = Storage::new();
    st.set_at(b("a"), b("1"), 5, 0);
    st.set_at(b("b"), b("2"), 50, 0);
    st.evict_expired_at(10);
    st.evict_expired_at(10);
    assert_eq!(st.get_at(&b("a"), 0), None);
    assert_eq!(st.get_at(&b("b"), 10).as_deref(), Some(&b"2"[..]));
}

#[test]
fn clock_based_set_then_get() {
    let mut st = Storage::new();
    assert!(st.set(b("key"), b("cached_payload_data"), 5000).expect("fits").is_none());
    assert_eq!(st.get(&b("key")).as_deref(), Some(&b"cached_payload_data"[..]));
    st.evict_expired();
    assert_eq!(st.get(&b("key")).as_deref(), Some(&b"cached_payload_data"[..]));
    assert_eq!(st.get(&b("absent")), None);
}

#[test]
fn zero_ttl_expires_once_the_clock_moves() {
    let mut st = Storage::new();
    st.set_at(b("k"), b("v"), 0, 7);
    assert_eq!(st.get_at(&b("k"), 7).as_deref(), Some(&b"v"[..]));
    assert_eq!(st.get_at(&b("k"), 8), None);
}

#[test]
fn largest_ttl_is_accepted() {
    let mut st = Storage::new();
    assert!(st.set(b("k"), b("v"), TTL_MAX).is_ok());
    assert_eq!(st.get(&b("k")).as_deref(), Some(&b"v"[..]));
}

#[test]
fn ttl_overflowing_the_clock_is_refused() {
    let mut st = Storage::new();
    st.set_at(b("k"), b("old"), 100, 0);
    assert!(st.set(b("k"), b("new"), u128::MAX).is_err());
    assert_eq!(st.get_at(&b("k"), 50).as_deref(), Some(&b"old"[..]));
    // Under today's clock a TTL just above the always-safe bound still fits.
    assert!(st.set(b("k"), b("new"), TTL_MAX + 1).is_ok());
}

#[test]
fn second_write_replaces_value_and_expiry() {
    let mut st = Storage::new();
    st.set_at(b("k"), b("v1"), 100000, 0);
    st.set_at(b("k"), b("v2"), 10, 5);
    assert_eq!(st.get_at(&b("k"), 15).as_deref(), Some(&b"v2"[..]));
    assert_eq!(st.get_at(&b("k"), 16), None);
}

#[test]
fn hash_matches_default_hasher() {
    let mut h = DefaultHasher::new();
    h.write(b"key_1");
    assert_eq!(hash_key(b"key_1"), h.finish());
}

#[test]
fn routing_is_stable_and_in_range() {
    for n in 1..9usize {
        for i in 0..50u32 {
            let k = b(&format!("key_{}", i));
            let idx = shard_index(&k, n);
            assert!(idx < n);
            assert_eq!(idx, shard_index(&b(&format!("key_{}", i)), n));
            let mut h = DefaultHasher::new();
            h.write(&k);
            assert_eq!(idx, (h.finish() as usize) % n);
        }
    }
}

#[test]
fn absence_lasts_until_the_key_is_written() {
    let mut st = Storage::new();
    st.set_at(b("k"), b("v"), 10, 0);
    assert_eq!(st.get_at(&b("k"), 11), None);
    st.set_at(b("other"), b("x"), 1000, 12);
    st.evict_expired_at(5);
    assert_eq!(st.get_at(&b("k"), 20), None);
    st.evict_expired_at(30);
    assert_eq!(st.get_at(&b("k"), 40), None);
    st.set_at(b("k"), b("w"), 10, 40);
    assert_eq!(st.get_at(&b("k"), 45).as_deref(), Some(&b"w"[..]));
}

#[test]
fn each_key_lives_in_one_shard() {
    let n = 5usize;
    let mut shards: Vec<Storage> = (0..n).map(|_| Storage::new()).collect();
    for round in 0..3u32 {
        for i in 0..40u32 {
            let k = b(&format!("key_{}", i));
            let j = shard_index(&k, n);
            shards[j].set_at(k, b(&format!("v{}_{}", round, i)), 100, 0);
        }
    }
    for i in 0..40u32 {
        let k = b(&format!("key_{}", i));
        let home = shard_index(&k, n);
        for (j, shard) in shards.iter().enumerate() {
            let got = shard.get_at(&k, 0);
            if j == home {
                assert_eq!(got, Some(b(&format!("v2_{}", i))));
            } else {
                assert_eq!(got, None);
            }
        }
    }
}
