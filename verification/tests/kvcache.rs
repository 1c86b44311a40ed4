use keel::kvcache::{make_key, safe_name, KvCacheStore, KvError, KvLookup, KvMeta};
use keel::pb::KvEntry;

fn entry(hash: &str, model: &str, data: Vec<u8>) -> KvEntry {
    KvEntry {
        prefix_hash: hash.to_string(),
        model_id: model.to_string(),
        seq_len: 128,
        data,
        created_at_ms: 0,
        ttl_ms: 0,
    }
}

fn kv(hash: &str, model: &str, data: &[u8]) -> KvEntry {
    KvEntry {
        prefix_hash: hash.to_string(),
        model_id: model.to_string(),
        seq_len: 64,
        data: data.to_vec(),
        created_at_ms: 0,
        ttl_ms: 0,
    }
}

fn write(store: &mut KvCacheStore, e: &KvEntry) -> Option<KvMeta> {
    let meta = store.plan_write(e).unwrap();
    store.record_write(meta)
}

fn is_some(r: KvLookup) -> bool {
    matches!(r, KvLookup::Hit(_))
}

#[test]
fn test_safe_name() {
    assert_eq!(safe_name("llama/3-8b"), "llama_3-8b");
    assert_eq!(safe_name("a\\b:c"), "a_b_c");
}

#[test]
fn store_test_read_missing_returns_none() {
    let mut store = KvCacheStore::new("/tmp/kv", 10);
    assert!(!is_some(store.lookup("nonexistent", "model")));
}

#[test]
fn test_evict_model() {
    let mut store = KvCacheStore::new("/tmp/kv", 100);
    write(&mut store, &entry("a", "mx", vec![1]));
    write(&mut store, &entry("b", "mx", vec![2]));
    write(&mut store, &entry("c", "my", vec![3]));
    let n = store.evict_model("mx").len() as u32;
    assert_eq!(n, 2);
    assert!(!is_some(store.lookup("a", "mx")));
    assert!(is_some(store.lookup("c", "my")));
}

#[test]
fn test_evict_all() {
    let mut store = KvCacheStore::new("/tmp/kv", 100);
    write(&mut store, &entry("a", "m1", vec![1]));
    write(&mut store, &entry("b", "m2", vec![2]));
    assert_eq!(store.evict_model("").len(), 2);
    assert_eq!(store.count(), 0);
}

#[test]
fn test_lru_eviction_at_capacity() {
    let mut store = KvCacheStore::new("/tmp/kv", 3);
    for i in 0..4u8 {
        write(&mut store, &entry(&format!("h{}", i), "m", vec![i]));
    }
    assert_eq!(store.count(), 3);
    assert!(!is_some(store.lookup("h0", "m")));
    assert!(is_some(store.lookup("h3", "m")));
}

#[test]
fn store_test_ttl_expiry() {
    let mut store = KvCacheStore::new("/tmp/kv", 10);
    let mut e = entry("ttl", "m", vec![42]);
    e.created_at_ms = 1;
    e.ttl_ms = 1;
    write(&mut store, &e);
    assert!(!is_some(store.lookup("ttl", "m")));
}

#[test]
fn test_count() {
    let mut store = KvCacheStore::new("/tmp/kv", 100);
    assert_eq!(store.count(), 0);
    write(&mut store, &entry("a", "m", vec![]));
    write(&mut store, &entry("b", "m", vec![]));
    assert_eq!(store.count(), 2);
}

#[test]
fn test_kv_read_missing_returns_none() {
    let mut store = KvCacheStore::new("/tmp/kv", 100);
    assert!(!is_some(store.lookup("no-such-prefix", "llama")));
}

#[test]
fn test_kv_evict_model() {
    let mut store = KvCacheStore::new("/tmp/kv", 100);
    write(&mut store, &kv("a", "model-a", &[1]));
    write(&mut store, &kv("b", "model-a", &[2]));
    write(&mut store, &kv("c", "model-b", &[3]));
    let n = store.evict_model("model-a").len() as u32;
    assert_eq!(n, 2);
    assert!(!is_some(store.lookup("a", "model-a")));
    assert!(!is_some(store.lookup("b", "model-a")));
    assert!(is_some(store.lookup("c", "model-b")));
}

#[test]
fn test_kv_evict_all() {
    let mut store = KvCacheStore::new("/tmp/kv", 100);
    for i in 0..5u8 {
        write(&mut store, &kv(&format!("h{}", i), "m", &[i]));
    }
    let n = store.evict_model("").len() as u32;
    assert_eq!(n, 5);
    assert_eq!(store.count(), 0);
}

#[test]
fn test_kv_lru_eviction_at_capacity() {
    let mut store = KvCacheStore::new("/tmp/kv", 3);
    write(&mut store, &kv("h0", "m", &[0]));
    write(&mut store, &kv("h1", "m", &[1]));
    write(&mut store, &kv("h2", "m", &[2]));
    let evicted = write(&mut store, &kv("h3", "m", &[3]));
    assert_eq!(evicted.map(|m| m.prefix_hash), Some("h0".to_string()));
    assert_eq!(store.count(), 3);
    assert!(!is_some(store.lookup("h0", "m")), "h0 should be evicted");
    assert!(is_some(store.lookup("h3", "m")));
}

#[test]
fn test_kv_ttl_expiry() {
    let mut store = KvCacheStore::new("/tmp/kv", 100);
    let mut e = kv("ttl-key", "m", &[42]);
    e.created_at_ms = 1;
    e.ttl_ms = 1;
    write(&mut store, &e);
    assert!(!is_some(store.lookup("ttl-key", "m")));
}

#[test]
fn write_then_read_gives_the_record() {
    let mut store = KvCacheStore::new("/data/kv", 10);
    write(&mut store, &kv("prefix-abc", "gpt-4", &[1, 2, 3, 4]));
    match store.lookup("prefix-abc", "gpt-4") {
        KvLookup::Hit(m) => {
            assert_eq!(m.seq_len, 64);
            assert_eq!(m.model_id, "gpt-4");
            assert_eq!(m.file_size, 4);
            assert_eq!(m.file_path, "/data/kv/gpt-4/prefix-abc.bin");
        }
        other => panic!("expected a hit, got {:?}", other),
    }
}

#[test]
fn overwrite_replaces_the_record() {
    let mut store = KvCacheStore::new("kv", 10);
    write(&mut store, &kv("h1", "m", &[1, 2, 3]));
    write(&mut store, &kv("h1", "m", &[9, 8, 7, 6]));
    assert_eq!(store.count(), 1);
    match store.lookup("h1", "m") {
        KvLookup::Hit(m) => assert_eq!(m.file_size, 4),
        other => panic!("expected a hit, got {:?}", other),
    }
}

#[test]
fn read_refreshes_recency() {
    let mut store = KvCacheStore::new("kv", 2);
    write(&mut store, &kv("a", "m", &[1]));
    write(&mut store, &kv("b", "m", &[2]));
    assert!(is_some(store.lookup("a", "m")));
    let evicted = write(&mut store, &kv("c", "m", &[3]));
    assert_eq!(evicted.map(|m| m.prefix_hash), Some("b".to_string()));
    assert!(is_some(store.lookup("a", "m")));
}

#[test]
fn zero_capacity_evicts_what_was_written() {
    let mut store = KvCacheStore::new("kv", 0);
    let evicted = write(&mut store, &kv("a", "m", &[1]));
    assert_eq!(evicted.map(|m| m.prefix_hash), Some("a".to_string()));
    assert_eq!(store.count(), 0);
}

#[test]
fn expired_entry_leaves_the_index() {
    let mut store = KvCacheStore::new("kv", 10);
    let mut e = kv("old", "m", &[1]);
    e.created_at_ms = 100;
    e.ttl_ms = 50;
    write(&mut store, &e);
    assert!(matches!(store.lookup_at("old", "m", 150), KvLookup::Hit(_)));
    assert!(matches!(store.lookup_at("old", "m", 151), KvLookup::Expired(_)));
    assert_eq!(store.count(), 0);
    assert!(matches!(store.lookup_at("old", "m", 151), KvLookup::Miss));
}

#[test]
fn empty_names_are_refused() {
    let store = KvCacheStore::new("kv", 10);
    assert!(matches!(store.plan_write(&kv("", "m", &[1])), Err(KvError::Index(_))));
    assert!(matches!(store.plan_write(&kv("h", "", &[1])), Err(KvError::Index(_))));
}

#[test]
fn plan_write_uses_given_time_and_safe_paths() {
    let store = KvCacheStore::new("/d/", 10);
    let m = store.plan_write_at(&kv("x/y", "a:b", &[1, 2]), 777).unwrap();
    assert_eq!(m.created_at_ms, 777);
    assert_eq!(m.file_path, "/d/a_b/x_y.bin");
    assert_eq!(store.model_dir("a:b"), "/d/a_b");
    let mut e = kv("h", "m", &[]);
    e.created_at_ms = 5;
    assert_eq!(store.plan_write_at(&e, 777).unwrap().created_at_ms, 5);
    let fresh = store.plan_write(&kv("h", "m", &[])).unwrap();
    assert!(fresh.created_at_ms > 0);
}

#[test]
fn make_key_separates_with_nul() {
    assert_eq!(make_key("m", "h"), "m\u{0}h");
}

#[test]
fn delete_entry_and_snapshot() {
    let mut store = KvCacheStore::new("kv", 10);
    write(&mut store, &kv("a", "m", &[1]));
    write(&mut store, &kv("b", "m", &[2]));
    let snap = store.snapshot();
    assert_eq!(snap.len(), 2);
    assert_eq!(snap[0].0, make_key("m", "b"));
    let gone = store.delete_entry(&make_key("m", "a"));
    assert_eq!(gone.map(|m| m.prefix_hash), Some("a".to_string()));
    assert!(store.delete_entry(&make_key("m", "a")).is_none());
    assert_eq!(store.count(), 1);
}

#[test]
fn restore_keeps_first_of_each_key() {
    let mk = |h: &str| KvMeta {
        prefix_hash: h.to_string(),
        model_id: "m".to_string(),
        seq_len: 1,
        file_path: format!("kv/m/{}.bin", h),
        file_size: 1,
        created_at_ms: 10,
        ttl_ms: 0,
    };
    let loaded = vec![
        (make_key("m", "a"), mk("a")),
        (make_key("m", "b"), mk("b")),
        (make_key("m", "a"), mk("z")),
    ];
    let mut store = KvCacheStore::restore("kv", 10, loaded);
    assert_eq!(store.count(), 2);
    match store.lookup("a", "m") {
        KvLookup::Hit(m) => assert_eq!(m.prefix_hash, "a"),
        other => panic!("expected a hit, got {:?}", other),
    }
}

fn hit(r: KvLookup) -> KvMeta {
    match r {
        KvLookup::Hit(m) => m,
        other => panic!("expected a hit, got {:?}", other),
    }
}

#[test]
fn test_write_and_read_roundtrip() {
    let mut store = KvCacheStore::new("/tmp/kv", 10);
    let payload = vec![0xde, 0xad, 0xbe, 0xef];
    write(&mut store, &entry("hash1", "llama", payload.clone()));
    let got = hit(store.lookup("hash1", "llama"));
    assert_eq!(got.file_size, payload.len() as u64);
    assert_eq!(got.seq_len, 128);
}

#[test]
fn test_empty_data_roundtrip() {
    let mut store = KvCacheStore::new("/tmp/kv", 10);
    write(&mut store, &entry("empty", "model", vec![]));
    let got = hit(store.lookup("empty", "model"));
    assert_eq!(got.file_size, 0);
}

#[test]
fn test_overwrite_updates_data() {
    let mut store = KvCacheStore::new("/tmp/kv", 10);
    write(&mut store, &entry("h1", "m", vec![1, 2, 3]));
    write(&mut store, &entry("h1", "m", vec![9, 9]));
    let got = hit(store.lookup("h1", "m"));
    assert_eq!(got.file_size, 2);
    assert_eq!(store.count(), 1);
}

#[test]
fn test_index_persists_and_reloads() {
    let mut s = KvCacheStore::new("/tmp/kv-persist", 100);
    write(&mut s, &entry("ph", "mod", vec![7, 8, 9]));
    let mut s2 = KvCacheStore::restore("/tmp/kv-persist", 100, s.snapshot());
    let got = hit(s2.lookup("ph", "mod"));
    assert_eq!(got.file_size, 3);
    assert_eq!(got.file_path, "/tmp/kv-persist/mod/ph.bin");
}

#[test]
fn test_kv_write_and_read_roundtrip() {
    let mut store = KvCacheStore::new("/tmp/kv", 100);
    let payload: Vec<u8> = (0u8..=15).collect();
    write(&mut store, &kv("prefix-abc", "gpt-4", &payload));
    let got = hit(store.lookup("prefix-abc", "gpt-4"));
    assert_eq!(got.file_size, payload.len() as u64);
    assert_eq!(got.seq_len, 64);
    assert_eq!(got.model_id, "gpt-4");
}

#[test]
fn test_kv_large_payload_mmap() {
    let mut store = KvCacheStore::new("/tmp/kv", 10);
    let big: Vec<u8> = (0u8..=255).cycle().take(4 * 1024 * 1024).collect();
    write(&mut store, &kv("big-prefix", "llama-3-8b", &big));
    let got = hit(store.lookup("big-prefix", "llama-3-8b"));
    assert_eq!(got.file_size, big.len() as u64);
    assert_eq!(got.file_path, "/tmp/kv/llama-3-8b/big-prefix.bin");
}

#[test]
fn test_kv_overwrite_updates_data() {
    let mut store = KvCacheStore::new("/tmp/kv", 100);
    write(&mut store, &kv("h1", "m", &[1, 2, 3]));
    write(&mut store, &kv("h1", "m", &[9, 8, 7, 6]));
    let got = hit(store.lookup("h1", "m"));
    assert_eq!(got.file_size, 4);
}

#[test]
fn test_kv_index_persists_across_reopen() {
    let mut s = KvCacheStore::new("/tmp/kv-reopen", 100);
    write(&mut s, &kv("persisted", "model-p", &[10, 20, 30]));
    let mut s2 = KvCacheStore::restore("/tmp/kv-reopen", 100, s.snapshot());
    let got = hit(s2.lookup("persisted", "model-p"));
    assert_eq!(got.file_size, 3);
    assert_eq!(got.prefix_hash, "persisted");
}
