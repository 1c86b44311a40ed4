use keel::chunk_eviction::{EvictionPolicy as ChunkEvictionPolicy, LruEvictionPolicy as ChunkLru};
use keel::cluster::ClusterManager;
use keel::codec::{decode_le_words, encode_le_words};
use keel::config::parse_peers;
use keel::error::StoreError;
use keel::eviction::{EvictionPolicy, LruEvictionPolicy};
use keel::pb::MemoryChunk;
use keel::index::{capacity_to_reserve, HnswIds};
use keel::registry::{embedding_terms, cold_candidates, cold_search_limit, is_expired, is_expired_at, prepare_chunk, prepare_chunk_at};
use keel::service::{first_occurrences, health_status, route_write, route_write_at, WriteRoute};
use keel::signal::now_ms;
use keel::text::contains_str;
use std::collections::HashMap;

fn chunk(id: &str, created: u64) -> MemoryChunk {
    MemoryChunk {
        id: id.to_string(),
        embedding: vec![],
        payload: b"p".to_vec(),
        session_id: "s".to_string(),
        created_at_ms: created,
        ttl_ms: 0,
        meta: HashMap::new(),
    }
}

#[test]
fn lru_orders_by_recency() {
    let mut p = LruEvictionPolicy::new();
    p.on_write("a");
    p.on_write("b");
    p.on_write("c");
    p.on_access("a");
    assert_eq!(p.select_evictions(3, 3), Vec::<String>::new());
    assert_eq!(p.select_evictions(5, 3), vec!["b".to_string(), "c".to_string()]);
    assert_eq!(p.select_evictions(10, 0), vec!["b".to_string(), "c".to_string(), "a".to_string()]);
    p.on_delete("b");
    assert_eq!(p.select_evictions(4, 3), vec!["c".to_string()]);
}

#[test]
fn lru_rewrite_does_not_duplicate() {
    let mut p = LruEvictionPolicy::default();
    p.on_write("x");
    p.on_write("x");
    assert_eq!(p.select_evictions(10, 0), vec!["x".to_string()]);
}

#[test]
fn chunk_policy_evicts_oldest_first() {
    let p = ChunkLru::new();
    let entries = vec![chunk("c", 30), chunk("a", 10), chunk("b", 20), chunk("a2", 10)];
    assert_eq!(p.select_evictions(&entries, 4), Vec::<String>::new());
    assert_eq!(p.select_evictions(&entries, 1), vec!["a".to_string(), "a2".to_string(), "b".to_string()]);
    assert_eq!(p.select_evictions(&entries, 3), vec!["a".to_string()]);
}

#[test]
fn chunk_policy_chooses_by_age_alone() {
    let mut p = ChunkLru::default();
    p.on_write("b");
    p.on_write("b");
    p.on_access("a");
    p.on_delete("c");
    let entries = vec![chunk("b", 5), chunk("a", 1), chunk("c", 9)];
    assert_eq!(p.select_evictions(&entries, 1), vec!["a".to_string(), "b".to_string()]);
    p.on_delete("b");
    assert_eq!(p.select_evictions(&entries, 2), vec!["a".to_string()]);
}

#[test]
fn codec_round_trip_and_values() {
    let w = decode_le_words(&[1, 0, 0, 0, 0x00, 0x00, 0x80, 0x3f]).unwrap();
    assert_eq!(w, vec![1u32, 0x3f80_0000]);
    assert_eq!(f32::from_bits(w[1]), 1.0f32);
    assert_eq!(encode_le_words(&w), vec![1, 0, 0, 0, 0x00, 0x00, 0x80, 0x3f]);
    let words = vec![0xdead_beefu32, 0, u32::MAX];
    assert_eq!(decode_le_words(&encode_le_words(&words)).unwrap(), words);
    assert!(matches!(decode_le_words(&[1, 2, 3]), Err(StoreError::Serialization(_))));
    assert_eq!(decode_le_words(&[]).unwrap(), Vec::<u32>::new());
}

#[test]
fn peers_are_split_and_trimmed() {
    assert_eq!(
        parse_peers(" keel-node-1:50051 , keel-node-2:50051,,\t"),
        vec!["keel-node-1:50051".to_string(), "keel-node-2:50051".to_string()]
    );
    assert_eq!(parse_peers(""), Vec::<String>::new());
    assert_eq!(parse_peers("a"), vec!["a".to_string()]);
    assert_eq!(parse_peers("\u{3000}b\u{a0},c "), vec!["b".to_string(), "c".to_string()]);
}

#[test]
fn merge_keeps_first_of_each_id() {
    let ids = vec![
        Some("a".to_string()),
        Some("b".to_string()),
        Some("a".to_string()),
        None,
        Some(String::new()),
        Some(String::new()),
        None,
        Some("b".to_string()),
    ];
    assert_eq!(
        first_occurrences(&ids),
        vec![true, true, false, true, true, true, true, false]
    );
}

#[test]
fn writes_route_to_live_owner() {
    let mut cm = ClusterManager::new("a".into(), "a:1".into(), vec!["b:1".into()]);
    let mut remote = None;
    for i in 0..100 {
        let s = format!("s{}", i);
        if !cm.is_local_session(&s) {
            remote = Some(s);
            break;
        }
    }
    let s = remote.expect("some session is owned by the peer");
    assert!(matches!(route_write_at(&cm, &s, 0), WriteRoute::Forward(ref a) if a == "b:1"));
    cm.mark_dead_at("b:1", 0);
    assert!(matches!(route_write_at(&cm, &s, 10), WriteRoute::Local));
    assert!(matches!(route_write_at(&cm, &s, 30_000), WriteRoute::Forward(_)));
}

#[test]
fn prepared_chunk_gets_id_and_time() {
    let c = prepare_chunk(chunk("", 0));
    assert_eq!(c.id.len(), 36);
    let chars: Vec<char> = c.id.chars().collect();
    for (i, ch) in chars.iter().enumerate() {
        if [8, 13, 18, 23].contains(&i) {
            assert_eq!(*ch, '-');
        } else {
            assert!(ch.is_ascii_hexdigit() && !ch.is_ascii_uppercase());
        }
    }
    assert_eq!(chars[14], '4');
    assert!(['8', '9', 'a', 'b'].contains(&chars[19]));
    assert!(c.created_at_ms > 0);
    let d = prepare_chunk(chunk("keep", 5));
    assert_eq!(d.id, "keep");
    assert_eq!(d.created_at_ms, 5);
    assert!(now_ms() > 0);
}

#[test]
fn chunk_expiry() {
    let mut c = chunk("x", 1);
    assert!(!is_expired(&c));
    c.ttl_ms = 1;
    assert!(is_expired(&c));
    assert!(!is_expired_at(&c, 2));
    assert!(is_expired_at(&c, 3));
    c.created_at_ms = u64::MAX;
    c.ttl_ms = u64::MAX;
    assert!(!is_expired_at(&c, u64::MAX));
}

fn strings(v: &[&str]) -> Vec<String> {
    v.iter().map(|s| s.to_string()).collect()
}

#[test]
fn health_status_lines() {
    assert_eq!(health_status(0, 0), "ok (peers: 0)");
    assert_eq!(health_status(2, 0), "ok (peers: 2)");
    assert_eq!(health_status(3, 1), "ok (peers: 3, dead: 1)");
    assert_eq!(health_status(12, 10), "ok (peers: 12, dead: 10)");
}

#[test]
fn writes_route_now() {
    let mut cm = ClusterManager::new("a".into(), "a:1".into(), vec!["b:1".into()]);
    let mut remote = None;
    let mut local = None;
    for i in 0..100 {
        let s = format!("s{}", i);
        if cm.is_local_session(&s) {
            local.get_or_insert(s);
        } else {
            remote.get_or_insert(s);
        }
    }
    let (s, l) = (remote.unwrap(), local.unwrap());
    assert!(matches!(route_write(&cm, &l), WriteRoute::Local));
    assert!(matches!(route_write(&cm, &s), WriteRoute::Forward(ref a) if a == "b:1"));
    cm.mark_dead("b:1");
    assert!(matches!(route_write(&cm, &s), WriteRoute::Local));
    cm.clear_dead("b:1");
    assert!(matches!(route_write(&cm, &s), WriteRoute::Forward(_)));
}

#[test]
fn cold_tier_limit_and_candidates() {
    assert_eq!(cold_search_limit(10, 4), Some(18));
    assert_eq!(cold_search_limit(1, 0), Some(3));
    assert_eq!(cold_search_limit(3, 3), None);
    assert_eq!(cold_search_limit(3, 5), None);
    assert_eq!(
        cold_candidates(&strings(&["a"]), &strings(&["b", "a", "c", "b", "d"])),
        strings(&["b", "c", "d"])
    );
    assert!(cold_candidates(&strings(&["x"]), &strings(&["x", "x"])).is_empty());
    assert_eq!(cold_candidates(&vec![], &strings(&["p", "p", "q"])), strings(&["p", "q"]));
}

#[test]
fn text_helpers() {
    assert!(contains_str(&strings(&["a", "bc"]), "bc"));
    assert!(!contains_str(&strings(&["a", "bc"]), "b"));
}

#[test]
fn hnsw_ids_bookkeeping() {
    let mut ids = HnswIds::new(3);
    assert_eq!(ids.dimensions(), 3);
    assert!(ids.check_len("Vector", 3).is_ok());
    match ids.check_len("Query vector", 2) {
        Err(keel::error::KeelError::Index(m)) => {
            assert_eq!(m, "Query vector dimension mismatch: expected 3, got 2")
        }
        other => panic!("unexpected {:?}", other),
    }
    assert_eq!(ids.claim_key().unwrap(), 0);
    ids.bind("vec1", 0);
    assert_eq!(ids.claim_key().unwrap(), 1);
    ids.bind("vec2", 1);
    assert!(ids.contains("vec1"));
    assert_eq!(
        ids.name_hits(&vec![1, 7, 0]),
        vec![("vec2".to_string(), 0), ("vec1".to_string(), 2)]
    );
    assert_eq!(ids.unbind("vec1"), Some(0));
    assert_eq!(ids.unbind("vec1"), None);
    assert!(!ids.contains("vec1"));
    assert_eq!(ids.name_hits(&vec![0, 1]), vec![("vec2".to_string(), 1)]);
    // Re-inserting an id takes a fresh key; the old key no longer names it.
    let k = ids.claim_key().unwrap();
    ids.bind("vec2", k);
    assert_eq!(k, 2);
    assert_eq!(ids.unbind("vec2"), Some(2));
}

#[test]
fn reserve_doubles_capacity() {
    assert_eq!(capacity_to_reserve(5, 10), None);
    assert_eq!(capacity_to_reserve(10, 10), Some(1024));
    assert_eq!(capacity_to_reserve(1024, 1024), Some(2048));
    assert_eq!(capacity_to_reserve(usize::MAX, usize::MAX), Some(usize::MAX));
}

#[test]
fn embedding_terms_of_ranked_dimensions() {
    assert_eq!(embedding_terms(&vec![]), "");
    assert_eq!(embedding_terms(&vec![(3, true)]), "ep3");
    assert_eq!(embedding_terms(&vec![(12, false), (0, true), (7, false)]), "en12 ep0 en7");
    let many: Vec<(usize, bool)> = (0..30).map(|i| (i, i % 2 == 0)).collect();
    let terms = embedding_terms(&many);
    assert_eq!(terms.split(' ').count(), 20);
    assert!(terms.starts_with("ep0 en1 ep2"));
    assert!(terms.ends_with("en19"));
}

#[test]
fn prepared_chunk_at_given_id_and_time() {
    let c = prepare_chunk_at(chunk("", 0), "fresh".to_string(), 42);
    assert_eq!(c.id, "fresh");
    assert_eq!(c.created_at_ms, 42);
    let d = prepare_chunk_at(chunk("keep", 7), "fresh".to_string(), 42);
    assert_eq!(d.id, "keep");
    assert_eq!(d.created_at_ms, 7);
    assert_eq!(d.payload, b"p".to_vec());
}
