use keel::entries::{MemoryEntry, MemoryRegistry};

fn names(v: &[MemoryEntry]) -> Vec<String> {
    v.iter().map(|e| e.key.clone()).collect()
}

#[test]
fn entries_write_read_list_delete() {
    let mut r = MemoryRegistry::new();
    let a = r.write("ns1".into(), "k1".into(), b"v1".to_vec(), Some(vec![1.5f32.to_bits()])).unwrap();
    let b = r.write("ns2".into(), "k2".into(), b"v2".to_vec(), None).unwrap();
    let c = r.write("ns1".into(), "k3".into(), b"v3".to_vec(), None).unwrap();
    assert_eq!(a.len(), 36);
    assert_ne!(a, b);
    assert_eq!(r.count().unwrap(), 3);

    let got = r.read(&a).unwrap().unwrap();
    assert_eq!(got.id, a);
    assert_eq!(got.namespace, "ns1");
    assert_eq!(got.key, "k1");
    assert_eq!(got.value, b"v1".to_vec());
    assert_eq!(got.vector, Some(vec![1.5f32.to_bits()]));
    assert_eq!(got.access_count, 1);
    assert_eq!(got.accessed_at, got.created_at);
    // The stored entry keeps its count: a second read counts 1 again.
    assert_eq!(r.read(&a).unwrap().unwrap().access_count, 1);

    assert_eq!(names(&r.list("ns1").unwrap()), vec!["k1".to_string(), "k3".to_string()]);
    assert_eq!(names(&r.list("ns2").unwrap()), vec!["k2".to_string()]);
    assert!(r.list("none").unwrap().is_empty());

    assert!(r.delete(&c).unwrap());
    assert!(!r.delete(&c).unwrap());
    assert!(r.read(&c).unwrap().is_none());
    assert_eq!(r.count().unwrap(), 2);
}

#[test]
fn entries_write_under_same_id_replaces() {
    let mut r = MemoryRegistry::default();
    let id = r.write_entry("fixed".into(), 5, "ns".into(), "k".into(), vec![1], None);
    assert_eq!(id, "fixed");
    r.write_entry("fixed".into(), 9, "ns".into(), "k2".into(), vec![2], None);
    assert_eq!(r.count().unwrap(), 1);
    let got = r.read_at("fixed", 11).unwrap().unwrap();
    assert_eq!(got.key, "k2");
    assert_eq!(got.value, vec![2]);
    assert_eq!(got.created_at, 9);
    assert_eq!(got.accessed_at, 11);
    assert_eq!(got.access_count, 1);
}

#[test]
fn entries_read_missing_is_none() {
    let r = MemoryRegistry::new();
    assert!(r.read("nonexistent-id").unwrap().is_none());
    assert!(r.read_at("nonexistent-id", 3).unwrap().is_none());
    assert_eq!(r.count().unwrap(), 0);
}

#[test]
fn entry_copy_keeps_fields() {
    let e = MemoryEntry {
        id: "i".into(),
        namespace: "n".into(),
        key: "k".into(),
        value: vec![7, 8],
        vector: Some(vec![0x3f80_0000]),
        created_at: 1,
        accessed_at: 2,
        access_count: 0,
    };
    let c = e.copy();
    assert_eq!(c.id, "i");
    assert_eq!(c.value, vec![7, 8]);
    assert_eq!(c.vector, Some(vec![0x3f80_0000]));
    assert_eq!((c.created_at, c.accessed_at, c.access_count), (1, 2, 0));
}
