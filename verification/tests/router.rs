use keel::cluster::ClusterManager;
use keel::router::SessionRouter;
use std::collections::HashSet;

#[test]
fn test_single_node_is_always_local() {
    let router = SessionRouter::new(vec!["127.0.0.1:50051".into()], "127.0.0.1:50051".into());
    assert!(router.is_local("any-session"));
}

#[test]
fn test_deterministic_routing() {
    let nodes = vec![
        "node-a:50051".to_string(),
        "node-b:50051".to_string(),
        "node-c:50051".to_string(),
    ];
    let router = SessionRouter::new(nodes, "node-a:50051".into());
    let first = router.node_for_session("session-xyz").to_string();
    for _ in 0..10 {
        assert_eq!(router.node_for_session("session-xyz"), first);
    }
}

#[test]
fn test_distribution_across_nodes() {
    let nodes: Vec<String> = (0..3).map(|i| format!("node-{}:50051", i)).collect();
    let router = SessionRouter::new(nodes, "node-0:50051".into());
    let mut owners: HashSet<String> = HashSet::new();
    for i in 0..100 {
        let session = format!("session-{}", i);
        owners.insert(router.node_for_session(&session).to_string());
    }
    assert!(owners.len() >= 2, "Expected distribution across nodes, got {:?}", owners);
}

fn manager(local: &str, peers: &[&str]) -> ClusterManager {
    ClusterManager::new(
        local.to_string(),
        local.to_string(),
        peers.iter().map(|s| s.to_string()).collect(),
    )
}

#[test]
fn test_dead_peer_tracking() {
    let mut cm = manager("node-a:50051", &["node-b:50051"]);
    assert!(!cm.is_dead("node-b:50051"));
    cm.mark_dead("node-b:50051");
    assert!(cm.is_dead("node-b:50051"));
    cm.clear_dead("node-b:50051");
    assert!(!cm.is_dead("node-b:50051"));
}

#[test]
fn test_peer_addrs_excludes_self() {
    let cm = manager("node-a:50051", &["node-b:50051", "node-c:50051"]);
    let peers = cm.peer_addrs();
    assert_eq!(peers.len(), 2);
    assert!(!peers.contains(&"node-a:50051".to_string()));
}

#[test]
fn test_single_node_no_peers() {
    let cm = manager("node-a:50051", &[]);
    assert_eq!(cm.peer_count(), 0);
    assert!(cm.peer_addrs().is_empty());
}

#[test]
fn router_sorts_and_drops_repeats() {
    let router = SessionRouter::new(
        vec!["c:1".into(), "a:1".into(), "b:1".into(), "a:1".into()],
        "a:1".into(),
    );
    assert_eq!(router.peer_count(), 2);
    assert_eq!(router.peer_addrs(), vec!["b:1".to_string(), "c:1".to_string()]);
}

#[test]
fn routers_agree_whatever_the_order() {
    let r1 = SessionRouter::new(vec!["x:1".into(), "y:1".into(), "z:1".into()], "x:1".into());
    let r2 = SessionRouter::new(vec!["z:1".into(), "x:1".into(), "y:1".into(), "z:1".into()], "y:1".into());
    for i in 0..50 {
        let s = format!("s-{}", i);
        assert_eq!(r1.node_for_session(&s), r2.node_for_session(&s));
    }
}

#[test]
fn owner_is_a_node_and_local_matches_owner() {
    let r = SessionRouter::new(vec!["p:1".into(), "q:1".into()], "q:1".into());
    for i in 0..20 {
        let s = format!("sess-{}", i);
        let owner = r.node_for_session(&s).to_string();
        assert!(owner == "p:1" || owner == "q:1");
        assert_eq!(r.is_local(&s), owner == "q:1");
    }
}

#[test]
fn empty_router_routes_to_local() {
    let r = SessionRouter::new(vec![], "me:1".into());
    assert_eq!(r.node_for_session("abc"), "me:1");
    assert!(r.is_local("abc"));
    assert_eq!(r.peer_count(), 0);
}

#[test]
fn manager_adds_local_node() {
    let cm = manager("b:1", &["a:1", "c:1"]);
    assert_eq!(cm.peer_count(), 2);
    assert_eq!(cm.peer_addrs(), vec!["a:1".to_string(), "c:1".to_string()]);
    let owner = cm.node_for_session("s1");
    assert_eq!(cm.is_local_session("s1"), owner == "b:1");
}

#[test]
fn dead_window_at_given_times() {
    let mut cm = manager("a:1", &["b:1", "c:1"]);
    cm.mark_dead_at("b:1", 1000);
    assert!(cm.is_dead_at("b:1", 1000));
    assert!(cm.is_dead_at("b:1", 30999));
    assert!(!cm.is_dead_at("b:1", 31000));
    assert!(!cm.is_dead_at("c:1", 1000));
    assert_eq!(cm.live_peers_at(2000), vec!["c:1".to_string()]);
    assert_eq!(cm.live_peers_at(40000), vec!["b:1".to_string(), "c:1".to_string()]);
    assert_eq!(cm.dead_peer_count_at(2000), 1);
    assert_eq!(cm.dead_peer_count_at(40000), 0);
    cm.mark_dead_at("b:1", u64::MAX - 5);
    assert!(cm.is_dead_at("b:1", u64::MAX - 1));
    cm.clear_dead("b:1");
    assert!(!cm.is_dead_at("b:1", 0));
}

#[test]
fn live_peers_now_skips_dead() {
    let mut cm = manager("a:1", &["b:1", "c:1"]);
    assert_eq!(cm.live_peers().len(), 2);
    assert_eq!(cm.dead_peer_count(), 0);
    cm.mark_dead("c:1");
    assert_eq!(cm.live_peers(), vec!["b:1".to_string()]);
    assert_eq!(cm.dead_peer_count(), 1);
}
