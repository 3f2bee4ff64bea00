use data_cluster::cluster::{hash64, HashRing};
use data_cluster::shard::Shard;
use data_cluster::cluster::ClusterTrait;

fn shard_names(ring: &HashRing) -> Vec<String> {
    ring.nodes().iter().map(|s| s.get_name().to_string()).collect()
}

#[test]
fn hash64_is_deterministic() {
    assert_eq!(hash64("key1"), hash64("key1"));
    assert_eq!(hash64(""), hash64(""));
    assert_ne!(hash64("a"), hash64("b"));
}

#[test]
fn empty_ring_resolves_nothing() {
    let ring = HashRing::new(8);
    assert!(ring.is_empty());
    assert!(ring.get("anything").is_none());
    assert!(ring.nodes().is_empty());
}

#[test]
fn nonempty_ring_covers_every_key() {
    let mut ring = HashRing::new(4);
    ring.add_node(Shard::new("storage_0".to_string(), 0));
    ring.add_node(Shard::new("storage_1".to_string(), 1));
    assert!(!ring.is_empty());
    for key in ["", "a", "key1", "key2", "some/long/key", "0", "zzzz"] {
        assert!(ring.get(key).is_some(), "key {key:?} not covered");
    }
}

#[test]
fn lookup_is_deterministic() {
    let mut ring = HashRing::new(16);
    for i in 0..3usize {
        ring.add_node(Shard::new(format!("storage_{i}"), i));
    }
    for key in ["key1", "key2", "another"] {
        let first = ring.get(key).unwrap();
        let second = ring.get(key).unwrap();
        assert_eq!(first.get_name(), second.get_name());
        assert_eq!(first.node, second.node);
    }
}

#[test]
fn nodes_dedups_virtual_positions() {
    let mut ring = HashRing::new(64);
    for i in 0..3usize {
        ring.add_node(Shard::new(format!("storage_{i}"), i));
    }
    let mut names = shard_names(&ring);
    names.sort();
    assert_eq!(names, vec!["storage_0", "storage_1", "storage_2"]);
}

#[test]
fn adding_a_shard_twice_counts_once() {
    let mut ring = HashRing::new(32);
    ring.add_node(Shard::new("storage_0".to_string(), 0));
    ring.add_node(Shard::new("storage_0".to_string(), 0));
    assert_eq!(shard_names(&ring), vec!["storage_0"]);
}

#[test]
fn removing_a_shard_removes_only_it() {
    let mut ring = HashRing::new(16);
    for i in 0..3usize {
        ring.add_node(Shard::new(format!("storage_{i}"), i));
    }
    ring.remove_node(Shard::new("storage_1".to_string(), 1));
    let mut names = shard_names(&ring);
    names.sort();
    assert_eq!(names, vec!["storage_0", "storage_2"]);
    for key in ["key1", "key2", "key3", "more"] {
        let owner = ring.get(key).unwrap();
        assert_ne!(owner.get_name(), "storage_1");
    }
}

#[test]
fn removing_a_never_added_shard_is_a_noop() {
    let mut ring = HashRing::new(8);
    ring.add_node(Shard::new("storage_0".to_string(), 0));
    let before = shard_names(&ring);
    ring.remove_node(Shard::new("storage_9".to_string(), 9));
    assert_eq!(shard_names(&ring), before);
}

#[test]
fn removing_everything_empties_the_ring() {
    let mut ring = HashRing::new(8);
    ring.add_node(Shard::new("storage_0".to_string(), 0));
    ring.add_node(Shard::new("storage_1".to_string(), 1));
    ring.remove_node(Shard::new("storage_0".to_string(), 0));
    ring.remove_node(Shard::new("storage_1".to_string(), 1));
    assert!(ring.is_empty());
    assert!(ring.get("key1").is_none());
}

#[test]
fn same_name_means_same_identity() {
    // Identity is the name: re-adding "storage_0" with a new handle
    // overwrites its positions, so the ring still holds one shard and
    // hands out the newer handle.
    let mut ring = HashRing::new(8);
    ring.add_node(Shard::new("storage_0".to_string(), 0));
    ring.add_node(Shard::new("storage_0".to_string(), 5));
    let nodes = ring.nodes();
    assert_eq!(nodes.len(), 1);
    assert_eq!(nodes[0].node, 5);
}
