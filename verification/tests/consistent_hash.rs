use std::collections::hash_map::DefaultHasher;
use std::collections::{BTreeMap, HashMap};
use std::hash::{Hash, Hasher};

use limiter_core::consistent_hash::VIRTUAL_NODES;
use limiter_core::ConsistentHashRing;

fn std_hash(text: &str) -> u64 {
    let mut hasher = DefaultHasher::new();
    text.hash(&mut hasher);
    hasher.finish()
}

/// The ring built the way the service describes it: every node's points are
/// the hashes of `{:#?}:i`, later nodes taking over shared points.
fn reference_ring(nodes: &[&str]) -> BTreeMap<u64, String> {
    let mut ring = BTreeMap::new();
    for node in nodes {
        for i in 0..VIRTUAL_NODES {
            ring.insert(std_hash(&format!("{:#?}:{}", node, i)), node.to_string());
        }
    }
    ring
}

fn reference_lookup(ring: &BTreeMap<u64, String>, key: &str) -> Option<String> {
    let h = std_hash(key);
    ring.range(h..)
        .next()
        .map(|(_, v)| v.clone())
        .or_else(|| ring.iter().next().map(|(_, v)| v.clone()))
}

fn ring_of(nodes: &[&str]) -> ConsistentHashRing {
    let mut ring = ConsistentHashRing::new();
    for node in nodes {
        ring.add_node(node.to_string());
    }
    ring
}

#[test]
fn same_key_same_node() {
    let mut ring = ConsistentHashRing::new();
    ring.add_node("node1".to_string());
    ring.add_node("node2".to_string());
    let n1 = ring.get_node("user:123");
    let n2 = ring.get_node("user:123");
    assert_eq!(n1, n2);
}

#[test]
fn keys_distributed() {
    let mut ring = ConsistentHashRing::new();
    ring.add_node("a".to_string());
    ring.add_node("b".to_string());
    ring.add_node("c".to_string());
    let mut counts = HashMap::new();
    for i in 0..100 {
        let node = ring.get_node(&format!("key{}", i)).unwrap();
        *counts.entry(node).or_insert(0) += 1;
    }
    assert!(counts.len() >= 2);
}

#[test]
fn empty_ring_has_no_node() {
    let ring = ConsistentHashRing::new();
    assert_eq!(ring.get_node("user:123"), None);
    assert_eq!(ring.get_node(""), None);
}

#[test]
fn single_node_owns_every_key() {
    let ring = ring_of(&["redis://127.0.0.1:6379"]);
    for i in 0..200 {
        assert_eq!(
            ring.get_node(&format!("user:{}", i)),
            Some("redis://127.0.0.1:6379".to_string())
        );
    }
}

#[test]
fn routing_matches_hashed_labels() {
    let nodes = ["redis://shard-1:6379", "redis://shard-2:6379", "redis://shard-3:6379"];
    let ring = ring_of(&nodes);
    let reference = reference_ring(&nodes);
    for i in 0..500 {
        let key = format!("user:{}", i);
        assert_eq!(ring.get_node(&key), reference_lookup(&reference, &key));
    }
}

#[test]
fn routing_wraps_to_lowest_point() {
    let nodes = ["a", "b"];
    let ring = ring_of(&nodes);
    let reference = reference_ring(&nodes);
    let highest = *reference.keys().next_back().unwrap();
    let lowest_owner = reference.values().next().unwrap().clone();
    // Find a key that hashes past the highest point, so it wraps round.
    let mut found = false;
    for i in 0..2_000_000u64 {
        let key = format!("wrap{}", i);
        if std_hash(&key) > highest {
            assert_eq!(ring.get_node(&key), Some(lowest_owner.clone()));
            found = true;
            break;
        }
    }
    assert!(found);
}

#[test]
fn adding_present_node_changes_nothing() {
    let mut ring = ring_of(&["a", "b"]);
    let before: Vec<Option<String>> = (0..200).map(|i| ring.get_node(&format!("k{}", i))).collect();
    ring.add_node("a".to_string());
    let after: Vec<Option<String>> = (0..200).map(|i| ring.get_node(&format!("k{}", i))).collect();
    assert_eq!(before, after);
}

#[test]
fn adding_node_moves_keys_only_to_it() {
    let mut ring = ring_of(&["a", "b", "c"]);
    let before: Vec<Option<String>> = (0..500).map(|i| ring.get_node(&format!("k{}", i))).collect();
    ring.add_node("d".to_string());
    let mut moved = 0;
    for i in 0..500 {
        let now = ring.get_node(&format!("k{}", i));
        if now != before[i] {
            assert_eq!(now, Some("d".to_string()));
            moved += 1;
        }
    }
    assert!(moved > 0);
    assert!(moved < 500);
}

#[test]
fn removing_node_keeps_other_keys() {
    let mut ring = ring_of(&["a", "b", "c"]);
    let before: Vec<Option<String>> = (0..500).map(|i| ring.get_node(&format!("k{}", i))).collect();
    ring.remove_node(&"b".to_string());
    for i in 0..500 {
        let now = ring.get_node(&format!("k{}", i));
        assert_ne!(now, Some("b".to_string()));
        if before[i] != Some("b".to_string()) {
            assert_eq!(now, before[i]);
        }
    }
}

#[test]
fn removing_all_nodes_empties_ring() {
    let mut ring = ring_of(&["a", "b"]);
    ring.remove_node(&"a".to_string());
    ring.remove_node(&"b".to_string());
    assert_eq!(ring.get_node("user:1"), None);
    ring.remove_node(&"b".to_string());
    assert_eq!(ring.get_node("user:1"), None);
}

#[test]
fn removing_absent_node_changes_nothing() {
    let mut ring = ring_of(&["a", "b"]);
    let before: Vec<Option<String>> = (0..200).map(|i| ring.get_node(&format!("k{}", i))).collect();
    ring.remove_node(&"z".to_string());
    let after: Vec<Option<String>> = (0..200).map(|i| ring.get_node(&format!("k{}", i))).collect();
    assert_eq!(before, after);
}

#[test]
fn readding_removed_node_restores_routing() {
    let mut ring = ring_of(&["a", "b"]);
    let reference = reference_ring(&["a", "b"]);
    ring.remove_node(&"b".to_string());
    ring.add_node("b".to_string());
    for i in 0..300 {
        let key = format!("k{}", i);
        assert_eq!(ring.get_node(&key), reference_lookup(&reference, &key));
    }
}

#[test]
fn default_ring_is_empty() {
    let ring = ConsistentHashRing::default();
    assert_eq!(ring.get_node("user:123"), None);
}
