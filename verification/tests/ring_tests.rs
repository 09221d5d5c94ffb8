use hashring::hash::hash_value;
use hashring::ring::HashRing;
use hashring::table::RingTable;

#[test]
fn hash_is_deterministic() {
    // Same numeric value, repeated calls, one process run: same hash.
    assert_eq!(hash_value(0), hash_value(0));
    assert_eq!(hash_value(123), hash_value(123));
    assert_eq!(hash_value(u64::MAX), hash_value(u64::MAX));
    let ring = HashRing::new();
    assert_eq!(ring.hash(987654321), ring.hash(987654321));
    assert_eq!(ring.hash(987654321), hash_value(987654321));
}

#[test]
fn hash_known_values() {
    // FNV-1a over the decimal digits, least significant first.
    assert_eq!(hash_value(0), 0xaf63ad4c86019caf);
    assert_eq!(hash_value(7), 0xaf63aa4c86019796);
    assert_eq!(hash_value(12), 0x08030307b4c31d2c);
}

#[test]
fn empty_ring_get_is_absent() {
    let ring = HashRing::new();
    assert_eq!(ring.get(0), None);
    assert_eq!(ring.get(12345), None);
    assert_eq!(ring.get(u64::MAX), None);
}

#[test]
fn lone_entry_serves_every_lookup() {
    // After add(x) on an otherwise-empty ring, get(y) returns x for any y.
    let ring = HashRing::new();
    ring.add(42);
    assert_eq!(ring.get(0), Some(42));
    assert_eq!(ring.get(42), Some(42));
    assert_eq!(ring.get(999), Some(42));
    assert_eq!(ring.get(u64::MAX), Some(42));
}

#[test]
fn add_then_delete_restores_empty() {
    let ring = HashRing::new();
    ring.add(7);
    assert_eq!(ring.get(7), Some(7));
    ring.delete(7);
    assert_eq!(ring.get(7), None);
    assert_eq!(ring.get(0), None);
    assert_eq!(ring.get(31337), None);
}

#[test]
fn delete_absent_is_silent_noop() {
    let ring = HashRing::new();
    ring.delete(5);
    assert_eq!(ring.get(5), None);
    ring.add(5);
    ring.delete(6);
    assert_eq!(ring.get(6), Some(5));
}

#[test]
fn add_twice_keeps_one_entry() {
    // Overwrite, not duplicate: the table holds one entry for x's hash.
    let mut table = RingTable::new();
    table.add(9);
    table.add(9);
    assert_eq!(table.len(), 1);
    assert_eq!(table.get(9), Some(9));
    // One delete of x is enough to empty it again.
    table.delete(9);
    assert_eq!(table.len(), 0);
    assert_eq!(table.get(9), None);
}

#[test]
fn table_mirrors_ring_operations() {
    let mut table = RingTable::new();
    assert_eq!(table.len(), 0);
    assert_eq!(table.get(4), None);
    table.add(4);
    table.add(11);
    table.add(23);
    assert_eq!(table.len(), 3);
    table.delete(11);
    assert_eq!(table.len(), 2);
    assert_eq!(table.get(11).is_some(), true);
}

#[test]
fn wraparound_resolves_to_lowest_key() {
    // Pick items whose hashes are known to be in ascending order, add the
    // three lowest, and look up with a key above all of them: the lookup
    // falls off the top of the key space and wraps to the lowest key.
    let mut probe: Vec<(u64, u64)> = (0..64).map(|i| (hash_value(i), i)).collect();
    probe.sort();
    for w in probe.windows(2) {
        assert!(w[0].0 < w[1].0, "probe items must have distinct hashes");
    }
    let (h1_item, h2_item, h3_item) = (probe[0].1, probe[1].1, probe[2].1);
    let query = probe[63].1;
    let ring = HashRing::new();
    ring.add(h1_item);
    ring.add(h2_item);
    ring.add(h3_item);
    // hash(query) > h3 > h2 > h1, so the resolved entry is the one at h1.
    assert_eq!(ring.get(query), Some(h1_item));
}

#[test]
fn successor_search_matches_sorted_order() {
    // Against a handful of stored items, every lookup must resolve to the
    // first stored hash at or above the query's hash, wrapping at the top.
    let items: Vec<u64> = vec![3, 17, 40, 55, 90];
    let ring = HashRing::new();
    let mut keys: Vec<(u64, u64)> = Vec::new();
    for &it in &items {
        ring.add(it);
        keys.push((hash_value(it), it));
    }
    keys.sort();
    for q in 0..200u64 {
        let qh = hash_value(q);
        let expected = keys
            .iter()
            .find(|&&(h, _)| h >= qh)
            .unwrap_or(&keys[0])
            .1;
        assert_eq!(ring.get(q), Some(expected));
    }
}

#[test]
fn cloned_handles_share_one_ring() {
    // Handles wrapped in an Arc observe each other's mutations: they refer
    // to the identical shared table.
    let first = std::sync::Arc::new(HashRing::new());
    let second = std::sync::Arc::clone(&first);
    first.add(13);
    assert_eq!(second.get(13), Some(13));
    second.delete(13);
    assert_eq!(first.get(13), None);
}
