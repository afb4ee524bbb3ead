use resolver_core::cache::Cache;
use resolver_core::message::{Answer, Record};
use resolver_core::query::QueryKey;

fn key(name: &str) -> QueryKey {
    QueryKey { name: name.as_bytes().to_vec(), qtype: 1, qclass: 1 }
}

fn answer(data: &[u8]) -> Answer {
    Answer {
        records: vec![Record { rtype: 1, rclass: 1, data: data.to_vec() }],
        rcode: 0,
        authoritative: false,
    }
}

#[test]
fn hit_returns_stored_answer_and_remaining_ttl() {
    let mut cache = Cache::new(8);
    cache.put(key("example.com."), answer(&[1, 2, 3, 4]), 300, 1000);
    let hit = cache.get(&key("example.com."), 1100);
    let (a, remaining) = hit.expect("entry should be present");
    assert_eq!(remaining, 200);
    assert_eq!(a.records.len(), 1);
    assert_eq!(a.records[0].data, vec![1, 2, 3, 4]);
}

#[test]
fn repeated_get_same_content_non_increasing_ttl() {
    let mut cache = Cache::new(8);
    cache.put(key("example.com."), answer(&[9, 9]), 300, 0);
    let (a1, t1) = cache.get(&key("example.com."), 10).expect("first get");
    let (a2, t2) = cache.get(&key("example.com."), 25).expect("second get");
    assert_eq!(a1.records[0].data, a2.records[0].data);
    assert_eq!(a1.rcode, a2.rcode);
    assert!(t2 <= t1);
    assert_eq!(t1, 290);
    assert_eq!(t2, 275);
}

#[test]
fn expired_entry_is_a_miss_and_removed() {
    let mut cache = Cache::new(8);
    cache.put(key("example.com."), answer(&[1]), 60, 0);
    assert!(cache.get(&key("example.com."), 60).is_none());
    assert_eq!(cache.len(), 0);
}

#[test]
fn overflow_evicts_least_recently_used_first() {
    let mut cache = Cache::new(2);
    cache.put(key("a.example."), answer(&[1]), 600, 0);
    cache.put(key("b.example."), answer(&[2]), 600, 1);
    cache.put(key("c.example."), answer(&[3]), 600, 2);
    let _ = cache.get(&key("a.example."), 3);
    cache.put(key("d.example."), answer(&[4]), 600, 4);
    assert!(cache.get(&key("b.example."), 5).is_none());
    assert!(cache.get(&key("c.example."), 5).is_some());
    assert!(cache.get(&key("d.example."), 5).is_some());
}

#[test]
fn recent_access_protects_an_entry_from_eviction() {
    let mut cache = Cache::new(2);
    cache.put(key("a.example."), answer(&[1]), 600, 0);
    cache.put(key("b.example."), answer(&[2]), 600, 1);
    let _ = cache.get(&key("a.example."), 2);
    cache.put(key("c.example."), answer(&[3]), 600, 3);
    assert!(cache.get(&key("a.example."), 4).is_some());
    assert!(cache.get(&key("b.example."), 4).is_none());
    assert!(cache.get(&key("c.example."), 4).is_some());
}

#[test]
fn put_replaces_entry_with_same_key() {
    let mut cache = Cache::new(4);
    cache.put(key("example.com."), answer(&[1]), 600, 0);
    cache.put(key("example.com."), answer(&[2]), 600, 0);
    assert_eq!(cache.len(), 1);
    let (a, _) = cache.get(&key("example.com."), 1).expect("hit");
    assert_eq!(a.records[0].data, vec![2]);
}

#[test]
fn evict_expired_sweeps_only_expired_entries() {
    let mut cache = Cache::new(8);
    cache.put(key("a.example."), answer(&[1]), 100, 0);
    cache.put(key("b.example."), answer(&[2]), 600, 0);
    cache.evict_expired(200);
    assert_eq!(cache.len(), 1);
    assert!(cache.get(&key("b.example."), 200).is_some());
}
