use uaforge::lru::{Cache, CacheDecision};

#[test]
fn decision_tags_round_trip() {
    for d in [CacheDecision::FwWhitelist, CacheDecision::Modify, CacheDecision::Pass] {
        assert_eq!(CacheDecision::from_str(d.as_str()), Some(d));
    }
    assert_eq!(CacheDecision::Modify.as_str(), "MODIFY");
    assert_eq!(CacheDecision::from_str("FW_WHITELIST"), Some(CacheDecision::FwWhitelist));
    assert_eq!(CacheDecision::from_str("pass"), None);
    assert_eq!(CacheDecision::from_str(""), None);
}

#[test]
fn cache_evicts_least_recently_used() {
    let mut c = Cache::new(2);
    assert!(!c.is_disabled());
    c.put("a".to_string(), CacheDecision::Pass);
    c.put("b".to_string(), CacheDecision::Modify);
    assert_eq!(c.get("a"), Some(CacheDecision::Pass));
    c.put("c".to_string(), CacheDecision::Pass);
    assert_eq!(c.get("b"), None);
    assert_eq!(c.get("a"), Some(CacheDecision::Pass));
    assert_eq!(c.get("c"), Some(CacheDecision::Pass));
}

#[test]
fn cache_put_updates_value() {
    let mut c = Cache::new(1);
    c.put("a".to_string(), CacheDecision::Pass);
    c.put("a".to_string(), CacheDecision::Modify);
    assert_eq!(c.get("a"), Some(CacheDecision::Modify));
    c.put("b".to_string(), CacheDecision::Pass);
    assert_eq!(c.get("a"), None);
}

#[test]
fn zero_capacity_cache_stores_nothing() {
    let mut c = Cache::new(0);
    assert!(c.is_disabled());
    c.put("a".to_string(), CacheDecision::Modify);
    assert_eq!(c.get("a"), None);
}
