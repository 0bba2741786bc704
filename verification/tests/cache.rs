use ffxiv_market_overlay::cache::{key, Cached, PriceCache, DEFAULT_TTL_MS};

/// A stand-in price snapshot: the item id and the cheapest NQ price.
#[derive(Debug, Clone, PartialEq)]
struct Snapshot {
    item_id: u32,
    min_price_nq: Option<u32>,
}

fn price(item_id: u32) -> Snapshot {
    Snapshot { item_id, min_price_nq: Some(100) }
}

fn insert(cache: &mut PriceCache<Snapshot>, scope: &str, snapshot: Snapshot, now_ms: u64) {
    let id = snapshot.item_id;
    cache.insert(id, scope, snapshot, now_ms);
}

#[test]
fn hits_within_ttl_and_misses_after() {
    let mut cache = PriceCache::new(150);
    insert(&mut cache, "Cactuar", price(1), 1_000);
    assert!(cache.get(1, "Cactuar", 1_000).is_some());

    assert!(cache.get(1, "Cactuar", 1_400).is_none(), "expired");
    assert!(cache.peek(1, "Cactuar", 1_400).is_some(), "still peekable when stale");
}

#[test]
fn scopes_are_separate_but_case_insensitive() {
    let mut cache = PriceCache::new(DEFAULT_TTL_MS);
    insert(&mut cache, "Cactuar", price(1), 0);
    assert!(cache.get(1, "cactuar", 0).is_some());
    assert!(cache.get(1, "Aether", 0).is_none());
    assert!(cache.get(2, "Cactuar", 0).is_none());
}

#[test]
fn invalidate_and_clear_drop_entries() {
    let mut cache = PriceCache::new(DEFAULT_TTL_MS);
    insert(&mut cache, "Cactuar", price(1), 0);
    insert(&mut cache, "Cactuar", price(2), 0);
    cache.invalidate(1, "Cactuar");
    assert!(cache.get(1, "Cactuar", 0).is_none());
    assert_eq!(cache.len(), 1);

    cache.clear();
    assert!(cache.is_empty());
}

#[test]
fn a_read_right_after_a_write_returns_the_snapshot() {
    let mut cache = PriceCache::new(DEFAULT_TTL_MS);
    insert(&mut cache, " Cactuar ", price(7), 5_000);
    assert_eq!(cache.get(7, "CACTUAR", 5_000), Some(price(7)));
    assert_eq!(cache.len(), 1);
}

#[test]
fn the_window_is_exclusive_at_its_end() {
    let mut cache = PriceCache::new(100);
    insert(&mut cache, "Cactuar", price(1), 0);
    assert!(cache.get(1, "Cactuar", 99).is_some());
    assert!(cache.get(1, "Cactuar", 100).is_none());
}

#[test]
fn peek_reports_the_age_and_never_goes_negative() {
    let mut cache = PriceCache::new(DEFAULT_TTL_MS);
    insert(&mut cache, "Cactuar", price(1), 1_000);
    let seen: Cached<Snapshot> = cache.peek(1, "Cactuar", 1_250).unwrap();
    assert_eq!(seen.age_ms, 250);
    assert_eq!(seen.price, price(1));
    assert!(seen.is_fresh(DEFAULT_TTL_MS));
    assert!(!seen.is_fresh(250));
    assert_eq!(cache.peek(1, "Cactuar", 500).unwrap().age_ms, 0);
    assert!(cache.peek(2, "Cactuar", 1_250).is_none());
}

#[test]
fn a_second_write_replaces_the_first() {
    let mut cache = PriceCache::new(DEFAULT_TTL_MS);
    insert(&mut cache, "Cactuar", price(1), 0);
    let newer = Snapshot { item_id: 1, min_price_nq: Some(90) };
    insert(&mut cache, "cactuar", newer.clone(), 10);
    assert_eq!(cache.len(), 1);
    assert_eq!(cache.get(1, "Cactuar", 10), Some(newer));
    assert_eq!(cache.peek(1, "Cactuar", 10).unwrap().age_ms, 0);
}

#[test]
fn keys_are_trimmed_and_lower_case() {
    let (id, scope) = key(4745, "  Cactuar\t");
    assert_eq!(id, 4745);
    assert_eq!(scope, "cactuar");
}

#[test]
fn a_default_cache_is_empty_with_a_three_minute_window() {
    let cache: PriceCache<Snapshot> = PriceCache::default();
    assert!(cache.is_empty());
    assert_eq!(cache.ttl(), 180_000);
}
