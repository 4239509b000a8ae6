use pylon_runtime::ssr_cache::{
    build_namespace, cache_key, disk_cache_limits, fresh, is_stale_namespace, mem_budget,
    now_secs, should_sweep, sweep_victims, try_claim_write, MemCache, WriteClaims,
};

#[test]
fn mem_layer_serves_recomputes_freshness_and_evicts_oldest() {
    let mut m = MemCache::new(1024);
    let h = vec![("content-type".to_string(), "text/html".to_string())];

    m.put("a", 200, &h, b"AAAA", now_secs(), 600);
    let e = m.get("a").expect("hit");
    assert_eq!(e.status, 200);
    assert_eq!(&*e.body, b"AAAA");

    m.put("b", 200, &h, b"BB", now_secs(), 0);
    let b = m.get("b").expect("stale entry still cached");
    assert!(now_secs().saturating_sub(b.rendered_at) >= b.revalidate_secs);

    m.put("huge", 200, &h, &vec![0u8; 2048], now_secs(), 600);
    assert!(m.get("huge").is_none());

    let mut m2 = MemCache::new(1024);
    for i in 0..5 {
        m2.put(&format!("k{i}"), 200, &h, &vec![b'x'; 300], now_secs(), 600);
    }
    let survivors = (0..5).filter(|i| m2.get(&format!("k{i}")).is_some()).count();
    assert!(survivors <= 3, "budget enforced (survivors={survivors})");
    assert!(m2.get("k4").is_some(), "newest survives");
    assert!(m2.get("k0").is_none(), "oldest evicted first");
}

#[test]
fn mem_layer_replaces_a_key_and_reads_freshness() {
    let mut m = MemCache::new(100);
    m.put("k", 200, &[], b"one", 1_000, 60);
    m.put("k", 404, &[], b"two!", 1_000, 60);
    assert_eq!(m.bytes(), 4);
    let e = m.lookup_at("k", 1_030).unwrap();
    assert_eq!((e.status, e.body.as_slice(), e.fresh), (404, &b"two!"[..], true));
    assert!(!m.lookup_at("k", 1_060).unwrap().fresh);
    assert!(m.lookup_at("k", 10).unwrap().fresh, "a render from the future is fresh");
    m.clear();
    assert!(m.get("k").is_none());
    assert_eq!(m.bytes(), 0);
    assert!(fresh(5, 5, 1));
    assert!(!fresh(5, 5, 0));
}

#[test]
fn key_is_deterministic_and_param_order_independent() {
    let a = cache_key(
        "/docs/:slug",
        "/docs/intro",
        &[("tab".into(), "x".into()), ("page".into(), "2".into())],
    );
    let b = cache_key(
        "/docs/:slug",
        "/docs/intro",
        &[("page".into(), "2".into()), ("tab".into(), "x".into())],
    );
    assert_eq!(a, b);
    let c = cache_key("/docs/:slug", "/docs/other", &[]);
    assert_ne!(a, c);
    assert_eq!(a.len(), 64);
    assert!(a.bytes().all(|x| x.is_ascii_hexdigit()));
}

#[test]
fn disk_sweep_evicts_oldest_until_within_entry_cap() {
    // (age, bytes): ten entries, oldest first by age but listed shuffled.
    let entries: Vec<(u64, u64)> = [3u64, 0, 9, 1, 8, 2, 7, 4, 6, 5]
        .iter()
        .map(|&i| (1_700_000_000 + i, 102))
        .collect();
    let victims = sweep_victims(&entries, 4, 0);
    let mut ages: Vec<u64> = victims.iter().map(|&i| entries[i].0 - 1_700_000_000).collect();
    assert_eq!(ages, vec![0, 1, 2, 3, 4, 5], "the six oldest go, oldest first");
    ages.sort();
    assert_eq!(ages.len(), 6);
}

#[test]
fn disk_sweep_enforces_byte_cap_and_is_noop_under_cap() {
    let entries: Vec<(u64, u64)> = (0..5u64).map(|i| (i, 1002)).collect();
    let victims = sweep_victims(&entries, 0, 2500);
    assert!(entries.len() - victims.len() <= 3);
    assert_eq!(victims, vec![0, 1, 2]);
    let small: Vec<(u64, u64)> = (0..3u64).map(|i| (i, 3)).collect();
    assert!(sweep_victims(&small, 4096, 512 * 1024 * 1024).is_empty());
    // Equal ages go in listing order.
    assert_eq!(sweep_victims(&[(5, 1), (5, 1), (5, 1)], 1, 0), vec![0, 1]);
    assert!(should_sweep(0, 1, 0));
    assert!(!should_sweep(1, 1, 0));
    assert!(should_sweep(64, 0, 1));
    assert!(!should_sweep(64, 0, 0));
}

#[test]
fn write_claims_are_single_flight() {
    let mut claims = WriteClaims::new();
    let first = try_claim_write(&mut claims, "/p", "/p", &[]).expect("first writer");
    assert!(try_claim_write(&mut claims, "/p", "/p", &[]).is_none());
    assert!(try_claim_write(&mut claims, "/q", "/q", &[]).is_some());
    claims.release(first);
    assert!(try_claim_write(&mut claims, "/p", "/p", &[]).is_some());
}

#[test]
fn cache_settings() {
    assert_eq!(build_namespace(Some("build-A")), "build-A");
    assert_eq!(build_namespace(Some("")), "dev");
    assert_eq!(build_namespace(None), "dev");
    assert!(is_stale_namespace("build-OLD", "build-B"));
    assert!(!is_stale_namespace("build-B", "build-B"));
    assert_eq!(mem_budget(None), Some(32 * 1024 * 1024));
    assert_eq!(mem_budget(Some(" 0 ")), None);
    assert_eq!(mem_budget(Some("100")), Some(100));
    assert_eq!(disk_cache_limits(None, Some("7")), (4096, 7));
}

#[test]
fn an_oversized_render_leaves_no_older_one_in_memory() {
    let mut m = MemCache::new(10);
    m.put("k", 200, &[], b"old", 1_000, 60);
    m.put("other", 200, &[], b"keep", 1_000, 60);
    m.put("k", 200, &[], &[7u8; 11], 1_001, 60);
    assert!(m.get("k").is_none(), "the read falls through to disk");
    assert!(m.get("other").is_some());
    assert_eq!(m.bytes(), 4);
}
