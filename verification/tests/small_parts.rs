use pylon_runtime::digest::hex_string;
use pylon_runtime::percent::percent_decode;
use pylon_runtime::shard_cluster::{new_epoch, Machine, SeenNonces, CALL_WINDOW_MS};
use pylon_runtime::shard_metrics::{label, per_kind, Family};
use pylon_runtime::shard_tickets::{
    ticket_expiry, ticket_secret, ticket_ttl, unix_now, DEFAULT_TTL_SECS, MAX_TTL_SECS,
};
use pylon_runtime::ssr_cache::WriteClaims;
use pylon_runtime::tinybird_logger::iso_of_epoch_ms;

#[test]
fn bytes_are_written_in_lowercase_hex() {
    assert_eq!(hex_string(&[]), "");
    assert_eq!(hex_string(&[0x00, 0x0f, 0xa0, 0xff]), "000fa0ff");
}

#[test]
fn percent_escapes_become_bytes() {
    assert_eq!(percent_decode("a%20b"), "a b");
    assert_eq!(percent_decode("caf%C3%A9"), "café");
    assert_eq!(percent_decode("100%"), "100%");
    assert_eq!(percent_decode("%zz"), "%zz");
    assert_eq!(percent_decode("%FF"), "\u{FFFD}");
    assert_eq!(percent_decode("a+b"), "a+b");
}

#[test]
fn free_capacity_may_be_negative() {
    let over = Machine {
        id: "m".into(),
        address: None,
        fly_instance: None,
        capacity: 2,
        load: 5,
        epoch: new_epoch(),
    };
    assert_eq!(over.free(), -3);
    let room = Machine { capacity: 10, load: 4, ..over };
    assert_eq!(room.free(), 6);
}

#[test]
fn a_nonce_is_kept_until_it_expires() {
    let mut seen = SeenNonces::new();
    assert!(seen.keep("a", 1_000));
    assert!(!seen.keep("a", 1_000));
    assert!(seen.keep("b", 2_000));
    assert!(!seen.keep("a", 1_000 + CALL_WINDOW_MS));
    assert!(seen.keep("a", 1_000 + 2 * CALL_WINDOW_MS + 1));
}

#[test]
fn label_values_are_escaped() {
    assert_eq!(label("plain"), "plain");
    assert_eq!(label("a\"b\\c\nd"), "a\\\"b\\\\c\\nd");
}

#[test]
fn a_family_starts_with_help_and_type() {
    let mut out = String::from("x\n");
    let f = Family::new(&mut out, "pylon_shards", "gauge", "Live shards.");
    assert_eq!(f.name, "pylon_shards");
    assert_eq!(out, "x\n# HELP pylon_shards Live shards.\n# TYPE pylon_shards gauge\n");
}

#[test]
fn series_per_kind_only_when_asked() {
    assert!(per_kind(Some("kind")));
    assert!(per_kind(Some("  kind\n")));
    assert!(!per_kind(Some("shard")));
    assert!(!per_kind(Some("")));
    assert!(!per_kind(None));
}

#[test]
fn ticket_lifetimes_are_bounded() {
    assert_eq!(ticket_ttl(None), DEFAULT_TTL_SECS);
    assert_eq!(ticket_ttl(Some(0)), 1);
    assert_eq!(ticket_ttl(Some(90)), 90);
    assert_eq!(ticket_ttl(Some(10 * MAX_TTL_SECS)), MAX_TTL_SECS);
    assert_eq!(ticket_expiry(1_000, None), 1_060);
    assert_eq!(ticket_expiry(1_000, Some(7_200)), 4_600);
    assert!(unix_now() > 1_600_000_000);
}

#[test]
fn a_write_claim_is_held_until_released() {
    let mut claims = WriteClaims::new();
    let c = claims.try_claim("k").expect("first");
    assert!(claims.try_claim("k").is_none());
    assert!(claims.try_claim("j").is_some());
    claims.release(c);
    assert!(claims.try_claim("k").is_some());
}

#[test]
fn timestamps_of_epoch_milliseconds() {
    assert_eq!(iso_of_epoch_ms(0), "1970-01-01T00:00:00.000Z");
    assert_eq!(iso_of_epoch_ms(951_782_400_123), "2000-02-29T00:00:00.123Z");
    assert_eq!(iso_of_epoch_ms(1_700_000_000_999), "2023-11-14T22:13:20.999Z");
}

#[test]
fn the_ticket_secret_is_configured_or_derived() {
    assert_eq!(ticket_secret(Some("abc"), b"host"), b"abc".to_vec());
    let derived = ticket_secret(Some(""), b"host");
    assert_eq!(derived, ticket_secret(None, b"host"));
    assert_eq!(derived.len(), 32);
    assert_ne!(derived, b"host".to_vec());
    assert_ne!(derived, ticket_secret(None, b"other"));
    assert_eq!(
        hex_string(&ticket_secret(None, b"key")),
        "2c060929c342cd185bc2ebe6ee75e7ba193dcf692facf1e3dbdcddbb16e90329"
    );
}
