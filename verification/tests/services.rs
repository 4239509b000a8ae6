use pylon_runtime::sync_relay::{manifest_backoff_secs, relay_signature, RelayConfig};
use pylon_runtime::tenant_hosts::{host_of_origin, is_trusted_host, is_trusted_origin, listing_endpoint, TenantHosts};
use pylon_runtime::tinybird_logger::{
    batch_full, civil_from_days, flush_wait_ms, iso_now_ms, iso_timestamp, secs_to_ymd_hms,
    ResolvedConfig, TinybirdLogger,
};
use pylon_runtime::tls::{generate_caddy_config, generate_nginx_config, TlsConfig};

#[test]
fn from_env_requires_both_url_and_secret() {
    let cfg = RelayConfig {
        base_url: "https://relay.example".into(),
        secret: "s".into(),
        app: "demo".into(),
    };
    assert_eq!(cfg.base_url, "https://relay.example");
}

#[test]
fn relay_settings_need_a_url_and_a_secret() {
    assert!(RelayConfig::from_env(Some("https://r"), None, None, None, "m").is_none());
    assert!(RelayConfig::from_env(Some("https://r"), Some(""), None, None, "m").is_none());
    assert!(RelayConfig::from_env(None, Some("s"), None, None, "m").is_none());
    let c = RelayConfig::from_env(Some("https://r//"), Some("s"), None, Some("proj"), "m").unwrap();
    assert_eq!(c.base_url, "https://r");
    assert_eq!(c.app, "proj");
    let c = RelayConfig::from_env(Some("https://r"), Some("s"), Some(""), None, "m").unwrap();
    assert_eq!(c.app, "m");
    assert_eq!(c.push_url("push"), "https://r/sync/push?app=m");
    let c = RelayConfig::from_env(Some("https://r"), Some("s"), Some("my app"), None, "m").unwrap();
    assert_eq!(c.push_url("manifest"), "https://r/sync/manifest?app=my%20app");
}

#[test]
fn relay_signatures_cover_the_time_and_the_body() {
    let a = relay_signature("secret", 100, b"{}");
    assert_eq!(a.len(), 64);
    assert_ne!(a, relay_signature("secret", 101, b"{}"));
    assert_ne!(a, relay_signature("secret", 100, b"{ }"));
    assert_ne!(a, relay_signature("other", 100, b"{}"));
    assert_eq!(manifest_backoff_secs(0), 2);
    assert_eq!(manifest_backoff_secs(3), 16);
    assert_eq!(manifest_backoff_secs(4), 32);
    assert_eq!(manifest_backoff_secs(9), 32);
}

#[test]
fn host_of_origin_extracts_and_strips() {
    assert_eq!(host_of_origin("https://a.example.com").as_deref(), Some("a.example.com"));
    assert_eq!(host_of_origin("https://a.example.com:8443").as_deref(), Some("a.example.com"));
    assert_eq!(host_of_origin("http://a.example.com/").as_deref(), Some("a.example.com"));
    assert_eq!(host_of_origin("ftp://a.example.com"), None);
    assert_eq!(host_of_origin("a.example.com"), None); // not an origin
    assert_eq!(host_of_origin("https://"), None);
}

#[test]
fn untrusted_when_feature_off() {
    assert!(!is_trusted_host(None, "anything.example.com"));
    assert!(!is_trusted_origin(None, "https://anything.example.com"));
}

#[test]
fn trusted_hosts_match_exactly_in_any_case() {
    let mut hosts = TenantHosts::from_list(&["Shop.Example.com".to_string()]);
    assert!(is_trusted_host(Some(&hosts), "shop.example.com"));
    assert!(is_trusted_host(Some(&hosts), "SHOP.example.COM"));
    assert!(!is_trusted_host(Some(&hosts), "evil.shop.example.com"));
    assert!(is_trusted_origin(Some(&hosts), "https://shop.example.com:443"));
    assert!(!is_trusted_origin(Some(&hosts), "ftp://shop.example.com"));
    // A failed refresh keeps the last set; a fresh listing replaces it.
    hosts.refresh(None);
    assert!(is_trusted_host(Some(&hosts), "shop.example.com"));
    hosts.refresh(Some(&["other.example".to_string()]));
    assert!(!is_trusted_host(Some(&hosts), "shop.example.com"));
    assert!(is_trusted_host(Some(&hosts), "other.example"));
    assert!(!is_trusted_host(Some(&TenantHosts::empty()), "other.example"));
    let (url, token) = listing_endpoint(Some("https://cloud/"), Some("t")).unwrap();
    assert_eq!(url, "https://cloud/api/fn/listProjectTrustedHosts");
    assert_eq!(token, "t");
    assert!(listing_endpoint(Some(""), Some("t")).is_none());
}

#[test]
fn iso_format_matches_datetime64() {
    let s = iso_now_ms();
    // 2026-05-11T22:30:24.407Z — 24 chars.
    assert_eq!(s.len(), 24, "got {s}");
    assert!(s.ends_with('Z'));
    assert!(s.contains('T'));
    let dot = s.rfind('.').unwrap();
    assert_eq!(&s[dot + 1..s.len() - 1].len(), &3);
}

#[test]
fn civil_from_days_epoch() {
    assert_eq!(civil_from_days(0), (1970, 1, 1));
}

#[test]
fn civil_from_days_known_dates() {
    assert_eq!(civil_from_days(10_957), (2000, 1, 1));
    assert_eq!(civil_from_days(19_782), (2024, 2, 29));
    assert_eq!(civil_from_days(56 * 365 + 14), (2026, 1, 1));
}

#[test]
fn civil_dates_before_the_epoch_and_across_centuries() {
    assert_eq!(civil_from_days(-1), (1969, 12, 31));
    assert_eq!(civil_from_days(-719_468), (0, 3, 1));
    assert_eq!(civil_from_days(11_016), (2000, 2, 29));
    assert_eq!(civil_from_days(-25_508), (1900, 3, 1));
    assert_eq!(civil_from_days(-25_509), (1900, 2, 28));
}

#[test]
fn timestamps_are_written_to_the_millisecond() {
    assert_eq!(secs_to_ymd_hms(86_399), (1970, 1, 1, 23, 59, 59));
    assert_eq!(iso_timestamp(2024, 2, 29, 1, 2, 3, 4), "2024-02-29T01:02:03.004Z");
    assert_eq!(iso_timestamp(-5, 1, 1, 0, 0, 0, 0), "-005-01-01T00:00:00.000Z");
    assert_eq!(iso_timestamp(12345, 12, 31, 23, 59, 59, 999), "12345-12-31T23:59:59.999Z");
}

#[test]
fn from_env_returns_none_when_unset() {
    assert!(ResolvedConfig::from_values(None, Some("p"), None, None, None, None, None).is_none());
    assert!(ResolvedConfig::from_values(Some("t"), Some(""), None, None, None, None, None).is_none());
    let c = ResolvedConfig::from_values(Some("t"), Some("p"), None, None, None, Some("ams"), None)
        .unwrap();
    assert_eq!(c.host, "https://api.tinybird.co");
    assert_eq!(c.region, "ams");
    assert_eq!(c.datasource, "request_log");
    assert_eq!(c.events_url(), "https://api.tinybird.co/v0/events?name=request_log");
    assert_eq!(c.auth_header(), "Bearer t");
    let logger = TinybirdLogger::new(&c);
    let row = logger.record("GET", "/x", 200, 3, 10, 20, "");
    assert_eq!(row.project_id, "p");
    assert_eq!(row.region, "ams");
    assert_eq!(row.path, "/x");
    assert_eq!(row.timestamp.len(), 24);
    assert_eq!(flush_wait_ms(0, 5), 60_000);
    assert_eq!(flush_wait_ms(3, 500), 1_500);
    assert_eq!(flush_wait_ms(3, 5_000), 0);
    assert!(batch_full(100));
    assert!(!batch_full(99));
}

#[test]
fn nginx_config_with_tls() {
    let tls = TlsConfig {
        cert_path: "/etc/ssl/certs/app.pem".into(),
        key_path: "/etc/ssl/private/app.key".into(),
        port: 443,
    };
    let config = generate_nginx_config(4321, Some(&tls));

    assert!(config.contains("listen 443 ssl http2;"));
    assert!(config.contains("Strict-Transport-Security"));
    assert!(config.contains("TLSv1.2"));
    assert!(config.contains("return 301 https://"));
    assert!(config.contains("ssl_certificate /etc/ssl/certs/app.pem;"));
    assert!(config.contains("ssl_certificate_key /etc/ssl/private/app.key;"));
    assert!(config.contains("proxy_pass http://127.0.0.1:4321;"));
    assert!(config.contains("proxy_pass http://127.0.0.1:4322;"));
    assert!(config.contains("X-Forwarded-Proto"));
}

#[test]
fn nginx_config_without_tls() {
    let config = generate_nginx_config(4321, None);

    assert!(config.contains("listen 80;"));
    assert!(config.contains("proxy_pass http://127.0.0.1:4321;"));
    assert!(!config.contains("ssl_certificate"));
    assert!(!config.contains("443"));
}

#[test]
fn caddy_config_contains_domain_and_ports() {
    let config = generate_caddy_config("example.com", 4321);

    assert!(config.contains("example.com {"));
    assert!(config.contains("reverse_proxy localhost:4321"));
    assert!(config.contains("reverse_proxy @websocket localhost:4322"));
    assert!(config.contains("header Upgrade websocket"));
}

#[test]
fn nginx_config_correct_ws_port() {
    let tls = TlsConfig {
        cert_path: "/cert.pem".into(),
        key_path: "/key.pem".into(),
        port: 8443,
    };
    let config = generate_nginx_config(9000, Some(&tls));

    assert!(config.contains("listen 8443 ssl http2;"));
    assert!(config.contains("proxy_pass http://127.0.0.1:9000;"));
    assert!(config.contains("proxy_pass http://127.0.0.1:9001;"));
}
