use pylon_runtime::shard_cluster::{sign_with, SeenNonces};
use pylon_runtime::shard_route::{
    authority, decode, forward_payload, forwarded_value, keep_headers, owner_request,
    owner_request_head, parse_reply_head, proxy_request_head, request_url, route_action, shard_of,
    vouched_client_ip, vouched_client_ip_at, HeaderRule, RouteAction,
};

fn hs(pairs: &[(&str, &str)]) -> Vec<(String, String)> {
    pairs.iter().map(|(k, v)| (k.to_string(), v.to_string())).collect()
}

#[test]
fn the_shard_of_a_request() {
    assert_eq!(shard_of("/shard?shard=zone-1&sid=u").as_deref(), Some("zone-1"));
    assert_eq!(shard_of("/shard?sid=u&shard=match%3A42&v=2").as_deref(), Some("match:42"));
    assert_eq!(shard_of("/shard?sid=u"), None);
    assert_eq!(shard_of("/shard?shard="), None);
    assert_eq!(shard_of("/api/shards/zone/connect?sid=u").as_deref(), Some("zone"));
    assert_eq!(shard_of("/api/shards/zone/input").as_deref(), Some("zone"));
    assert_eq!(shard_of("/api/shards/zone"), None, "the admin detail runs anywhere");
    assert_eq!(shard_of("/api/shards/zone/stop"), None);
    assert_eq!(shard_of("/api/shards/a/b/input"), None);
    assert_eq!(shard_of("/api/other"), None);
}

#[test]
fn authority_of_an_address() {
    assert_eq!(authority("http://10.0.0.2:4321").as_deref(), Some("10.0.0.2:4321"));
    assert_eq!(authority("http://[fdaa::3]:8080").as_deref(), Some("[fdaa::3]:8080"));
    assert_eq!(authority("https://x"), None);
    assert_eq!(authority("http://h:1/path").as_deref(), Some("h:1"));
}

#[test]
fn decoding_keeps_what_is_not_an_escape() {
    assert_eq!(decode("a%20b"), "a b");
    assert_eq!(decode("a+b"), "a+b");
    assert_eq!(decode("%zz%4"), "%zz%4");
    assert_eq!(decode("%+5x"), "\u{5}x");
    assert_eq!(decode("%C3%A9"), "é");
    assert_eq!(decode("%FF"), "\u{FFFD}");
    assert_eq!(shard_of("/shard?shard=%2F&shard=b").as_deref(), Some("/"));
    assert_eq!(shard_of("/shard?shard&shard=b").as_deref(), Some("b"));
}

#[test]
fn a_forwarded_request_is_vouched_for_once() {
    let key = b"k";
    assert_eq!(forward_payload("1.2.3.4", "GET", "/x"), b"1.2.3.4\nGET\n/x".to_vec());
    let sig = sign_with(key, 5_000, "n", "me", &forward_payload("1.2.3.4", "GET", "/x"));
    let value = format!("1.2.3.4;{sig}");
    let mut seen = SeenNonces::new();
    assert_eq!(
        vouched_client_ip_at(&mut seen, Some(key), "me", &value, "GET", "/x", 5_000).as_deref(),
        Some("1.2.3.4")
    );
    assert_eq!(vouched_client_ip_at(&mut seen, Some(key), "me", &value, "GET", "/x", 5_000), None);
    let mut fresh = SeenNonces::new();
    assert_eq!(vouched_client_ip_at(&mut fresh, Some(key), "me", &value, "POST", "/x", 5_000), None);
    assert_eq!(vouched_client_ip_at(&mut fresh, Some(key), "me", "no-semicolon", "GET", "/x", 5_000), None);
    let v = forwarded_value(Some(key), "me", "9.9.9.9", "GET", "/y").unwrap();
    assert!(v.starts_with("9.9.9.9;"));
    assert!(forwarded_value(None, "me", "9.9.9.9", "GET", "/y").is_none());
}

#[test]
fn a_connection_is_passed_to_the_machine_that_runs_its_shard() {
    let head = "GET /?shard=zone&sid=u HTTP/1.1\r\nHost: a:1\r\nUpgrade: websocket\r\nx-pylon-shard-forwarded: forged\r\n  Sec-WebSocket-Key :  k== \r\nbroken line\r\n\r\n";
    assert_eq!(request_url(head).as_deref(), Some("/?shard=zone&sid=u"));
    assert_eq!(request_url("GET\r\nHost: a\r\n\r\n"), None);
    assert_eq!(
        owner_request_head(head, "/shard?shard=zone&sid=u", "10.0.0.2:80", "1.2.3.4;sig"),
        "GET /shard?shard=zone&sid=u HTTP/1.1\r\nHost: 10.0.0.2:80\r\nUpgrade: websocket\r\nSec-WebSocket-Key: k==\r\nX-Pylon-Shard-Forwarded: 1.2.3.4;sig\r\n\r\n"
    );
    let key = b"k";
    let (host, sent) = owner_request(
        Some(key),
        head,
        "/?shard=zone&sid=u",
        "m2",
        "http://10.0.0.2:80/",
        "1.2.3.4",
    )
    .unwrap();
    assert_eq!(host, "10.0.0.2:80");
    assert!(sent.starts_with("GET /shard?shard=zone&sid=u HTTP/1.1\r\nHost: 10.0.0.2:80\r\nUpgrade: websocket\r\n"));
    let value = sent
        .split("\r\n")
        .find_map(|l| l.strip_prefix("X-Pylon-Shard-Forwarded: "))
        .unwrap();
    let mut seen = SeenNonces::new();
    assert_eq!(
        vouched_client_ip(&mut seen, Some(key), "m2", value, "GET", "/shard?shard=zone&sid=u").as_deref(),
        Some("1.2.3.4")
    );
    assert!(owner_request(None, head, "/?shard=zone", "m2", "http://h:1", "1.2.3.4").is_none());
    assert!(owner_request(Some(key), head, "/?shard=zone", "m2", "https://h:1", "1.2.3.4").is_none());
}

#[test]
fn a_request_for_another_machine_is_replayed_proxied_or_forwarded() {
    let up = hs(&[("Host", "a"), ("UPGRADE", "WebSocket")]);
    assert_eq!(route_action("m2", Some("http://h:1"), true, &up), RouteAction::Replay("instance=m2".into()));
    assert_eq!(
        route_action("m2", None, false, &up),
        RouteAction::NoAddress(
            "the shard runs on machine m2, which has no address (set PYLON_SHARD_ADVERTISE_URL)".into()
        )
    );
    assert_eq!(route_action("m2", Some("http://h:1"), false, &up), RouteAction::Proxy);
    assert_eq!(
        route_action("m2", Some("http://h:1"), false, &hs(&[("Upgrade", "h2c")])),
        RouteAction::Forward
    );
    assert_eq!(route_action("m2", Some("http://h:1"), false, &[]), RouteAction::Forward);
}

#[test]
fn hops_keep_only_their_headers() {
    let client = hs(&[
        ("Host", "a"),
        ("content-length", "3"),
        ("Transfer-Encoding", "chunked"),
        ("X-Pylon-Shard-Forwarded", "forged"),
        ("Connection", "Upgrade"),
        ("Authorization", "Bearer t"),
    ]);
    assert_eq!(
        keep_headers(&client, HeaderRule::Passed),
        hs(&[("Connection", "Upgrade"), ("Authorization", "Bearer t")])
    );
    assert_eq!(keep_headers(&client, HeaderRule::ForwardedRequest), hs(&[("Authorization", "Bearer t")]));
    let reply = hs(&[
        ("Upgrade", "websocket"),
        ("Connection", "Upgrade"),
        ("Sec-WebSocket-Accept", "x"),
        ("sec-websocket-protocol", "bearer.t"),
        ("Content-Type", "application/json"),
        ("Content-Length", "10"),
    ]);
    assert_eq!(
        keep_headers(&reply, HeaderRule::UpgradeReply),
        hs(&[
            ("Upgrade", "websocket"),
            ("Connection", "Upgrade"),
            ("Sec-WebSocket-Accept", "x"),
            ("sec-websocket-protocol", "bearer.t"),
        ])
    );
    assert_eq!(keep_headers(&reply, HeaderRule::RefusedReply), hs(&[("Content-Type", "application/json")]));
    assert_eq!(
        keep_headers(&reply, HeaderRule::ForwardedReply),
        hs(&[
            ("Upgrade", "websocket"),
            ("Sec-WebSocket-Accept", "x"),
            ("sec-websocket-protocol", "bearer.t"),
            ("Content-Type", "application/json"),
        ])
    );
}

#[test]
fn the_proxied_upgrade_and_its_answer() {
    assert_eq!(
        proxy_request_head("/shard?shard=z", "10.0.0.2:80", &hs(&[("Upgrade", "websocket")]), "1.2.3.4;s"),
        "GET /shard?shard=z HTTP/1.1\r\nHost: 10.0.0.2:80\r\nUpgrade: websocket\r\nX-Pylon-Shard-Forwarded: 1.2.3.4;s\r\n\r\n"
    );
    let (status, headers) = parse_reply_head(
        "HTTP/1.1 101 Switching Protocols\r\nUpgrade: websocket\r\n Sec-WebSocket-Accept :  abc= \r\nnoise\r\n\r\n",
    )
    .unwrap();
    assert_eq!(status, 101);
    assert_eq!(headers, hs(&[("Upgrade", "websocket"), ("Sec-WebSocket-Accept", "abc=")]));
    assert_eq!(parse_reply_head("HTTP/1.1 403\r\n\r\n").map(|r| r.0), Some(403));
    assert_eq!(parse_reply_head("HTTP/1.1\r\n\r\n"), None);
    assert_eq!(parse_reply_head("HTTP/1.1 70000 Big\r\n\r\n"), None);
    assert_eq!(parse_reply_head("HTTP/1.1 abc\r\n\r\n"), None);
}
