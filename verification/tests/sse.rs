use pylon_runtime::clock::current_unix_secs_string;
use pylon_runtime::sse::{
    serves_caller, delivery_for, extract_sse_token, is_flag_on, refusal_response, shard_of_client, sse_data,
    stream_head, Delivery,
};

fn head(lines: &[&str]) -> Vec<u8> {
    lines.join("\r\n").into_bytes()
}

#[test]
fn the_bearer_token_wins_then_the_cookie_then_the_query() {
    let all = head(&[
        "GET /events?token=q HTTP/1.1",
        "Cookie: a=1; pylon_session=c ; b=2",
        "Authorization:  Bearer  tok ",
        "",
        "",
    ]);
    assert_eq!(extract_sse_token(&all, "pylon_session").as_deref(), Some("tok"));
    let cookie = head(&["GET /events?token=q HTTP/1.1", "cookie: pylon_session=c", "", ""]);
    assert_eq!(extract_sse_token(&cookie, "pylon_session").as_deref(), Some("c"));
    let query = head(&["GET /events?x=1&token=q HTTP/1.1", "Host: h", "", ""]);
    assert_eq!(extract_sse_token(&query, "pylon_session").as_deref(), Some("q"));
    let lower = head(&["GET / HTTP/1.1", "AUTHORIZATION: bearer low"]);
    assert_eq!(extract_sse_token(&lower, "pylon_session").as_deref(), Some("low"));
}

#[test]
fn a_head_without_a_token_has_none() {
    assert_eq!(extract_sse_token(b"GET /events HTTP/1.1\r\n\r\n", "s"), None);
    assert_eq!(extract_sse_token(&[0xff, 0xfe], "s"), None);
    let junk = head(&["GET /events?token=q HTTP/1.1", "Cookie: junk", "", ""]);
    assert_eq!(extract_sse_token(&junk, "s").as_deref(), Some("q"));
    let basic = head(&["GET /e?token= HTTP/1.1", "Authorization: Basic x"]);
    assert_eq!(extract_sse_token(&basic, "s").as_deref(), Some(""));
    let other_cookie = head(&["GET /e HTTP/1.1", "Cookie: other=1"]);
    assert_eq!(extract_sse_token(&other_cookie, "s"), None);
}

#[test]
fn the_clock_reads_in_decimal() {
    let s = current_unix_secs_string();
    assert!(s.len() >= 10);
    assert!(s.bytes().all(|b| b.is_ascii_digit()));
}

#[test]
fn anonymous_streams_need_dev_mode_or_consent() {
    assert!(is_flag_on(Some("1")));
    assert!(is_flag_on(Some("TRUE")));
    assert!(!is_flag_on(Some("yes")));
    assert!(!is_flag_on(None));
    assert!(serves_caller(true, false, false, false));
    assert!(serves_caller(false, true, false, false));
    assert!(serves_caller(false, false, true, false));
    assert!(serves_caller(false, false, false, true));
    assert!(!serves_caller(false, false, false, false));
    let r = refusal_response();
    let body = "{\"error\":{\"code\":\"AUTH_REQUIRED\",\"message\":\"SSE requires authentication; pass session cookie, Authorization: Bearer, or ?token=\"}}";
    assert_eq!(
        r,
        format!("HTTP/1.1 401 Unauthorized\r\nContent-Type: application/json\r\nContent-Length: {}\r\nConnection: close\r\n\r\n{body}", body.len())
    );
    assert!(stream_head().starts_with("HTTP/1.1 200 OK\r\nContent-Type: text/event-stream\r\n"));
    assert!(stream_head().ends_with("\r\n\r\n: connected\n\n"));
}

#[test]
fn each_client_gets_what_it_may_read() {
    assert_eq!(sse_data("{\"a\":1}"), "data: {\"a\":1}\n\n");
    assert_eq!(delivery_for(true, false, false, false), Delivery::Change);
    assert_eq!(delivery_for(false, true, true, false), Delivery::Change);
    assert_eq!(delivery_for(false, false, true, true), Delivery::Tombstone);
    assert_eq!(delivery_for(false, false, true, false), Delivery::Skip);
    assert_eq!(delivery_for(false, false, false, true), Delivery::Skip);
    assert_eq!(shard_of_client(0), 0);
    assert_eq!(shard_of_client(37), 5);
}

#[test]
fn a_cookie_pair_without_equals_is_passed_over() {
    let buf = b"GET /events?token=q HTTP/1.1\r\nCookie: flag; pylon_session=abc\r\n\r\n";
    assert_eq!(extract_sse_token(buf, "pylon_session"), Some("abc".into()));
}
