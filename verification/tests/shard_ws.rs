use pylon_runtime::percent::{url_decode, urldecode_strict, urlencoding_encode};
use pylon_runtime::shard_ws::{
    bearer_token, chosen_subprotocol, close_for, connection_target, ip_counter_cap,
    max_connections_per_ip, query_param, queue_closed, read_handshake, reader_step, worker_threads,
    writer_step, CloseCode, ConnectionEnd, FrameKind, HandshakeParams, InputFormat, ReaderAction,
    ReaderEvent, ReaderState, Refusal, WriterAction, IDLE_TIMEOUT_MS,
};

fn headers(pairs: &[(&str, &str)]) -> Vec<(String, String)> {
    pairs.iter().map(|(k, v)| (k.to_string(), v.to_string())).collect()
}

#[test]
fn query_param_parses_basic() {
    assert_eq!(query_param("shard=match1&sid=p1", "shard"), Some("match1".to_string()));
    assert_eq!(query_param("shard=match1&sid=p1", "sid"), Some("p1".to_string()));
    assert_eq!(query_param("shard=match1", "missing"), None);
}

#[test]
fn query_param_url_decodes() {
    assert_eq!(query_param("name=hello%20world", "name"), Some("hello world".to_string()));
}

#[test]
fn query_param_edges() {
    assert_eq!(query_param("a&b=2", "a"), Some(String::new()));
    assert_eq!(query_param("", ""), Some(String::new()));
    assert_eq!(query_param("k=a+b%41", "k"), Some("a bA".to_string()));
    assert_eq!(query_param("k=x=y", "k"), Some("x=y".to_string()));
}

#[test]
fn lenient_and_strict_decoding() {
    assert_eq!(url_decode("%e9"), "\u{e9}");
    assert_eq!(url_decode("100%"), "100%");
    assert_eq!(urldecode_strict("a%20b+c"), Ok("a b c".to_string()));
    assert_eq!(urldecode_strict("%4"), Err("truncated percent-encoding".to_string()));
    assert_eq!(urldecode_strict("%zz"), Err("bad hex in percent-encoding".to_string()));
    assert_eq!(
        urldecode_strict("%FF"),
        Err("percent-encoded token is not valid UTF-8".to_string())
    );
    assert_eq!(urlencoding_encode("my app/ü"), "my%20app%2F%C3%BC");
}

#[test]
fn the_handshake_reads_tokens_and_chooses_a_subprotocol() {
    let (p, chosen) = read_handshake(
        "/shard?shard=a".to_string(),
        &headers(&[
            ("Authorization", "Bearer x"),
            ("Sec-WebSocket-Protocol", "ticket.t%201, bearer.tok%2B, bearer.second"),
        ]),
    );
    assert_eq!(p.uri, "/shard?shard=a");
    assert_eq!(p.auth_header.as_deref(), Some("Bearer x"));
    assert_eq!(p.bearer_from_subprotocol.as_deref(), Some("tok+"));
    assert_eq!(p.ticket.as_deref(), Some("t 1"));
    assert_eq!(chosen.as_deref(), Some("bearer.tok%2B"));

    let only_ticket = headers(&[("sec-websocket-protocol", "ticket.abc")]);
    assert_eq!(chosen_subprotocol(&only_ticket).as_deref(), Some("ticket.abc"));
    let bad = headers(&[("Sec-WebSocket-Protocol", "bearer.%zz, x")]);
    assert_eq!(chosen_subprotocol(&bad), None);
    let (p, _) = read_handshake(String::new(), &headers(&[("X-Pylon-Shard-Ticket", "tk")]));
    assert_eq!(p.ticket.as_deref(), Some("tk"));
}

#[test]
fn connection_caps() {
    assert_eq!(ip_counter_cap(0), u32::MAX);
    assert_eq!(ip_counter_cap(5), 5);
    assert_eq!(max_connections_per_ip(None), 64);
    assert_eq!(max_connections_per_ip(Some(" 0 ")), 0);
    assert_eq!(max_connections_per_ip(Some("x")), 64);
    assert_eq!(worker_threads(Some(1)), 2);
    assert_eq!(worker_threads(Some(16)), 8);
    assert_eq!(worker_threads(Some(5)), 5);
    assert_eq!(worker_threads(None), 2);
}

#[test]
fn a_connection_names_its_shard_subscriber_and_version() {
    let t = connection_target("/?shard=zone%2D1&sid=u7&v=2").unwrap();
    assert_eq!((t.shard_id.as_str(), t.sid.as_str(), t.version), ("zone-1", "u7", 2));
    let t = connection_target("/ws?shard=z").unwrap();
    assert_eq!((t.sid.as_str(), t.version), ("anon", 1));
    let t = connection_target("/?shard=z&v=3").unwrap();
    assert_eq!(t.version, 1);
    assert_eq!(connection_target("/?sid=u").err().as_deref(), Some("missing ?shard= parameter"));
    assert_eq!(connection_target("/no-query").err().as_deref(), Some("missing ?shard= parameter"));
}

#[test]
fn the_bearer_header_wins_over_the_subprotocol() {
    let mut p = HandshakeParams {
        uri: "/".into(),
        auth_header: Some("Bearer abc".into()),
        bearer_from_subprotocol: Some("sub".into()),
        ticket: None,
    };
    assert_eq!(bearer_token(&p).as_deref(), Some("abc"));
    p.auth_header = Some("Basic xyz".into());
    assert_eq!(bearer_token(&p).as_deref(), Some("sub"));
    p.auth_header = None;
    p.bearer_from_subprotocol = None;
    assert_eq!(bearer_token(&p), None);
}

#[test]
fn refusals_close_with_a_code_and_a_reason() {
    let (c, r) = close_for(Refusal::NoShard, "zone");
    assert_eq!((c, r.as_str()), (CloseCode::Policy, "shard \"zone\" not found"));
    let (c, r) = close_for(Refusal::BadTicket("expired".into()), "zone");
    assert_eq!((c, r.as_str()), (CloseCode::Policy, "unauthorized: expired"));
    let (c, r) = close_for(Refusal::Unauthorized("banned".into()), "zone");
    assert_eq!((c, r.as_str()), (CloseCode::Policy, "unauthorized: banned"));
    let (c, r) = close_for(Refusal::Failed("full".into()), "zone");
    assert_eq!((c, r.as_str()), (CloseCode::Again, "full"));
}

#[test]
fn the_writer_frames_by_protocol_version() {
    assert_eq!(
        writer_step(2, FrameKind::Replication),
        WriterAction::SendV2 { kind: FrameKind::Replication, replication_codec: true }
    );
    assert_eq!(
        writer_step(2, FrameKind::InputRejected),
        WriterAction::SendV2 { kind: FrameKind::InputRejected, replication_codec: false }
    );
    assert_eq!(writer_step(1, FrameKind::Snapshot), WriterAction::SendV1);
    assert_eq!(writer_step(1, FrameKind::InputRejected), WriterAction::Skip);
    assert_eq!(
        writer_step(1, FrameKind::Replication),
        WriterAction::Close(
            CloseCode::Protocol,
            "this shard replicates entities; connect with protocol v=2".into()
        )
    );
    assert_eq!(queue_closed(true), (CloseCode::Again, "client too slow".to_string()));
    assert_eq!(queue_closed(false), (CloseCode::Normal, "shard stopped".to_string()));
}

#[test]
fn the_reader_ends_idle_and_stuck_connections() {
    let at = |ms| ReaderState { last_activity_ms: ms };
    let (s, a) = reader_step(at(0), 2, ReaderEvent::Binary { now_ms: 10 });
    assert_eq!(s.last_activity_ms, 10);
    assert_eq!(a, ReaderAction::Input { format: InputFormat::ShardCodec, answer_rejection: true });
    let (_, a) = reader_step(at(0), 1, ReaderEvent::Binary { now_ms: 10 });
    assert_eq!(a, ReaderAction::Input { format: InputFormat::Json, answer_rejection: false });
    let (_, a) = reader_step(at(0), 1, ReaderEvent::Text { now_ms: 10 });
    assert_eq!(a, ReaderAction::Input { format: InputFormat::Json, answer_rejection: false });
    let (s, a) = reader_step(at(10), 1, ReaderEvent::Check { now_ms: 10 + IDLE_TIMEOUT_MS - 1, queue_closed: false });
    assert_eq!((s.last_activity_ms, a), (10, ReaderAction::Continue));
    let (_, a) = reader_step(at(10), 1, ReaderEvent::Check { now_ms: 10 + IDLE_TIMEOUT_MS, queue_closed: false });
    assert_eq!(a, ReaderAction::End(ConnectionEnd::Closed("idle timeout".into())));
    let (_, a) = reader_step(at(10), 1, ReaderEvent::Check { now_ms: 11, queue_closed: true });
    assert_eq!(
        a,
        ReaderAction::End(ConnectionEnd::Closed("client too slow; outbound queue closed".into()))
    );
    let (s, a) = reader_step(at(10), 1, ReaderEvent::Other { now_ms: 70_000 });
    assert_eq!((s.last_activity_ms, a), (70_000, ReaderAction::Continue));
    let (_, a) = reader_step(at(0), 1, ReaderEvent::Close);
    assert_eq!(a, ReaderAction::End(ConnectionEnd::ClientClosed));
    let (_, a) = reader_step(at(0), 1, ReaderEvent::Ended);
    assert_eq!(a, ReaderAction::End(ConnectionEnd::ClientClosed));
    let (_, a) = reader_step(at(0), 1, ReaderEvent::Failed("reset".into()));
    assert_eq!(a, ReaderAction::End(ConnectionEnd::Closed("ws read: reset".into())));
    let (_, a) = reader_step(at(0), 1, ReaderEvent::WriterStopped("ws write: broken".into()));
    assert_eq!(a, ReaderAction::End(ConnectionEnd::Closed("ws write: broken".into())));
}
