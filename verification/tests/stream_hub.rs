use pylon_runtime::stream_hub::{
    StreamFrame, StreamHub, StreamStatus, WaitOutcome, FRAME_OVERHEAD_BYTES,
};

fn pause_ms(ms: u64) {
    let start = std::time::Instant::now();
    while start.elapsed() < std::time::Duration::from_millis(ms) {}
}

fn hub() -> StreamHub {
    StreamHub::with_caps(1024, 3600, 10)
}

fn frames(o: WaitOutcome) -> (Vec<StreamFrame>, bool) {
    match o {
        WaitOutcome::Frames(f, ended) => (f, ended),
        other => panic!("expected frames, got {other:?}"),
    }
}

#[test]
fn append_replay_and_terminal() {
    let mut h = hub();
    let e = h.create("s1".into(), "chat", Some("u1"), None).unwrap();
    assert_eq!(h.append(&e, None, "hello"), 1);
    assert_eq!(h.append(&e, Some("tick"), "x"), 2);
    h.complete(&e, "{\"ok\":true}");

    // Full replay from 0.
    let (f, ended) = frames(h.wait_frames(&e, 0));
    assert_eq!(f.len(), 3);
    assert_eq!(f[0].data, "hello");
    assert_eq!(f[1].event.as_deref(), Some("tick"));
    assert_eq!(f[2].event.as_deref(), Some("result"));
    assert!(ended);

    // Mid-cursor resume.
    let (f, ended) = frames(h.wait_frames(&e, 1));
    assert_eq!(f.len(), 2);
    assert_eq!(f[0].seq, 2);
    assert!(ended);

    // At-tip resume on a terminal stream.
    assert!(matches!(h.wait_frames(&e, 3), WaitOutcome::Ended));

    // A second terminal is ignored — first outcome wins.
    h.fail(&e, "{\"code\":\"X\"}");
    let (f, _) = frames(h.wait_frames(&e, 0));
    assert_eq!(f.len(), 3);
    assert_eq!(h.meta(&e).unwrap().status, StreamStatus::Done);
}

#[test]
fn live_wait_heartbeats_then_delivers() {
    let mut h = hub();
    let e = h.create("s1".into(), "chat", None, None).unwrap();
    assert!(matches!(h.wait_frames(&e, 0), WaitOutcome::Heartbeat));
    let e2 = h.get("s1").unwrap();
    h.append(&e2, None, "late");
    let (f, ended) = frames(h.wait_frames(&e, 0));
    assert_eq!(f[0].data, "late");
    assert!(!ended);
}

#[test]
fn byte_cap_evicts_oldest_and_gones_stale_cursors() {
    let mut h = StreamHub::with_caps(100, 3600, 10);
    let e = h.create("s1".into(), "chat", None, None).unwrap();
    // 10 frames × 30 bytes overflows the 100-byte cap.
    for i in 0..10 {
        h.append(&e, None, &format!("{:030}", i));
    }
    // Cursor 0 fell off retention.
    match h.wait_frames(&e, 0) {
        WaitOutcome::Gone(oldest) => assert!(oldest > 1),
        other => panic!("expected Gone, got {other:?}"),
    }
    // A recent cursor still works.
    let (f, _) = frames(h.wait_frames(&e, 9));
    assert_eq!(f.len(), 1);
    assert_eq!(f[0].seq, 10);
}

#[test]
fn stream_cap_protects_fresh_results_then_evicts_stale_ones() {
    let mut h = StreamHub::with_caps(1024, 3600, 2);
    h.set_eviction_grace_for_test(3600);
    let a = h.create("a".into(), "f", None, None).unwrap();
    let _b = h.create("b".into(), "f", None, None).unwrap();
    // Hub full of LIVE streams — refuse (caller answers 503).
    assert!(h.create("c".into(), "f", None, None).is_none());
    // A FRESH completed stream is inside the eviction grace window.
    h.complete(&a, "null");
    assert!(
        h.create("c".into(), "f", None, None).is_none(),
        "fresh completed streams are protected from eviction"
    );
    assert!(h.get("a").is_some());
    // Outside the grace window the stale completed stream is fair game.
    h.set_eviction_grace_for_test(0);
    pause_ms(5);
    assert!(h.create("c".into(), "f", None, None).is_some());
    assert!(h.get("a").is_none(), "stale completed stream was evicted");
    assert!(h.get("b").is_some());
}

#[test]
fn byte_accounting_tracks_total_and_frees_on_removal() {
    let mut h = StreamHub::with_caps(1024 * 1024, 3600, 10);
    let e = h.create("s1".into(), "f", None, None).unwrap();
    h.append(&e, None, "0123456789");
    h.append(&e, Some("tick"), "x");
    let total = h.total_bytes();
    // data + event bytes + per-frame overhead, both frames.
    assert_eq!(total, 10 + FRAME_OVERHEAD_BYTES + 1 + 4 + FRAME_OVERHEAD_BYTES);
    h.complete(&e, "null");
    let with_terminal = h.total_bytes();
    assert!(with_terminal > total);
    h.remove("s1");
    assert_eq!(h.total_bytes(), 0, "removal frees the budget");
}

#[test]
fn cleanup_reaps_expired_completed_streams() {
    let mut h = StreamHub::with_caps(1024, 0, 10); // 0s retention
    let e = h.create("s1".into(), "f", None, None).unwrap();
    h.complete(&e, "null");
    pause_ms(5);
    assert_eq!(h.cleanup_expired(), 1);
    assert!(h.get("s1").is_none());
}

#[test]
fn ownership_metadata_survives() {
    let mut h = hub();
    let e = h.create("s1".into(), "chat", Some("u9"), Some("t3")).unwrap();
    let m = h.meta(&e).unwrap();
    assert_eq!(m.fn_name, "chat");
    assert_eq!(m.user_id.as_deref(), Some("u9"));
    assert_eq!(m.tenant_id.as_deref(), Some("t3"));
    assert_eq!(m.status, StreamStatus::Live);
}

#[test]
fn numbers_count_up_from_one_and_the_cap_keeps_the_newest() {
    let mut h = StreamHub::with_caps(10, 3600, 10);
    let e = h.create("s".into(), "f", None, None).unwrap();
    for i in 1..=5u64 {
        assert_eq!(h.append(&e, None, "a fairly long frame"), i);
    }
    // The newest frame alone is over the cap, and still kept.
    assert_eq!(h.oldest_seq(&e), Some(5));
    let (f, _) = frames(h.wait_frames(&e, 4));
    assert_eq!(f.len(), 1);
    assert_eq!(f[0].seq, 5);
}

#[test]
fn the_first_outcome_wins_for_failures_too() {
    let mut h = hub();
    let e = h.create("s".into(), "f", None, None).unwrap();
    h.fail(&e, "{\"code\":\"E\"}");
    h.complete(&e, "null");
    assert_eq!(h.meta(&e).unwrap().status, StreamStatus::Failed);
    let (f, ended) = frames(h.wait_frames(&e, 0));
    assert_eq!(f.len(), 1);
    assert_eq!(f[0].event.as_deref(), Some("error"));
    assert!(ended);
}

#[test]
fn a_removed_stream_keeps_working_through_its_handle() {
    let mut h = hub();
    let e = h.create("s".into(), "f", None, None).unwrap();
    assert_eq!(h.append(&e, None, "abc"), 1);
    assert!(h.total_bytes() > 0);
    h.remove("s");
    assert_eq!(h.total_bytes(), 0);
    assert!(h.is_empty());
    assert!(h.get("s").is_none());
    // The handle still reaches the buffer: numbering goes on.
    assert_eq!(h.append(&e, None, "after"), 2);
    assert_eq!(h.total_bytes(), 5 + FRAME_OVERHEAD_BYTES);
    h.complete(&e, "null");
    assert_eq!(h.meta(&e).unwrap().status, StreamStatus::Done);
    assert_eq!(h.oldest_seq(&e), Some(1));
    let (f, ended) = frames(h.wait_frames(&e, 0));
    assert_eq!(f.len(), 3);
    assert_eq!(f[1].data, "after");
    assert!(ended);
    // Handing the last handle back lets the buffer go; what it took on
    // after leaving the hub stays counted.
    h.release(e);
    assert_eq!(h.total_bytes(), 5 + FRAME_OVERHEAD_BYTES + 4 + 6 + FRAME_OVERHEAD_BYTES);
}

#[test]
fn a_handle_whose_buffer_was_let_go_does_nothing() {
    let mut h = hub();
    let e = h.create("s".into(), "f", None, None).unwrap();
    let e2 = h.get("s").unwrap();
    h.remove("s");
    h.release(e2);
    // One handle is still held: the buffer stays.
    assert!(h.meta(&e).is_some());
    h.release(e);
    let e3 = h.create("s".into(), "f", None, None).unwrap();
    assert_eq!(h.append(&e3, None, "x"), 1);
}

#[test]
fn a_replaced_stream_keeps_its_bytes_counted_and_its_handle() {
    let mut h = hub();
    let old = h.create("s".into(), "f", None, None).unwrap();
    assert_eq!(h.append(&old, None, "abcd"), 1);
    let counted = h.total_bytes();
    let new = h.create("s".into(), "g", None, None).unwrap();
    assert_eq!(h.len(), 1);
    // The replaced stream's bytes stay in the total.
    assert_eq!(h.total_bytes(), counted);
    // Its handle still appends to its own buffer, numbered on.
    assert_eq!(h.append(&old, None, "e"), 2);
    assert_eq!(h.append(&new, None, "z"), 1);
    assert_eq!(h.meta(&old).unwrap().fn_name, "f");
    assert_eq!(h.meta(&new).unwrap().fn_name, "g");
    h.fail(&old, "{}");
    assert_eq!(h.meta(&old).unwrap().status, StreamStatus::Failed);
    assert_eq!(h.meta(&new).unwrap().status, StreamStatus::Live);
}

#[test]
fn from_env_reads_positive_numbers_and_ignores_the_rest() {
    let h = StreamHub::from_env(Some(" 2048 "), Some("0"), Some("x"), None);
    assert!(h.is_empty());
    assert_eq!(h.len(), 0);
}
