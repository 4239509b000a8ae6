use pylon_runtime::messages::{check, recipients, route_outbox, MessageError, Target};
use pylon_runtime::outbox::{Outbox, MAX_DATA, MAX_MESSAGES_PER_TICK};
use pylon_runtime::shard_cluster::{Machine, Settle};
use pylon_runtime::shard_ids::{
    check_create, idle_step, kind_limits, shard_op, validate_shard_id, CreateError, ShardOp,
};
use pylon_runtime::shard_wasm::data::{
    call_admission, answered_flight, call_answer, default_workers, error_text, flight_key,
    flight_kept, retry_delay, retry_flight, retryable, Admission, CallOutcome, CallQueue, Flight,
    CALL_QUEUE, FORGET_AFTER_MS, MAX_CALLS_IN_FLIGHT, RETRY_FIRST_MS, RETRY_MAX_MS,
};
use pylon_runtime::shard_wasm::drain::{
    drain_secs, hand_over_check, hand_over_moved, notice_for, placement_moved, targets, ticket_user,
    Notice, DRAIN_SECS,
};
use pylon_runtime::shard_wasm::transfer::{
    accept_plan, accept_settled, accept_unconfirmed, after_delivery, back_plan, back_resolution,
    back_settled, begin_resolution, Resolution,
    back_unconfirmed, begin_recorded, begin_unconfirmed, check_request, copy_check,
    new_transfer_id, ownerless_next, recent_move_left, round_finish, round_turn, AcceptPlan,
    AfterDelivery, Back, BackPlan, CopyCheck, Finish, Instance, Ownerless, Role, RoundTurn, Step,
    TransferError, ABANDON_AFTER_MS, MoveRequest, RequestGate, REQUEST_BACKOFF_MS,
};

fn outbox(groups: Option<&[&str]>, messages: &[(&str, &str, &[u8])]) -> Vec<u8> {
    let mut out = Vec::new();
    match groups {
        Some(g) => {
            out.push(1);
            out.extend_from_slice(&(g.len() as u16).to_le_bytes());
            for name in g {
                out.extend_from_slice(&(name.len() as u16).to_le_bytes());
                out.extend_from_slice(name.as_bytes());
            }
        }
        None => out.push(0),
    }
    out.extend_from_slice(&(messages.len() as u32).to_le_bytes());
    for (to, topic, data) in messages {
        out.extend_from_slice(&(to.len() as u16).to_le_bytes());
        out.extend_from_slice(to.as_bytes());
        out.extend_from_slice(&(topic.len() as u16).to_le_bytes());
        out.extend_from_slice(topic.as_bytes());
        out.extend_from_slice(&(data.len() as u32).to_le_bytes());
        out.extend_from_slice(data);
    }
    out
}

#[test]
fn an_outbox_parses_and_bad_ones_are_refused() {
    let ok = Outbox::parse(&outbox(Some(&["north"]), &[("all", "relic", b"taken")])).unwrap();
    assert_eq!(ok.groups, Some(vec!["north".to_string()]));
    assert_eq!(
        ok.messages,
        vec![("all".to_string(), "relic".to_string(), b"taken".to_vec())]
    );
    assert_eq!(Outbox::parse(&outbox(None, &[])).unwrap().groups, None);

    let mut short = outbox(None, &[("all", "t", b"abc")]);
    short.pop();
    assert!(Outbox::parse(&short).is_err());
    let mut extra = outbox(None, &[]);
    extra.push(0);
    assert!(Outbox::parse(&extra).is_err());
    let whole = outbox(Some(&["north"]), &[("all", "relic", b"taken")]);
    for k in 0..whole.len() {
        assert!(Outbox::parse(&whole[..k]).is_err(), "prefix of {k} bytes");
    }
    let big = vec![0u8; MAX_DATA + 1];
    assert!(Outbox::parse(&outbox(None, &[("all", "t", &big)])).is_err());
    let many: Vec<(&str, &str, &[u8])> = (0..=MAX_MESSAGES_PER_TICK)
        .map(|_| ("all", "t", &b""[..]))
        .collect();
    assert!(Outbox::parse(&outbox(None, &many)).is_err());
    // A length past the end, or a huge count, is an error, not a panic.
    assert!(Outbox::parse(&[0, 1, 0, 0, 0, 0xff, 0xff]).is_err());
    assert!(Outbox::parse(&[0, 0xff, 0xff, 0xff, 0xff]).is_err());
}

#[test]
fn targets_parse() {
    assert_eq!(Target::parse("all").unwrap(), Target::All);
    assert_eq!(Target::parse("shard:z-1").unwrap(), Target::Shard("z-1".into()));
    assert_eq!(Target::parse("group:north").unwrap(), Target::Group("north".into()));
    assert!(Target::parse("north").is_err());
    assert!(Target::parse("group:").is_err());
    assert!(Target::parse("shard:has space").is_err());
}

#[test]
fn a_target_written_reads_back() {
    for t in [Target::All, Target::Shard("z-1".into()), Target::Group("north".into())] {
        assert_eq!(Target::parse(&t.wire()).unwrap(), t);
    }
    let e: MessageError = Target::parse("nowhere").unwrap_err();
    assert_eq!(e.code(), "SHARD_MESSAGE_INVALID");
    assert!(check("topic", b"data").is_ok());
    assert!(check("", b"data").is_err());
}

#[test]
fn shard_ids_are_checked() {
    assert!(validate_shard_id("zone-1:a_b.c").is_ok());
    match validate_shard_id("has space") {
        Err(CreateError::InvalidId(m)) => assert!(m.contains("\"has space\"")),
        other => panic!("{other:?}"),
    }
    assert!(validate_shard_id("").is_err());
    assert!(validate_shard_id(&"x".repeat(129)).is_err());
    assert!(validate_shard_id(&"x".repeat(128)).is_ok());
    assert_eq!(CreateError::Exists("a".into()).code(), "SHARD_EXISTS");
}

#[test]
fn retryable_codes_are_the_infrastructure_ones() {
    for code in [
        "PG_TX_QUERY_FAILED",
        "PG_POOL_TIMEOUT",
        "SQLITE_BUSY",
        "SQLITE_IOERR",
        "RUNNER_EXITED",
        "FN_TIMEOUT",
        "BEGIN_FAILED",
        "COMMIT_FAILED",
    ] {
        assert!(retryable(code), "{code}");
    }
    for code in [
        "NOT_FOUND",
        "FORBIDDEN",
        "KEY_REUSED",
        "FN_NOT_FOUND",
        "CALL_PANICKED",
        "PG_REJECTED",
        "PG_INVALID_DATA",
        "PG_INVALID_UPDATE",
        "PG_INVALID_ID",
        "INSERT_FAILED",
    ] {
        assert!(!retryable(code), "{code}");
    }
    assert_eq!(retry_delay(0), RETRY_FIRST_MS);
    assert_eq!(retry_delay(40), RETRY_MAX_MS);
}

#[test]
fn retry_delays_double_up_to_the_cap() {
    assert_eq!(retry_delay(1), 500);
    assert_eq!(retry_delay(6), 16_000);
    assert_eq!(retry_delay(7), 30_000);
    assert_eq!(default_workers(None), 1);
    assert_eq!(default_workers(Some(2)), 1);
    assert_eq!(default_workers(Some(12)), 3);
    assert_eq!(default_workers(Some(100)), 4);
}

fn mach(id: &str, address: bool, capacity: u32, load: u32) -> Machine {
    Machine {
        id: id.into(),
        address: if address { Some(format!("http://{id}")) } else { None },
        fly_instance: None,
        capacity,
        load,
        epoch: 0,
    }
}

#[test]
fn drain_targets_are_reachable_others_least_loaded_first() {
    let live = vec![
        mach("me", true, 10, 0),
        mach("full", true, 2, 2),
        mach("busy", true, 10, 5),
        mach("idle", true, 10, 1),
        mach("gone", false, 10, 0),
        mach("closing", true, 0, 0),
        mach("also-idle", true, 10, 1),
    ];
    let ids: Vec<String> = targets(live, "me").into_iter().map(|m| m.id).collect();
    assert_eq!(ids, vec!["also-idle", "idle", "busy", "full"]);
}

#[test]
fn transfer_errors_travel_by_code() {
    let all = [
        TransferError::NotFound("x".into()),
        TransferError::InvalidId("x".into()),
        TransferError::NoPlayer("x".into()),
        TransferError::Unsupported("x".into()),
        TransferError::Refused("x".into()),
        TransferError::Busy("x".into()),
        TransferError::Cluster("x".into()),
    ];
    for e in all {
        assert_eq!(TransferError::from_code(e.code(), "x".into()), e);
    }
    assert_eq!(
        TransferError::from_code("WHATEVER", "m".into()),
        TransferError::Cluster("m".into())
    );
    assert_eq!(
        TransferError::NotFound("z".into()).message(),
        "shard \"z\" is not running"
    );
    assert_eq!(
        TransferError::NoPlayer("p".into()).message(),
        "subscriber \"p\" has no entity in the shard"
    );
    assert_eq!(TransferError::Busy("moving".into()).message(), "moving");
    assert_eq!(Step::Accept.role(), Role::Target);
    assert_eq!(Step::Begin.role(), Role::Source);
    assert_eq!(Step::Back.role(), Role::Source);
}

#[test]
fn transfer_requests_are_checked_before_anything_moves() {
    assert!(check_request("a", "p1", "b").is_ok());
    assert_eq!(
        check_request("a b", "p1", "b"),
        Err(TransferError::InvalidId(
            "shard id \"a b\" must be 1 to 128 characters of letters, digits, '-', '_', '.', ':'".into()
        ))
    );
    assert!(matches!(check_request("a", "p1", ""), Err(TransferError::InvalidId(_))));
    assert_eq!(
        check_request("a", "", "b"),
        Err(TransferError::InvalidId("a subscriber id is 1 to 256 bytes".into()))
    );
    assert!(check_request("a", &"x".repeat(256), "b").is_ok());
    assert!(check_request("a", &"x".repeat(257), "b").is_err());
    assert_eq!(
        check_request("a", "p1", "a"),
        Err(TransferError::Refused("the source and the target are the same shard".into()))
    );
    let id = new_transfer_id();
    assert_eq!(id.len(), 32);
    assert!(id.bytes().all(|c| c.is_ascii_hexdigit() && !c.is_ascii_uppercase()));
}

#[test]
fn a_copy_belongs_to_the_run_that_made_it() {
    let run = Instance { epoch: 7, serial: 1 };
    let later = Instance { epoch: 7, serial: 2 };
    assert_eq!(copy_check(Some((Step::Accept, run)), run), CopyCheck::Copy);
    assert_eq!(copy_check(Some((Step::Back, run)), run), CopyCheck::Copy);
    assert_eq!(copy_check(Some((Step::Begin, run)), run), CopyCheck::NoCopy);
    assert_eq!(copy_check(Some((Step::Accept, run)), later), CopyCheck::Stale);
    assert_eq!(copy_check(None, run), CopyCheck::NoCopy);
}

#[test]
fn the_row_decides_which_side_keeps_the_player() {
    assert_eq!(accept_plan("t1", Some("out"), false), AcceptPlan::Settle { add_player: true });
    assert_eq!(accept_plan("t1", Some("out"), true), AcceptPlan::Settle { add_player: false });
    assert_eq!(accept_plan("t1", Some("in"), true), AcceptPlan::Done { arrived: true });
    assert_eq!(
        accept_plan("t1", Some("back"), true),
        AcceptPlan::Refuse {
            remove_copy: true,
            error: TransferError::Refused("transfer t1 is already back".into())
        }
    );
    assert_eq!(
        accept_plan("t1", None, false),
        AcceptPlan::Refuse { remove_copy: false, error: TransferError::Refused("no transfer t1".into()) }
    );
    assert_eq!(back_plan("t1", Some("out"), false), BackPlan::Settle { add_player: true });
    assert_eq!(
        back_plan("t1", Some("back"), true),
        BackPlan::Done { back: Back::Returned, remove_copy: false }
    );
    assert_eq!(
        back_plan("t1", Some("in"), true),
        BackPlan::Done { back: Back::TargetHas, remove_copy: true }
    );
    assert_eq!(
        back_plan("t1", Some("dropped"), false),
        BackPlan::Fail(TransferError::Cluster("no transfer t1".into()))
    );
    for status in [Some("out"), Some("in"), Some("back"), Some("dropped"), None] {
        let a = accept_plan("t", status, true);
        let b = back_plan("t", status, true);
        let target_keeps = matches!(a, AcceptPlan::Done { .. });
        let source_keeps = matches!(b, BackPlan::Done { back: Back::Returned, .. });
        assert!(!(target_keeps && source_keeps));
    }
}

#[test]
fn settling_the_row_and_reading_it_back() {
    let r = begin_recorded("a", true);
    assert!(r.result.is_ok() && !r.undo && !r.unknown);
    let r = begin_recorded("a", false);
    assert_eq!(r.result, Err(TransferError::NotFound("a".into())));
    assert!(r.undo);
    let lost = TransferError::Cluster("timeout".into());
    let r = begin_unconfirmed(lost.clone(), Ok(Some("out")));
    assert!(r.result.is_ok() && !r.undo);
    let r = begin_unconfirmed(lost.clone(), Ok(None));
    assert_eq!(r.result, Err(lost.clone()));
    assert!(r.undo && !r.unknown);
    let r = begin_unconfirmed(lost.clone(), Err("down"));
    assert!(r.unknown && !r.undo);

    let r = accept_settled("t1", "b", Settle::Done);
    assert!(r.result.is_ok() && !r.undo);
    let r = accept_settled("t1", "b", Settle::Taken);
    assert_eq!(r.result, Err(TransferError::Refused("transfer t1 was settled by the source".into())));
    assert!(r.undo);
    let r = accept_settled("t1", "b", Settle::NotHeld);
    assert_eq!(
        r.result,
        Err(TransferError::Cluster("this machine no longer holds shard \"b\"".into()))
    );
    let r = accept_unconfirmed(lost.clone(), Ok(Some("in")));
    assert!(r.result.is_ok() && !r.undo && !r.unknown);
    let r = accept_unconfirmed(lost.clone(), Ok(Some("back")));
    assert!(r.result.is_err() && r.undo);
    let r = accept_unconfirmed(lost.clone(), Err("down"));
    assert!(r.result.is_err() && !r.undo && r.unknown);

    assert_eq!(back_settled("a", Settle::Done).result, Ok(Back::Returned));
    let r = back_settled("a", Settle::Taken);
    assert_eq!(r.result, Ok(Back::TargetHas));
    assert!(r.undo);
    assert_eq!(
        back_settled("a", Settle::NotHeld).result,
        Err(TransferError::Cluster("this machine no longer holds shard \"a\"".into()))
    );
    assert_eq!(back_unconfirmed(lost.clone(), Ok(Some("back"))).result, Ok(Back::Returned));
    let r = back_unconfirmed(lost.clone(), Ok(Some("in")));
    assert_eq!(r.result, Ok(Back::TargetHas));
    assert!(r.undo);
    let r = back_unconfirmed(lost.clone(), Ok(None));
    assert_eq!(r.result, Err(lost.clone()));
    assert!(r.undo);
    assert!(back_unconfirmed(lost.clone(), Err("down")).unknown);
}

#[test]
fn rounds_finish_moves_from_their_rows() {
    let e = TransferError::Refused("no".into());
    assert_eq!(after_delivery(e.clone(), Ok(Back::Returned)), AfterDelivery::Returned(e.clone()));
    assert_eq!(after_delivery(e.clone(), Ok(Back::TargetHas)), AfterDelivery::Completed);
    let x = TransferError::Cluster("restarted".into());
    assert_eq!(after_delivery(e.clone(), Err(x.clone())), AfterDelivery::Waiting(x));

    let run = Instance { epoch: 1, serial: 5 };
    let old = Instance { epoch: 1, serial: 4 };
    assert_eq!(round_turn(true, false, Some(run), None), RoundTurn::Skip);
    assert_eq!(round_turn(false, true, Some(run), None), RoundTurn::Skip);
    assert_eq!(round_turn(false, false, None, Some(old)), RoundTurn::Forget(old));
    assert_eq!(round_turn(false, false, None, None), RoundTurn::Skip);
    assert_eq!(round_turn(false, false, Some(run), Some(old)), RoundTurn::Forget(old));
    assert_eq!(round_turn(false, false, Some(run), Some(run)), RoundTurn::Work(run));
    assert_eq!(round_turn(false, false, Some(run), None), RoundTurn::Work(run));

    assert_eq!(round_finish(Ok(Some("in"))), Finish::Complete);
    assert_eq!(round_finish(Ok(Some("back"))), Finish::Return);
    assert_eq!(round_finish(Ok(Some("out"))), Finish::Deliver);
    assert_eq!(round_finish(Ok(None)), Finish::Return);
    assert_eq!(round_finish(Err("down")), Finish::Later);

    assert_eq!(ownerless_next(&Ok(()), 0), Ownerless::Taken);
    assert_eq!(ownerless_next(&Err(e.clone()), ABANDON_AFTER_MS), Ownerless::RetryLater);
    assert_eq!(ownerless_next(&Err(e.clone()), ABANDON_AFTER_MS + 1), Ownerless::Abandon);
    assert_eq!(
        ownerless_next(&Err(TransferError::Unsupported("no".into())), ABANDON_AFTER_MS + 1),
        Ownerless::Abandon
    );
    assert_eq!(
        ownerless_next(&Err(TransferError::Cluster("down".into())), ABANDON_AFTER_MS + 1),
        Ownerless::RetryLater
    );

    assert_eq!(recent_move_left(0), (600, 0));
    assert_eq!(recent_move_left(-5), (600, 0));
    assert_eq!(recent_move_left(59_999), (541, 59));
    assert_eq!(recent_move_left(600_000), (0, 600));
    assert_eq!(recent_move_left(i64::MAX), (0, (i64::MAX as u64) / 1000));
}

#[test]
fn flights_are_kept_until_answered_or_forgotten() {
    assert!(flight_kept(Flight::Running { attempt: 3 }, 10, 0));
    assert!(flight_kept(Flight::Answered { tick: 10 }, 10, 0));
    assert!(!flight_kept(Flight::Answered { tick: 9 }, 10, 0));
    assert!(flight_kept(Flight::Waiting { until_ms: 1_000, attempt: 1 }, 0, 1_000 + FORGET_AFTER_MS - 1));
    assert!(!flight_kept(Flight::Waiting { until_ms: 1_000, attempt: 1 }, 0, 1_000 + FORGET_AFTER_MS));
    assert!(flight_kept(Flight::Waiting { until_ms: 5_000, attempt: 1 }, 0, 0));
    assert_eq!(flight_key("score", "k1"), "score\u{0}k1");
}

#[test]
fn calls_are_queued_once_and_within_limits() {
    let refuse = |code: &str, message: &str| Admission::Refuse { code: code.into(), message: message.into() };
    assert_eq!(call_admission("", "f", false, None, 0, 0), refuse("INVALID_KEY", "a call key is 1 to 256 bytes"));
    assert_eq!(
        call_admission(&"k".repeat(257), "f", false, None, 0, 0),
        refuse("INVALID_KEY", "a call key is 1 to 256 bytes")
    );
    assert_eq!(
        call_admission("k", &"f".repeat(129), false, None, 0, 0),
        refuse("FN_NOT_FOUND", "a function name is 1 to 128 bytes")
    );
    assert_eq!(call_admission("k", "f", true, None, 0, 0), refuse("NO_FUNCTIONS", "the app runs no functions"));
    assert_eq!(call_admission("k", "f", false, None, 0, 0), Admission::Queue { attempt: 0 });
    assert_eq!(call_admission("k", "f", false, Some(Flight::Running { attempt: 0 }), 0, 0), Admission::Skip);
    assert_eq!(call_admission("k", "f", false, Some(Flight::Answered { tick: 1 }), 0, 0), Admission::Skip);
    let waiting = Some(Flight::Waiting { until_ms: 100, attempt: 2 });
    assert_eq!(call_admission("k", "f", false, waiting, 99, 0), Admission::Skip);
    assert_eq!(call_admission("k", "f", false, waiting, 100, 0), Admission::Queue { attempt: 2 });
    assert_eq!(call_admission("k", "f", false, None, 0, MAX_CALLS_IN_FLIGHT), Admission::Skip);
    assert_eq!(error_text("FN_NOT_FOUND", "no such"), "FN_NOT_FOUND: no such");
}

#[test]
fn infrastructure_failures_wait_and_are_made_again() {
    let a = call_answer("k", CallOutcome::Value("{\"x\":1}".into())).unwrap();
    assert_eq!((a.key.as_str(), a.ok, a.data.as_str()), ("k", true, "{\"x\":1}"));
    let a = call_answer(
        "k",
        CallOutcome::Failed { code: "FN_ERROR".into(), message: "bad".into() },
    )
    .unwrap();
    assert_eq!((a.ok, a.data.as_str()), (false, "FN_ERROR: bad"));
    assert!(call_answer("k", CallOutcome::Failed { code: "PG_TIMEOUT".into(), message: "x".into() }).is_none());
    assert_eq!(
        retry_flight(Flight::Running { attempt: 0 }, 1_000),
        Flight::Waiting { until_ms: 1_000 + RETRY_FIRST_MS, attempt: 1 }
    );
    assert_eq!(
        retry_flight(Flight::Running { attempt: 20 }, 1_000),
        Flight::Waiting { until_ms: 1_000 + RETRY_MAX_MS, attempt: 21 }
    );
    assert_eq!(
        retry_flight(Flight::Answered { tick: 3 }, 0),
        Flight::Waiting { until_ms: RETRY_FIRST_MS, attempt: 1 }
    );
    assert_eq!(answered_flight(true, 12), Some(Flight::Answered { tick: 12 }));
    assert_eq!(answered_flight(false, 12), None);
}

#[test]
fn the_call_queue_serves_shards_in_turn() {
    let mut q: CallQueue<&str> = CallQueue::new();
    for k in ["a1", "a2", "a3"] {
        assert!(q.push("a", 1, k));
    }
    assert!(q.push("b", 2, "b1"));
    let order: Vec<&str> = std::iter::from_fn(|| q.pop()).map(|(_, _, c)| c).collect();
    assert_eq!(order, ["a1", "b1", "a2", "a3"]);
}

#[test]
fn the_call_queue_turns_over_three_shards() {
    let mut q: CallQueue<&str> = CallQueue::new();
    assert!(q.pop().is_none());
    assert!(q.push("a", 1, "a1"));
    assert!(q.push("a", 1, "a2"));
    assert!(q.push("a", 1, "a3"));
    assert!(q.push("b", 7, "b1"));
    assert!(q.push("c", 9, "c1"));
    assert_eq!(q.len(), 5);
    let order: Vec<(String, u64, &str)> = std::iter::from_fn(|| q.pop()).collect();
    let served: Vec<&str> = order.iter().map(|(_, _, c)| *c).collect();
    assert_eq!(served, vec!["a1", "b1", "c1", "a2", "a3"]);
    assert_eq!(order[1].0, "b");
    assert_eq!(order[1].1, 7);
    assert_eq!(q.len(), 0);
}

#[test]
fn a_full_call_queue_refuses() {
    let mut q: CallQueue<u32> = CallQueue::new();
    for n in 0..CALL_QUEUE {
        assert!(q.push(if n % 2 == 0 { "a" } else { "b" }, 0, n as u32));
    }
    assert!(!q.push("c", 0, 0));
    assert_eq!(q.len(), CALL_QUEUE);
    assert!(q.pop().is_some());
    assert!(q.push("c", 0, 0));
}

#[test]
fn an_outbox_sends_its_valid_messages_in_order() {
    let ms = vec![
        ("shard:b".to_string(), "hit".to_string(), vec![1u8]),
        ("nowhere".to_string(), "hit".to_string(), vec![2u8]),
        ("group:red".to_string(), "".to_string(), vec![3u8]),
        ("all".to_string(), "tick".to_string(), vec![0u8; MAX_DATA + 1]),
        ("all".to_string(), "tick".to_string(), vec![4u8]),
    ];
    let (sent, dropped) = route_outbox("a", ms);
    assert_eq!(dropped.len(), 3);
    assert_eq!(
        dropped[0].0,
        "target \"nowhere\" is not \"shard:<id>\", \"group:<name>\", or \"all\""
    );
    assert_eq!(dropped[1].0, "a topic is 1 to 128 bytes");
    assert_eq!(dropped[2].0, "a message is at most 65536 bytes");
    assert_eq!(sent.len(), 2);
    assert_eq!((sent[0].from.as_str(), &sent[0].to, sent[0].topic.as_str(), sent[0].data.clone()), ("a", &Target::Shard("b".into()), "hit", vec![1u8]));
    assert_eq!((&sent[1].to, sent[1].data.clone()), (&Target::All, vec![4u8]));
}

#[test]
fn messages_reach_every_shard_named_but_the_sender() {
    let running: Vec<String> = vec!["a".into(), "b".into(), "c".into()];
    let groups: Vec<(String, Vec<String>)> = vec![
        ("a".into(), vec!["red".into()]),
        ("b".into(), vec!["blue".into(), "red".into()]),
        ("c".into(), vec!["blue".into()]),
    ];
    assert_eq!(recipients("a", &Target::All, &running, &groups), vec!["b".to_string(), "c".to_string()]);
    assert_eq!(recipients("a", &Target::Group("red".into()), &running, &groups), vec!["b".to_string()]);
    assert_eq!(
        recipients("z", &Target::Group("blue".into()), &running, &groups),
        vec!["b".to_string(), "c".to_string()]
    );
    assert_eq!(recipients("a", &Target::Shard("c".into()), &running, &groups), vec!["c".to_string()]);
    assert!(recipients("a", &Target::Shard("a".into()), &running, &groups).is_empty());
    assert!(recipients("a", &Target::Group("green".into()), &running, &groups).is_empty());
}

#[test]
fn a_drain_hands_over_within_its_time() {
    assert_eq!(drain_secs(None), DRAIN_SECS);
    assert_eq!(drain_secs(Some(" 45 ")), 45);
    assert_eq!(drain_secs(Some("0")), 0);
    assert_eq!(drain_secs(Some("soon")), DRAIN_SECS);
    assert!(placement_moved(Some(("m2", 7)), "m1", 7));
    assert!(placement_moved(Some(("m1", 8)), "m1", 7));
    assert!(!placement_moved(Some(("m1", 7)), "m1", 7));
    assert!(!placement_moved(None, "m1", 7));
}

#[test]
fn a_hand_over_is_taken_only_from_its_holder() {
    let err = |c: &str, m: &str| Err((c.to_string(), m.to_string()));
    assert_eq!(hand_over_check("z", "m1", 3, false, Some(9), false, Ok(None)), err("SHARD_CLUSTER_ERROR", "no shard directory"));
    assert_eq!(
        hand_over_check("z", "m1", 3, true, None, false, Ok(None)),
        err("SHARD_UNAVAILABLE", "this machine is not taking shards")
    );
    assert_eq!(
        hand_over_check("z", "m1", 3, true, Some(9), true, Ok(Some(("m1", 3)))),
        err("SHARD_UNAVAILABLE", "shard z is ending on this machine; try again shortly")
    );
    assert_eq!(hand_over_check("z", "m1", 3, true, Some(9), false, Ok(Some(("m1", 3)))), Ok(9));
    assert_eq!(
        hand_over_check("z", "m1", 3, true, Some(9), false, Ok(Some(("m1", 4)))),
        err("SHARD_NOT_FOUND", "m1 does not hold z")
    );
    assert_eq!(
        hand_over_check("z", "m1", 3, true, Some(9), false, Ok(None)),
        err("SHARD_NOT_FOUND", "m1 does not hold z")
    );
    assert_eq!(hand_over_check("z", "m1", 3, true, Some(9), false, Err("db down")), err("SHARD_CLUSTER_ERROR", "db down"));
    assert_eq!(hand_over_moved("z", "m1", Ok(true)), Ok(()));
    let moved_err = |c: &str, m: &str| Err::<(), _>((c.to_string(), m.to_string()));
    assert_eq!(hand_over_moved("z", "m1", Ok(false)), moved_err("SHARD_NOT_FOUND", "m1 no longer holds z"));
    assert_eq!(hand_over_moved("z", "m1", Err("db down")), moved_err("SHARD_CLUSTER_ERROR", "db down"));
}

#[test]
fn connections_of_a_shard_handed_over_are_told_where_to_go() {
    assert_eq!(notice_for(true, false, Some("b")), Notice::Nothing);
    assert_eq!(notice_for(false, true, None), Notice::Nothing);
    assert_eq!(notice_for(false, false, Some("b")), Notice::MovedTo("b".into()));
    assert_eq!(notice_for(false, false, None), Notice::SameShard);
    assert_eq!(ticket_user(Some("t".into()), Some("s".into())), Some("t".to_string()));
    assert_eq!(ticket_user(None, Some("s".into())), Some("s".to_string()));
    assert_eq!(ticket_user(None, None), None);
}

#[test]
fn creating_a_shard_checks_kind_id_and_limits_in_order() {
    assert_eq!(check_create(false, "arena", "bad id", true, 9, 1), Err(CreateError::UnknownKind("arena".into())));
    assert!(matches!(check_create(true, "arena", "bad id", true, 9, 1), Err(CreateError::InvalidId(_))));
    assert_eq!(check_create(true, "arena", "a1", true, 9, 1), Err(CreateError::Exists("a1".into())));
    assert_eq!(
        check_create(true, "arena", "a1", false, 2, 2),
        Err(CreateError::LimitReached { kind: "arena".into(), max: 2 })
    );
    assert_eq!(check_create(true, "arena", "a1", false, 1, 2), Ok(()));
    assert_eq!(CreateError::UnknownKind("arena".into()).message(), "no shard kind named \"arena\" in app.ts");
    assert_eq!(CreateError::Exists("a1".into()).message(), "shard \"a1\" is already running");
    assert_eq!(
        CreateError::LimitReached { kind: "arena".into(), max: 12 }.message(),
        "shard kind \"arena\" already has 12 running shards (its maxInstances)"
    );
    assert_eq!(CreateError::Init("trap".into()).message(), "shard init failed: trap");
    assert_eq!(CreateError::InvalidId("why".into()).message(), "why");
}

#[test]
fn idle_shards_are_stopped_after_their_limit() {
    assert_eq!(idle_step(1, 5_000, Some(0), 99_000), (None, false));
    assert_eq!(idle_step(0, 0, Some(0), 99_000), (None, false));
    assert_eq!(idle_step(0, 5_000, None, 10_000), (Some(10_000), false));
    assert_eq!(idle_step(0, 5_000, Some(10_000), 14_999), (Some(10_000), false));
    assert_eq!(idle_step(0, 5_000, Some(10_000), 15_000), (Some(10_000), true));
}

#[test]
fn function_shard_ops_need_an_id() {
    assert_eq!(
        shard_op("create", Some("a1"), Some("arena")),
        Ok(ShardOp::Create { kind: "arena".into(), id: "a1".into() })
    );
    assert_eq!(shard_op("create", Some("a1"), None), Ok(ShardOp::Create { kind: "".into(), id: "a1".into() }));
    assert_eq!(shard_op("stop", Some("a1"), None), Ok(ShardOp::Stop("a1".into())));
    assert_eq!(shard_op("get", Some("a1"), None), Ok(ShardOp::Get("a1".into())));
    assert_eq!(shard_op("list", None, None), Ok(ShardOp::List));
    let missing = Err(("INVALID_SHARD".to_string(), "shard id is required".to_string()));
    assert_eq!(shard_op("get", Some(""), None), missing);
    assert_eq!(shard_op("stop", None, None), missing);
    assert_eq!(
        shard_op("wipe", Some("a1"), None),
        Err(("INVALID_SHARD_OP".to_string(), "unknown shard op \"wipe\"".to_string()))
    );
}

#[test]
fn unsettled_steps_are_settled_from_their_rows() {
    assert_eq!(begin_resolution(Ok(Some("out"))), Resolution::Wait);
    assert_eq!(begin_resolution(Ok(None)), Resolution::PutBack);
    assert_eq!(begin_resolution(Err("down")), Resolution::Later);
    assert_eq!(back_resolution(&Ok(Back::Returned)), Resolution::Return);
    assert_eq!(back_resolution(&Ok(Back::TargetHas)), Resolution::Complete);
    assert_eq!(back_resolution(&Err(TransferError::Cluster("x".into()))), Resolution::Wait);
}

#[test]
fn a_kind_takes_the_default_limits_it_does_not_set() {
    let d = kind_limits(None, None, None, None);
    assert_eq!((d.memory_bytes, d.budget_ms, d.max_instances, d.idle_shutdown_ms), (64 << 20, 100, 64, 90_000));
    let l = kind_limits(Some(16), Some(250), Some(3), Some(0));
    assert_eq!((l.memory_bytes, l.budget_ms, l.max_instances, l.idle_shutdown_ms), (16 << 20, 250, 3, 0));
    assert_eq!(kind_limits(Some(u32::MAX), None, None, None).memory_bytes, (u32::MAX as u64) << 20);
}

fn move_request(from: &str, subscriber: &str, to: &str) -> MoveRequest {
    MoveRequest { from: from.to_string(), subscriber: subscriber.to_string(), to: to.to_string() }
}

#[test]
fn requested_moves_back_off_after_a_failure() {
    let r = move_request("arena-1", "p1", "arena-2");
    let other = move_request("arena-1", "p2", "arena-2");
    let mut g = RequestGate::new();
    assert!(g.should_try(&r, false, 0));
    assert!(!g.should_try(&r, true, 0));
    g.failed(&r, 1_000);
    assert!(!g.should_try(&r, false, 3_000));
    assert!(g.should_try(&other, false, 3_000));
    assert!(!g.should_try(&r, false, 1_000 + REQUEST_BACKOFF_MS - 1));
    assert!(g.should_try(&r, false, 1_000 + REQUEST_BACKOFF_MS));
    assert!(g.should_try(&r, false, 1_000 + REQUEST_BACKOFF_MS + 1));
}

#[test]
fn a_later_failure_replaces_the_earlier_backoff() {
    let r = move_request("a", "p", "b");
    let mut g = RequestGate::new();
    g.failed(&r, 7_000);
    g.failed(&r, 2_000);
    assert!(g.should_try(&r, false, 7_500));
    g.failed(&r, 7_500);
    assert!(!g.should_try(&r, false, 12_499));
    assert!(!g.should_try(&move_request("a", "p", "b"), true, 20_000));
    assert!(g.should_try(&move_request("a", "p", "c"), false, 8_000));
}

#[test]
fn a_refused_message_says_why() {
    assert_eq!(
        Target::parse("shard:has space").unwrap_err().0,
        "shard id \"has space\" must be 1 to 128 characters of letters, digits, '-', '_', '.', ':'"
    );
    assert_eq!(Target::parse("group:").unwrap_err().0, "a group name is 1 to 128 bytes");
    assert_eq!(
        Target::parse("everyone").unwrap_err().0,
        "target \"everyone\" is not \"shard:<id>\", \"group:<name>\", or \"all\""
    );
    assert_eq!(check("", b"x").unwrap_err().0, "a topic is 1 to 128 bytes");
    assert_eq!(
        check("t", &vec![0u8; MAX_DATA + 1]).unwrap_err().0,
        "a message is at most 65536 bytes"
    );
}
