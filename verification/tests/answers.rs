use pylon_runtime::percent::percent_decode;
use pylon_runtime::shard_cluster::{
    claim_after_insert, claim_step, home, settle_step, Claim, ClaimStep, Machine, Settle,
};
use pylon_runtime::shard_route::{
    accepted_upgrade_answer, error_answer, refused_upgrade_answer, route_answer, route_action,
    unreachable_answer, unreadable_body_answer, upgrade_unsupported_answer, RouteAction,
};
use pylon_runtime::shard_tickets::{ticket_secret, ticket_secret_from};
use pylon_runtime::shard_wasm::abi::{check_abi, init_outcome, ABI_VERSION};
use pylon_runtime::sync_relay::{manifest_step, push_step, PushStep, MANIFEST_ATTEMPTS};

fn headers(a: &[(&str, &str)]) -> Vec<(String, String)> {
    a.iter().map(|(k, v)| (k.to_string(), v.to_string())).collect()
}

fn json_error(code: &str, message: &str) -> String {
    let mut inner = serde_json::Map::new();
    inner.insert("code".to_string(), serde_json::Value::String(code.to_string()));
    inner.insert("message".to_string(), serde_json::Value::String(message.to_string()));
    let mut outer = serde_json::Map::new();
    outer.insert("error".to_string(), serde_json::Value::Object(inner));
    serde_json::Value::Object(outer).to_string()
}

#[test]
fn on_fly_the_route_is_replayed_with_a_200() {
    let action = route_action("m-7", Some("http://m7:9000"), true, &[]);
    let a = route_answer(&action).unwrap();
    assert_eq!(a.status, 200);
    assert_eq!(a.headers, headers(&[("fly-replay", "instance=m-7")]));
    assert!(a.body.is_empty());
}

#[test]
fn without_an_address_the_route_answers_503() {
    let action = route_action("m-7", None, false, &[]);
    let a = route_answer(&action).unwrap();
    assert_eq!(a.status, 503);
    assert_eq!(a.headers, headers(&[("Content-Type", "application/json")]));
    let body = String::from_utf8(a.body).unwrap();
    assert_eq!(
        body,
        json_error(
            "SHARD_MACHINE_UNREACHABLE",
            "the shard runs on machine m-7, which has no address (set PYLON_SHARD_ADVERTISE_URL)"
        )
    );
    assert!(route_answer(&RouteAction::Forward).is_none());
    assert!(route_answer(&RouteAction::Proxy).is_none());
}

#[test]
fn error_bodies_are_json_escaped() {
    let msg = "a \"quoted\" \\ line\nand\ttab \u{1} \u{8}\u{c}\r é";
    let a = error_answer(418, "X_Y", msg);
    assert_eq!(a.status, 418);
    assert_eq!(String::from_utf8(a.body).unwrap(), json_error("X_Y", msg));
}

#[test]
fn proxy_answers() {
    let a = unreachable_answer();
    assert_eq!(a.status, 502);
    assert_eq!(
        String::from_utf8(a.body).unwrap(),
        json_error("SHARD_MACHINE_UNREACHABLE", "the machine that runs the shard did not answer")
    );
    let a = upgrade_unsupported_answer();
    assert_eq!(a.status, 501);
    assert_eq!(
        String::from_utf8(a.body).unwrap(),
        json_error(
            "SHARD_UPGRADE_UNSUPPORTED",
            "this connection cannot be proxied (TLS terminated by pylon)"
        )
    );
    let a = unreadable_body_answer();
    assert_eq!(a.status, 400);
    assert_eq!(String::from_utf8(a.body).unwrap(), json_error("BAD_REQUEST", "could not read the body"));

    let hs = headers(&[
        ("Content-Type", "application/json"),
        ("Upgrade", "websocket"),
        ("Connection", "Upgrade"),
        ("Sec-WebSocket-Accept", "abc"),
        ("X-Other", "1"),
    ]);
    let refused = refused_upgrade_answer(403, &hs, b"{\"no\":1}".to_vec());
    assert_eq!(refused.status, 403);
    assert_eq!(refused.headers, headers(&[("Content-Type", "application/json")]));
    assert_eq!(refused.body, b"{\"no\":1}".to_vec());
    let up = accepted_upgrade_answer(&hs);
    assert_eq!(up.status, 101);
    assert_eq!(
        up.headers,
        headers(&[("Upgrade", "websocket"), ("Connection", "Upgrade"), ("Sec-WebSocket-Accept", "abc")])
    );
}

#[test]
fn a_module_must_speak_this_abi() {
    assert_eq!(check_abi(ABI_VERSION), Ok(()));
    assert_eq!(
        check_abi(3),
        Err("the module speaks shard ABI 3; this pylon speaks 1".to_string())
    );
    assert_eq!(init_outcome(0, b""), Ok(()));
    assert_eq!(init_outcome(1, b"bad params"), Err("init refused: bad params".to_string()));
    assert_eq!(init_outcome(9, b""), Err("pylon_init returned status 9".to_string()));
}

#[test]
fn relay_pushes_retry_then_give_up() {
    assert_eq!(manifest_step(0, true), PushStep::Landed);
    assert_eq!(manifest_step(0, false), PushStep::Pause { ms: 2_000, again: true });
    assert_eq!(manifest_step(3, false), PushStep::Pause { ms: 16_000, again: true });
    assert_eq!(
        manifest_step(MANIFEST_ATTEMPTS - 1, false),
        PushStep::Pause { ms: 32_000, again: false }
    );
    assert_eq!(push_step(0, true), PushStep::Landed);
    assert_eq!(push_step(0, false), PushStep::Pause { ms: 500, again: true });
    assert_eq!(push_step(1, false), PushStep::GiveUp);
}

#[test]
fn the_ticket_secret_follows_the_environment() {
    assert_eq!(ticket_secret_from(Some("set"), Some("jwt"), Some("enc")), b"set".to_vec());
    assert_eq!(ticket_secret_from(Some(""), Some("jwt"), None), ticket_secret(None, b"jwt"));
    assert_eq!(ticket_secret_from(None, Some(""), Some("enc")), ticket_secret(None, b"enc"));
    assert_eq!(ticket_secret_from(None, None, None), ticket_secret(None, b""));
    assert_ne!(ticket_secret_from(None, Some("jwt"), None), ticket_secret_from(None, None, Some("jwt2")));
}

#[test]
fn a_plus_sign_reads_as_a_hex_digit_prefix() {
    assert_eq!(percent_decode("%+a"), "\n");
    assert_eq!(percent_decode("%+"), "%+");
    assert_eq!(percent_decode("%+g"), "%+g");
}

fn m(id: &str, capacity: u32, load: u32) -> Machine {
    Machine { id: id.into(), address: None, fly_instance: None, capacity, load, epoch: 0 }
}

#[test]
fn the_home_does_not_depend_on_the_listing_order() {
    let a = [m("a", 10, 0), m("b", 10, 9), m("c", 10, 3), m("d", 1, 1)];
    let b = [m("c", 10, 3), m("d", 1, 1), m("a", 10, 0), m("b", 10, 9)];
    for i in 0..200 {
        let id = format!("zone-{i}");
        assert_eq!(home(&id, &a).unwrap().id, home(&id, &b).unwrap().id);
    }
}

#[test]
fn a_claim_is_taken_then_limited_then_inserted() {
    assert_eq!(claim_step(true, 99, 3), ClaimStep::Done(Claim::Taken));
    assert_eq!(claim_step(false, 3, 3), ClaimStep::Done(Claim::LimitReached));
    assert_eq!(claim_step(false, 2, 3), ClaimStep::Insert);
    assert_eq!(claim_step(false, i64::MAX - 1, usize::MAX), ClaimStep::Insert);
    assert_eq!(claim_after_insert(1), Claim::Claimed);
    assert_eq!(claim_after_insert(0), Claim::Taken);
    assert_eq!(settle_step(false, 1), Settle::NotHeld);
    assert_eq!(settle_step(true, 0), Settle::Taken);
    assert_eq!(settle_step(true, 1), Settle::Done);
}

#[test]
fn plain_nginx_takes_the_last_port() {
    let c = pylon_runtime::tls::generate_nginx_config(65535, None);
    assert!(c.contains("proxy_pass http://127.0.0.1:65535;"));
}

#[test]
fn repeated_ids_give_the_same_home() {
    let a = [m("a", 10, 0), m("a", 1, 1), m("b", 10, 9), m("c", 1, 1)];
    let b = [m("c", 2, 2), m("b", 10, 0), m("a", 5, 1)];
    for i in 0..100 {
        let id = format!("zone-{i}");
        assert_eq!(home(&id, &a).unwrap().id, home(&id, &b).unwrap().id);
    }
}
