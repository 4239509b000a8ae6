use pylon_runtime::shard_cluster::db::{next_seq, owner_live_sql, Dialect};
use pylon_runtime::shard_cluster::{
    choose_machine, home, pg_timing, sign, sign_with, sqlite_timing, ticket_key, verify_at,
    verify_with, Machine, MachineConfig, SeenNonces, CALL_WINDOW_MS,
};
use std::collections::HashMap;

fn m(id: &str, capacity: u32, load: u32) -> Machine {
    Machine {
        id: id.into(),
        address: None,
        fly_instance: None,
        capacity,
        load,
        epoch: 0,
    }
}

fn env(pairs: &[(&str, &str)]) -> Vec<(String, String)> {
    pairs
        .iter()
        .map(|(k, v)| (k.to_string(), v.to_string()))
        .collect()
}

#[test]
fn placement_prefers_free_capacity_then_the_lowest_id() {
    let ms = [m("b", 10, 2), m("a", 10, 2), m("c", 10, 5)];
    assert_eq!(choose_machine(&ms).unwrap().id, "a");
    let ms = [m("b", 10, 1), m("a", 10, 2)];
    assert_eq!(choose_machine(&ms).unwrap().id, "b");
    // Over capacity still places (the least over), rather than failing.
    let ms = [m("a", 1, 5), m("b", 1, 3)];
    assert_eq!(choose_machine(&ms).unwrap().id, "b");
    assert!(choose_machine(&[]).is_none());
}

#[test]
fn failover_homes_agree_and_spread() {
    let ms = [m("a", 10, 0), m("b", 10, 9), m("c", 10, 3)];
    // The same answer whatever load each machine read.
    let other_view = [m("a", 10, 5), m("b", 10, 0), m("c", 10, 1)];
    let mut per_machine: HashMap<String, usize> = HashMap::new();
    for i in 0..300 {
        let id = format!("shard-{i}");
        let h = home(&id, &ms).unwrap();
        assert_eq!(h.id, home(&id, &other_view).unwrap().id);
        *per_machine.entry(h.id.clone()).or_default() += 1;
    }
    for (id, n) in &per_machine {
        assert!(*n > 60, "{id} got {n} of 300");
    }
    // A full machine takes none while another has room.
    let full = [m("a", 1, 1), m("b", 10, 0)];
    for i in 0..50 {
        assert_eq!(home(&format!("s{i}"), &full).unwrap().id, "b");
    }
    assert!(home("x", &[]).is_none());
}

#[test]
fn machine_config_from_the_environment() {
    let bare = MachineConfig::from_lookup(&env(&[("HOSTNAME", "box")]), 4321, 77);
    assert_eq!(bare.id, "box:77");
    assert_eq!((bare.address, bare.fly_instance), (None, None));
    let fly = MachineConfig::from_lookup(
        &env(&[("FLY_MACHINE_ID", "e2865"), ("FLY_PRIVATE_IP", "fdaa::3")]),
        8080,
        1,
    );
    assert_eq!(fly.id, "e2865");
    assert_eq!(fly.fly_instance.as_deref(), Some("e2865"));
    assert_eq!(fly.address.as_deref(), Some("http://[fdaa::3]:8080"));
    assert_eq!(fly.capacity, 100);
    let named = MachineConfig::from_lookup(
        &env(&[("PYLON_REPLICA_ID", "zone-host-1"), ("FLY_MACHINE_ID", "e2865")]),
        8080,
        1,
    );
    assert_eq!(named.id, "zone-host-1");
    assert_eq!(named.fly_instance.as_deref(), Some("e2865"));
    let own = MachineConfig::from_lookup(
        &env(&[
            ("PYLON_REPLICA_ID", "b"),
            ("PYLON_SHARD_ADVERTISE_URL", "http://10.0.0.2:4321/"),
            ("PYLON_SHARD_CAPACITY", "8"),
        ]),
        4321,
        1,
    );
    assert_eq!(own.address.as_deref(), Some("http://10.0.0.2:4321"));
    assert_eq!((own.capacity, own.fly_instance), (8, None));
}

#[test]
fn machine_config_defaults_and_ignores_blank_values() {
    let c = MachineConfig::from_lookup(
        &env(&[("PYLON_REPLICA_ID", "  "), ("PYLON_SHARD_CAPACITY", "0")]),
        1,
        9,
    );
    assert_eq!(c.id, "local:9");
    assert_eq!(c.capacity, 100);
    let c = MachineConfig::from_lookup(&env(&[("PYLON_SHARD_CAPACITY", "+7")]), 1, 9);
    assert_eq!(c.capacity, 7);
    let c = MachineConfig::from_lookup(&env(&[("PYLON_SHARD_CAPACITY", "4294967296")]), 1, 9);
    assert_eq!(c.capacity, 100);
}

#[test]
fn signatures_bind_the_key_the_receiver_the_payload_and_the_time() {
    let key = b"k";
    let body = br#"{"op":"list"}"#;
    let at = 1_000_000;
    let header = sign_with(key, at, "n1", "b", body);
    assert_eq!(verify_with(key, "b", &header, body, at + 1000), Ok(()));
    assert_eq!(verify_with(key, "a", &header, body, at), Err("bad signature"), "another machine");
    assert_eq!(verify_with(key, "b", &header, b"{}", at), Err("bad signature"), "another body");
    assert_eq!(
        verify_with(key, "b", &header, body, at + CALL_WINDOW_MS + 1),
        Err("signature expired")
    );
    assert_eq!(verify_with(b"other", "b", &header, body, at), Err("bad signature"));
    assert_eq!(verify_with(key, "b", "nonsense", body, at), Err("malformed signature"));
    let tampered = header.replacen("n1", "n2", 1);
    assert_eq!(verify_with(key, "b", &tampered, body, at), Err("bad signature"));
    // Another spelling of the same time is refused.
    for respelled in [format!("0{header}"), format!("+{header}")] {
        assert_eq!(verify_with(key, "b", &respelled, body, at), Err("malformed signature"));
    }
    // Extreme times are refused without overflow.
    for at in [i64::MIN, i64::MAX] {
        let extreme = sign_with(key, at, "n1", "b", body);
        assert_eq!(verify_with(key, "b", &extreme, body, 1_000_000), Err("signature expired"));
        assert_eq!(verify_with(key, "b", &extreme, body, -1_000_000), Err("signature expired"));
    }
}

#[test]
fn a_signature_is_written_time_nonce_mac() {
    let header = sign_with(b"k", -42, "abc", "b", b"x");
    let parts: Vec<&str> = header.splitn(3, '.').collect();
    assert_eq!(parts[0], "-42");
    assert_eq!(parts[1], "abc");
    assert_eq!(parts[2].len(), 64);
    assert!(parts[2].bytes().all(|c| c.is_ascii_hexdigit() && !c.is_ascii_uppercase()));
    // An empty nonce is malformed.
    let bare = sign_with(b"k", 5, "", "b", b"x");
    assert_eq!(verify_with(b"k", "b", &bare, b"x", 5), Err("malformed signature"));
}

#[test]
fn a_signature_is_accepted_once() {
    let key = b"secret";
    let mut seen = SeenNonces::new();
    let header = sign_with(key, 10_000, "nonce1", "me", b"p");
    assert_eq!(verify_at(&mut seen, Some(key), "me", &header, b"p", 10_000), Ok(()));
    assert_eq!(
        verify_at(&mut seen, Some(key), "me", &header, b"p", 20_000),
        Err("signature already used")
    );
    assert_eq!(
        verify_at(&mut seen, None, "me", &header, b"p", 10_000),
        Err("this machine is not in the shard directory")
    );
    // Once the nonce has aged out it is forgotten, but the signature has
    // long expired by then.
    assert_eq!(
        verify_at(&mut seen, Some(key), "me", &header, b"p", 10_000 + 2 * CALL_WINDOW_MS + 1),
        Err("signature expired")
    );
}

#[test]
fn a_signature_made_now_verifies_now() {
    let key = b"cluster-key";
    let header = sign(Some(key), "b", b"payload").unwrap();
    let mut seen = SeenNonces::new();
    assert_eq!(
        pylon_runtime::shard_cluster::verify(&mut seen, Some(key), "b", &header, b"payload"),
        Ok(())
    );
    assert!(sign(None, "b", b"payload").is_none());
    let nonce = header.split('.').nth(1).unwrap();
    assert_eq!(nonce.len(), 24);
}

#[test]
fn the_ticket_key_derives_from_the_call_key() {
    let a = ticket_key(Some(b"k1")).unwrap();
    let b = ticket_key(Some(b"k2")).unwrap();
    assert_eq!(a.len(), 32);
    assert_ne!(a, b);
    assert_ne!(a, b"k1".to_vec());
    assert!(ticket_key(None).is_none());
}

#[test]
fn timings_fence_before_others_take_over() {
    let pg = pg_timing();
    assert_eq!((pg.heartbeat_ms, pg.fence_after_ms, pg.dead_after_ms), (2_000, 5_000, 10_000));
    let sq = sqlite_timing();
    assert_eq!((sq.fence_after_ms, sq.dead_after_ms), (30_000, 60_000));
}

#[test]
fn sql_fragments_per_dialect() {
    assert_eq!(Dialect::Pg.params(3), vec!["$1", "$2", "$3"]);
    assert_eq!(Dialect::Sqlite.params(2), vec!["?1", "?2"]);
    assert_eq!(Dialect::Pg.for_share(), " FOR SHARE");
    assert_eq!(Dialect::Sqlite.for_update(), "");
    assert_eq!(next_seq(Dialect::Pg), ("", ""));
    assert_eq!(next_seq(Dialect::Sqlite).0, ", seq");
    let sql = owner_live_sql(Dialect::Pg, "$1", "$2", "$3");
    assert!(sql.contains("m.machine_id = $1 AND m.epoch = $2"));
    assert!(sql.ends_with("clock_timestamp()) * 1000)::bigint - $3)"));
}
