//! Flushes of the write buffer against a small in-memory store: each
//! flush takes the fields its scope writes, writes each group (or fails
//! it, as many groups as the store is told to fail), and puts the failed
//! groups back.

use std::collections::HashMap;

use pylon_runtime::shard_wasm::writes::{FlushScope, Holding, WriteBuffer, WriteFate, WRITE_ATTEMPTS};

const CHARACTER: &str = "character-1";

struct Host {
    buffer: WriteBuffer<i64>,
    store: HashMap<(String, String), HashMap<String, i64>>,
    failures: u32,
    running: Vec<String>,
}

impl Host {
    /// A machine running shard `shard`, with one character row.
    fn joined(shard: &str) -> Host {
        let mut store = HashMap::new();
        let row: HashMap<String, i64> =
            HashMap::from([("x".to_string(), 0), ("nextGrant".to_string(), 0)]);
        store.insert(("Character".to_string(), CHARACTER.to_string()), row);
        Host { buffer: WriteBuffer::new(), store, failures: 0, running: vec![shard.to_string()] }
    }

    fn create(&mut self, shard: &str) {
        self.running.push(shard.to_string());
    }

    fn take_writes(&mut self, shard: &str, id: &str, field: &str, value: i64) {
        let running = self.running.iter().any(|s| s == shard);
        self.buffer.take_write(
            shard,
            running,
            Holding::Unplaced,
            "Character".to_string(),
            id.to_string(),
            vec![(field.to_string(), value)],
        );
    }

    fn set(&mut self, shard: &str, field: &str, value: i64) {
        self.take_writes(shard, CHARACTER, field, value);
    }

    fn discard_writes(&mut self, shard: &str) {
        self.buffer.discard(shard);
    }

    fn fail(&mut self, n: u32) {
        self.failures = n;
    }

    fn flush_writes(&mut self, scope: FlushScope) -> usize {
        self.flush_with(scope, |_| Vec::new())
    }

    /// A flush; `during` runs between taking the fields and writing them,
    /// and returns the shards it discarded.
    fn flush_with(&mut self, scope: FlushScope, during: impl FnOnce(&mut Host) -> Vec<String>) -> usize {
        let keep_all = matches!(scope, FlushScope::Shard(_));
        let groups = self.buffer.take(&scope);
        let discarded = during(self);
        let mut failed = Vec::new();
        for g in groups {
            if self.failures > 0 {
                self.failures -= 1;
                failed.push(g);
                continue;
            }
            // A write to a missing row is refused: nothing to keep.
            if let Some(row) = self.store.get_mut(&(g.entity.clone(), g.id.clone())) {
                for (name, p) in &g.fields {
                    row.insert(name.clone(), p.value);
                }
            }
        }
        self.buffer.put_back(failed, keep_all, &discarded)
    }

    fn stop(&mut self, shard: &str) {
        self.flush_writes(FlushScope::Shard(shard.to_string()));
        self.running.retain(|s| s != shard);
    }

    fn stored(&self, field: &str) -> i64 {
        self.store[&("Character".to_string(), CHARACTER.to_string())][field]
    }

    fn count(&self, field: &str) -> Option<u32> {
        self.buffer.get("Character", CHARACTER, field).map(|p| p.failures)
    }

    fn dirty_rows(&self, shard: &str) -> usize {
        let mine = ["x", "nextGrant"].iter().any(|f| {
            self.buffer.get("Character", CHARACTER, f).is_some_and(|p| p.shard == shard)
        });
        usize::from(mine)
    }
}

fn held() -> FlushScope {
    FlushScope::Held(Vec::new())
}

#[test]
fn a_shard_flush_keeps_a_field_that_failed_before() {
    let mut host = Host::joined("w1");
    host.set("w1", "x", 66);
    host.fail(WRITE_ATTEMPTS - 1);
    for _ in 1..WRITE_ATTEMPTS {
        assert_eq!(host.flush_writes(held()), 1);
    }
    host.fail(1);
    assert_eq!(host.flush_writes(FlushScope::Shard("w1".to_string())), 1);
    assert_eq!(host.dirty_rows("w1"), 1);
    assert_eq!(host.flush_writes(FlushScope::Shard("w1".to_string())), 0);
    assert_eq!(host.stored("x"), 66);
}

#[test]
fn a_discard_during_a_flush_drops_the_fields_it_took() {
    let mut host = Host::joined("w1");
    host.set("w1", "x", 88);
    host.fail(1);
    let kept = host.flush_with(held(), |h| {
        h.discard_writes("w1");
        vec!["w1".to_string()]
    });
    assert_eq!(kept, 0);
    assert_eq!(host.dirty_rows("w1"), 0);
    host.flush_writes(held());
    assert_eq!(host.stored("x"), 0);
}

#[test]
fn failures_count_per_field() {
    let mut host = Host::joined("w1");
    host.create("w2");
    host.set("w1", "x", 1);
    host.set("w2", "nextGrant", 9);
    host.fail(WRITE_ATTEMPTS);
    for _ in 0..WRITE_ATTEMPTS {
        assert_eq!(host.flush_writes(FlushScope::Shard("w1".to_string())), 1);
    }
    // w1's fields go (the row keeps w2's). w2's field fails once: it is
    // kept, not dropped under w1's count.
    host.discard_writes("w1");
    host.fail(1);
    assert_eq!(host.flush_writes(held()), 1);
    assert_eq!(host.dirty_rows("w2"), 1);
    host.flush_writes(held());
    assert_eq!((host.stored("x"), host.stored("nextGrant")), (0, 9));
}

#[test]
fn a_field_count_stays_with_its_run() {
    let mut host = Host::joined("w1");
    host.create("w2");
    host.set("w1", "x", 1);
    host.fail(WRITE_ATTEMPTS - 1);
    for _ in 1..WRITE_ATTEMPTS {
        host.flush_writes(held());
    }
    assert_eq!(host.count("x"), Some(WRITE_ATTEMPTS - 1));
    // w1 again: the count stays. w2: its own count.
    host.set("w1", "x", 2);
    assert_eq!(host.count("x"), Some(WRITE_ATTEMPTS - 1));
    host.set("w2", "x", 3);
    assert_eq!(host.count("x"), Some(0));
    host.fail(1);
    assert_eq!(host.flush_writes(held()), 1);
    assert_eq!(host.count("x"), Some(1));

    // Rewritten by the same run while the flush writes it: the newer value
    // takes the failure.
    host.fail(1);
    host.flush_with(held(), |h| {
        h.set("w2", "x", 4);
        Vec::new()
    });
    assert_eq!(host.count("x"), Some(2));
    host.flush_writes(held());
    assert_eq!(host.stored("x"), 4);
}

#[test]
fn fields_of_a_run_keep_their_own_counts() {
    let mut host = Host::joined("w1");
    host.set("w1", "x", 1);
    host.fail(WRITE_ATTEMPTS - 1);
    for _ in 1..WRITE_ATTEMPTS {
        host.flush_writes(held());
    }
    host.set("w1", "nextGrant", 9);
    assert_eq!(
        (host.count("x"), host.count("nextGrant")),
        (Some(WRITE_ATTEMPTS - 1), Some(0))
    );
    // One more failure: x reaches the limit, nextGrant has one.
    host.fail(1);
    assert_eq!(host.flush_writes(held()), 1);
    assert_eq!((host.count("x"), host.count("nextGrant")), (None, Some(1)));
    host.flush_writes(held());
    assert_eq!((host.stored("x"), host.stored("nextGrant")), (0, 9));
}

#[test]
fn writes_keep_the_latest_value_across_shards_and_discarded_rows_are_dropped() {
    let mut host = Host::joined("w1");
    host.create("w2");
    host.set("w1", "x", 5);
    host.set("w2", "x", 9);
    assert_eq!((host.dirty_rows("w1"), host.dirty_rows("w2")), (0, 1));
    host.flush_writes(FlushScope::Shard("w1".to_string()));
    assert_eq!(host.stored("x"), 0);
    host.flush_writes(held());
    assert_eq!(host.stored("x"), 9);

    host.set("w2", "x", 11);
    host.discard_writes("w2");
    host.stop("w2");
    assert_eq!(host.stored("x"), 9);
    // A stopped copy's late writes are not taken.
    host.set("w2", "x", 12);
    assert_eq!(host.dirty_rows("w2"), 0);
}

#[test]
fn discarding_a_shard_keeps_the_other_shards_fields_of_a_row() {
    let mut host = Host::joined("f1");
    host.create("f2");
    host.set("f1", "x", 5);
    host.set("f2", "nextGrant", 9);
    host.discard_writes("f1");
    host.flush_writes(FlushScope::All);
    assert_eq!((host.stored("x"), host.stored("nextGrant")), (0, 9));
}

#[test]
fn a_write_to_a_missing_row_is_dropped_not_kept() {
    let mut host = Host::joined("z2");
    host.set("z2", "x", 15);
    host.take_writes("z2", "gone", "x", 1);
    host.stop("z2");
    assert_eq!(host.stored("x"), 15);
    assert_eq!(host.dirty_rows("z2"), 0);
    assert!(host.buffer.get("Character", "gone", "x").is_none());
    assert_eq!(host.buffer.rows(), 0);
}

#[test]
fn writes_of_a_shard_not_held_here_are_ignored() {
    let mut b: WriteBuffer<i64> = WriteBuffer::new();
    let w = |f: &str, v: i64| vec![(f.to_string(), v)];
    assert_eq!(
        b.take_write("s", true, Holding::NotHeld, "E".into(), "1".into(), w("x", 1)),
        None
    );
    assert_eq!(
        b.take_write("s", false, Holding::Held(3), "E".into(), "1".into(), w("x", 1)),
        None
    );
    assert_eq!(b.rows(), 0);
    assert_eq!(
        b.take_write("s", true, Holding::Held(3), "E".into(), "1".into(), w("x", 2)),
        Some(WriteFate::Buffered)
    );
    assert_eq!(b.get("E", "1", "x").map(|p| (p.value, p.epoch)), Some((2, Some(3))));
    assert_eq!(
        b.take_write("s", true, Holding::Unplaced, "E".into(), "".into(), w("x", 2)),
        Some(WriteFate::Skipped)
    );
}
