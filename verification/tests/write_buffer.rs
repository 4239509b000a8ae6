use pylon_runtime::shard_wasm::writes::{
    FlushScope, Group, WriteBuffer, WriteFate, MAX_DIRTY_ROWS, WRITE_ATTEMPTS,
};

fn set(fields: &[(&str, i32)]) -> Vec<(String, i32)> {
    fields.iter().map(|(k, v)| (k.to_string(), *v)).collect()
}

fn value(b: &WriteBuffer<i32>, e: &str, id: &str, f: &str) -> Option<(i32, String, Option<i64>, u32)> {
    b.get(e, id, f).map(|p| (p.value, p.shard.clone(), p.epoch, p.failures))
}

fn group_fields(g: &Group<i32>) -> Vec<(String, i32, u32)> {
    let mut v: Vec<(String, i32, u32)> =
        g.fields.iter().map(|(n, p)| (n.clone(), p.value, p.failures)).collect();
    v.sort();
    v
}

#[test]
fn each_field_keeps_its_latest_value() {
    let mut b = WriteBuffer::new();
    assert_eq!(b.add_write("s1", Some(4), "player".into(), "p1".into(), set(&[("x", 1), ("y", 2)])), WriteFate::Buffered);
    assert_eq!(b.add_write("s2", None, "player".into(), "p1".into(), set(&[("x", 5), ("x", 6)])), WriteFate::Buffered);
    assert_eq!(b.rows(), 1);
    assert_eq!(value(&b, "player", "p1", "x"), Some((6, "s2".into(), None, 0)));
    assert_eq!(value(&b, "player", "p1", "y"), Some((2, "s1".into(), Some(4), 0)));
    assert_eq!(value(&b, "player", "p1", "z"), None);
    assert_eq!(value(&b, "player", "p2", "x"), None);
}

#[test]
fn empty_writes_are_skipped() {
    let mut b: WriteBuffer<i32> = WriteBuffer::new();
    assert_eq!(b.add_write("s", None, "".into(), "p".into(), set(&[("x", 1)])), WriteFate::Skipped);
    assert_eq!(b.add_write("s", None, "e".into(), "".into(), set(&[("x", 1)])), WriteFate::Skipped);
    assert_eq!(b.add_write("s", None, "e".into(), "p".into(), Vec::new()), WriteFate::Skipped);
    assert_eq!(b.rows(), 0);
}

#[test]
fn new_rows_are_dropped_once_the_buffer_is_full() {
    let mut b: WriteBuffer<i32> = WriteBuffer::new();
    for n in 0..MAX_DIRTY_ROWS {
        assert_eq!(b.add_write("s", None, "e".into(), n.to_string(), set(&[("x", 1)])), WriteFate::Buffered);
    }
    assert_eq!(b.rows(), MAX_DIRTY_ROWS);
    assert_eq!(b.add_write("s", None, "e".into(), "new".into(), set(&[("x", 1)])), WriteFate::Dropped);
    assert_eq!(b.add_write("s", None, "e".into(), "7".into(), set(&[("y", 2)])), WriteFate::Buffered);
    assert_eq!(b.rows(), MAX_DIRTY_ROWS);
    assert_eq!(value(&b, "e", "new", "x"), None);
    assert_eq!(value(&b, "e", "7", "y"), Some((2, "s".into(), None, 0)));
}

#[test]
fn rows_are_told_apart_by_entity_and_id() {
    let mut b = WriteBuffer::new();
    b.add_write("s", None, "ab".into(), "c".into(), set(&[("x", 1)]));
    b.add_write("s", None, "a".into(), "bc".into(), set(&[("x", 2)]));
    assert_eq!(b.rows(), 2);
    assert_eq!(value(&b, "ab", "c", "x").map(|v| v.0), Some(1));
    assert_eq!(value(&b, "a", "bc", "x").map(|v| v.0), Some(2));
}

#[test]
fn a_copy_that_lost_its_place_writes_nothing_more() {
    let mut b = WriteBuffer::new();
    b.add_write("s1", Some(1), "e".into(), "1".into(), set(&[("x", 1), ("y", 1)]));
    b.add_write("s2", Some(1), "e".into(), "1".into(), set(&[("y", 2)]));
    b.add_write("s1", Some(1), "e".into(), "2".into(), set(&[("x", 3)]));
    b.discard("s1");
    assert_eq!(b.rows(), 1);
    assert_eq!(value(&b, "e", "1", "x"), None);
    assert_eq!(value(&b, "e", "1", "y"), Some((2, "s2".into(), Some(1), 0)));
    assert_eq!(value(&b, "e", "2", "x"), None);
}

#[test]
fn a_flush_takes_what_its_scope_writes_grouped_by_run() {
    let mut b = WriteBuffer::new();
    b.add_write("s1", Some(1), "e".into(), "1".into(), set(&[("x", 1), ("y", 2)]));
    b.add_write("s2", Some(9), "e".into(), "1".into(), set(&[("z", 3)]));
    b.add_write("s3", None, "e".into(), "2".into(), set(&[("x", 4)]));
    b.add_write("s1", Some(0), "e".into(), "3".into(), set(&[("x", 5)]));
    // s1 is held under epoch 1 (so its epoch-0 write is not), s2 not at all.
    let held = FlushScope::Held(vec![("s1".to_string(), 1)]);
    let mut groups = b.take(&held);
    groups.sort_by(|a, c| (a.id.clone(), a.shard.clone()).cmp(&(c.id.clone(), c.shard.clone())));
    assert_eq!(groups.len(), 2);
    assert_eq!((groups[0].id.as_str(), groups[0].shard.as_str(), groups[0].epoch), ("1", "s1", Some(1)));
    assert_eq!(group_fields(&groups[0]), vec![("x".into(), 1, 0), ("y".into(), 2, 0)]);
    assert_eq!((groups[1].id.as_str(), groups[1].shard.as_str(), groups[1].epoch), ("2", "s3", None));
    assert_eq!(value(&b, "e", "1", "x"), None);
    assert_eq!(value(&b, "e", "1", "z"), Some((3, "s2".into(), Some(9), 0)));
    assert_eq!(value(&b, "e", "3", "x"), Some((5, "s1".into(), Some(0), 0)));
    let rest = b.take(&FlushScope::Shard("s2".into()));
    assert_eq!(rest.len(), 1);
    assert_eq!(group_fields(&rest[0]), vec![("z".into(), 3, 0)]);
    let all = b.take(&FlushScope::All);
    assert_eq!(all.len(), 1);
    assert_eq!(b.rows(), 0);
}

#[test]
fn a_failed_field_is_kept_for_a_few_flushes() {
    let mut b = WriteBuffer::new();
    b.add_write("s", Some(2), "e".into(), "1".into(), set(&[("x", 1)]));
    for attempt in 1..WRITE_ATTEMPTS {
        let g = b.take(&FlushScope::All);
        assert_eq!(b.put_back(g, false, &[]), 1);
        assert_eq!(value(&b, "e", "1", "x"), Some((1, "s".into(), Some(2), attempt)));
    }
    let g = b.take(&FlushScope::All);
    assert_eq!(b.put_back(g, false, &[]), 0);
    assert_eq!(b.rows(), 0);
}

#[test]
fn a_stopping_shard_keeps_its_failed_fields() {
    let mut b = WriteBuffer::new();
    b.add_write("s", Some(2), "e".into(), "1".into(), set(&[("x", 1)]));
    for attempt in 1..=WRITE_ATTEMPTS + 2 {
        let g = b.take(&FlushScope::Shard("s".into()));
        assert_eq!(b.put_back(g, true, &[]), 1);
        assert_eq!(value(&b, "e", "1", "x").map(|v| v.3), Some(attempt));
    }
}

#[test]
fn a_newer_value_is_never_overwritten_by_a_failed_flush() {
    let mut b = WriteBuffer::new();
    b.add_write("s", Some(2), "e".into(), "1".into(), set(&[("x", 1), ("y", 1)]));
    let g = b.take(&FlushScope::All);
    // While the flush ran: x written again by the same run, y by another.
    b.add_write("s", Some(2), "e".into(), "1".into(), set(&[("x", 7)]));
    b.add_write("t", None, "e".into(), "1".into(), set(&[("y", 8)]));
    assert_eq!(b.put_back(g, false, &[]), 1);
    assert_eq!(value(&b, "e", "1", "x"), Some((7, "s".into(), Some(2), 1)));
    assert_eq!(value(&b, "e", "1", "y"), Some((8, "t".into(), None, 0)));
    // The same run's next value keeps the failure count; another run's starts at none.
    b.add_write("s", Some(2), "e".into(), "1".into(), set(&[("x", 9)]));
    assert_eq!(value(&b, "e", "1", "x").map(|v| v.3), Some(1));
    b.add_write("s", Some(3), "e".into(), "1".into(), set(&[("x", 10)]));
    assert_eq!(value(&b, "e", "1", "x").map(|v| v.3), Some(0));
}

#[test]
fn a_shard_discarded_during_a_flush_gets_nothing_back() {
    let mut b = WriteBuffer::new();
    b.add_write("s", Some(2), "e".into(), "1".into(), set(&[("x", 1)]));
    b.add_write("t", Some(2), "e".into(), "2".into(), set(&[("x", 2)]));
    let g = b.take(&FlushScope::All);
    assert_eq!(b.put_back(g, false, &["s".to_string()]), 1);
    assert_eq!(value(&b, "e", "1", "x"), None);
    assert_eq!(value(&b, "e", "2", "x"), Some((2, "t".into(), Some(2), 1)));
}
