use pylon_runtime::shard_wasm::abi::{
    area_record, argument_spans, arguments_total, codec_id, entity_records, failed_with,
    fallback_snapshot, interest_record, kept_ids, log_read, module_finished, null_snapshot,
    output_span, pack_ids, pack_visibility, presence, replication_header, returned,
    returned_status, status_answer, tick_nanos, LogRead, Presence, SnapshotFormat, StatusAnswer,
    CHANGE_LOG_AT, MAX_LOG_LINE,
};

fn le32(v: u32) -> Vec<u8> {
    v.to_le_bytes().to_vec()
}

#[test]
fn ids_pack_little_endian() {
    let b = pack_ids(&vec![1, 0x0102_0304_0506_0708]);
    assert_eq!(b, vec![1, 0, 0, 0, 0, 0, 0, 0, 8, 7, 6, 5, 4, 3, 2, 1]);
    assert!(pack_ids(&vec![]).is_empty());
}

#[test]
fn packed_ids_read_back() {
    let ids = vec![0, 42, u64::MAX, 0x8000_0000_0000_0001];
    assert_eq!(kept_ids(&pack_ids(&ids)), Ok(ids));
    assert_eq!(kept_ids(&vec![]), Ok(vec![]));
}

#[test]
fn kept_ids_refuse_a_partial_id() {
    assert_eq!(
        kept_ids(&vec![1, 2, 3, 4, 5, 6, 7]),
        Err("pylon_filter_visible output is not whole u64 ids".to_string())
    );
}

#[test]
fn visibility_packs_counts_then_ids() {
    let b = pack_visibility(&vec![5], &vec![], &vec![7, 8]);
    let mut want = Vec::new();
    want.extend(le32(1));
    want.extend(le32(0));
    want.extend(le32(2));
    for id in [5u64, 7, 8] {
        want.extend(id.to_le_bytes());
    }
    assert_eq!(b, want);
    assert_eq!(b.len(), 12 + 8 * 3);
}

#[test]
fn entity_records_read_id_and_position() {
    let mut out = Vec::new();
    out.extend(3u64.to_le_bytes());
    out.extend(1.5f32.to_le_bytes());
    out.extend((-2.0f32).to_le_bytes());
    out.extend(9u64.to_le_bytes());
    out.extend(0.0f32.to_le_bytes());
    out.extend(4.25f32.to_le_bytes());
    let recs = entity_records(&out).unwrap();
    assert_eq!(recs.len(), 2);
    assert_eq!(recs[0].id, 3);
    assert_eq!(f32::from_bits(recs[0].x_bits), 1.5);
    assert_eq!(f32::from_bits(recs[0].y_bits), -2.0);
    assert_eq!(recs[1].id, 9);
    assert_eq!(f32::from_bits(recs[1].y_bits), 4.25);
}

#[test]
fn entity_records_refuse_a_partial_entry() {
    assert_eq!(
        entity_records(&vec![0u8; 15]),
        Err("pylon_entities output is not a whole number of 16-byte entries".to_string())
    );
}

#[test]
fn interest_record_reads_settings_and_shared_bit() {
    let mut out = Vec::new();
    out.extend(8.0f32.to_le_bytes());
    out.extend(2.0f32.to_le_bytes());
    out.extend(le32(1));
    let rec = interest_record(&out).unwrap();
    assert_eq!(f32::from_bits(rec.cell_size_bits), 8.0);
    assert_eq!(f32::from_bits(rec.margin_bits), 2.0);
    assert!(rec.shared);
    out.truncate(8);
    out.extend(le32(2));
    assert!(!interest_record(&out).unwrap().shared);
    assert_eq!(
        interest_record(&vec![0u8; 11]),
        Err("pylon_interest output is not 12 bytes".to_string())
    );
}

#[test]
fn area_record_reads_centre_and_radius() {
    let mut out = Vec::new();
    out.extend(10.0f32.to_le_bytes());
    out.extend((-3.5f32).to_le_bytes());
    out.extend(64.0f32.to_le_bytes());
    let a = area_record(&out).unwrap();
    assert_eq!(f32::from_bits(a.x_bits), 10.0);
    assert_eq!(f32::from_bits(a.y_bits), -3.5);
    assert_eq!(f32::from_bits(a.radius_bits), 64.0);
    assert_eq!(
        area_record(&vec![0u8; 13]),
        Err("pylon_interest_area output is not 12 bytes".to_string())
    );
}

#[test]
fn replication_header_reads_flags() {
    let mut out = Vec::new();
    out.extend(0.25f32.to_le_bytes());
    out.extend(le32(1200));
    out.push(3);
    out.extend([9, 9]);
    let h = replication_header(&out).unwrap();
    assert_eq!(f32::from_bits(h.precision_bits), 0.25);
    assert_eq!(h.max_bytes_per_tick, 1200);
    assert!(h.xz_plane);
    assert!(h.reset);
    assert_eq!(&out[CHANGE_LOG_AT..], &[9, 9]);
    out[8] = 2;
    let h = replication_header(&out).unwrap();
    assert!(!h.xz_plane);
    assert!(h.reset);
    out[8] = 0;
    let h = replication_header(&out).unwrap();
    assert!(!h.xz_plane);
    assert!(!h.reset);
    assert_eq!(
        replication_header(&vec![0u8; 8]),
        Err("pylon_replication output is shorter than its 9-byte header".to_string())
    );
}

#[test]
fn status_codes() {
    assert_eq!(status_answer(0, false), StatusAnswer::Done);
    assert_eq!(status_answer(1, true), StatusAnswer::Refused);
    assert_eq!(status_answer(2, true), StatusAnswer::SameAsBroadcast);
    assert_eq!(status_answer(2, false), StatusAnswer::Unknown);
    assert_eq!(status_answer(-1, true), StatusAnswer::Unknown);
    assert_eq!(presence(0), Presence::Absent);
    assert_eq!(presence(1), Presence::Present);
    assert_eq!(presence(2), Presence::Unknown);
}

#[test]
fn contract_messages() {
    assert_eq!(
        returned_status("pylon_apply_input", 7),
        "pylon_apply_input returned status 7"
    );
    assert_eq!(returned("pylon_interest", -3), "pylon_interest returned -3");
    assert_eq!(
        failed_with("pylon_snapshot", b"no state"),
        "pylon_snapshot failed: no state"
    );
    assert_eq!(
        failed_with("pylon_snapshot_for", &[0x61, 0xff]),
        "pylon_snapshot_for failed: a\u{fffd}"
    );
}

#[test]
fn output_span_checks_memory() {
    assert_eq!(output_span(10, 5, 20), Ok((10, 15)));
    assert_eq!(output_span(10, 10, 20), Ok((10, 20)));
    assert_eq!(output_span(10, -1, 20), Err("pylon_output_len is negative".to_string()));
    assert_eq!(
        output_span(18, 5, 20),
        Err("the output buffer is outside memory".to_string())
    );
    assert_eq!(
        output_span(u32::MAX, i32::MAX, 100),
        Err("the output buffer is outside memory".to_string())
    );
}

#[test]
fn arguments_fit_in_scratch() {
    assert_eq!(arguments_total(&vec![3, 4]), Ok(7));
    assert_eq!(arguments_total(&vec![]), Ok(0));
    assert_eq!(arguments_total(&vec![i32::MAX as usize]), Ok(i32::MAX));
    assert_eq!(
        arguments_total(&vec![i32::MAX as usize, 1]),
        Err("call arguments over 2 GiB".to_string())
    );
    assert_eq!(
        argument_spans(100, &vec![3, 0, 4]),
        vec![(100, 3), (103, 0), (103, 4)]
    );
    assert_eq!(
        argument_spans(u32::MAX - 1, &vec![1, 1]),
        vec![(-2, 1), (-1, 1)]
    );
}

#[test]
fn log_lines_are_capped() {
    assert_eq!(log_read(3, 5000), LogRead { len: MAX_LOG_LINE, keeps_error: true });
    assert_eq!(log_read(2, -4), LogRead { len: 0, keeps_error: false });
    assert_eq!(log_read(1, 10), LogRead { len: 10, keeps_error: false });
    assert_eq!(log_read(4, 2048), LogRead { len: 2048, keeps_error: true });
}

#[test]
fn codecs_and_empty_snapshots() {
    assert_eq!(codec_id(SnapshotFormat::Json), Ok(0));
    assert_eq!(codec_id(SnapshotFormat::JsonCompact), Ok(0));
    assert_eq!(codec_id(SnapshotFormat::MessagePack), Ok(1));
    assert_eq!(
        codec_id(SnapshotFormat::Bincode),
        Err("a WebAssembly shard uses the json or msgpack codec, not bincode".to_string())
    );
    assert_eq!(null_snapshot(SnapshotFormat::MessagePack), vec![0xc0]);
    assert_eq!(null_snapshot(SnapshotFormat::Json), b"null".to_vec());
    assert_eq!(
        fallback_snapshot(&Some(b"{\"t\":1}".to_vec()), SnapshotFormat::Json),
        b"{\"t\":1}".to_vec()
    );
    assert_eq!(fallback_snapshot(&None, SnapshotFormat::MessagePack), vec![0xc0]);
}

#[test]
fn finished_and_tick_length() {
    assert!(module_finished(true, Some(0)));
    assert!(!module_finished(false, Some(0)));
    assert!(module_finished(false, Some(1)));
    assert!(module_finished(false, None));
    assert_eq!(tick_nanos(16_666_667), 16_666_667);
    assert_eq!(tick_nanos(u128::MAX), i64::MAX);
    assert_eq!(tick_nanos(i64::MAX as u128), i64::MAX);
}
