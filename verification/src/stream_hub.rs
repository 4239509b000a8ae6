//! Resumable function streams.
//!
//! Every streamed function call gets a buffered, sequence-numbered stream in
//! this hub. The producer appends frames and never waits on a transport;
//! readers replay from a cursor and then follow the tail. A reader that comes
//! back after a disconnect resumes from its last seen sequence number, and the
//! terminal `result` / `error` frame is buffered like any other, so a reader
//! that returns after the call finished still gets the answer.
//!
//! Buffers are bounded three ways: bytes per stream (the oldest frames drop
//! and a cursor below the retained window is told `Gone`), the number of
//! streams, and bytes across all streams. Only terminal streams past the
//! eviction grace are ever evicted; a live stream is never touched by the
//! caps.
//!
//! The hub is a plain value: one owner mutates it. Time enters through the
//! hub's monotonic clock, read once per operation; every operation has a
//! `_at` form that takes the time as an argument and is specified exactly.

use vstd::prelude::*;

use crate::text::opt_view;

use crate::clock::{elapsed_ms, instant_now};
use crate::text::{clone_opt_string, setting, setting_value, str_eq, str_len, text_len};

verus! {

/// Per-frame bookkeeping cost added to the byte accounting.
pub const FRAME_OVERHEAD_BYTES: usize = 96;

/// Default per-stream buffer cap (bytes of frame data).
pub const DEFAULT_MAX_BYTES_PER_STREAM: usize = 4 * 1024 * 1024;

/// Default retention for completed streams, in seconds.
pub const DEFAULT_RETAIN_SECS: u64 = 3600;

/// Default cap on concurrently buffered streams.
pub const DEFAULT_MAX_STREAMS: usize = 2000;

/// A live stream untouched (no reads, no writes) this long is abandoned.
pub const ABANDONED_LIVE_SECS: u64 = 24 * 3600;

/// Default budget across all buffered streams.
pub const DEFAULT_MAX_TOTAL_BYTES: usize = 256 * 1024 * 1024;

/// A completed stream younger than this is protected from eviction.
pub const EVICTION_GRACE_SECS: u64 = 300;

/// Milliseconds in `secs` seconds, saturating at the largest `u64`.
pub open spec fn secs_to_ms(secs: u64) -> u64 {
    if secs as int * 1000 > u64::MAX as int {
        u64::MAX
    } else {
        (secs * 1000) as u64
    }
}

fn ms_of_secs(secs: u64) -> (ms: u64)
    ensures
        ms == secs_to_ms(secs),
{
    match secs.checked_mul(1000) {
        Some(ms) => ms,
        None => u64::MAX,
    }
}

/// `a - b`, or zero when `b` is later.
pub open spec fn since(a: u64, b: u64) -> int {
    if a >= b {
        a - b
    } else {
        0
    }
}

// ---------------------------------------------------------------------------
// Frames
// ---------------------------------------------------------------------------

/// One buffered frame.
#[derive(Debug, Clone, PartialEq, Eq)]
pub struct StreamFrame {
    pub seq: u64,
    /// SSE event type; `None` for plain data frames. Terminal frames use
    /// `"result"` / `"error"`.
    pub event: Option<String>,
    pub data: String,
}

/// A frame as a value.
pub ghost struct FrameView {
    pub seq: u64,
    pub event: Option<Seq<char>>,
    pub data: Seq<char>,
}


pub open spec fn opt_str_view(o: Option<&str>) -> Option<Seq<char>> {
    match o {
        Some(s) => Some(s@),
        None => None,
    }
}

impl View for StreamFrame {
    type V = FrameView;

    open spec fn view(&self) -> FrameView {
        FrameView { seq: self.seq, event: opt_view(self.event), data: self.data@ }
    }
}

/// The accounted cost of a frame: its data and event bytes plus the
/// per-frame overhead.
pub open spec fn frame_cost(event: Option<Seq<char>>, data: Seq<char>) -> nat {
    let e: nat = match event {
        Some(e) => text_len(e),
        None => 0,
    };
    text_len(data) + e + FRAME_OVERHEAD_BYTES as nat
}

impl FrameView {
    pub open spec fn cost(self) -> nat {
        frame_cost(self.event, self.data)
    }
}

/// The summed cost of a run of frames.
pub open spec fn frames_cost(frames: Seq<FrameView>) -> nat
    decreases frames.len(),
{
    if frames.len() == 0 {
        0
    } else {
        frames[0].cost() + frames_cost(frames.drop_first())
    }
}

/// Drop the oldest frames while the run costs more than `cap` and more than
/// one frame remains: the newest frame always survives.
pub open spec fn trim_to_cap(frames: Seq<FrameView>, cap: nat) -> Seq<FrameView>
    decreases frames.len(),
{
    if frames.len() > 1 && frames_cost(frames) > cap {
        trim_to_cap(frames.drop_first(), cap)
    } else {
        frames
    }
}

/// The buffered frames past a cursor.
pub open spec fn frames_after(frames: Seq<FrameView>, after_seq: u64) -> Seq<FrameView> {
    frames.filter(|f: FrameView| f.seq > after_seq)
}

proof fn lemma_frames_cost_push(frames: Seq<FrameView>, f: FrameView)
    ensures
        frames_cost(frames.push(f)) == frames_cost(frames) + f.cost(),
    decreases frames.len(),
{
    let p = frames.push(f);
    if frames.len() == 0 {
        assert(p.drop_first() =~= Seq::<FrameView>::empty());
        assert(frames_cost(p.drop_first()) == 0);
        assert(p[0] == f);
    } else {
        lemma_frames_cost_push(frames.drop_first(), f);
        assert(p.drop_first() =~= frames.drop_first().push(f));
        assert(p[0] == frames[0]);
        assert(frames_cost(p) == p[0].cost() + frames_cost(p.drop_first()));
    }
}

/// Frames numbered `from`, `from + 1`, ... in order.
pub open spec fn consecutive_from(frames: Seq<FrameView>, from: int) -> bool {
    forall|k: int| 0 <= k < frames.len() ==> #[trigger] frames[k].seq == from + k
}

proof fn lemma_trim_shape(frames: Seq<FrameView>, cap: nat, from: int)
    requires
        frames.len() >= 1,
        consecutive_from(frames, from),
    ensures
        trim_to_cap(frames, cap).len() >= 1,
        trim_to_cap(frames, cap).len() <= frames.len(),
        trim_to_cap(frames, cap) =~= frames.subrange(
            frames.len() - trim_to_cap(frames, cap).len(),
            frames.len() as int,
        ),
        consecutive_from(
            trim_to_cap(frames, cap),
            from + frames.len() - trim_to_cap(frames, cap).len(),
        ),
        frames_cost(trim_to_cap(frames, cap)) <= frames_cost(frames),
    decreases frames.len(),
{
    if frames.len() > 1 && frames_cost(frames) > cap {
        let rest = frames.drop_first();
        assert(consecutive_from(rest, from + 1)) by {
            assert forall|k: int| 0 <= k < rest.len() implies #[trigger] rest[k].seq == from + 1
                + k by {
                assert(rest[k] == frames[k + 1]);
            }
        }
        lemma_trim_shape(rest, cap, from + 1);
        let t = trim_to_cap(rest, cap);
        assert(t =~= frames.subrange(frames.len() - t.len(), frames.len() as int));
    } else {
        assert(frames =~= frames.subrange(0, frames.len() as int));
    }
}

// ---------------------------------------------------------------------------
// Streams
// ---------------------------------------------------------------------------

#[derive(Debug, Clone, Copy, PartialEq, Eq, Structural)]
pub enum StreamStatus {
    Live,
    Done,
    Failed,
}

/// Ownership snapshot for the resume endpoint's auth check.
#[derive(Debug, Clone)]
pub struct StreamMeta {
    pub fn_name: String,
    pub user_id: Option<String>,
    pub tenant_id: Option<String>,
    pub status: StreamStatus,
}

/// A handle on a buffered stream: its id and the serial the hub gave it
/// when it was created. The hub counts the handles it gave out; a stream
/// removed from the hub (or replaced by a new stream under the same id)
/// keeps its buffer while a handle on it is held, and appends, outcomes
/// and reads through such a handle still work. Hand a handle back with
/// [`StreamHub::release`].
#[derive(Debug)]
pub struct StreamEntry {
    pub id: String,
    pub serial: u64,
}

/// Result of one look for frames past a cursor.
#[derive(Debug)]
pub enum WaitOutcome {
    /// Frames after the cursor, in order, and whether the stream has ended
    /// with them.
    Frames(Vec<StreamFrame>, bool),
    /// Nothing new and the stream still live: emit a heartbeat and look
    /// again.
    Heartbeat,
    /// The stream is terminal and the cursor is at the tip.
    Ended,
    /// The cursor points below the retained window; carries the oldest seq
    /// still served.
    Gone(u64),
}

struct StreamBuf {
    frames: Vec<StreamFrame>,
    next_seq: u64,
    oldest_seq: u64,
    bytes: usize,
    status: StreamStatus,
    fn_name: String,
    user_id: Option<String>,
    tenant_id: Option<String>,
    created_at: u64,
    completed_at: Option<u64>,
    last_read_at: u64,
}

struct StreamSlot {
    id: String,
    serial: u64,
    handles: u64,
    buf: StreamBuf,
}

/// A buffered stream as a value.
pub ghost struct SlotView {
    pub id: Seq<char>,
    pub serial: u64,
    pub handles: nat,
    pub frames: Seq<FrameView>,
    pub next_seq: u64,
    pub oldest_seq: u64,
    pub bytes: nat,
    pub status: StreamStatus,
    pub fn_name: Seq<char>,
    pub user_id: Option<Seq<char>>,
    pub tenant_id: Option<Seq<char>>,
    pub created_at: u64,
    pub completed_at: Option<u64>,
    pub last_read_at: u64,
}

impl StreamBuf {
    spec fn frames_view(&self) -> Seq<FrameView> {
        self.frames@.map_values(|f: StreamFrame| f@)
    }
}

impl StreamSlot {
    spec fn view(&self) -> SlotView {
        SlotView {
            id: self.id@,
            serial: self.serial,
            handles: self.handles as nat,
            frames: self.buf.frames_view(),
            next_seq: self.buf.next_seq,
            oldest_seq: self.buf.oldest_seq,
            bytes: self.buf.bytes as nat,
            status: self.buf.status,
            fn_name: self.buf.fn_name@,
            user_id: opt_view(self.buf.user_id),
            tenant_id: opt_view(self.buf.tenant_id),
            created_at: self.buf.created_at,
            completed_at: self.buf.completed_at,
            last_read_at: self.buf.last_read_at,
        }
    }
}

/// A buffered stream's internal consistency: consecutive sequence numbers,
/// the accounted bytes, and a completion time exactly when terminal.
pub open spec fn slot_wf(s: SlotView) -> bool {
    &&& s.oldest_seq >= 1
    &&& consecutive_from(s.frames, s.oldest_seq as int)
    &&& s.next_seq == s.oldest_seq + s.frames.len()
    &&& s.bytes == frames_cost(s.frames)
    &&& (s.status == StreamStatus::Live <==> s.completed_at is None)
}

/// Summed bytes of a run of streams.
pub open spec fn slots_bytes(slots: Seq<SlotView>) -> nat
    decreases slots.len(),
{
    if slots.len() == 0 {
        0
    } else {
        slots[0].bytes + slots_bytes(slots.drop_first())
    }
}

proof fn lemma_slots_bytes_push(slots: Seq<SlotView>, s: SlotView)
    ensures
        slots_bytes(slots.push(s)) == slots_bytes(slots) + s.bytes,
    decreases slots.len(),
{
    let p = slots.push(s);
    if slots.len() == 0 {
        assert(p.drop_first() =~= Seq::<SlotView>::empty());
        assert(slots_bytes(p.drop_first()) == 0);
        assert(p[0] == s);
    } else {
        lemma_slots_bytes_push(slots.drop_first(), s);
        assert(p.drop_first() =~= slots.drop_first().push(s));
        assert(p[0] == slots[0]);
        assert(slots_bytes(p) == p[0].bytes + slots_bytes(p.drop_first()));
    }
}

proof fn lemma_slots_bytes_remove(slots: Seq<SlotView>, i: int)
    requires
        0 <= i < slots.len(),
    ensures
        slots_bytes(slots.remove(i)) + slots[i].bytes == slots_bytes(slots),
    decreases slots.len(),
{
    if i == 0 {
        assert(slots.remove(0) =~= slots.drop_first());
    } else {
        lemma_slots_bytes_remove(slots.drop_first(), i - 1);
        assert(slots.remove(i).drop_first() =~= slots.drop_first().remove(i - 1));
    }
}

proof fn lemma_slots_bytes_update(slots: Seq<SlotView>, i: int, s: SlotView)
    requires
        0 <= i < slots.len(),
    ensures
        slots_bytes(slots.update(i, s)) + slots[i].bytes == slots_bytes(slots) + s.bytes,
{
    lemma_slots_bytes_remove(slots, i);
    lemma_slots_bytes_remove(slots.update(i, s), i);
    assert(slots.update(i, s).remove(i) =~= slots.remove(i));
}

proof fn lemma_slots_bytes_bound(slots: Seq<SlotView>, i: int)
    requires
        0 <= i < slots.len(),
    ensures
        slots[i].bytes <= slots_bytes(slots),
{
    lemma_slots_bytes_remove(slots, i);
}

/// Ids are unique across the hub.
pub open spec fn ids_unique(slots: Seq<SlotView>) -> bool {
    forall|i: int, j: int|
        0 <= i < slots.len() && 0 <= j < slots.len() && i != j ==> #[trigger] slots[i].id
            != #[trigger] slots[j].id
}

/// The stream a handle reaches: the one with its id and serial.
pub open spec fn reaches(s: SlotView, id: Seq<char>, serial: u64) -> bool {
    s.id == id && s.serial == serial
}

/// A terminal stream whose completion is at least the grace ago.
pub open spec fn evictable(s: SlotView, now: u64, grace: u64) -> bool {
    &&& s.status != StreamStatus::Live
    &&& s.completed_at matches Some(done) && since(now, done) >= grace
}

/// `i` is the evictable stream that completed first (the lowest index among
/// those that completed at the same time).
pub open spec fn is_oldest_evictable(slots: Seq<SlotView>, i: int, now: u64, grace: u64) -> bool {
    &&& 0 <= i < slots.len()
    &&& evictable(slots[i], now, grace)
    &&& forall|j: int|
        0 <= j < slots.len() && #[trigger] evictable(slots[j], now, grace) ==> {
            let di = slots[i].completed_at->0;
            let dj = slots[j].completed_at->0;
            di < dj || (di == dj && i <= j)
        }
}

pub open spec fn has_evictable(slots: Seq<SlotView>, now: u64, grace: u64) -> bool {
    exists|j: int| 0 <= j < slots.len() && #[trigger] evictable(slots[j], now, grace)
}

pub open spec fn oldest_evictable(slots: Seq<SlotView>, now: u64, grace: u64) -> int {
    choose|i: int| is_oldest_evictable(slots, i, now, grace)
}

/// Evict the oldest evictable streams, one at a time, while the hub's byte
/// total (the streams' bytes and `extra`) is at or over `max`: the streams
/// left.
pub open spec fn budget_evict(slots: Seq<SlotView>, now: u64, grace: u64, max: nat, extra: nat) -> Seq<
    SlotView,
>
    decreases slots.len(),
{
    if slots_bytes(slots) + extra < max || !has_evictable(slots, now, grace) {
        slots
    } else {
        let i = oldest_evictable(slots, now, grace);
        if 0 <= i < slots.len() {
            budget_evict(slots.remove(i), now, grace, max, extra)
        } else {
            slots
        }
    }
}

/// The streams that eviction (see [`budget_evict`]) removes, in order.
pub open spec fn budget_removed(slots: Seq<SlotView>, now: u64, grace: u64, max: nat, extra: nat) -> Seq<
    SlotView,
>
    decreases slots.len(),
{
    if slots_bytes(slots) + extra < max || !has_evictable(slots, now, grace) {
        Seq::empty()
    } else {
        let i = oldest_evictable(slots, now, grace);
        if 0 <= i < slots.len() {
            seq![slots[i]] + budget_removed(slots.remove(i), now, grace, max, extra)
        } else {
            Seq::empty()
        }
    }
}

/// The stream with a frame appended and the per-stream cap applied.
pub open spec fn appended(s: SlotView, event: Option<Seq<char>>, data: Seq<char>, cap: nat) -> SlotView {
    let f = FrameView { seq: s.next_seq, event, data };
    let frames = trim_to_cap(s.frames.push(f), cap);
    SlotView {
        frames,
        next_seq: (s.next_seq + 1) as u64,
        oldest_seq: frames[0].seq,
        bytes: frames_cost(frames),
        ..s
    }
}

/// The stream after a terminal outcome at `now`: the first outcome wins.
pub open spec fn finished(
    s: SlotView,
    status: StreamStatus,
    event: Seq<char>,
    data: Seq<char>,
    cap: nat,
    now: u64,
) -> SlotView {
    if s.status != StreamStatus::Live {
        s
    } else {
        SlotView { status, completed_at: Some(now), ..appended(s, Some(event), data, cap) }
    }
}

/// Whether cleanup keeps a stream at `now`.
pub open spec fn kept_by_cleanup(s: SlotView, now: u64, retain: u64) -> bool {
    if s.status == StreamStatus::Live {
        let last = if s.last_read_at >= s.created_at {
            s.last_read_at
        } else {
            s.created_at
        };
        since(now, last) < secs_to_ms(ABANDONED_LIVE_SECS)
    } else {
        match s.completed_at {
            Some(done) => since(now, done) < retain,
            None => true,
        }
    }
}

/// The streams cleanup keeps at `now`.
pub open spec fn cleaned(slots: Seq<SlotView>, now: u64, retain: u64) -> Seq<SlotView> {
    slots.filter(|s: SlotView| kept_by_cleanup(s, now, retain))
}

/// The streams cleanup removes at `now`, in order.
pub open spec fn cleaned_out(slots: Seq<SlotView>, now: u64, retain: u64) -> Seq<SlotView> {
    slots.filter(|s: SlotView| !kept_by_cleanup(s, now, retain))
}

/// The hub after cleanup at `now`.
pub open spec fn cleaned_hub(h: HubView, now: u64) -> HubView {
    with_slots(h, cleaned(h.slots, now, h.retain_ms), cleaned_out(h.slots, now, h.retain_ms))
}

/// The hub as a value: the streams it holds by id (`slots`), and those it
/// no longer holds but a handle still reaches (`detached`); `extra` is
/// what the byte total counts beyond the bytes of the held streams (the
/// bytes of replaced streams, and what was appended to detached ones).
pub ghost struct HubView {
    pub slots: Seq<SlotView>,
    pub detached: Seq<SlotView>,
    pub extra: nat,
    pub next_serial: u64,
    pub max_bytes_per_stream: nat,
    pub retain_ms: u64,
    pub max_streams: nat,
    pub total_bytes: nat,
    pub max_total_bytes: nat,
    pub eviction_grace_ms: u64,
}

/// A hub's internal consistency.
pub open spec fn hub_wf(h: HubView) -> bool {
    &&& ids_unique(h.slots)
    &&& forall|i: int| 0 <= i < h.slots.len() ==> slot_wf(#[trigger] h.slots[i])
    &&& forall|i: int| 0 <= i < h.slots.len() ==> #[trigger] h.slots[i].serial < h.next_serial
    &&& parked_ok(h.detached)
    &&& h.total_bytes == slots_bytes(h.slots) + h.extra
}

/// Detached streams are consistent, and each has a handle held on it.
pub open spec fn parked_ok(d: Seq<SlotView>) -> bool {
    forall|i: int| 0 <= i < d.len() ==> slot_wf(#[trigger] d[i]) && d[i].handles > 0
}

proof fn lemma_park(d: Seq<SlotView>, s: SlotView)
    requires
        parked_ok(d),
        slot_wf(s),
    ensures
        parked_ok(park(d, s)),
{
    if s.handles > 0 {
        let p = d.push(s);
        assert forall|i: int| 0 <= i < p.len() implies slot_wf(#[trigger] p[i]) && p[i].handles > 0 by {
            if i < d.len() {
                assert(p[i] == d[i]);
            }
        }
    }
}

proof fn lemma_park_all(d: Seq<SlotView>, rs: Seq<SlotView>)
    requires
        parked_ok(d),
        forall|k: int| 0 <= k < rs.len() ==> slot_wf(#[trigger] rs[k]),
    ensures
        parked_ok(park_all(d, rs)),
    decreases rs.len(),
{
    if rs.len() > 0 {
        let r = rs.drop_last();
        assert forall|k: int| 0 <= k < r.len() implies slot_wf(#[trigger] r[k]) by {
            assert(r[k] == rs[k]);
        }
        lemma_park_all(d, r);
        assert(rs.last() == rs[rs.len() - 1]);
        lemma_park(park_all(d, r), rs.last());
    }
}

/// Parking one more stream after a run is parking the longer run.
proof fn lemma_park_all_push(d: Seq<SlotView>, rs: Seq<SlotView>, s: SlotView)
    ensures
        park_all(d, rs.push(s)) == park(park_all(d, rs), s),
{
    assert(rs.push(s).drop_last() =~= rs);
}

/// The detached streams after stream `s` leaves the hub: kept while a
/// handle on it is held.
pub open spec fn park(d: Seq<SlotView>, s: SlotView) -> Seq<SlotView> {
    if s.handles > 0 {
        d.push(s)
    } else {
        d
    }
}

/// The detached streams after the streams `rs` leave the hub, in order.
pub open spec fn park_all(d: Seq<SlotView>, rs: Seq<SlotView>) -> Seq<SlotView>
    decreases rs.len(),
{
    if rs.len() == 0 {
        d
    } else {
        park(park_all(d, rs.drop_last()), rs.last())
    }
}

/// The index of the detached stream a handle reaches (the latest parked),
/// or -1.
pub open spec fn detached_index(d: Seq<SlotView>, e: StreamEntry) -> int
    decreases d.len(),
{
    if d.len() == 0 {
        -1
    } else if reaches(d.last(), e.id@, e.serial) {
        d.len() - 1
    } else {
        detached_index(d.drop_last(), e)
    }
}

proof fn lemma_detached_index(d: Seq<SlotView>, e: StreamEntry)
    ensures
        -1 <= detached_index(d, e) < d.len(),
        detached_index(d, e) >= 0 ==> reaches(d[detached_index(d, e)], e.id@, e.serial),
    decreases d.len(),
{
    if d.len() > 0 && !reaches(d.last(), e.id@, e.serial) {
        lemma_detached_index(d.drop_last(), e);
        let j = detached_index(d.drop_last(), e);
        if j >= 0 {
            assert(d.drop_last()[j] == d[j]);
        }
    }
}

/// The hub with the detached stream at `j` replaced, and `extra` what the
/// total counts beyond the held streams.
pub open spec fn with_detached(h: HubView, j: int, s: SlotView, extra: nat) -> HubView {
    HubView {
        detached: h.detached.update(j, s),
        extra,
        total_bytes: slots_bytes(h.slots) + extra,
        ..h
    }
}

/// The index of the stream with id `id`, when there is one.
pub open spec fn index_of(slots: Seq<SlotView>, id: Seq<char>) -> int {
    if exists|i: int| 0 <= i < slots.len() && #[trigger] slots[i].id == id {
        choose|i: int| 0 <= i < slots.len() && #[trigger] slots[i].id == id
    } else {
        -1
    }
}

/// The index of the stream a handle reaches, when there is one.
pub open spec fn index_of_entry(slots: Seq<SlotView>, e: StreamEntry) -> int {
    let i = index_of(slots, e.id@);
    if 0 <= i && slots[i].serial == e.serial {
        i
    } else {
        -1
    }
}

/// The hub with the stream at `i` replaced, the total kept consistent.
pub open spec fn with_slot(h: HubView, i: int, s: SlotView) -> HubView {
    HubView {
        slots: h.slots.update(i, s),
        total_bytes: (h.total_bytes - h.slots[i].bytes + s.bytes) as nat,
        ..h
    }
}

/// The hub with the stream at `i` removed: its bytes leave the total, and
/// its buffer stays while a handle on it is held.
pub open spec fn without_slot(h: HubView, i: int) -> HubView {
    HubView {
        slots: h.slots.remove(i),
        detached: park(h.detached, h.slots[i]),
        total_bytes: (h.total_bytes - h.slots[i].bytes) as nat,
        ..h
    }
}

/// The hub with only the streams `slots` left, the streams `removed` gone
/// from it (their bytes leave the total; their buffers stay while handles
/// on them are held).
pub open spec fn with_slots(h: HubView, slots: Seq<SlotView>, removed: Seq<SlotView>) -> HubView {
    HubView {
        slots,
        detached: park_all(h.detached, removed),
        total_bytes: slots_bytes(slots) + h.extra,
        ..h
    }
}

/// The buffered streams, keyed by id.
pub struct StreamHub {
    slots: Vec<StreamSlot>,
    detached: Vec<StreamSlot>,
    extra: usize,
    next_serial: u64,
    max_bytes_per_stream: usize,
    retain_ms: u64,
    max_streams: usize,
    total_bytes: usize,
    max_total_bytes: usize,
    eviction_grace_ms: u64,
    clock: std::time::Instant,
}

impl View for StreamHub {
    type V = HubView;

    closed spec fn view(&self) -> HubView {
        HubView {
            slots: self.slots@.map_values(|s: StreamSlot| s.view()),
            detached: self.detached@.map_values(|s: StreamSlot| s.view()),
            extra: self.extra as nat,
            next_serial: self.next_serial,
            max_bytes_per_stream: self.max_bytes_per_stream as nat,
            retain_ms: self.retain_ms,
            max_streams: self.max_streams as nat,
            total_bytes: self.total_bytes as nat,
            max_total_bytes: self.max_total_bytes as nat,
            eviction_grace_ms: self.eviction_grace_ms,
        }
    }
}

fn frame_bytes(event: Option<&str>, data: &str) -> (r: Option<usize>)
    ensures
        r matches Some(n) ==> n == frame_cost(opt_str_view(event), data@),
        r is None ==> frame_cost(opt_str_view(event), data@) > usize::MAX,
{
    let e = match event {
        Some(e) => str_len(e),
        None => 0,
    };
    match str_len(data).checked_add(e) {
        Some(n) => n.checked_add(FRAME_OVERHEAD_BYTES),
        None => None,
    }
}

fn copy_frame(f: &StreamFrame) -> (r: StreamFrame)
    ensures
        r@ == f@,
{
    StreamFrame { seq: f.seq, event: clone_opt_string(&f.event), data: f.data.clone() }
}

fn to_opt_string(o: Option<&str>) -> (r: Option<String>)
    ensures
        opt_view(r) == opt_str_view(o),
{
    match o {
        Some(s) => Some(s.to_owned()),
        None => None,
    }
}

impl StreamHub {
    /// The hub's consistency, which every operation keeps.
    pub closed spec fn wf(&self) -> bool {
        &&& hub_wf(self@)
        &&& self.slots@.len() == self@.slots.len()
    }

    proof fn view_facts(&self)
        ensures
            self@.slots.len() == self.slots@.len(),
            forall|i: int|
                0 <= i < self.slots@.len() ==> #[trigger] self@.slots[i] == self.slots@[i].view(),
            self@.detached.len() == self.detached@.len(),
            forall|i: int|
                0 <= i < self.detached@.len() ==> #[trigger] self@.detached[i]
                    == self.detached@[i].view(),
    {
    }

    fn with_limits(
        max_bytes_per_stream: usize,
        retain_ms: u64,
        max_streams: usize,
        max_total_bytes: usize,
        eviction_grace_ms: u64,
    ) -> (h: Self)
        ensures
            h.wf(),
            h@.slots.len() == 0,
            h@.max_bytes_per_stream == max_bytes_per_stream,
            h@.retain_ms == retain_ms,
            h@.max_streams == max_streams,
            h@.max_total_bytes == max_total_bytes,
            h@.eviction_grace_ms == eviction_grace_ms,
            h@.total_bytes == 0,
            h@.next_serial == 0,
            h@.detached.len() == 0,
            h@.extra == 0,
    {
        let h = StreamHub {
            slots: Vec::new(),
            detached: Vec::new(),
            extra: 0,
            next_serial: 0,
            max_bytes_per_stream,
            retain_ms,
            max_streams,
            total_bytes: 0,
            max_total_bytes,
            eviction_grace_ms,
            clock: instant_now(),
        };
        assert(h@.slots =~= Seq::<SlotView>::empty());
        assert(h@.detached =~= Seq::<SlotView>::empty());
        h
    }

    /// A hub with the given per-stream cap, retention (seconds) and stream
    /// cap, the default total budget and eviction grace.
    pub fn with_caps(max_bytes_per_stream: usize, retain_secs: u64, max_streams: usize) -> (h:
        Self)
        ensures
            h.wf(),
            h@.slots.len() == 0,
            h@.max_bytes_per_stream == max_bytes_per_stream,
            h@.retain_ms == secs_to_ms(retain_secs),
            h@.max_streams == max_streams,
            h@.max_total_bytes == DEFAULT_MAX_TOTAL_BYTES,
            h@.eviction_grace_ms == secs_to_ms(EVICTION_GRACE_SECS),
            h@.total_bytes == 0,
            h@.next_serial == 0,
            h@.detached.len() == 0,
            h@.extra == 0,
    {
        Self::with_limits(
            max_bytes_per_stream,
            ms_of_secs(retain_secs),
            max_streams,
            DEFAULT_MAX_TOTAL_BYTES,
            ms_of_secs(EVICTION_GRACE_SECS),
        )
    }

    /// Change the eviction grace (seconds).
    pub fn set_eviction_grace_for_test(&mut self, secs: u64)
        requires
            old(self).wf(),
        ensures
            final(self).wf(),
            final(self)@ == (HubView { eviction_grace_ms: secs_to_ms(secs), ..old(self)@ }),
    {
        self.eviction_grace_ms = ms_of_secs(secs);
    }

    /// Buffered-stream count.
    pub fn len(&self) -> (n: usize)
        requires
            self.wf(),
        ensures
            n == self@.slots.len(),
    {
        self.slots.len()
    }

    pub fn is_empty(&self) -> (b: bool)
        requires
            self.wf(),
        ensures
            b == (self@.slots.len() == 0),
    {
        self.len() == 0
    }

    /// Bytes buffered across every stream.
    pub fn total_bytes(&self) -> (n: usize)
        ensures
            n == self@.total_bytes,
    {
        self.total_bytes
    }

    /// The current time on the hub's clock, in milliseconds.
    fn now(&self) -> u64 {
        elapsed_ms(&self.clock)
    }

    fn find(&self, id: &str) -> (r: Option<usize>)
        requires
            self.wf(),
        ensures
            r matches Some(i) ==> i == index_of(self@.slots, id@) && i < self@.slots.len(),
            r is None ==> index_of(self@.slots, id@) == -1,
    {
        proof {
            self.view_facts();
        }
        let mut i: usize = 0;
        while i < self.slots.len()
            invariant
                self.wf(),
                i <= self.slots@.len(),
                forall|j: int| 0 <= j < i ==> #[trigger] self@.slots[j].id != id@,
            decreases self.slots@.len() - i,
        {
            proof {
                self.view_facts();
            }
            if str_eq(self.slots[i].id.as_str(), id) {
                proof {
                    assert(self@.slots[i as int].id == id@);
                    let k = index_of(self@.slots, id@);
                    assert(0 <= k < self@.slots.len() && self@.slots[k].id == id@);
                    assert(k == i);
                }
                return Some(i);
            }
            i += 1;
        }
        proof {
            assert(!exists|j: int| 0 <= j < self@.slots.len() && #[trigger] self@.slots[j].id == id@);
        }
        None
    }

    fn find_entry(&self, entry: &StreamEntry) -> (r: Option<usize>)
        requires
            self.wf(),
        ensures
            r matches Some(i) ==> i == index_of_entry(self@.slots, *entry) && i
                < self@.slots.len(),
            r is None ==> index_of_entry(self@.slots, *entry) == -1,
    {
        match self.find(entry.id.as_str()) {
            Some(i) => {
                proof {
                    self.view_facts();
                }
                if self.slots[i].serial == entry.serial {
                    Some(i)
                } else {
                    None
                }
            },
            None => None,
        }
    }
}


// ---------------------------------------------------------------------------
// Specifications of the hub's operations
// ---------------------------------------------------------------------------

/// Whether one more frame of this cost fits the counters of the stream at
/// `i` and of the hub.
pub open spec fn append_fits(h: HubView, i: int, cost: nat) -> bool {
    h.slots[i].next_seq < u64::MAX && h.total_bytes + cost <= usize::MAX
}

/// The hub after total-budget eviction at `now`.
pub open spec fn budget_evicted_hub(h: HubView, now: u64) -> HubView {
    with_slots(
        h,
        budget_evict(h.slots, now, h.eviction_grace_ms, h.max_total_bytes, h.extra),
        budget_removed(h.slots, now, h.eviction_grace_ms, h.max_total_bytes, h.extra),
    )
}

/// The hub after a stream under `id` is replaced: it leaves the hub, its
/// buffer stays while a handle on it is held, and the total keeps counting
/// its bytes.
pub open spec fn replaced(h: HubView, id: Seq<char>) -> HubView {
    let i = index_of(h.slots, id);
    if 0 <= i {
        HubView {
            slots: h.slots.remove(i),
            detached: park(h.detached, h.slots[i]),
            extra: h.extra + h.slots[i].bytes,
            ..h
        }
    } else {
        h
    }
}

/// The streams without the one with id `id`.
pub open spec fn without_id(slots: Seq<SlotView>, id: Seq<char>) -> Seq<SlotView> {
    let i = index_of(slots, id);
    if 0 <= i {
        slots.remove(i)
    } else {
        slots
    }
}

/// A fresh live stream.
pub open spec fn new_slot(
    id: Seq<char>,
    serial: u64,
    fn_name: Seq<char>,
    user_id: Option<Seq<char>>,
    tenant_id: Option<Seq<char>>,
    now: u64,
) -> SlotView {
    SlotView {
        id,
        serial,
        handles: 1,
        frames: Seq::empty(),
        next_seq: 1,
        oldest_seq: 1,
        bytes: 0,
        status: StreamStatus::Live,
        fn_name,
        user_id,
        tenant_id,
        created_at: now,
        completed_at: None,
        last_read_at: now,
    }
}

/// What a look past `after_seq` at stream `s` answers.
pub open spec fn wait_answer(s: SlotView, after_seq: u64, r: WaitOutcome) -> bool {
    let gone = after_seq + 1 < s.oldest_seq;
    let fresh = frames_after(s.frames, after_seq);
    match r {
        WaitOutcome::Gone(oldest) => gone && oldest == s.oldest_seq,
        WaitOutcome::Frames(v, ended) => {
            &&& !gone
            &&& fresh.len() > 0
            &&& v@.map_values(|f: StreamFrame| f@) == fresh
            &&& ended == (s.status != StreamStatus::Live)
        },
        WaitOutcome::Ended => !gone && fresh.len() == 0 && s.status != StreamStatus::Live,
        WaitOutcome::Heartbeat => !gone && fresh.len() == 0 && s.status == StreamStatus::Live,
    }
}

proof fn lemma_oldest_unique(slots: Seq<SlotView>, i: int, k: int, now: u64, grace: u64)
    requires
        is_oldest_evictable(slots, i, now, grace),
        is_oldest_evictable(slots, k, now, grace),
    ensures
        i == k,
{
    assert(evictable(slots[k], now, grace));
    assert(evictable(slots[i], now, grace));
}

proof fn lemma_oldest_choose(slots: Seq<SlotView>, i: int, now: u64, grace: u64)
    requires
        is_oldest_evictable(slots, i, now, grace),
    ensures
        has_evictable(slots, now, grace),
        oldest_evictable(slots, now, grace) == i,
{
    assert(evictable(slots[i], now, grace));
    let k = oldest_evictable(slots, now, grace);
    assert(is_oldest_evictable(slots, k, now, grace));
    lemma_oldest_unique(slots, i, k, now, grace);
}

proof fn lemma_hub_remove(h: HubView, i: int)
    requires
        hub_wf(h),
        0 <= i < h.slots.len(),
    ensures
        hub_wf(without_slot(h, i)),
        without_slot(h, i).total_bytes + h.slots[i].bytes == h.total_bytes,
{
    lemma_slots_bytes_remove(h.slots, i);
    let r = h.slots.remove(i);
    assert forall|a: int, b: int| 0 <= a < r.len() && 0 <= b < r.len() && a != b implies #[trigger] r[a].id
        != #[trigger] r[b].id by {
        let a0 = if a < i { a } else { a + 1 };
        let b0 = if b < i { b } else { b + 1 };
        assert(r[a] == h.slots[a0]);
        assert(r[b] == h.slots[b0]);
    }
    assert forall|a: int| 0 <= a < r.len() implies slot_wf(#[trigger] r[a]) && r[a].serial < h.next_serial by {
        let a0 = if a < i { a } else { a + 1 };
        assert(r[a] == h.slots[a0]);
    }
    lemma_park(h.detached, h.slots[i]);
}

proof fn lemma_without_slot_of_with_slots(h: HubView, sl: Seq<SlotView>, rem: Seq<SlotView>, i: int)
    requires
        0 <= i < sl.len(),
    ensures
        without_slot(with_slots(h, sl, rem), i) == with_slots(h, sl.remove(i), rem.push(sl[i])),
{
    lemma_slots_bytes_remove(sl, i);
    lemma_park_all_push(h.detached, rem, sl[i]);
}

proof fn lemma_hub_update(h: HubView, i: int, s: SlotView)
    requires
        hub_wf(h),
        0 <= i < h.slots.len(),
        slot_wf(s),
        s.id == h.slots[i].id,
        s.serial == h.slots[i].serial,
    ensures
        hub_wf(with_slot(h, i, s)),
{
    lemma_slots_bytes_update(h.slots, i, s);
    let u = h.slots.update(i, s);
    assert forall|a: int, b: int| 0 <= a < u.len() && 0 <= b < u.len() && a != b implies #[trigger] u[a].id
        != #[trigger] u[b].id by {
        assert(u[a].id == h.slots[a].id);
        assert(u[b].id == h.slots[b].id);
    }
    assert forall|a: int| 0 <= a < u.len() implies slot_wf(#[trigger] u[a]) && u[a].serial < h.next_serial by {
        if a != i {
            assert(u[a] == h.slots[a]);
        }
    }
}

// ---------------------------------------------------------------------------
// One stream's buffer
// ---------------------------------------------------------------------------

fn frame_cost_of(f: &StreamFrame) -> (r: Option<usize>)
    ensures
        r matches Some(n) ==> n == f@.cost(),
        r is None ==> f@.cost() > usize::MAX,
{
    let event = match &f.event {
        Some(e) => Some(e.as_str()),
        None => None,
    };
    frame_bytes(event, f.data.as_str())
}

impl StreamSlot {
    /// Drop the oldest frames while the buffer is over `cap` and holds more
    /// than one frame.
    fn trim(&mut self, cap: usize)
        requires
            old(self).view().frames.len() >= 1,
            consecutive_from(old(self).view().frames, old(self).view().oldest_seq as int),
            old(self).view().bytes == frames_cost(old(self).view().frames),
            old(self).view().next_seq == old(self).view().oldest_seq + old(self).view().frames.len(),
        ensures
            final(self).view() == (SlotView {
                frames: trim_to_cap(old(self).view().frames, cap as nat),
                oldest_seq: trim_to_cap(old(self).view().frames, cap as nat)[0].seq,
                bytes: frames_cost(trim_to_cap(old(self).view().frames, cap as nat)),
                ..old(self).view()
            }),
    {
        let ghost target = trim_to_cap(self.view().frames, cap as nat);
        let ghost start = self.view();
        proof {
            lemma_trim_shape(start.frames, cap as nat, start.oldest_seq as int);
        }
        while self.buf.bytes > cap && self.buf.frames.len() > 1
            invariant
                self.view().frames.len() >= 1,
                trim_to_cap(self.view().frames, cap as nat) == target,
                consecutive_from(self.view().frames, self.view().oldest_seq as int),
                self.view().bytes == frames_cost(self.view().frames),
                self.view().next_seq == self.view().oldest_seq + self.view().frames.len(),
                self.view() == (SlotView {
                    frames: self.view().frames,
                    oldest_seq: self.view().oldest_seq,
                    bytes: self.view().bytes,
                    ..start
                }),
            decreases self.buf.frames@.len(),
        {
            let ghost before = self.view();
            let dropped = self.buf.frames.remove(0);
            proof {
                assert(self.view().frames =~= before.frames.drop_first());
                assert(dropped@ == before.frames[0]);
                assert(before.frames[0].seq == before.oldest_seq);
                assert(dropped.seq == before.oldest_seq);
                assert(before.oldest_seq + 1 < before.next_seq);
                assert(frames_cost(before.frames) == before.frames[0].cost() + frames_cost(
                    before.frames.drop_first(),
                ));
                assert(before.frames[1].seq == before.oldest_seq + 1);
                assert(consecutive_from(self.view().frames, before.oldest_seq + 1)) by {
                    assert forall|k: int| 0 <= k < self.view().frames.len() implies #[trigger] self.view().frames[k].seq
                        == before.oldest_seq + 1 + k by {
                        assert(self.view().frames[k] == before.frames[k + 1]);
                    }
                }
            }
            let c = match frame_cost_of(&dropped) {
                Some(c) => c,
                None => {
                    proof {
                        assert(false);
                    }
                    0
                },
            };
            self.buf.bytes = self.buf.bytes - c;
            self.buf.oldest_seq = dropped.seq + 1;
        }
        proof {
            assert(trim_to_cap(self.view().frames, cap as nat) == self.view().frames);
        }
    }

    /// Append a frame (numbered with the next seq) and apply the cap.
    fn push_frame(&mut self, event: Option<&str>, data: &str, cost: usize, cap: usize)
        requires
            slot_wf(old(self).view()),
            cost == frame_cost(opt_str_view(event), data@),
            old(self).view().next_seq < u64::MAX,
            old(self).view().bytes + cost <= usize::MAX,
        ensures
            final(self).view() == appended(old(self).view(), opt_str_view(event), data@, cap as nat),
            slot_wf(final(self).view()),
            final(self).view().bytes <= old(self).view().bytes + cost,
    {
        let ghost start = self.view();
        let ghost f = FrameView { seq: start.next_seq, event: opt_str_view(event), data: data@ };
        let seq = self.buf.next_seq;
        self.buf.next_seq = seq + 1;
        self.buf.bytes = self.buf.bytes + cost;
        let frame = StreamFrame { seq, event: to_opt_string(event), data: data.to_owned() };
        self.buf.frames.push(frame);
        proof {
            assert(self.view().frames =~= start.frames.push(f));
            lemma_frames_cost_push(start.frames, f);
            assert(consecutive_from(self.view().frames, start.oldest_seq as int)) by {
                assert forall|k: int| 0 <= k < self.view().frames.len() implies #[trigger] self.view().frames[k].seq
                    == start.oldest_seq + k by {
                    if k < start.frames.len() {
                        assert(self.view().frames[k] == start.frames[k]);
                    }
                }
            }
            assert(self.view().next_seq == self.view().oldest_seq + self.view().frames.len());
            lemma_trim_shape(self.view().frames, cap as nat, start.oldest_seq as int);
        }
        self.trim(cap);
        proof {
            let t = trim_to_cap(start.frames.push(f), cap as nat);
            let pushed = start.frames.push(f);
            lemma_trim_shape(pushed, cap as nat, start.oldest_seq as int);
            assert(t[0].seq == start.oldest_seq + pushed.len() - t.len());
            assert(self.view().next_seq == self.view().oldest_seq + self.view().frames.len());
        }
    }
}


fn collect_after(frames: &Vec<StreamFrame>, after_seq: u64) -> (out: Vec<StreamFrame>)
    ensures
        out@.map_values(|f: StreamFrame| f@) == frames_after(
            frames@.map_values(|f: StreamFrame| f@),
            after_seq,
        ),
{
    let ghost fv = frames@.map_values(|f: StreamFrame| f@);
    let ghost pred = |f: FrameView| f.seq > after_seq;
    let mut out: Vec<StreamFrame> = Vec::new();
    let mut k: usize = 0;
    proof {
        reveal(Seq::filter);
        assert(fv.take(0) =~= Seq::<FrameView>::empty());
        assert(out@.map_values(|f: StreamFrame| f@) =~= fv.take(0).filter(pred));
    }
    while k < frames.len()
        invariant
            k <= frames@.len(),
            fv == frames@.map_values(|f: StreamFrame| f@),
            pred == (|f: FrameView| f.seq > after_seq),
            out@.map_values(|f: StreamFrame| f@) == fv.take(k as int).filter(pred),
        decreases frames@.len() - k,
    {
        let ghost before = out@.map_values(|f: StreamFrame| f@);
        proof {
            reveal(Seq::filter);
            assert(fv.take(k + 1).drop_last() =~= fv.take(k as int));
            assert(fv.take(k + 1).last() == fv[k as int]);
        }
        if frames[k].seq > after_seq {
            out.push(copy_frame(&frames[k]));
            proof {
                assert(out@.map_values(|f: StreamFrame| f@) =~= before.push(fv[k as int]));
            }
        }
        k += 1;
    }
    proof {
        assert(fv.take(frames@.len() as int) =~= fv);
    }
    out
}

impl StreamHub {
    proof fn lemma_reinsert(&self, old_view: HubView, i: int, s: SlotView)
        requires
            self.slots@.len() == old_view.slots.len(),
            0 <= i < old_view.slots.len(),
            self.slots@[i].view() == s,
            forall|k: int|
                0 <= k < old_view.slots.len() && k != i ==> #[trigger] self.slots@[k].view()
                    == old_view.slots[k],
        ensures
            self.slots@.map_values(|x: StreamSlot| x.view()) == old_view.slots.update(i, s),
    {
        assert(self.slots@.map_values(|x: StreamSlot| x.view()) =~= old_view.slots.update(i, s));
    }

    /// Remove the stream at `i`; its buffer stays while a handle on it is
    /// held.
    fn remove_at(&mut self, i: usize)
        requires
            old(self).wf(),
            i < old(self)@.slots.len(),
        ensures
            final(self).wf(),
            final(self)@ == without_slot(old(self)@, i as int),
    {
        let ghost h = self@;
        proof {
            self.view_facts();
            lemma_slots_bytes_bound(h.slots, i as int);
            lemma_hub_remove(h, i as int);
        }
        let slot = self.slots.remove(i);
        self.total_bytes = self.total_bytes - slot.buf.bytes;
        if slot.handles > 0 {
            self.detached.push(slot);
        }
        proof {
            assert(self@.slots =~= h.slots.remove(i as int));
            assert(self@.detached =~= park(h.detached, h.slots[i as int]));
        }
    }

    /// Drop a stream immediately.
    pub fn remove(&mut self, stream_id: &str)
        requires
            old(self).wf(),
        ensures
            final(self).wf(),
            final(self)@ == if index_of(old(self)@.slots, stream_id@) >= 0 {
                without_slot(old(self)@, index_of(old(self)@.slots, stream_id@))
            } else {
                old(self)@
            },
    {
        if let Some(i) = self.find(stream_id) {
            self.remove_at(i);
        }
    }

    /// A handle on the stream with id `stream_id`, counted among its
    /// handles. None when there is no such stream (or its count of handles
    /// is at `u64::MAX`).
    pub fn get(&mut self, stream_id: &str) -> (r: Option<StreamEntry>)
        requires
            old(self).wf(),
        ensures
            final(self).wf(),
            ({
                let h = old(self)@;
                let i = index_of(h.slots, stream_id@);
                if i >= 0 && h.slots[i].handles < u64::MAX {
                    &&& r matches Some(e) && e.id@ == stream_id@ && e.serial == h.slots[i].serial
                    &&& final(self)@ == with_slot(
                        h,
                        i,
                        SlotView { handles: h.slots[i].handles + 1, ..h.slots[i] },
                    )
                } else {
                    r is None && final(self)@ == h
                }
            }),
    {
        let ghost h = self@;
        match self.find(stream_id) {
            Some(i) => {
                proof {
                    self.view_facts();
                }
                if self.slots[i].handles == u64::MAX {
                    return None;
                }
                let serial = self.slots[i].serial;
                let mut slot = self.slots.remove(i);
                slot.handles = slot.handles + 1;
                let ghost ns = slot.view();
                self.slots.insert(i, slot);
                proof {
                    self.lemma_reinsert(h, i as int, ns);
                    lemma_hub_update(h, i as int, ns);
                }
                Some(StreamEntry { id: stream_id.to_owned(), serial })
            },
            None => None,
        }
    }

    fn find_detached(&self, entry: &StreamEntry) -> (r: Option<usize>)
        requires
            self.wf(),
        ensures
            r matches Some(j) ==> j == detached_index(self@.detached, *entry) && j
                < self@.detached.len(),
            r is None ==> detached_index(self@.detached, *entry) == -1,
    {
        proof {
            self.view_facts();
            lemma_detached_index(self@.detached, *entry);
        }
        let ghost d = self@.detached;
        let mut k: usize = self.detached.len();
        proof {
            assert(d.take(d.len() as int) =~= d);
        }
        while k > 0
            invariant
                self.wf(),
                d == self@.detached,
                k <= d.len(),
                detached_index(d, *entry) == detached_index(d.take(k as int), *entry),
            decreases k,
        {
            proof {
                self.view_facts();
                assert(d.take(k as int).last() == d[k - 1]);
                assert(d.take(k as int).drop_last() =~= d.take(k - 1));
            }
            let s = &self.detached[k - 1];
            if s.serial == entry.serial && str_eq(s.id.as_str(), entry.id.as_str()) {
                return Some(k - 1);
            }
            k -= 1;
        }
        None
    }

    /// Hand a handle back. A stream no longer in the hub keeps its buffer
    /// until its last handle is handed back.
    pub fn release(&mut self, entry: StreamEntry)
        requires
            old(self).wf(),
        ensures
            final(self).wf(),
            ({
                let h = old(self)@;
                let i = index_of_entry(h.slots, entry);
                let j = detached_index(h.detached, entry);
                if i >= 0 {
                    final(self)@ == with_slot(
                        h,
                        i,
                        SlotView {
                            handles: if h.slots[i].handles > 0 {
                                (h.slots[i].handles - 1) as nat
                            } else {
                                0
                            },
                            ..h.slots[i]
                        },
                    )
                } else if j >= 0 {
                    if h.detached[j].handles == 1 {
                        final(self)@ == HubView { detached: h.detached.remove(j), ..h }
                    } else {
                        final(self)@ == with_detached(
                            h,
                            j,
                            SlotView { handles: (h.detached[j].handles - 1) as nat, ..h.detached[j] },
                            h.extra,
                        )
                    }
                } else {
                    final(self)@ == h
                }
            }),
    {
        let ghost h = self@;
        proof {
            self.view_facts();
        }
        if let Some(i) = self.find_entry(&entry) {
            let mut slot = self.slots.remove(i);
            if slot.handles > 0 {
                slot.handles = slot.handles - 1;
            }
            let ghost ns = slot.view();
            self.slots.insert(i, slot);
            proof {
                self.lemma_reinsert(h, i as int, ns);
                lemma_hub_update(h, i as int, ns);
            }
            return;
        }
        if let Some(j) = self.find_detached(&entry) {
            let mut slot = self.detached.remove(j);
            if slot.handles == 1 {
                proof {
                    assert(self@.detached =~= h.detached.remove(j as int));
                    let r = h.detached.remove(j as int);
                    assert forall|a: int| 0 <= a < r.len() implies slot_wf(#[trigger] r[a]) && r[a].handles > 0 by {
                        let a0 = if a < j { a } else { a + 1 };
                        assert(r[a] == h.detached[a0]);
                    }
                }
                return;
            }
            slot.handles = slot.handles - 1;
            let ghost ns = slot.view();
            self.detached.insert(j, slot);
            proof {
                self.lemma_reinsert_detached(h, j as int, ns);
                lemma_detached_update(h, j as int, ns, h.extra);
            }
        }
    }

    /// Append a data frame. Returns the assigned seq: the stream's next one.
    /// A handle on a stream no longer in the hub appends to its buffer all
    /// the same. Returns 0 (never a frame's seq) and changes nothing when
    /// the handle reaches no buffer or a counter would overflow.
    pub fn append(&mut self, entry: &StreamEntry, event: Option<&str>, data: &str) -> (seq: u64)
        requires
            old(self).wf(),
        ensures
            final(self).wf(),
            append_outcome(old(self)@, *entry, opt_str_view(event), data@, seq, final(self)@),
    {
        let ghost h = self@;
        let cost = match frame_bytes(event, data) {
            Some(c) => c,
            None => {
                proof {
                    lemma_no_fit(h, *entry, frame_cost(opt_str_view(event), data@));
                }
                return 0;
            },
        };
        match self.find_entry(entry) {
            Some(i) => {
                proof {
                    self.view_facts();
                    lemma_slots_bytes_bound(h.slots, i as int);
                }
                if self.slots[i].buf.next_seq == u64::MAX {
                    return 0;
                }
                if cost > usize::MAX - self.total_bytes {
                    return 0;
                }
                let seq = self.slots[i].buf.next_seq;
                let cap = self.max_bytes_per_stream;
                let mut slot = self.slots.remove(i);
                let old_bytes = slot.buf.bytes;
                slot.push_frame(event, data, cost, cap);
                let new_bytes = slot.buf.bytes;
                let ghost ns = slot.view();
                self.slots.insert(i, slot);
                self.total_bytes = self.total_bytes - old_bytes + new_bytes;
                proof {
                    self.lemma_reinsert(h, i as int, ns);
                    lemma_hub_update(h, i as int, ns);
                }
                seq
            },
            None => match self.find_detached(entry) {
                Some(j) => {
                    proof {
                        self.view_facts();
                    }
                    if self.detached[j].buf.next_seq == u64::MAX {
                        return 0;
                    }
                    if cost > usize::MAX - self.total_bytes {
                        return 0;
                    }
                    if cost > usize::MAX - self.detached[j].buf.bytes {
                        return 0;
                    }
                    let seq = self.detached[j].buf.next_seq;
                    let cap = self.max_bytes_per_stream;
                    let mut slot = self.detached.remove(j);
                    let old_bytes = slot.buf.bytes;
                    slot.push_frame(event, data, cost, cap);
                    let new_bytes = slot.buf.bytes;
                    let ghost ns = slot.view();
                    self.detached.insert(j, slot);
                    self.settle_extra(Ghost(h), j, old_bytes, cost, new_bytes);
                    proof {
                        self.lemma_reinsert_detached(h, j as int, ns);
                        lemma_detached_update(h, j as int, ns, self.extra as nat);
                    }
                    seq
                },
                None => 0,
            },
        }
    }

    /// After a frame of `cost` went into a detached stream whose bytes went
    /// from `before` to `after`: the total counts the frame, and takes off
    /// what the cap dropped, as far as it counts beyond the held streams.
    fn settle_extra(&mut self, Ghost(h): Ghost<HubView>, j: usize, before: usize, cost: usize, after: usize)
        requires
            hub_wf(h),
            old(self).total_bytes == h.total_bytes,
            old(self).extra == h.extra,
            h.total_bytes + cost <= usize::MAX,
            before + cost <= usize::MAX,
            after <= before + cost,
        ensures
            final(self).extra == extra_after(h.extra, cost as nat, before as nat, after as nat),
            final(self).total_bytes == slots_bytes(h.slots) + final(self).extra,
            final(self).slots == old(self).slots,
            final(self).detached == old(self).detached,
            final(self).next_serial == old(self).next_serial,
            final(self).max_bytes_per_stream == old(self).max_bytes_per_stream,
            final(self).retain_ms == old(self).retain_ms,
            final(self).max_streams == old(self).max_streams,
            final(self).max_total_bytes == old(self).max_total_bytes,
            final(self).eviction_grace_ms == old(self).eviction_grace_ms,
    {
        let evicted = before + cost - after;
        let grown = self.extra + cost;
        let e = if grown >= evicted {
            grown - evicted
        } else {
            0
        };
        self.total_bytes = self.total_bytes - self.extra + e;
        self.extra = e;
    }

    /// Record a terminal outcome at `now`. The first outcome wins: a stream
    /// that is already terminal is left as it is. A handle on a stream no
    /// longer in the hub records it in its buffer all the same.
    pub fn finish_at(
        &mut self,
        now: u64,
        entry: &StreamEntry,
        status: StreamStatus,
        event: &str,
        data: &str,
    )
        requires
            old(self).wf(),
            status != StreamStatus::Live,
        ensures
            final(self).wf(),
            finish_outcome(old(self)@, *entry, status, event@, data@, now, final(self)@),
    {
        let ghost h = self@;
        let cost = match frame_bytes(Some(event), data) {
            Some(c) => c,
            None => {
                proof {
                    lemma_no_fit(h, *entry, frame_cost(Some(event@), data@));
                }
                return ;
            },
        };
        match self.find_entry(entry) {
            Some(i) => {
                proof {
                    self.view_facts();
                    lemma_slots_bytes_bound(h.slots, i as int);
                }
                if self.slots[i].buf.status != StreamStatus::Live {
                    return ;
                }
                if self.slots[i].buf.next_seq == u64::MAX {
                    return ;
                }
                if cost > usize::MAX - self.total_bytes {
                    return ;
                }
                let cap = self.max_bytes_per_stream;
                let mut slot = self.slots.remove(i);
                let old_bytes = slot.buf.bytes;
                slot.push_frame(Some(event), data, cost, cap);
                slot.buf.status = status;
                slot.buf.completed_at = Some(now);
                let new_bytes = slot.buf.bytes;
                let ghost ns = slot.view();
                self.slots.insert(i, slot);
                self.total_bytes = self.total_bytes - old_bytes + new_bytes;
                proof {
                    self.lemma_reinsert(h, i as int, ns);
                    lemma_hub_update(h, i as int, ns);
                }
            },
            None => match self.find_detached(entry) {
                Some(j) => {
                    proof {
                        self.view_facts();
                    }
                    if self.detached[j].buf.status != StreamStatus::Live {
                        return ;
                    }
                    if self.detached[j].buf.next_seq == u64::MAX {
                        return ;
                    }
                    if cost > usize::MAX - self.total_bytes {
                        return ;
                    }
                    if cost > usize::MAX - self.detached[j].buf.bytes {
                        return ;
                    }
                    let cap = self.max_bytes_per_stream;
                    let mut slot = self.detached.remove(j);
                    let old_bytes = slot.buf.bytes;
                    slot.push_frame(Some(event), data, cost, cap);
                    slot.buf.status = status;
                    slot.buf.completed_at = Some(now);
                    let new_bytes = slot.buf.bytes;
                    let ghost ns = slot.view();
                    self.detached.insert(j, slot);
                    self.settle_extra(Ghost(h), j, old_bytes, cost, new_bytes);
                    proof {
                        self.lemma_reinsert_detached(h, j as int, ns);
                        lemma_detached_update(h, j as int, ns, self.extra as nat);
                    }
                },
                None => {},
            },
        }
    }

    /// Terminal success at `now`: buffers a `result` frame.
    pub fn complete_at(&mut self, now: u64, entry: &StreamEntry, result_json: &str)
        requires
            old(self).wf(),
        ensures
            final(self).wf(),
            finish_outcome(
                old(self)@,
                *entry,
                StreamStatus::Done,
                "result"@,
                result_json@,
                now,
                final(self)@,
            ),
    {
        self.finish_at(now, entry, StreamStatus::Done, "result", result_json)
    }

    /// Terminal failure at `now`: buffers an `error` frame.
    pub fn fail_at(&mut self, now: u64, entry: &StreamEntry, error_json: &str)
        requires
            old(self).wf(),
        ensures
            final(self).wf(),
            finish_outcome(
                old(self)@,
                *entry,
                StreamStatus::Failed,
                "error"@,
                error_json@,
                now,
                final(self)@,
            ),
    {
        self.finish_at(now, entry, StreamStatus::Failed, "error", error_json)
    }

    /// Terminal success, now.
    pub fn complete(&mut self, entry: &StreamEntry, result_json: &str)
        requires
            old(self).wf(),
        ensures
            final(self).wf(),
            exists|now: u64|
                #[trigger] finish_outcome(
                    old(self)@,
                    *entry,
                    StreamStatus::Done,
                    "result"@,
                    result_json@,
                    now,
                    final(self)@,
                ),
    {
        let now = self.now();
        self.complete_at(now, entry, result_json)
    }

    /// Terminal failure, now.
    pub fn fail(&mut self, entry: &StreamEntry, error_json: &str)
        requires
            old(self).wf(),
        ensures
            final(self).wf(),
            exists|now: u64|
                #[trigger] finish_outcome(
                    old(self)@,
                    *entry,
                    StreamStatus::Failed,
                    "error"@,
                    error_json@,
                    now,
                    final(self)@,
                ),
    {
        let now = self.now();
        self.fail_at(now, entry, error_json)
    }

    /// The ownership snapshot of the stream a handle reaches (held or
    /// detached).
    pub fn meta(&self, entry: &StreamEntry) -> (r: Option<StreamMeta>)
        requires
            self.wf(),
        ensures
            ({
                let s = reached(self@, *entry);
                match s {
                    Some(s) => (r matches Some(m) && m.fn_name@ == s.fn_name && opt_view(m.user_id)
                        == s.user_id && opt_view(m.tenant_id) == s.tenant_id && m.status
                        == s.status),
                    None => r is None,
                }
            }),
    {
        proof {
            self.view_facts();
        }
        let b = match self.find_entry(entry) {
            Some(i) => &self.slots[i].buf,
            None => match self.find_detached(entry) {
                Some(j) => &self.detached[j].buf,
                None => {
                    return None;
                },
            },
        };
        Some(
            StreamMeta {
                fn_name: b.fn_name.clone(),
                user_id: clone_opt_string(&b.user_id),
                tenant_id: clone_opt_string(&b.tenant_id),
                status: b.status,
            },
        )
    }

    /// The lowest seq still served from the stream a handle reaches.
    pub fn oldest_seq(&self, entry: &StreamEntry) -> (r: Option<u64>)
        requires
            self.wf(),
        ensures
            ({
                match reached(self@, *entry) {
                    Some(s) => r == Some(s.oldest_seq),
                    None => r is None,
                }
            }),
    {
        proof {
            self.view_facts();
        }
        match self.find_entry(entry) {
            Some(i) => Some(self.slots[i].buf.oldest_seq),
            None => match self.find_detached(entry) {
                Some(j) => Some(self.detached[j].buf.oldest_seq),
                None => None,
            },
        }
    }

    /// The frames past `after_seq` at `now`, and whether more can come. A
    /// handle that reaches no buffer gets `Ended`.
    pub fn wait_frames_at(&mut self, now: u64, entry: &StreamEntry, after_seq: u64) -> (r:
        WaitOutcome)
        requires
            old(self).wf(),
        ensures
            final(self).wf(),
            wait_outcome(old(self)@, *entry, after_seq, now, r, final(self)@),
    {
        let ghost h = self@;
        proof {
            self.view_facts();
        }
        let (mut slot, at, held) = match self.find_entry(entry) {
            Some(i) => (self.slots.remove(i), i, true),
            None => match self.find_detached(entry) {
                Some(j) => (self.detached.remove(j), j, false),
                None => {
                    return WaitOutcome::Ended;
                },
            },
        };
        proof {
            if held {
                assert(slot.view() == h.slots[at as int]);
            } else {
                assert(slot.view() == h.detached[at as int]);
            }
        }
        slot.buf.last_read_at = now;
        let ghost ns = slot.view();
        let oldest = slot.buf.oldest_seq;
        let outcome = if after_seq < oldest - 1 {
            WaitOutcome::Gone(oldest)
        } else {
            let fresh = collect_after(&slot.buf.frames, after_seq);
            if fresh.len() > 0 {
                WaitOutcome::Frames(fresh, slot.buf.status != StreamStatus::Live)
            } else if slot.buf.status != StreamStatus::Live {
                WaitOutcome::Ended
            } else {
                WaitOutcome::Heartbeat
            }
        };
        if held {
            self.slots.insert(at, slot);
            proof {
                self.lemma_reinsert(h, at as int, ns);
                lemma_hub_update(h, at as int, ns);
                assert(ns.bytes == h.slots[at as int].bytes);
            }
        } else {
            self.detached.insert(at, slot);
            proof {
                self.lemma_reinsert_detached(h, at as int, ns);
                lemma_detached_update(h, at as int, ns, h.extra);
            }
        }
        outcome
    }

    /// The frames past `after_seq`, now.
    pub fn wait_frames(&mut self, entry: &StreamEntry, after_seq: u64) -> (r: WaitOutcome)
        requires
            old(self).wf(),
        ensures
            final(self).wf(),
            exists|now: u64| #[trigger] wait_outcome(old(self)@, *entry, after_seq, now, r, final(self)@),
    {
        let now = self.now();
        self.wait_frames_at(now, entry, after_seq)
    }

    proof fn lemma_reinsert_detached(&self, old_view: HubView, j: int, s: SlotView)
        requires
            self.detached@.len() == old_view.detached.len(),
            0 <= j < old_view.detached.len(),
            self.detached@[j].view() == s,
            forall|k: int|
                0 <= k < old_view.detached.len() && k != j ==> #[trigger] self.detached@[k].view()
                    == old_view.detached[k],
        ensures
            self.detached@.map_values(|x: StreamSlot| x.view()) == old_view.detached.update(j, s),
    {
        assert(self.detached@.map_values(|x: StreamSlot| x.view()) =~= old_view.detached.update(j, s));
    }
}

// ---------------------------------------------------------------------------
// What a handle does
// ---------------------------------------------------------------------------

/// The stream a handle reaches: the one in the hub with its id and serial,
/// else the detached one.
pub open spec fn reached(h: HubView, e: StreamEntry) -> Option<SlotView> {
    let i = index_of_entry(h.slots, e);
    let j = detached_index(h.detached, e);
    if i >= 0 {
        Some(h.slots[i])
    } else if j >= 0 {
        Some(h.detached[j])
    } else {
        None
    }
}

/// What the total counts beyond the held streams after a frame of `cost`
/// went into a detached stream whose bytes went from `before` to `after`:
/// the frame, less what the cap dropped (never below nothing).
pub open spec fn extra_after(extra: nat, cost: nat, before: nat, after: nat) -> nat {
    let evicted = before + cost - after;
    if extra + cost >= evicted {
        (extra + cost - evicted) as nat
    } else {
        0
    }
}

/// Whether one more frame of this cost fits the counters of the detached
/// stream at `j` and of the hub.
pub open spec fn detached_fits(h: HubView, j: int, cost: nat) -> bool {
    &&& h.detached[j].next_seq < u64::MAX
    &&& h.total_bytes + cost <= usize::MAX
    &&& h.detached[j].bytes + cost <= usize::MAX
}

/// What appending a frame through handle `e` does: the frame goes into the
/// stream the handle reaches, numbered with its next seq, unless a counter
/// would overflow (then nothing, and 0).
pub open spec fn append_outcome(
    h: HubView,
    e: StreamEntry,
    event: Option<Seq<char>>,
    data: Seq<char>,
    seq: u64,
    f: HubView,
) -> bool {
    let i = index_of_entry(h.slots, e);
    let j = detached_index(h.detached, e);
    let cost = frame_cost(event, data);
    if i >= 0 && append_fits(h, i, cost) {
        &&& seq == h.slots[i].next_seq
        &&& seq >= 1
        &&& f == with_slot(h, i, appended(h.slots[i], event, data, h.max_bytes_per_stream))
    } else if i < 0 && j >= 0 && detached_fits(h, j, cost) {
        let ns = appended(h.detached[j], event, data, h.max_bytes_per_stream);
        &&& seq == h.detached[j].next_seq
        &&& seq >= 1
        &&& f == with_detached(h, j, ns, extra_after(h.extra, cost, h.detached[j].bytes, ns.bytes))
    } else {
        seq == 0 && f == h
    }
}

/// What recording a terminal outcome through handle `e` at `now` does: the
/// first outcome of the stream the handle reaches wins.
pub open spec fn finish_outcome(
    h: HubView,
    e: StreamEntry,
    status: StreamStatus,
    event: Seq<char>,
    data: Seq<char>,
    now: u64,
    f: HubView,
) -> bool {
    let i = index_of_entry(h.slots, e);
    let j = detached_index(h.detached, e);
    let cost = frame_cost(Some(event), data);
    if i >= 0 && h.slots[i].status == StreamStatus::Live && append_fits(h, i, cost) {
        f == with_slot(h, i, finished(h.slots[i], status, event, data, h.max_bytes_per_stream, now))
    } else if i < 0 && j >= 0 && h.detached[j].status == StreamStatus::Live && detached_fits(
        h,
        j,
        cost,
    ) {
        let ns = finished(h.detached[j], status, event, data, h.max_bytes_per_stream, now);
        f == with_detached(h, j, ns, extra_after(h.extra, cost, h.detached[j].bytes, ns.bytes))
    } else {
        f == h
    }
}

/// What a look past `after_seq` through handle `e` at `now` answers, and
/// the hub after it (the stream marked read at `now`).
pub open spec fn wait_outcome(
    h: HubView,
    e: StreamEntry,
    after_seq: u64,
    now: u64,
    r: WaitOutcome,
    f: HubView,
) -> bool {
    let i = index_of_entry(h.slots, e);
    let j = detached_index(h.detached, e);
    if i >= 0 {
        &&& wait_answer(h.slots[i], after_seq, r)
        &&& f == with_slot(h, i, SlotView { last_read_at: now, ..h.slots[i] })
    } else if j >= 0 {
        &&& wait_answer(h.detached[j], after_seq, r)
        &&& f == with_detached(h, j, SlotView { last_read_at: now, ..h.detached[j] }, h.extra)
    } else {
        r is Ended && f == h
    }
}

proof fn lemma_no_fit(h: HubView, e: StreamEntry, cost: nat)
    requires
        hub_wf(h),
        cost > usize::MAX,
    ensures
        index_of_entry(h.slots, e) >= 0 ==> !append_fits(h, index_of_entry(h.slots, e), cost),
        detached_index(h.detached, e) >= 0 ==> !detached_fits(h, detached_index(h.detached, e), cost),
{
}

proof fn lemma_detached_update(h: HubView, j: int, s: SlotView, extra: nat)
    requires
        hub_wf(h),
        0 <= j < h.detached.len(),
        slot_wf(s),
        s.handles > 0,
    ensures
        hub_wf(with_detached(h, j, s, extra)),
{
    let u = h.detached.update(j, s);
    assert forall|a: int| 0 <= a < u.len() implies slot_wf(#[trigger] u[a]) && u[a].handles > 0 by {
        if a != j {
            assert(u[a] == h.detached[a]);
        }
    }
}

/// What creating stream `id` at `now` does to hub `h`, with result `r` and
/// final hub `f`.
pub open spec fn create_outcome(
    h: HubView,
    now: u64,
    id: Seq<char>,
    fn_name: Seq<char>,
    user_id: Option<Seq<char>>,
    tenant_id: Option<Seq<char>>,
    r: Option<StreamEntry>,
    f: HubView,
) -> bool {
    let (h2, ok) = room_made(h, now);
    if !ok || h.next_serial == u64::MAX {
        r is None && f == h2
    } else {
        let h3 = replaced(h2, id);
        &&& r matches Some(e) && e.id@ == id && e.serial == h.next_serial
        &&& f == HubView {
            slots: h3.slots.push(new_slot(id, h.next_serial, fn_name, user_id, tenant_id, now)),
            next_serial: (h.next_serial + 1) as u64,
            ..h3
        }
    }
}

impl StreamHub {
    fn oldest_evictable_index(&self, now: u64) -> (r: Option<usize>)
        requires
            self.wf(),
        ensures
            r matches Some(i) ==> is_oldest_evictable(self@.slots, i as int, now, self@.eviction_grace_ms),
            r is None ==> !has_evictable(self@.slots, now, self@.eviction_grace_ms),
    {
        proof {
            self.view_facts();
        }
        let ghost sl = self@.slots;
        let grace = self.eviction_grace_ms;
        let mut best: Option<usize> = None;
        let mut best_done: u64 = 0;
        let mut k: usize = 0;
        while k < self.slots.len()
            invariant
                self.wf(),
                sl == self@.slots,
                grace == self@.eviction_grace_ms,
                k <= sl.len(),
                best matches Some(b) ==> b < k && evictable(sl[b as int], now, grace)
                    && sl[b as int].completed_at == Some(best_done) && forall|j: int|
                    0 <= j < k && #[trigger] evictable(sl[j], now, grace) ==> {
                        let dj = sl[j].completed_at->0;
                        best_done < dj || (best_done == dj && b <= j)
                    },
                best is None ==> forall|j: int| 0 <= j < k ==> !#[trigger] evictable(sl[j], now, grace),
            decreases sl.len() - k,
        {
            proof {
                self.view_facts();
            }
            let b = &self.slots[k].buf;
            if b.status != StreamStatus::Live {
                if let Some(done) = b.completed_at {
                    if now.saturating_sub(done) >= grace {
                        match best {
                            None => {
                                best = Some(k);
                                best_done = done;
                            },
                            Some(_) => {
                                if done < best_done {
                                    best = Some(k);
                                    best_done = done;
                                }
                            },
                        }
                    }
                }
            }
            k += 1;
        }
        best
    }

    /// Evict whole terminal streams (oldest-completed first, outside the
    /// grace window) while the total is at or over the budget, at `now`.
    pub fn enforce_global_budget_at(&mut self, now: u64)
        requires
            old(self).wf(),
        ensures
            final(self).wf(),
            final(self)@ == budget_evicted_hub(old(self)@, now),
    {
        let ghost h = self@;
        let ghost g = h.eviction_grace_ms;
        let ghost m = h.max_total_bytes;
        let ghost target = budget_evict(h.slots, now, g, m, h.extra);
        let ghost all_removed = budget_removed(h.slots, now, g, m, h.extra);
        let ghost mut removed: Seq<SlotView> = Seq::empty();
        proof {
            assert(park_all(h.detached, removed) == h.detached);
            assert(self@ =~= with_slots(h, h.slots, removed));
            assert(all_removed =~= removed + all_removed);
        }
        let mut stuck = false;
        while !stuck && self.total_bytes >= self.max_total_bytes
            invariant
                self.wf(),
                g == h.eviction_grace_ms,
                m == h.max_total_bytes,
                self.max_total_bytes == m,
                budget_evict(self@.slots, now, g, m, h.extra) == target,
                all_removed == removed + budget_removed(self@.slots, now, g, m, h.extra),
                self@ == with_slots(h, self@.slots, removed),
                stuck ==> !has_evictable(self@.slots, now, g),
            decreases self.slots@.len(), if stuck { 0int } else { 1int },
        {
            match self.oldest_evictable_index(now) {
                Some(i) => {
                    proof {
                        lemma_oldest_choose(self@.slots, i as int, now, g);
                        self.view_facts();
                    }
                    let ghost before = self@;
                    let ghost sl = before.slots;
                    self.remove_at(i);
                    proof {
                        lemma_without_slot_of_with_slots(h, sl, removed, i as int);
                        assert(budget_removed(sl, now, g, m, h.extra) == seq![sl[i as int]]
                            + budget_removed(sl.remove(i as int), now, g, m, h.extra));
                        assert(all_removed =~= removed.push(sl[i as int]) + budget_removed(
                            sl.remove(i as int),
                            now,
                            g,
                            m,
                            h.extra,
                        ));
                        removed = removed.push(sl[i as int]);
                    }
                },
                None => {
                    stuck = true;
                },
            }
        }
        proof {
            assert(budget_removed(self@.slots, now, g, m, h.extra) =~= Seq::<SlotView>::empty());
            assert(all_removed =~= removed);
        }
    }

    /// Enforce the total budget now.
    pub fn enforce_global_budget(&mut self)
        requires
            old(self).wf(),
        ensures
            final(self).wf(),
            exists|now: u64| final(self)@ == #[trigger] budget_evicted_hub(old(self)@, now),
    {
        let now = self.now();
        self.enforce_global_budget_at(now);
    }

    fn keeps(&self, i: usize, now: u64) -> (b: bool)
        requires
            self.wf(),
            i < self@.slots.len(),
        ensures
            b == kept_by_cleanup(self@.slots[i as int], now, self@.retain_ms),
    {
        proof {
            self.view_facts();
        }
        let b = &self.slots[i].buf;
        if b.status == StreamStatus::Live {
            let last = if b.last_read_at >= b.created_at {
                b.last_read_at
            } else {
                b.created_at
            };
            now.saturating_sub(last) < ms_of_secs(ABANDONED_LIVE_SECS)
        } else {
            match b.completed_at {
                Some(done) => now.saturating_sub(done) < self.retain_ms,
                None => true,
            }
        }
    }

    /// Drop completed streams past retention, and live streams abandoned
    /// (no reads, no writes) for a day, at `now`. Returns the number
    /// removed.
    pub fn cleanup_expired_at(&mut self, now: u64) -> (n: usize)
        requires
            old(self).wf(),
        ensures
            final(self).wf(),
            final(self)@ == cleaned_hub(old(self)@, now),
            n == old(self)@.slots.len() - final(self)@.slots.len(),
    {
        let ghost h = self@;
        let ghost orig = h.slots;
        let ghost pred = |s: SlotView| kept_by_cleanup(s, now, h.retain_ms);
        let ghost npred = |s: SlotView| !kept_by_cleanup(s, now, h.retain_ms);
        let n0 = self.slots.len();
        let mut i: usize = 0;
        let ghost mut j: int = 0;
        proof {
            reveal(Seq::filter);
            assert(orig.take(0) =~= Seq::<SlotView>::empty());
            assert(self@.slots =~= orig.take(0).filter(pred) + orig.skip(0));
            assert(orig.take(0).filter(npred) =~= Seq::<SlotView>::empty());
            assert(self@ =~= with_slots(h, self@.slots, orig.take(0).filter(npred)));
        }
        while i < self.slots.len()
            invariant
                self.wf(),
                self@ == with_slots(h, self@.slots, orig.take(j).filter(npred)),
                pred == (|s: SlotView| kept_by_cleanup(s, now, h.retain_ms)),
                npred == (|s: SlotView| !kept_by_cleanup(s, now, h.retain_ms)),
                0 <= j <= orig.len(),
                self@.slots == orig.take(j).filter(pred) + orig.skip(j),
                i == orig.take(j).filter(pred).len(),
                n0 == orig.len(),
            decreases self.slots@.len() - i,
        {
            proof {
                reveal(Seq::filter);
                orig.take(j).lemma_filter_len(pred);
                assert(orig.take(j + 1).drop_last() =~= orig.take(j));
                assert(orig.take(j + 1).last() == orig[j]);
                assert(self@.slots[i as int] == orig[j]);
            }
            let ghost before = self@.slots;
            if self.keeps(i, now) {
                proof {
                    assert(orig.take(j + 1).filter(pred) == orig.take(j).filter(pred).push(orig[j]));
                    assert(orig.take(j + 1).filter(npred) == orig.take(j).filter(npred));
                    assert(self@.slots =~= orig.take(j + 1).filter(pred) + orig.skip(j + 1));
                }
                i += 1;
            } else {
                self.remove_at(i);
                proof {
                    lemma_without_slot_of_with_slots(h, before, orig.take(j).filter(npred), i as int);
                    assert(orig.take(j + 1).filter(pred) == orig.take(j).filter(pred));
                    assert(orig.take(j + 1).filter(npred) == orig.take(j).filter(npred).push(orig[j]));
                    assert(self@.slots =~= orig.take(j + 1).filter(pred) + orig.skip(j + 1));
                }
            }
            proof {
                j = j + 1;
            }
        }
        proof {
            orig.take(j).lemma_filter_len(pred);
            assert(j == orig.len());
            assert(orig.take(j) =~= orig);
            assert(orig.skip(j) =~= Seq::<SlotView>::empty());
            assert(self@.slots =~= orig.filter(pred));
            orig.lemma_filter_len(pred);
        }
        n0 - self.slots.len()
    }

    /// Cleanup now.
    pub fn cleanup_expired(&mut self) -> (n: usize)
        requires
            old(self).wf(),
        ensures
            final(self).wf(),
            exists|now: u64| final(self)@ == #[trigger] cleaned_hub(old(self)@, now),
            n == old(self)@.slots.len() - final(self)@.slots.len(),
    {
        let now = self.now();
        self.cleanup_expired_at(now)
    }
}


proof fn lemma_without_id(slots: Seq<SlotView>, id: Seq<char>, bound: u64)
    requires
        ids_unique(slots),
        forall|k: int| 0 <= k < slots.len() ==> slot_wf(#[trigger] slots[k]) && slots[k].serial < bound,
    ensures
        ids_unique(without_id(slots, id)),
        forall|k: int| 0 <= k < without_id(slots, id).len() ==> #[trigger] without_id(slots, id)[k].id != id,
        forall|k: int|
            0 <= k < without_id(slots, id).len() ==> slot_wf(#[trigger] without_id(slots, id)[k])
                && without_id(slots, id)[k].serial < bound,
        slots_bytes(without_id(slots, id)) <= slots_bytes(slots),
{
    let i = index_of(slots, id);
    let w = without_id(slots, id);
    if 0 <= i {
        assert(0 <= i < slots.len() && slots[i].id == id);
        lemma_slots_bytes_remove(slots, i);
        assert forall|a: int, b: int| 0 <= a < w.len() && 0 <= b < w.len() && a != b implies #[trigger] w[a].id
            != #[trigger] w[b].id by {
            let a0 = if a < i { a } else { a + 1 };
            let b0 = if b < i { b } else { b + 1 };
            assert(w[a] == slots[a0]);
            assert(w[b] == slots[b0]);
        }
        assert forall|k: int| 0 <= k < w.len() implies #[trigger] w[k].id != id && slot_wf(w[k]) && w[k].serial < bound by {
            let k0 = if k < i { k } else { k + 1 };
            assert(w[k] == slots[k0]);
        }
    } else {
        assert(!exists|j: int| 0 <= j < slots.len() && #[trigger] slots[j].id == id);
        assert forall|k: int| 0 <= k < w.len() implies #[trigger] w[k].id != id by {
            assert(w[k] == slots[k]);
        }
    }
}

/// The hub after making room for one more stream at `now`, and whether
/// room was made: when the total is at or over the budget, the evictable
/// streams go, oldest first, until it is under; then, when the hub is at
/// its stream cap, the oldest evictable stream goes.
pub open spec fn room_made(h: HubView, now: u64) -> (HubView, bool) {
    let h1 = if h.total_bytes >= h.max_total_bytes {
        budget_evicted_hub(h, now)
    } else {
        h
    };
    if h1.total_bytes >= h.max_total_bytes {
        (h1, false)
    } else if h1.slots.len() >= h.max_streams {
        if has_evictable(h1.slots, now, h.eviction_grace_ms) {
            (without_slot(h1, oldest_evictable(h1.slots, now, h.eviction_grace_ms)), true)
        } else {
            (h1, false)
        }
    } else {
        (h1, true)
    }
}

impl StreamHub {
    fn make_room(&mut self, now: u64) -> (ok: bool)
        requires
            old(self).wf(),
        ensures
            final(self).wf(),
            final(self)@ == room_made(old(self)@, now).0,
            ok == room_made(old(self)@, now).1,
    {
        let ghost h = self@;
        if self.total_bytes >= self.max_total_bytes {
            self.enforce_global_budget_at(now);
            if self.total_bytes >= self.max_total_bytes {
                return false;
            }
        }
        if self.slots.len() >= self.max_streams {
            match self.oldest_evictable_index(now) {
                Some(i) => {
                    proof {
                        lemma_oldest_choose(self@.slots, i as int, now, h.eviction_grace_ms);
                    }
                    self.remove_at(i);
                },
                None => return false,
            }
        }
        true
    }

    /// The stream under `id`, when there is one, leaves the hub as a
    /// replaced stream (see [`replaced`]).
    fn replace_id(&mut self, id: &str)
        requires
            old(self).wf(),
        ensures
            final(self).wf(),
            final(self)@ == replaced(old(self)@, id@),
    {
        let ghost h = self@;
        if let Some(i) = self.find(id) {
            proof {
                self.view_facts();
                lemma_slots_bytes_bound(h.slots, i as int);
                lemma_hub_remove(h, i as int);
                lemma_slots_bytes_remove(h.slots, i as int);
            }
            let slot = self.slots.remove(i);
            self.extra = self.extra + slot.buf.bytes;
            if slot.handles > 0 {
                self.detached.push(slot);
            }
            proof {
                assert(self@.slots =~= h.slots.remove(i as int));
                assert(self@.detached =~= park(h.detached, h.slots[i as int]));
            }
        }
    }

    fn insert_new(
        &mut self,
        now: u64,
        stream_id: String,
        fn_name: &str,
        user_id: Option<&str>,
        tenant_id: Option<&str>,
    ) -> (e: StreamEntry)
        requires
            old(self).wf(),
            old(self)@.next_serial < u64::MAX,
        ensures
            final(self).wf(),
            e.id@ == stream_id@,
            e.serial == old(self)@.next_serial,
            ({
                let h = old(self)@;
                let h3 = replaced(h, stream_id@);
                final(self)@ == HubView {
                    slots: h3.slots.push(
                        new_slot(
                            stream_id@,
                            h.next_serial,
                            fn_name@,
                            opt_str_view(user_id),
                            opt_str_view(tenant_id),
                            now,
                        ),
                    ),
                    next_serial: (h.next_serial + 1) as u64,
                    ..h3
                }
            }),
    {
        let ghost h = self@;
        self.replace_id(stream_id.as_str());
        let ghost h3 = self@;
        let ghost s3 = self@.slots;
        proof {
            lemma_without_id(h.slots, stream_id@, h.next_serial);
            assert(s3 == without_id(h.slots, stream_id@));
        }
        let serial = self.next_serial;
        let entry = StreamEntry { id: stream_id.clone(), serial };
        let slot = StreamSlot {
            id: stream_id,
            serial,
            handles: 1,
            buf: StreamBuf {
                frames: Vec::new(),
                next_seq: 1,
                oldest_seq: 1,
                bytes: 0,
                status: StreamStatus::Live,
                fn_name: fn_name.to_owned(),
                user_id: to_opt_string(user_id),
                tenant_id: to_opt_string(tenant_id),
                created_at: now,
                completed_at: None,
                last_read_at: now,
            },
        };
        let ghost ns = slot.view();
        proof {
            assert(ns.frames =~= Seq::<FrameView>::empty());
            assert(frames_cost(ns.frames) == 0);
        }
        self.slots.push(slot);
        self.next_serial = serial + 1;
        proof {
            self.view_facts();
            assert(self@.slots =~= s3.push(ns));
            lemma_slots_bytes_push(s3, ns);
            let sl = self@.slots;
            assert forall|a: int, b: int| 0 <= a < sl.len() && 0 <= b < sl.len() && a != b implies #[trigger] sl[a].id
                != #[trigger] sl[b].id by {
                if a < s3.len() && b < s3.len() {
                    assert(sl[a] == s3[a] && sl[b] == s3[b]);
                } else if a < s3.len() {
                    assert(sl[a] == s3[a] && sl[b] == ns);
                } else {
                    assert(sl[b] == s3[b] && sl[a] == ns);
                }
            }
            assert forall|a: int| 0 <= a < sl.len() implies slot_wf(#[trigger] sl[a]) && sl[a].serial
                < self@.next_serial by {
                if a < s3.len() {
                    assert(sl[a] == s3[a]);
                }
            }
        }
        entry
    }

    /// Register a new stream at `now`. `None` when the total budget is
    /// spent after evicting what may be evicted, or the hub is at its stream
    /// cap and nothing is evictable: the caller then serves the call
    /// unbuffered. A stream already under `stream_id` is replaced.
    pub fn create_at(
        &mut self,
        now: u64,
        stream_id: String,
        fn_name: &str,
        user_id: Option<&str>,
        tenant_id: Option<&str>,
    ) -> (r: Option<StreamEntry>)
        requires
            old(self).wf(),
        ensures
            final(self).wf(),
            create_outcome(
                old(self)@,
                now,
                stream_id@,
                fn_name@,
                opt_str_view(user_id),
                opt_str_view(tenant_id),
                r,
                final(self)@,
            ),
    {
        let ghost h = self@;
        if !self.make_room(now) {
            return None;
        }
        if self.next_serial == u64::MAX {
            return None;
        }
        let e = self.insert_new(now, stream_id, fn_name, user_id, tenant_id);
        Some(e)
    }

    /// Register a new stream now (see [`StreamHub::create_at`]).
    pub fn create(
        &mut self,
        stream_id: String,
        fn_name: &str,
        user_id: Option<&str>,
        tenant_id: Option<&str>,
    ) -> (r: Option<StreamEntry>)
        requires
            old(self).wf(),
        ensures
            final(self).wf(),
            exists|now: u64|
                #[trigger] create_outcome(
                    old(self)@,
                    now,
                    stream_id@,
                    fn_name@,
                    opt_str_view(user_id),
                    opt_str_view(tenant_id),
                    r,
                    final(self)@,
                ),
    {
        let now = self.now();
        self.create_at(now, stream_id, fn_name, user_id, tenant_id)
    }
}


pub open spec fn str_opt(v: Option<&str>) -> Option<Seq<char>> {
    match v {
        Some(s) => Some(s@),
        None => None,
    }
}

/// A positive `usize` setting, or `default` when it is unset, unparsable,
/// zero, or too large.
pub open spec fn usize_setting(v: Option<&str>, default: usize) -> nat {
    match setting_value(str_opt(v)) {
        Some(n) => if n <= usize::MAX {
            n as nat
        } else {
            default as nat
        },
        None => default as nat,
    }
}

fn usize_setting_of(v: Option<&str>, default: usize) -> (r: usize)
    ensures
        r == usize_setting(v, default),
{
    match setting(v) {
        Some(n) => if n <= usize::MAX as u64 {
            n as usize
        } else {
            default
        },
        None => default,
    }
}

impl StreamHub {
    /// A hub configured from its settings (the raw values of
    /// `PYLON_STREAM_BUFFER_MAX_BYTES`, `PYLON_STREAM_RETAIN_SECS`,
    /// `PYLON_STREAM_MAX` and `PYLON_STREAM_TOTAL_MAX_BYTES`): each a positive
    /// number, else its default.
    pub fn from_env(
        buffer_max_bytes: Option<&str>,
        retain_secs: Option<&str>,
        max_streams: Option<&str>,
        total_max_bytes: Option<&str>,
    ) -> (h: Self)
        ensures
            h.wf(),
            h@.slots.len() == 0,
            h@.total_bytes == 0,
            h@.next_serial == 0,
            h@.detached.len() == 0,
            h@.extra == 0,
            h@.max_bytes_per_stream == usize_setting(buffer_max_bytes, DEFAULT_MAX_BYTES_PER_STREAM),
            h@.retain_ms == secs_to_ms(
                match setting_value(str_opt(retain_secs)) {
                    Some(n) => n,
                    None => DEFAULT_RETAIN_SECS,
                },
            ),
            h@.max_streams == usize_setting(max_streams, DEFAULT_MAX_STREAMS),
            h@.max_total_bytes == usize_setting(total_max_bytes, DEFAULT_MAX_TOTAL_BYTES),
            h@.eviction_grace_ms == secs_to_ms(EVICTION_GRACE_SECS),
    {
        let retain = match setting(retain_secs) {
            Some(n) => n,
            None => DEFAULT_RETAIN_SECS,
        };
        Self::with_limits(
            usize_setting_of(buffer_max_bytes, DEFAULT_MAX_BYTES_PER_STREAM),
            ms_of_secs(retain),
            usize_setting_of(max_streams, DEFAULT_MAX_STREAMS),
            usize_setting_of(total_max_bytes, DEFAULT_MAX_TOTAL_BYTES),
            ms_of_secs(EVICTION_GRACE_SECS),
        )
    }
}


// ---------------------------------------------------------------------------
// Laws
// ---------------------------------------------------------------------------

/// Where the frames past `after_seq` start in a run numbered from `from`.
pub open spec fn replay_start(from: int, len: int, after_seq: u64) -> int {
    let k = after_seq + 1 - from;
    if k < 0 {
        0
    } else if k > len {
        len
    } else {
        k
    }
}

proof fn lemma_filter_consecutive(frames: Seq<FrameView>, from: int, after_seq: u64)
    requires
        consecutive_from(frames, from),
    ensures
        frames_after(frames, after_seq) =~= frames.subrange(
            replay_start(from, frames.len() as int, after_seq),
            frames.len() as int,
        ),
    decreases frames.len(),
{
    reveal(Seq::filter);
    if frames.len() > 0 {
        let d = frames.drop_last();
        assert(consecutive_from(d, from)) by {
            assert forall|k: int| 0 <= k < d.len() implies #[trigger] d[k].seq == from + k by {
                assert(d[k] == frames[k]);
            }
        }
        lemma_filter_consecutive(d, from, after_seq);
        assert(frames.last().seq == from + frames.len() - 1);
    }
}

/// Appending numbers the frame with the stream's next seq, advances the
/// next seq by one, keeps the new frame as the newest, and leaves the
/// buffer within its cap unless the new frame alone exceeds it.
pub proof fn law_append_numbers_and_caps(
    s: SlotView,
    event: Option<Seq<char>>,
    data: Seq<char>,
    cap: nat,
)
    requires
        slot_wf(s),
        s.next_seq < u64::MAX,
    ensures
        slot_wf(appended(s, event, data, cap)),
        appended(s, event, data, cap).next_seq == s.next_seq + 1,
        appended(s, event, data, cap).frames.last() == (FrameView { seq: s.next_seq, event, data }),
        appended(s, event, data, cap).bytes <= cap || appended(s, event, data, cap).frames.len()
            == 1,
        appended(s, event, data, cap).status == s.status,
{
    let f = FrameView { seq: s.next_seq, event, data };
    let p = s.frames.push(f);
    assert(consecutive_from(p, s.oldest_seq as int)) by {
        assert forall|k: int| 0 <= k < p.len() implies #[trigger] p[k].seq == s.oldest_seq + k by {
            if k < s.frames.len() {
                assert(p[k] == s.frames[k]);
            }
        }
    }
    lemma_trim_shape(p, cap, s.oldest_seq as int);
    lemma_trim_capped(p, cap);
    let t = trim_to_cap(p, cap);
    assert(t.last() == p.last());
}

proof fn lemma_trim_capped(frames: Seq<FrameView>, cap: nat)
    requires
        frames.len() >= 1,
    ensures
        frames_cost(trim_to_cap(frames, cap)) <= cap || trim_to_cap(frames, cap).len() == 1,
    decreases frames.len(),
{
    if frames.len() > 1 && frames_cost(frames) > cap {
        lemma_trim_capped(frames.drop_first(), cap);
    }
}

/// The first terminal outcome wins: finishing a finished stream again
/// changes nothing.
pub proof fn law_first_outcome_wins(
    s: SlotView,
    first: StreamStatus,
    e1: Seq<char>,
    d1: Seq<char>,
    t1: u64,
    second: StreamStatus,
    e2: Seq<char>,
    d2: Seq<char>,
    t2: u64,
    cap: nat,
)
    requires
        first != StreamStatus::Live,
    ensures
        finished(finished(s, first, e1, d1, cap, t1), second, e2, d2, cap, t2) == finished(
            s,
            first,
            e1,
            d1,
            cap,
            t1,
        ),
{
}

/// A resume is lossless and contiguous: the frames past a cursor within the
/// retained window are the buffered run from the cursor on, numbered
/// `max(cursor + 1, oldest)` upward, and the last of them is the newest
/// frame the stream has.
pub proof fn law_replay_is_contiguous(s: SlotView, after_seq: u64)
    requires
        slot_wf(s),
        !(after_seq + 1 < s.oldest_seq),
    ensures
        frames_after(s.frames, after_seq) == s.frames.subrange(
            replay_start(s.oldest_seq as int, s.frames.len() as int, after_seq),
            s.frames.len() as int,
        ),
        frames_after(s.frames, after_seq).len() > 0 ==> frames_after(s.frames, after_seq)[0].seq
            == after_seq + 1 && frames_after(s.frames, after_seq).last().seq + 1 == s.next_seq,
        frames_after(s.frames, after_seq).len() == 0 ==> after_seq + 1 >= s.next_seq,
{
    lemma_filter_consecutive(s.frames, s.oldest_seq as int, after_seq);
}

/// Removing a stream frees exactly its bytes from the total budget.
pub proof fn law_removal_frees_its_bytes(h: HubView, i: int)
    requires
        hub_wf(h),
        0 <= i < h.slots.len(),
    ensures
        hub_wf(without_slot(h, i)),
        without_slot(h, i).total_bytes == h.total_bytes - h.slots[i].bytes,
{
    lemma_hub_remove(h, i);
}

proof fn lemma_oldest_exists(slots: Seq<SlotView>, now: u64, grace: u64)
    requires
        has_evictable(slots, now, grace),
    ensures
        is_oldest_evictable(slots, oldest_evictable(slots, now, grace), now, grace),
    decreases slots.len(),
{
    let n = slots.len() - 1;
    let d = slots.drop_last();
    if has_evictable(d, now, grace) {
        lemma_oldest_exists(d, now, grace);
        let k = oldest_evictable(d, now, grace);
        assert(d[k] == slots[k]);
        if evictable(slots[n], now, grace) && slots[n].completed_at->0 < slots[k].completed_at->0 {
            assert forall|j: int| 0 <= j < slots.len() && #[trigger] evictable(slots[j], now, grace) implies {
                let di = slots[n].completed_at->0;
                let dj = slots[j].completed_at->0;
                di < dj || (di == dj && n <= j)
            } by {
                if j < n {
                    assert(d[j] == slots[j]);
                    assert(evictable(d[j], now, grace));
                }
            }
            assert(is_oldest_evictable(slots, n, now, grace));
        } else {
            assert forall|j: int| 0 <= j < slots.len() && #[trigger] evictable(slots[j], now, grace) implies {
                let di = slots[k].completed_at->0;
                let dj = slots[j].completed_at->0;
                di < dj || (di == dj && k <= j)
            } by {
                if j < n {
                    assert(d[j] == slots[j]);
                    assert(evictable(d[j], now, grace));
                }
            }
            assert(is_oldest_evictable(slots, k, now, grace));
        }
    } else {
        let w = choose|j: int| 0 <= j < slots.len() && #[trigger] evictable(slots[j], now, grace);
        if w < n {
            assert(d[w] == slots[w]);
            assert(evictable(d[w], now, grace));
        }
        assert forall|j: int| 0 <= j < slots.len() && #[trigger] evictable(slots[j], now, grace) implies j
            == n by {
            if j < n {
                assert(d[j] == slots[j]);
                assert(evictable(d[j], now, grace));
            }
        }
        assert(is_oldest_evictable(slots, n, now, grace));
    }
}

/// Total-budget eviction removes only evictable streams (terminal, past
/// the grace), so live streams and fresh results survive it; and it stops
/// when the total (the streams' bytes and `extra`) is under the budget, or
/// when nothing evictable is left.
pub proof fn law_budget_eviction_spares_live_and_fresh(
    slots: Seq<SlotView>,
    now: u64,
    grace: u64,
    max: nat,
    extra: nat,
)
    ensures
        forall|j: int|
            0 <= j < slots.len() && !evictable(slots[j], now, grace) ==> #[trigger] budget_evict(
                slots,
                now,
                grace,
                max,
                extra,
            ).contains(slots[j]),
        forall|x: SlotView| #[trigger]
            budget_evict(slots, now, grace, max, extra).contains(x) ==> slots.contains(x),
        slots_bytes(budget_evict(slots, now, grace, max, extra)) + extra < max || !has_evictable(
            budget_evict(slots, now, grace, max, extra),
            now,
            grace,
        ),
    decreases slots.len(),
{
    if slots_bytes(slots) + extra < max || !has_evictable(slots, now, grace) {
    } else {
        lemma_oldest_exists(slots, now, grace);
        let i = oldest_evictable(slots, now, grace);
        if 0 <= i < slots.len() {
            let r = slots.remove(i);
            law_budget_eviction_spares_live_and_fresh(r, now, grace, max, extra);
            assert forall|j: int|
                0 <= j < slots.len() && !evictable(slots[j], now, grace) implies #[trigger] budget_evict(
                slots,
                now,
                grace,
                max,
                extra,
            ).contains(slots[j]) by {
                assert(j != i);
                let j0 = if j < i { j } else { j - 1 };
                assert(r[j0] == slots[j]);
            }
            assert forall|x: SlotView| #[trigger]
                budget_evict(slots, now, grace, max, extra).contains(x) implies slots.contains(x) by {
                assert(r.contains(x));
                let k = choose|k: int| 0 <= k < r.len() && r[k] == x;
                let k0 = if k < i { k } else { k + 1 };
                assert(slots[k0] == x);
            }
        }
    }
}

proof fn lemma_id_gone(slots: Seq<SlotView>, i: int)
    requires
        ids_unique(slots),
        0 <= i < slots.len(),
    ensures
        index_of(slots.remove(i), slots[i].id) == -1,
{
    let r = slots.remove(i);
    assert forall|k: int| 0 <= k < r.len() implies #[trigger] r[k].id != slots[i].id by {
        let k0 = if k < i { k } else { k + 1 };
        assert(r[k] == slots[k0]);
    }
}

/// A handle keeps working after its stream leaves the hub: when the stream
/// a held handle reaches is removed, or replaced by a new stream under its
/// id, the handle reaches the same buffer as before; and a replaced
/// stream's bytes stay in the total.
pub proof fn law_removed_stream_stays_reachable(h: HubView, e: StreamEntry)
    requires
        hub_wf(h),
        index_of_entry(h.slots, e) >= 0,
        h.slots[index_of_entry(h.slots, e)].handles > 0,
    ensures
        reached(h, e) is Some,
        reached(without_slot(h, index_of_entry(h.slots, e)), e) == reached(h, e),
        reached(replaced(h, e.id@), e) == reached(h, e),
        replaced(h, e.id@).total_bytes == h.total_bytes,
{
    let i = index_of_entry(h.slots, e);
    assert(h.slots[i].id == e.id@);
    lemma_id_gone(h.slots, i);
    let s = h.slots[i];
    let p = h.detached.push(s);
    assert(p.last() == s);
    assert(detached_index(p, e) == p.len() - 1);
}

} // verus!
