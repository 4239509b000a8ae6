//! The byte-level contract between a machine and a WebAssembly shard
//! module: the status codes its exports answer with, where call arguments
//! go in its scratch buffer, which output bytes the host may copy, and the
//! little-endian records that the interest and replication exports
//! exchange.
//!
//! Floating-point fields of those records are handed out as their raw
//! `u32` bits; the caller turns them into `f32` with `f32::from_bits`.

use vstd::prelude::*;

use vstd::arithmetic::div_mod::lemma_mod_breakdown;

use crate::percent::{string_from_utf8_lossy, utf8_lossy};
use crate::text::{push_str, signed_decimal, signed_decimal_string};

verus! {

/// The shard ABI this host speaks: a module answers `pylon_shard_abi`
/// with the one it speaks.
pub const ABI_VERSION: i32 = 1;

/// The export did what was asked.
pub const STATUS_OK: i32 = 0;

/// The export refused; its output holds why.
pub const STATUS_ERR: i32 = 1;

/// The subscriber's snapshot is the broadcast one.
pub const STATUS_SAME_AS_BROADCAST: i32 = 2;

/// The longest log line the host reads from a module, in bytes.
pub const MAX_LOG_LINE: usize = 2048;

// ---------------------------------------------------------------------------
// Little-endian numbers
// ---------------------------------------------------------------------------

/// `256` to the power `n`.
pub open spec fn pow256(n: nat) -> nat
    decreases n,
{
    if n == 0 {
        1
    } else {
        256 * pow256((n - 1) as nat)
    }
}

/// The `n` low bytes of `x`, least significant first.
pub open spec fn le_bytes(x: nat, n: nat) -> Seq<u8>
    decreases n,
{
    if n == 0 {
        Seq::empty()
    } else {
        seq![(x % 256) as u8] + le_bytes(x / 256, (n - 1) as nat)
    }
}

/// The number that bytes stand for, least significant first.
pub open spec fn le_value(b: Seq<u8>) -> nat
    decreases b.len(),
{
    if b.len() == 0 {
        0
    } else {
        b[0] as nat + 256 * le_value(b.drop_first())
    }
}

/// `le_bytes` gives as many bytes as asked for.
pub proof fn lemma_le_bytes_len(x: nat, n: nat)
    ensures
        le_bytes(x, n).len() == n,
    decreases n,
{
    if n > 0 {
        lemma_le_bytes_len(x / 256, (n - 1) as nat);
    }
}

/// A number of `n` bytes is below `256^n`.
pub proof fn lemma_le_value_bound(b: Seq<u8>)
    ensures
        le_value(b) < pow256(b.len()),
    decreases b.len(),
{
    if b.len() > 0 {
        lemma_le_value_bound(b.drop_first());
    }
}

/// Reading `n` written bytes gives the number back, modulo `256^n`.
pub proof fn lemma_le_round_trip(x: nat, n: nat)
    ensures
        le_value(le_bytes(x, n)) == x % pow256(n),
    decreases n,
{
    if n > 0 {
        lemma_le_round_trip(x / 256, (n - 1) as nat);
        let rest = le_bytes(x / 256, (n - 1) as nat);
        assert((seq![(x % 256) as u8] + rest).drop_first() =~= rest);
        assert(pow256((n - 1) as nat) > 0) by {
            lemma_pow256_positive((n - 1) as nat);
        }
        lemma_mod_breakdown(x as int, 256, pow256((n - 1) as nat) as int);
    }
}

proof fn lemma_pow256_positive(n: nat)
    ensures
        pow256(n) > 0,
    decreases n,
{
    if n > 0 {
        lemma_pow256_positive((n - 1) as nat);
    }
}

/// Eight bytes hold every `u64`; four hold every `u32`.
pub proof fn lemma_pow256_words()
    ensures
        pow256(4) == 0x1_0000_0000,
        pow256(8) == 0x1_0000_0000_0000_0000,
{
    reveal_with_fuel(pow256, 9);
}

/// Appends the `n` low bytes of `x`, least significant first.
fn push_le(out: &mut Vec<u8>, x: u64, n: usize)
    requires
        n <= 8,
    ensures
        final(out)@ == old(out)@ + le_bytes(x as nat, n as nat),
{
    let mut v: u64 = x;
    let mut k: usize = 0;
    while k < n
        invariant
            k <= n,
            out@ + le_bytes(v as nat, (n - k) as nat) == old(out)@ + le_bytes(x as nat, n as nat),
        decreases n - k,
    {
        let ghost before = out@;
        out.push((v % 256) as u8);
        proof {
            let rest = le_bytes((v / 256) as nat, (n - k - 1) as nat);
            assert(le_bytes(v as nat, (n - k) as nat) == seq![(v % 256) as u8] + rest);
            assert(before + (seq![(v % 256) as u8] + rest) =~= out@ + rest);
        }
        v = v / 256;
        k += 1;
    }
    proof {
        assert(le_bytes(v as nat, 0) =~= Seq::<u8>::empty());
        assert(out@ + Seq::<u8>::empty() =~= out@);
    }
}

/// The number that `n` bytes of `b` from `from` stand for.
fn read_le(b: &Vec<u8>, from: usize, n: usize) -> (v: u64)
    requires
        n <= 8,
        from + n <= b@.len(),
    ensures
        v == le_value(b@.subrange(from as int, from + n)),
{
    let mut acc: u64 = 0;
    let mut k: usize = n;
    proof {
        assert(b@.subrange(from + n, from + n) =~= Seq::<u8>::empty());
    }
    while k > 0
        invariant
            k <= n <= 8,
            from + n <= b.len(),
            acc == le_value(b@.subrange(from + k, from + n)),
        decreases k,
    {
        k -= 1;
        let ghost rest = b@.subrange(from + k + 1, from + n);
        proof {
            lemma_le_value_bound(rest);
            lemma_pow256_monotone(rest.len(), 7);
            lemma_pow256_words();
            reveal_with_fuel(pow256, 9);
            assert(b@.subrange(from + k, from + n).drop_first() =~= rest);
        }
        acc = acc * 256 + b[from + k] as u64;
    }
    acc
}

proof fn lemma_pow256_monotone(m: nat, n: nat)
    requires
        m <= n,
    ensures
        pow256(m) <= pow256(n),
    decreases n,
{
    if m < n {
        lemma_pow256_monotone(m, (n - 1) as nat);
        lemma_pow256_positive((n - 1) as nat);
    }
}

// ---------------------------------------------------------------------------
// Entity ids
// ---------------------------------------------------------------------------

/// Entity ids packed for a module: eight little-endian bytes each.
pub open spec fn ids_bytes(ids: Seq<u64>) -> Seq<u8>
    decreases ids.len(),
{
    if ids.len() == 0 {
        Seq::empty()
    } else {
        ids_bytes(ids.drop_last()) + le_bytes(ids.last() as nat, 8)
    }
}

/// The little-endian number of `n` bytes of `b` from `at`.
pub open spec fn word(b: Seq<u8>, at: int, n: int) -> nat {
    le_value(b.subrange(at, at + n))
}

/// The ids that a module's packed answer holds: one per eight bytes.
pub open spec fn ids_of(b: Seq<u8>) -> Seq<u64> {
    Seq::new(b.len() / 8, |i: int| word(b, 8 * i, 8) as u64)
}

proof fn lemma_ids_bytes(ids: Seq<u64>)
    ensures
        ids_bytes(ids).len() == 8 * ids.len(),
        forall|i: int|
            0 <= i < ids.len() ==> #[trigger] ids_bytes(ids).subrange(8 * i, 8 * i + 8)
                == le_bytes(ids[i] as nat, 8),
    decreases ids.len(),
{
    if ids.len() > 0 {
        let init = ids.drop_last();
        lemma_ids_bytes(init);
        lemma_le_bytes_len(ids.last() as nat, 8);
        let b = ids_bytes(ids);
        assert forall|i: int| 0 <= i < ids.len() implies #[trigger] b.subrange(8 * i, 8 * i + 8)
            == le_bytes(ids[i] as nat, 8) by {
            if i < init.len() {
                assert(b.subrange(8 * i, 8 * i + 8) =~= ids_bytes(init).subrange(8 * i, 8 * i + 8));
                assert(init[i] == ids[i]);
            } else {
                assert(b.subrange(8 * i, 8 * i + 8) =~= le_bytes(ids.last() as nat, 8));
            }
        }
    }
}

/// Ids packed for a module read back as the same ids.
pub proof fn law_ids_round_trip(ids: Seq<u64>)
    ensures
        ids_bytes(ids).len() % 8 == 0,
        ids_of(ids_bytes(ids)) == ids,
{
    lemma_ids_bytes(ids);
    let b = ids_bytes(ids);
    assert(b.len() / 8 == ids.len());
    assert forall|i: int| 0 <= i < ids.len() implies #[trigger] ids_of(b)[i] == ids[i] by {
        assert(b.subrange(8 * i, 8 * i + 8) == le_bytes(ids[i] as nat, 8));
        lemma_le_round_trip(ids[i] as nat, 8);
        lemma_pow256_words();
    }
    assert(ids_of(b) =~= ids);
}

/// Appends ids, eight little-endian bytes each.
fn push_ids(out: &mut Vec<u8>, ids: &Vec<u64>)
    ensures
        final(out)@ == old(out)@ + ids_bytes(ids@),
{
    let mut k: usize = 0;
    while k < ids.len()
        invariant
            k <= ids@.len(),
            out@ == old(out)@ + ids_bytes(ids@.take(k as int)),
        decreases ids@.len() - k,
    {
        push_le(out, ids[k], 8);
        proof {
            let t = ids@.take(k + 1);
            assert(t.drop_last() =~= ids@.take(k as int));
            assert(out@ =~= old(out)@ + ids_bytes(t));
        }
        k += 1;
    }
    proof {
        assert(ids@.take(ids@.len() as int) =~= ids@);
    }
}

/// The ids a visibility filter is asked about, packed for the module.
pub fn pack_ids(ids: &Vec<u64>) -> (b: Vec<u8>)
    ensures
        b@ == ids_bytes(ids@),
{
    let mut b: Vec<u8> = Vec::new();
    push_ids(&mut b, ids);
    proof {
        assert(Seq::<u8>::empty() + ids_bytes(ids@) =~= ids_bytes(ids@));
    }
    b
}

/// The ids a visibility filter kept, read from its output: eight
/// little-endian bytes each. An output that is not whole ids breaks the
/// module's contract.
pub fn kept_ids(out: &Vec<u8>) -> (r: Result<Vec<u64>, String>)
    ensures
        out@.len() % 8 == 0 ==> (r matches Ok(v) && v@ == ids_of(out@)),
        out@.len() % 8 != 0 ==> (r matches Err(e) && e@
            == "pylon_filter_visible output is not whole u64 ids"@),
{
    if out.len() % 8 != 0 {
        return Err(String::from_str("pylon_filter_visible output is not whole u64 ids"));
    }
    let mut ids: Vec<u64> = Vec::new();
    let mut at: usize = 0;
    while at < out.len()
        invariant
            out@.len() % 8 == 0,
            at % 8 == 0,
            at <= out@.len(),
            ids@.len() == at / 8,
            forall|i: int| 0 <= i < ids@.len() ==> #[trigger] ids@[i] == ids_of(out@)[i],
        decreases out@.len() - at,
    {
        let v = read_le(out, at, 8);
        proof {
            lemma_le_value_bound(out@.subrange(at as int, at + 8));
            lemma_pow256_words();
        }
        ids.push(v);
        at += 8;
    }
    proof {
        assert(ids@ =~= ids_of(out@));
    }
    Ok(ids)
}

/// What one subscriber sees, packed for the module: the three counts as
/// four little-endian bytes each (the low bytes of the count), then the
/// visible, entered and left ids.
pub open spec fn visibility_bytes(visible: Seq<u64>, entered: Seq<u64>, left: Seq<u64>) -> Seq<
    u8,
> {
    le_bytes(visible.len(), 4) + le_bytes(entered.len(), 4) + le_bytes(left.len(), 4) + ids_bytes(
        visible,
    ) + ids_bytes(entered) + ids_bytes(left)
}

/// Pack what one subscriber sees for the module's visible snapshot.
pub fn pack_visibility(visible: &Vec<u64>, entered: &Vec<u64>, left: &Vec<u64>) -> (b: Vec<u8>)
    ensures
        b@ == visibility_bytes(visible@, entered@, left@),
{
    let mut b: Vec<u8> = Vec::new();
    push_le(&mut b, visible.len() as u64, 4);
    push_le(&mut b, entered.len() as u64, 4);
    push_le(&mut b, left.len() as u64, 4);
    push_ids(&mut b, visible);
    push_ids(&mut b, entered);
    push_ids(&mut b, left);
    proof {
        assert(b@ =~= visibility_bytes(visible@, entered@, left@));
    }
    b
}

// ---------------------------------------------------------------------------
// Interest and replication records
// ---------------------------------------------------------------------------

/// One entity a module reports for interest management: its id and the
/// bits of its `f32` position.
#[derive(Debug, Clone, Copy, PartialEq, Eq)]
pub struct EntityRecord {
    pub id: u64,
    pub x_bits: u32,
    pub y_bits: u32,
}

/// The entity records of an entities answer: sixteen bytes each, the id in
/// eight little-endian bytes, then `x` and `y` in four each.
pub open spec fn entity_records_of(b: Seq<u8>) -> Seq<EntityRecord> {
    Seq::new(
        b.len() / 16,
        |i: int|
            EntityRecord {
                id: word(b, 16 * i, 8) as u64,
                x_bits: word(b, 16 * i + 8, 4) as u32,
                y_bits: word(b, 16 * i + 12, 4) as u32,
            },
    )
}

/// Read the entities a module reports. An output that is not whole
/// sixteen-byte entries breaks the module's contract.
pub fn entity_records(out: &Vec<u8>) -> (r: Result<Vec<EntityRecord>, String>)
    ensures
        out@.len() % 16 == 0 ==> (r matches Ok(v) && v@ == entity_records_of(out@)),
        out@.len() % 16 != 0 ==> (r matches Err(e) && e@
            == "pylon_entities output is not a whole number of 16-byte entries"@),
{
    if out.len() % 16 != 0 {
        return Err(
            String::from_str("pylon_entities output is not a whole number of 16-byte entries"),
        );
    }
    let mut v: Vec<EntityRecord> = Vec::new();
    let mut at: usize = 0;
    while at < out.len()
        invariant
            out@.len() % 16 == 0,
            at % 16 == 0,
            at <= out@.len(),
            v@.len() == at / 16,
            forall|i: int| 0 <= i < v@.len() ==> #[trigger] v@[i] == entity_records_of(out@)[i],
        decreases out@.len() - at,
    {
        let id = read_le(out, at, 8);
        let x = read_le(out, at + 8, 4);
        let y = read_le(out, at + 12, 4);
        proof {
            lemma_le_value_bound(out@.subrange(at as int, at + 8));
            lemma_le_value_bound(out@.subrange(at + 8, at + 12));
            lemma_le_value_bound(out@.subrange(at + 12, at + 16));
            lemma_pow256_words();
        }
        v.push(EntityRecord { id, x_bits: x as u32, y_bits: y as u32 });
        at += 16;
    }
    proof {
        assert(v@ =~= entity_records_of(out@));
    }
    Ok(v)
}

/// A module's interest settings: the bits of its `f32` cell size and
/// margin, and whether a subscriber's snapshot depends only on what it
/// sees.
#[derive(Debug, Clone, Copy, PartialEq, Eq)]
pub struct InterestRecord {
    pub cell_size_bits: u32,
    pub margin_bits: u32,
    pub shared: bool,
}

/// Read a module's interest settings: twelve bytes, the cell size, the
/// margin and a flag word, four little-endian bytes each; the flag word's
/// low bit says the snapshots are shared.
pub fn interest_record(out: &Vec<u8>) -> (r: Result<InterestRecord, String>)
    ensures
        out@.len() == 12 ==> (r matches Ok(rec) && rec.cell_size_bits == word(out@, 0, 4)
            && rec.margin_bits == word(out@, 4, 4) && rec.shared == (word(out@, 8, 4) % 2 == 1)),
        out@.len() != 12 ==> (r matches Err(e) && e@ == "pylon_interest output is not 12 bytes"@),
{
    if out.len() != 12 {
        return Err(String::from_str("pylon_interest output is not 12 bytes"));
    }
    let cell = read_le(out, 0, 4);
    let margin = read_le(out, 4, 4);
    let flags = read_le(out, 8, 4);
    proof {
        lemma_le_value_bound(out@.subrange(0, 4));
        lemma_le_value_bound(out@.subrange(4, 8));
        lemma_pow256_words();
    }
    Ok(InterestRecord { cell_size_bits: cell as u32, margin_bits: margin as u32, shared: flags % 2 == 1 })
}

/// The area a subscriber is interested in: the bits of its `f32` centre
/// and radius.
#[derive(Debug, Clone, Copy, PartialEq, Eq)]
pub struct AreaRecord {
    pub x_bits: u32,
    pub y_bits: u32,
    pub radius_bits: u32,
}

/// Read a subscriber's interest area: twelve bytes, `x`, `y` and the
/// radius, four little-endian bytes each.
pub fn area_record(out: &Vec<u8>) -> (r: Result<AreaRecord, String>)
    ensures
        out@.len() == 12 ==> (r matches Ok(a) && a.x_bits == word(out@, 0, 4) && a.y_bits == word(
            out@,
            4,
            4,
        ) && a.radius_bits == word(out@, 8, 4)),
        out@.len() != 12 ==> (r matches Err(e) && e@
            == "pylon_interest_area output is not 12 bytes"@),
{
    if out.len() != 12 {
        return Err(String::from_str("pylon_interest_area output is not 12 bytes"));
    }
    let x = read_le(out, 0, 4);
    let y = read_le(out, 4, 4);
    let radius = read_le(out, 8, 4);
    proof {
        lemma_le_value_bound(out@.subrange(0, 4));
        lemma_le_value_bound(out@.subrange(4, 8));
        lemma_le_value_bound(out@.subrange(8, 12));
        lemma_pow256_words();
    }
    Ok(AreaRecord { x_bits: x as u32, y_bits: y as u32, radius_bits: radius as u32 })
}

/// Where the change log of a replication answer starts.
pub const CHANGE_LOG_AT: usize = 9;

/// A module's replication settings: the bits of its `f32` precision, the
/// bytes it may send per tick, whether positions lie in the `x`-`z` plane
/// (else `x`-`y`), and whether the host's mirror starts over before the
/// change log.
#[derive(Debug, Clone, Copy, PartialEq, Eq)]
pub struct ReplicationHeader {
    pub precision_bits: u32,
    pub max_bytes_per_tick: u32,
    pub xz_plane: bool,
    pub reset: bool,
}

/// Read the header of a replication answer: the precision and the byte
/// budget, four little-endian bytes each, then a flag byte whose bit 0
/// picks the `x`-`z` plane and bit 1 a reset. The change log follows from
/// `CHANGE_LOG_AT`.
pub fn replication_header(out: &Vec<u8>) -> (r: Result<ReplicationHeader, String>)
    ensures
        out@.len() >= 9 ==> (r matches Ok(h) && h.precision_bits == word(out@, 0, 4)
            && h.max_bytes_per_tick == word(out@, 4, 4) && h.xz_plane == (out@[8] % 2 == 1)
            && h.reset == ((out@[8] / 2) % 2 == 1)),
        out@.len() < 9 ==> (r matches Err(e) && e@
            == "pylon_replication output is shorter than its 9-byte header"@),
{
    if out.len() < 9 {
        return Err(String::from_str("pylon_replication output is shorter than its 9-byte header"));
    }
    let precision = read_le(out, 0, 4);
    let budget = read_le(out, 4, 4);
    proof {
        lemma_le_value_bound(out@.subrange(0, 4));
        lemma_le_value_bound(out@.subrange(4, 8));
        lemma_pow256_words();
    }
    let flags = out[8];
    Ok(
        ReplicationHeader {
            precision_bits: precision as u32,
            max_bytes_per_tick: budget as u32,
            xz_plane: flags % 2 == 1,
            reset: (flags / 2) % 2 == 1,
        },
    )
}

// ---------------------------------------------------------------------------
// Status codes and the messages of a broken contract
// ---------------------------------------------------------------------------

/// What a status code from a module's export means.
#[derive(Debug, Clone, Copy, PartialEq, Eq)]
pub enum StatusAnswer {
    /// The export did what was asked; its output, if any, holds the result.
    Done,
    /// The export refused; its output holds why.
    Refused,
    /// The subscriber gets the broadcast snapshot.
    SameAsBroadcast,
    /// No status the export may answer with: the module broke its contract.
    Unknown,
}

/// Read a status code. `may_defer` is whether the export may answer that
/// the broadcast snapshot serves (the per-subscriber snapshot exports).
pub fn status_answer(status: i32, may_defer: bool) -> (a: StatusAnswer)
    ensures
        a == (if status == STATUS_OK {
            StatusAnswer::Done
        } else if status == STATUS_ERR {
            StatusAnswer::Refused
        } else if status == STATUS_SAME_AS_BROADCAST && may_defer {
            StatusAnswer::SameAsBroadcast
        } else {
            StatusAnswer::Unknown
        }),
{
    if status == STATUS_OK {
        StatusAnswer::Done
    } else if status == STATUS_ERR {
        StatusAnswer::Refused
    } else if status == STATUS_SAME_AS_BROADCAST && may_defer {
        StatusAnswer::SameAsBroadcast
    } else {
        StatusAnswer::Unknown
    }
}

/// What an optional export (interest settings, interest area, replication)
/// answered.
#[derive(Debug, Clone, Copy, PartialEq, Eq)]
pub enum Presence {
    /// `0`: the module has nothing to say.
    Absent,
    /// `1`: the answer is in the output.
    Present,
    /// Anything else breaks the module's contract.
    Unknown,
}

/// Read the answer of an optional export.
pub fn presence(status: i32) -> (p: Presence)
    ensures
        p == (if status == 0 {
            Presence::Absent
        } else if status == 1 {
            Presence::Present
        } else {
            Presence::Unknown
        }),
{
    if status == 0 {
        Presence::Absent
    } else if status == 1 {
        Presence::Present
    } else {
        Presence::Unknown
    }
}

/// `export returned status N`: why a module stopped after an export with a
/// status answered with none it may.
pub fn returned_status(export: &str, status: i32) -> (m: String)
    ensures
        m@ == export@ + " returned status "@ + signed_decimal(status as int),
{
    let mut m = String::new();
    push_str(&mut m, export);
    push_str(&mut m, " returned status ");
    let n = signed_decimal_string(status as i64);
    push_str(&mut m, n.as_str());
    proof {
        assert(m@ =~= export@ + " returned status "@ + signed_decimal(status as int));
    }
    m
}

/// `export returned N`: why a module stopped after an export with an
/// answer code answered with none it may.
pub fn returned(export: &str, status: i32) -> (m: String)
    ensures
        m@ == export@ + " returned "@ + signed_decimal(status as int),
{
    let mut m = String::new();
    push_str(&mut m, export);
    push_str(&mut m, " returned ");
    let n = signed_decimal_string(status as i64);
    push_str(&mut m, n.as_str());
    proof {
        assert(m@ =~= export@ + " returned "@ + signed_decimal(status as int));
    }
    m
}

/// `export failed: why`: why a module stopped after a snapshot export
/// refused, with the reason the module gave in its output.
pub fn failed_with(export: &str, output: &[u8]) -> (m: String)
    ensures
        m@ == export@ + " failed: "@ + utf8_lossy(output@),
{
    let mut m = String::new();
    push_str(&mut m, export);
    push_str(&mut m, " failed: ");
    let why = string_from_utf8_lossy(output);
    push_str(&mut m, why.as_str());
    proof {
        assert(m@ =~= export@ + " failed: "@ + utf8_lossy(output@));
    }
    m
}

// ---------------------------------------------------------------------------
// Memory spans
// ---------------------------------------------------------------------------

/// The bytes of a module's output the host may copy: from `ptr`, `len` of
/// them, checked against the module's memory before anything is copied so
/// that a bad length cannot make the host allocate past the memory cap.
pub fn output_span(ptr: u32, len: i32, memory_len: usize) -> (r: Result<(usize, usize), String>)
    ensures
        len < 0 ==> (r matches Err(e) && e@ == "pylon_output_len is negative"@),
        len >= 0 && ptr + len > memory_len ==> (r matches Err(e) && e@
            == "the output buffer is outside memory"@),
        len >= 0 && ptr + len <= memory_len ==> r == Ok::<(usize, usize), String>(
            (ptr as usize, (ptr + len) as usize),
        ),
{
    if len < 0 {
        return Err(String::from_str("pylon_output_len is negative"));
    }
    let start = ptr as u64;
    let end = start + len as u64;
    if end > memory_len as u64 {
        return Err(String::from_str("the output buffer is outside memory"));
    }
    Ok((start as usize, end as usize))
}

/// The sum of the first `k` lengths.
pub open spec fn prefix_total(lens: Seq<usize>, k: int) -> int
    decreases k,
{
    if k <= 0 {
        0
    } else {
        prefix_total(lens, k - 1) + lens[k - 1]
    }
}

proof fn lemma_prefix_total_monotone(lens: Seq<usize>, j: int, k: int)
    requires
        0 <= j <= k,
    ensures
        prefix_total(lens, j) <= prefix_total(lens, k),
    decreases k,
{
    if j < k {
        lemma_prefix_total_monotone(lens, j, k - 1);
    }
}

/// The room a call's arguments take in the module's scratch buffer. The
/// size goes to the module as an `i32`: past that, the call is refused.
pub fn arguments_total(lens: &Vec<usize>) -> (r: Result<i32, String>)
    ensures
        prefix_total(lens@, lens@.len() as int) <= i32::MAX ==> r == Ok::<i32, String>(
            prefix_total(lens@, lens@.len() as int) as i32,
        ),
        prefix_total(lens@, lens@.len() as int) > i32::MAX ==> (r matches Err(e) && e@
            == "call arguments over 2 GiB"@),
{
    let mut total: u64 = 0;
    let mut k: usize = 0;
    while k < lens.len()
        invariant
            k <= lens@.len(),
            total == prefix_total(lens@, k as int),
            total <= i32::MAX,
        decreases lens@.len() - k,
    {
        if lens[k] as u64 > i32::MAX as u64 - total {
            proof {
                lemma_prefix_total_monotone(lens@, k + 1, lens@.len() as int);
            }
            return Err(String::from_str("call arguments over 2 GiB"));
        }
        total = total + lens[k] as u64;
        k += 1;
    }
    Ok(total as i32)
}

/// Where each argument goes in a scratch buffer at `base`: one after the
/// other, as a (pointer, length) pair the module reads as `i32`s.
pub fn argument_spans(base: u32, lens: &Vec<usize>) -> (spans: Vec<(i32, i32)>)
    requires
        prefix_total(lens@, lens@.len() as int) <= i32::MAX,
    ensures
        spans@.len() == lens@.len(),
        forall|k: int|
            0 <= k < lens@.len() ==> #[trigger] spans@[k] == (
                (base + prefix_total(lens@, k)) as i32,
                lens@[k] as i32,
            ),
{
    let mut spans: Vec<(i32, i32)> = Vec::new();
    let mut offset: u64 = base as u64;
    let mut k: usize = 0;
    while k < lens.len()
        invariant
            k <= lens@.len(),
            prefix_total(lens@, lens@.len() as int) <= i32::MAX,
            offset == base + prefix_total(lens@, k as int),
            spans@.len() == k,
            forall|j: int|
                0 <= j < k ==> #[trigger] spans@[j] == (
                    (base + prefix_total(lens@, j)) as i32,
                    lens@[j] as i32,
                ),
        decreases lens@.len() - k,
    {
        proof {
            lemma_prefix_total_monotone(lens@, k + 1, lens@.len() as int);
        }
        spans.push((offset as i32, lens[k] as i32));
        offset = offset + lens[k] as u64;
        k += 1;
    }
    spans
}

// ---------------------------------------------------------------------------
// Logs, codecs and the empty snapshot
// ---------------------------------------------------------------------------

/// How the host reads a log line a module sends: at most `MAX_LOG_LINE`
/// bytes of it (none for a negative length), kept as the module's last
/// error line when its level is error or above (`3`).
#[derive(Debug, Clone, Copy, PartialEq, Eq)]
pub struct LogRead {
    pub len: usize,
    pub keeps_error: bool,
}

/// Plan the read of one log line.
pub fn log_read(level: i32, len: i32) -> (r: LogRead)
    ensures
        r.len == (if len <= 0 {
            0
        } else if len > MAX_LOG_LINE {
            MAX_LOG_LINE as int
        } else {
            len as int
        }),
        r.keeps_error == (level >= 3),
{
    let n: usize = if len <= 0 {
        0
    } else if len as u64 > MAX_LOG_LINE as u64 {
        MAX_LOG_LINE
    } else {
        len as usize
    };
    LogRead { len: n, keeps_error: level >= 3 }
}

/// The encodings a shard's snapshots and inputs may use.
#[derive(Debug, Clone, Copy, PartialEq, Eq)]
pub enum SnapshotFormat {
    Json,
    JsonCompact,
    MessagePack,
    Bincode,
}

/// The codec number a module is told at start: `0` for JSON, `1` for
/// MessagePack. A module cannot speak bincode.
pub fn codec_id(format: SnapshotFormat) -> (r: Result<i32, String>)
    ensures
        match format {
            SnapshotFormat::Json | SnapshotFormat::JsonCompact => r == Ok::<i32, String>(0),
            SnapshotFormat::MessagePack => r == Ok::<i32, String>(1),
            SnapshotFormat::Bincode => (r matches Err(e) && e@
                == "a WebAssembly shard uses the json or msgpack codec, not bincode"@),
        },
{
    match format {
        SnapshotFormat::Json | SnapshotFormat::JsonCompact => Ok(0),
        SnapshotFormat::MessagePack => Ok(1),
        SnapshotFormat::Bincode => Err(
            String::from_str("a WebAssembly shard uses the json or msgpack codec, not bincode"),
        ),
    }
}

/// The empty snapshot in a format: MessagePack's nil byte, or `null`.
pub open spec fn null_bytes(format: SnapshotFormat) -> Seq<u8> {
    match format {
        SnapshotFormat::MessagePack => seq![0xc0u8],
        _ => seq![110u8, 117u8, 108u8, 108u8],
    }
}

/// What one subscriber gets when the module could not produce its
/// snapshot: nothing, never the broadcast, which may hold entities that
/// subscriber's own snapshot exists to hide.
pub fn null_snapshot(format: SnapshotFormat) -> (b: Vec<u8>)
    ensures
        b@ == null_bytes(format),
{
    match format {
        SnapshotFormat::MessagePack => {
            let v: Vec<u8> = vec![0xc0u8];
            proof {
                assert(v@ =~= seq![0xc0u8]);
            }
            v
        },
        _ => {
            let v: Vec<u8> = vec![110u8, 117u8, 108u8, 108u8];
            proof {
                assert(v@ =~= seq![110u8, 117u8, 108u8, 108u8]);
            }
            v
        },
    }
}

/// What every subscriber gets when the module could not produce the
/// broadcast snapshot: the last broadcast it did produce, which every
/// subscriber was allowed to see, else the empty snapshot.
pub fn fallback_snapshot(last_good: &Option<Vec<u8>>, format: SnapshotFormat) -> (b: Vec<u8>)
    ensures
        b@ == (match last_good {
            Some(s) => s@,
            None => null_bytes(format),
        }),
{
    match last_good {
        Some(s) => s.clone(),
        None => null_snapshot(format),
    }
}

/// Whether a shard's module is done: it is once it stopped, or when its
/// `pylon_is_finished` call fails (`None`) or answers anything but `0`.
pub fn module_finished(stopped: bool, answer: Option<i32>) -> (done: bool)
    ensures
        done == (stopped || answer is None || answer != Some(0i32)),
{
    if stopped {
        return true;
    }
    match answer {
        Some(v) => v != 0,
        None => true,
    }
}

/// The tick length a module is told, in nanoseconds: the duration's, or
/// `i64::MAX` when that does not fit.
pub fn tick_nanos(nanos: u128) -> (n: i64)
    ensures
        n == (if nanos <= i64::MAX {
            nanos as int
        } else {
            i64::MAX as int
        }),
{
    if nanos <= i64::MAX as u128 {
        nanos as i64
    } else {
        i64::MAX
    }
}


// ---------------------------------------------------------------------------
// Starting a module
// ---------------------------------------------------------------------------

/// Check the ABI a module speaks: only [`ABI_VERSION`] is accepted.
pub fn check_abi(version: i32) -> (r: Result<(), String>)
    ensures
        version == ABI_VERSION ==> r is Ok,
        version != ABI_VERSION ==> (r matches Err(e) && e@ == "the module speaks shard ABI "@
            + signed_decimal(version as int) + "; this pylon speaks 1"@),
{
    if version == ABI_VERSION {
        return Ok(());
    }
    let mut m = String::new();
    push_str(&mut m, "the module speaks shard ABI ");
    let n = signed_decimal_string(version as i64);
    push_str(&mut m, n.as_str());
    push_str(&mut m, "; this pylon speaks 1");
    proof {
        assert(m@ =~= "the module speaks shard ABI "@ + signed_decimal(version as int)
            + "; this pylon speaks 1"@);
    }
    Err(m)
}

/// What `pylon_init` answered, with `output` the module's output when it
/// refused: started; refused, with the reason it gave; or a status it may
/// not answer with.
pub fn init_outcome(status: i32, output: &[u8]) -> (r: Result<(), String>)
    ensures
        status == STATUS_OK ==> r is Ok,
        status == STATUS_ERR ==> (r matches Err(e) && e@ == "init refused: "@ + utf8_lossy(output@)),
        status != STATUS_OK && status != STATUS_ERR ==> (r matches Err(e) && e@
            == "pylon_init"@ + " returned status "@ + signed_decimal(status as int)),
{
    if status == STATUS_OK {
        Ok(())
    } else if status == STATUS_ERR {
        let mut m = String::new();
        push_str(&mut m, "init refused: ");
        let why = string_from_utf8_lossy(output);
        push_str(&mut m, why.as_str());
        proof {
            assert(m@ =~= "init refused: "@ + utf8_lossy(output@));
        }
        Err(m)
    } else {
        Err(returned_status("pylon_init", status))
    }
}

} // verus!
