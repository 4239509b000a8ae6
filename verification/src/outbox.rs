//! The outbox format: what a shard module hands the host after each tick,
//! its groups (when they changed) and the messages it sends.
//!
//! ```text
//! groups:   0                          (unchanged)
//!         | 1, u16 n, n x (u16 len, len bytes of UTF-8)
//! messages: u32 n, n x (u16 len, target; u16 len, topic; u32 len, data)
//! ```
//!
//! All integers are little-endian. A group name is 1 to 128 bytes, a topic
//! at most 128, data at most 64 KiB; at most 64 groups and 64 messages. The
//! bytes end exactly after the last message.

use vstd::prelude::*;
use vstd::utf8::{decode_utf8, encode_utf8, valid_utf8};

use crate::text::{string_from_utf8, text_len};

verus! {

broadcast use {vstd::utf8::encode_utf8_valid_utf8, vstd::utf8::encode_utf8_decode_utf8};

pub const MAX_MESSAGES_PER_TICK: usize = 64;

pub const MAX_TOPIC: usize = 128;

pub const MAX_GROUP: usize = 128;

pub const MAX_GROUPS: usize = 64;

pub const MAX_DATA: usize = 64 * 1024;

/// One message as a value: target, topic, data.
pub type MessageView = (Seq<char>, Seq<char>, Seq<u8>);

/// An outbox as a value.
pub ghost struct OutboxView {
    pub groups: Option<Seq<Seq<char>>>,
    pub messages: Seq<MessageView>,
}

// ---------------------------------------------------------------------------
// The encoding
// ---------------------------------------------------------------------------

pub open spec fn enc16(n: nat) -> Seq<u8> {
    seq![(n % 256) as u8, ((n / 256) % 256) as u8]
}

pub open spec fn enc32(n: nat) -> Seq<u8> {
    seq![
        (n % 256) as u8,
        ((n / 256) % 256) as u8,
        ((n / 65536) % 256) as u8,
        ((n / 16777216) % 256) as u8,
    ]
}

pub open spec fn le16(b: Seq<u8>, at: int) -> nat {
    b[at] as nat + b[at + 1] as nat * 256
}

pub open spec fn le32(b: Seq<u8>, at: int) -> nat {
    b[at] as nat + b[at + 1] as nat * 256 + b[at + 2] as nat * 65536 + b[at + 3] as nat
        * 16777216
}

/// A length-prefixed name.
pub open spec fn enc_name(g: Seq<char>) -> Seq<u8> {
    enc16(text_len(g)) + encode_utf8(g)
}

pub open spec fn enc_names(gs: Seq<Seq<char>>) -> Seq<u8>
    decreases gs.len(),
{
    if gs.len() == 0 {
        Seq::empty()
    } else {
        enc_name(gs[0]) + enc_names(gs.drop_first())
    }
}

pub open spec fn enc_msg(m: MessageView) -> Seq<u8> {
    enc16(text_len(m.0)) + encode_utf8(m.0) + enc16(text_len(m.1)) + encode_utf8(m.1) + enc32(
        m.2.len(),
    ) + m.2
}

pub open spec fn enc_msgs(ms: Seq<MessageView>) -> Seq<u8>
    decreases ms.len(),
{
    if ms.len() == 0 {
        Seq::empty()
    } else {
        enc_msg(ms[0]) + enc_msgs(ms.drop_first())
    }
}

pub open spec fn enc_groups(g: Option<Seq<Seq<char>>>) -> Seq<u8> {
    match g {
        None => seq![0u8],
        Some(gs) => seq![1u8] + enc16(gs.len()) + enc_names(gs),
    }
}

/// The bytes of an outbox.
pub open spec fn encode_outbox(o: OutboxView) -> Seq<u8> {
    enc_groups(o.groups) + enc32(o.messages.len()) + enc_msgs(o.messages)
}

pub open spec fn group_ok(g: Seq<char>) -> bool {
    1 <= text_len(g) <= MAX_GROUP
}

pub open spec fn msg_ok(m: MessageView) -> bool {
    &&& text_len(m.0) < 65536
    &&& text_len(m.1) <= MAX_TOPIC
    &&& m.2.len() <= MAX_DATA
}

/// What the format allows: the limits on names, topics, data and counts.
pub open spec fn outbox_ok(o: OutboxView) -> bool {
    &&& match o.groups {
        None => true,
        Some(gs) => gs.len() <= MAX_GROUPS && forall|k: int|
            0 <= k < gs.len() ==> group_ok(#[trigger] gs[k]),
    }
    &&& o.messages.len() <= MAX_MESSAGES_PER_TICK
    &&& forall|k: int| 0 <= k < o.messages.len() ==> msg_ok(#[trigger] o.messages[k])
}

// ---------------------------------------------------------------------------
// Reading the encoding
// ---------------------------------------------------------------------------

/// `len` bytes at `at` read as UTF-8 text.
pub open spec fn rd_text(b: Seq<u8>, at: int, len: nat) -> Option<Seq<char>> {
    if 0 <= at && at + len <= b.len() && valid_utf8(b.subrange(at, at + len)) {
        Some(decode_utf8(b.subrange(at, at + len)))
    } else {
        None
    }
}

/// `n` length-prefixed group names from `at`, and where they end.
pub open spec fn rd_names(b: Seq<u8>, at: int, n: nat) -> Option<(Seq<Seq<char>>, int)>
    decreases n,
{
    if n == 0 {
        Some((Seq::empty(), at))
    } else if at < 0 || at + 2 > b.len() {
        None
    } else {
        let len = le16(b, at);
        if len == 0 || len > MAX_GROUP {
            None
        } else {
            match rd_text(b, at + 2, len) {
                None => None,
                Some(g) => match rd_names(b, at + 2 + len, (n - 1) as nat) {
                    None => None,
                    Some((gs, e)) => Some((seq![g] + gs, e)),
                },
            }
        }
    }
}

/// One message at `at`, and where it ends.
#[verifier::opaque]
pub open spec fn rd_msg(b: Seq<u8>, at: int) -> Option<(MessageView, int)> {
    if at < 0 || at + 2 > b.len() {
        None
    } else {
        let tl = le16(b, at);
        match rd_text(b, at + 2, tl) {
            None => None,
            Some(target) => {
                let p = at + 2 + tl;
                if p + 2 > b.len() {
                    None
                } else {
                    let pl = le16(b, p);
                    if pl > MAX_TOPIC {
                        None
                    } else {
                        match rd_text(b, p + 2, pl) {
                            None => None,
                            Some(topic) => {
                                let q = p + 2 + pl;
                                if q + 4 > b.len() {
                                    None
                                } else {
                                    let dl = le32(b, q);
                                    if dl > MAX_DATA || q + 4 + dl > b.len() {
                                        None
                                    } else {
                                        Some(
                                            (
                                                (target, topic, b.subrange(q + 4, q + 4 + dl)),
                                                q + 4 + dl,
                                            ),
                                        )
                                    }
                                }
                            },
                        }
                    }
                }
            },
        }
    }
}

/// `n` messages from `at`, and where they end.
pub open spec fn rd_msgs(b: Seq<u8>, at: int, n: nat) -> Option<(Seq<MessageView>, int)>
    decreases n,
{
    if n == 0 {
        Some((Seq::empty(), at))
    } else {
        match rd_msg(b, at) {
            None => None,
            Some((m, p)) => match rd_msgs(b, p, (n - 1) as nat) {
                None => None,
                Some((ms, e)) => Some((seq![m] + ms, e)),
            },
        }
    }
}

/// The groups section, and where it ends.
pub open spec fn rd_groups(b: Seq<u8>) -> Option<(Option<Seq<Seq<char>>>, int)> {
    if b.len() < 1 {
        None
    } else if b[0] == 0 {
        Some((None, 1))
    } else if b[0] == 1 {
        if b.len() < 3 {
            None
        } else {
            let n = le16(b, 1);
            if n > MAX_GROUPS {
                None
            } else {
                match rd_names(b, 3, n) {
                    None => None,
                    Some((gs, e)) => Some((Some(gs), e)),
                }
            }
        }
    } else {
        None
    }
}

/// The outbox the bytes hold, read field by field.
pub open spec fn decode_outbox(b: Seq<u8>) -> Option<OutboxView> {
    match rd_groups(b) {
        None => None,
        Some((groups, at)) => if at + 4 > b.len() {
            None
        } else {
            let n = le32(b, at);
            if n > MAX_MESSAGES_PER_TICK {
                None
            } else {
                match rd_msgs(b, at + 4, n) {
                    None => None,
                    Some((messages, e)) => if e == b.len() {
                        Some(OutboxView { groups, messages })
                    } else {
                        None
                    },
                }
            }
        },
    }
}

// ---------------------------------------------------------------------------
// The reading inverts the encoding
// ---------------------------------------------------------------------------

proof fn lemma_le16(b: Seq<u8>, at: int, n: nat)
    requires
        n < 65536,
        0 <= at,
        at + 2 <= b.len(),
        b.subrange(at, at + 2) == enc16(n),
    ensures
        le16(b, at) == n,
{
    assert(b[at] == b.subrange(at, at + 2)[0]);
    assert(b[at + 1] == b.subrange(at, at + 2)[1]);
}

proof fn lemma_le32(b: Seq<u8>, at: int, n: nat)
    requires
        n < 4294967296,
        0 <= at,
        at + 4 <= b.len(),
        b.subrange(at, at + 4) == enc32(n),
    ensures
        le32(b, at) == n,
{
    assert(b[at] == b.subrange(at, at + 4)[0]);
    assert(b[at + 1] == b.subrange(at, at + 4)[1]);
    assert(b[at + 2] == b.subrange(at, at + 4)[2]);
    assert(b[at + 3] == b.subrange(at, at + 4)[3]);
}

proof fn lemma_enc16_of_le16(b: Seq<u8>, at: int)
    requires
        0 <= at,
        at + 2 <= b.len(),
    ensures
        b.subrange(at, at + 2) =~= enc16(le16(b, at)),
        le16(b, at) < 65536,
{
}

proof fn lemma_bytes32(x0: u8, x1: u8, x2: u8, x3: u8, n: nat)
    requires
        n == x0 as nat + x1 as nat * 256 + x2 as nat * 65536 + x3 as nat * 16777216,
    ensures
        n % 256 == x0,
        (n / 256) % 256 == x1,
        (n / 65536) % 256 == x2,
        (n / 16777216) % 256 == x3,
{
    assert(n % 256 == x0 && n / 256 == x1 as nat + x2 as nat * 256 + x3 as nat * 65536) by (nonlinear_arith)
        requires
            n == x0 as nat + x1 as nat * 256 + x2 as nat * 65536 + x3 as nat * 16777216,
            x0 < 256,
    ;
    let m = n / 256;
    assert(m % 256 == x1 && m / 256 == x2 as nat + x3 as nat * 256) by (nonlinear_arith)
        requires
            m == x1 as nat + x2 as nat * 256 + x3 as nat * 65536,
            x1 < 256,
    ;
    let k = m / 256;
    assert(k % 256 == x2 && k / 256 == x3 as nat) by (nonlinear_arith)
        requires
            k == x2 as nat + x3 as nat * 256,
            x2 < 256,
    ;
    assert(n / 65536 == k) by (nonlinear_arith)
        requires
            m == n / 256,
            k == m / 256,
    ;
    assert(n / 16777216 == k / 256) by (nonlinear_arith)
        requires
            k == n / 65536,
    ;
}

proof fn lemma_enc32_of_le32(b: Seq<u8>, at: int)
    requires
        0 <= at,
        at + 4 <= b.len(),
    ensures
        b.subrange(at, at + 4) =~= enc32(le32(b, at)),
{
    lemma_bytes32(b[at], b[at + 1], b[at + 2], b[at + 3], le32(b, at));
}

proof fn lemma_rd_text_of(b: Seq<u8>, at: int, g: Seq<char>)
    requires
        0 <= at,
        at + text_len(g) <= b.len(),
        b.subrange(at, at + text_len(g)) == encode_utf8(g),
    ensures
        rd_text(b, at, text_len(g)) == Some(g),
{
}

proof fn lemma_rd_names_enc(p: Seq<u8>, gs: Seq<Seq<char>>, q: Seq<u8>)
    requires
        forall|k: int| 0 <= k < gs.len() ==> group_ok(#[trigger] gs[k]),
    ensures
        rd_names(p + enc_names(gs) + q, p.len() as int, gs.len()) == Some(
            (gs, (p.len() + enc_names(gs).len()) as int),
        ),
    decreases gs.len(),
{
    let b = p + enc_names(gs) + q;
    if gs.len() == 0 {
        assert(gs =~= Seq::<Seq<char>>::empty());
    } else {
        let g = gs[0];
        let rest = gs.drop_first();
        assert(group_ok(g));
        let at = p.len() as int;
        let len = text_len(g);
        assert(b.subrange(at, at + 2) =~= enc16(len));
        lemma_le16(b, at, len);
        assert(b.subrange(at + 2, at + 2 + len) =~= encode_utf8(g));
        lemma_rd_text_of(b, at + 2, g);
        let p2 = p + enc_name(g);
        assert(b =~= p2 + enc_names(rest) + q);
        assert forall|k: int| 0 <= k < rest.len() implies group_ok(#[trigger] rest[k]) by {
            assert(rest[k] == gs[k + 1]);
        }
        lemma_rd_names_enc(p2, rest, q);
        assert(seq![g] + rest =~= gs);
    }
}

proof fn lemma_rd_msg_enc(p: Seq<u8>, m: MessageView, q: Seq<u8>)
    requires
        msg_ok(m),
    ensures
        rd_msg(p + enc_msg(m) + q, p.len() as int) == Some((m, (p.len() + enc_msg(m).len()) as int)),
{
    reveal(rd_msg);
    let b = p + enc_msg(m) + q;
    let at = p.len() as int;
    let tl = text_len(m.0);
    let pl = text_len(m.1);
    let dl = m.2.len();
    assert(b.subrange(at, at + 2) =~= enc16(tl));
    lemma_le16(b, at, tl);
    assert(b.subrange(at + 2, at + 2 + tl) =~= encode_utf8(m.0));
    lemma_rd_text_of(b, at + 2, m.0);
    let p1 = at + 2 + tl;
    assert(b.subrange(p1, p1 + 2) =~= enc16(pl));
    lemma_le16(b, p1, pl);
    assert(b.subrange(p1 + 2, p1 + 2 + pl) =~= encode_utf8(m.1));
    lemma_rd_text_of(b, p1 + 2, m.1);
    let q1 = p1 + 2 + pl;
    assert(b.subrange(q1, q1 + 4) =~= enc32(dl));
    lemma_le32(b, q1, dl);
    assert(b.subrange(q1 + 4, q1 + 4 + dl) =~= m.2);
}

proof fn lemma_rd_msgs_enc(p: Seq<u8>, ms: Seq<MessageView>, q: Seq<u8>)
    requires
        forall|k: int| 0 <= k < ms.len() ==> msg_ok(#[trigger] ms[k]),
    ensures
        rd_msgs(p + enc_msgs(ms) + q, p.len() as int, ms.len()) == Some(
            (ms, (p.len() + enc_msgs(ms).len()) as int),
        ),
    decreases ms.len(),
{
    let b = p + enc_msgs(ms) + q;
    if ms.len() == 0 {
        assert(ms =~= Seq::<MessageView>::empty());
    } else {
        let m = ms[0];
        let rest = ms.drop_first();
        assert(msg_ok(m));
        assert(b =~= p + enc_msg(m) + (enc_msgs(rest) + q));
        lemma_rd_msg_enc(p, m, enc_msgs(rest) + q);
        let p2 = p + enc_msg(m);
        assert(b =~= p2 + enc_msgs(rest) + q);
        assert forall|k: int| 0 <= k < rest.len() implies msg_ok(#[trigger] rest[k]) by {
            assert(rest[k] == ms[k + 1]);
        }
        lemma_rd_msgs_enc(p2, rest, q);
        assert(seq![m] + rest =~= ms);
    }
}

/// An admissible outbox reads back as itself.
pub proof fn law_outbox_round_trip(o: OutboxView)
    requires
        outbox_ok(o),
    ensures
        decode_outbox(encode_outbox(o)) == Some(o),
{
    let b = encode_outbox(o);
    let at: int = match o.groups {
        None => 1,
        Some(gs) => 3 + enc_names(gs).len() as int,
    };
    match o.groups {
        None => {
            assert(b[0] == 0);
            assert(rd_groups(b) == Some((o.groups, 1int)));
        },
        Some(gs) => {
            assert(b[0] == 1);
            assert(b.subrange(1, 3) =~= enc16(gs.len()));
            lemma_le16(b, 1, gs.len());
            let p = seq![1u8] + enc16(gs.len());
            assert(b =~= p + enc_names(gs) + (enc32(o.messages.len()) + enc_msgs(o.messages)));
            lemma_rd_names_enc(p, gs, enc32(o.messages.len()) + enc_msgs(o.messages));
        },
    }
    assert(b.subrange(at, at + 4) =~= enc32(o.messages.len()));
    lemma_le32(b, at, o.messages.len());
    let p = enc_groups(o.groups) + enc32(o.messages.len());
    assert(b =~= p + enc_msgs(o.messages) + Seq::<u8>::empty());
    lemma_rd_msgs_enc(p, o.messages, Seq::<u8>::empty());
}

/// An admissible outbox's encoding followed by more bytes does not read.
proof fn lemma_decode_with_more(o: OutboxView, q: Seq<u8>)
    requires
        outbox_ok(o),
        q.len() > 0,
    ensures
        decode_outbox(encode_outbox(o) + q) is None,
{
    let e = encode_outbox(o);
    let b = e + q;
    let at: int = match o.groups {
        None => 1,
        Some(gs) => 3 + enc_names(gs).len() as int,
    };
    match o.groups {
        None => {
            assert(b[0] == 0);
            assert(rd_groups(b) == Some((o.groups, 1int)));
        },
        Some(gs) => {
            assert(b[0] == 1);
            assert(b.subrange(1, 3) =~= enc16(gs.len()));
            lemma_le16(b, 1, gs.len());
            let p = seq![1u8] + enc16(gs.len());
            assert(b =~= p + enc_names(gs) + (enc32(o.messages.len()) + enc_msgs(o.messages) + q));
            lemma_rd_names_enc(p, gs, enc32(o.messages.len()) + enc_msgs(o.messages) + q);
        },
    }
    assert(b.subrange(at, at + 4) =~= enc32(o.messages.len()));
    lemma_le32(b, at, o.messages.len());
    let p = enc_groups(o.groups) + enc32(o.messages.len());
    assert(b =~= p + enc_msgs(o.messages) + q);
    lemma_rd_msgs_enc(p, o.messages, q);
}

/// The length of an outbox is exact: an admissible outbox's encoding
/// with one byte more, or one byte less, at the end does not read (so
/// [`Outbox::parse`] refuses it).
pub proof fn law_outbox_length_is_exact(o: OutboxView, x: u8)
    requires
        outbox_ok(o),
    ensures
        decode_outbox(encode_outbox(o).push(x)) is None,
        decode_outbox(encode_outbox(o).drop_last()) is None,
{
    let e = encode_outbox(o);
    assert(e.push(x) =~= e + seq![x]);
    lemma_decode_with_more(o, seq![x]);
    assert(e.len() > 0) by {
        match o.groups {
            None => assert(e[0] == 0),
            Some(gs) => assert(e[0] == 1),
        }
    }
    let d = e.drop_last();
    if decode_outbox(d) is Some {
        let o2 = decode_outbox(d)->0;
        law_outbox_read_is_exact(d);
        assert(e =~= encode_outbox(o2) + seq![e.last()]);
        lemma_decode_with_more(o2, seq![e.last()]);
        law_outbox_round_trip(o);
        assert(false);
    }
}

/// Nothing short of an outbox reads: every proper prefix of an admissible
/// outbox's encoding fails to read (so [`Outbox::parse`] refuses it).
pub proof fn law_outbox_prefixes_do_not_read(o: OutboxView, k: int)
    requires
        outbox_ok(o),
        0 <= k < encode_outbox(o).len(),
    ensures
        decode_outbox(encode_outbox(o).take(k)) is None,
{
    let e = encode_outbox(o);
    let d = e.take(k);
    if decode_outbox(d) is Some {
        let o2 = decode_outbox(d)->0;
        law_outbox_read_is_exact(d);
        let rest = e.skip(k);
        assert(e =~= encode_outbox(o2) + rest);
        lemma_decode_with_more(o2, rest);
        law_outbox_round_trip(o);
        assert(false);
    }
}

proof fn lemma_rd_names_shape(b: Seq<u8>, at: int, n: nat)
    requires
        rd_names(b, at, n) is Some,
        0 <= at <= b.len(),
    ensures
        ({
            let (gs, e) = rd_names(b, at, n)->0;
            &&& gs.len() == n
            &&& 0 <= at <= e <= b.len()
            &&& forall|k: int| 0 <= k < gs.len() ==> group_ok(#[trigger] gs[k])
            &&& b.subrange(at, e) == enc_names(gs)
        }),
    decreases n,
{
    if n == 0 {
        assert(b.subrange(at, at) =~= Seq::<u8>::empty());
    } else {
        let len = le16(b, at);
        let g = rd_text(b, at + 2, len)->0;
        let sub = b.subrange(at + 2, at + 2 + len);
        vstd::utf8::decode_utf8_encode_utf8(sub);
        lemma_rd_names_shape(b, at + 2 + len, (n - 1) as nat);
        let (gs, e) = rd_names(b, at + 2 + len, (n - 1) as nat)->0;
        let all = seq![g] + gs;
        lemma_enc16_of_le16(b, at);
        assert(all.drop_first() =~= gs);
        assert(all[0] == g);
        assert forall|k: int| 0 <= k < all.len() implies group_ok(#[trigger] all[k]) by {
            if k > 0 {
                assert(all[k] == gs[k - 1]);
            }
        }
        assert(b.subrange(at, e) =~= b.subrange(at, at + 2) + sub + b.subrange(at + 2 + len, e));
    }
}

proof fn lemma_rd_msg_shape(b: Seq<u8>, at: int)
    requires
        rd_msg(b, at) is Some,
    ensures
        ({
            let (m, e) = rd_msg(b, at)->0;
            &&& 0 <= at <= e <= b.len()
            &&& msg_ok(m)
            &&& b.subrange(at, e) == enc_msg(m)
        }),
{
    reveal(rd_msg);
    let tl = le16(b, at);
    let tsub = b.subrange(at + 2, at + 2 + tl);
    vstd::utf8::decode_utf8_encode_utf8(tsub);
    let p = at + 2 + tl;
    let pl = le16(b, p);
    let psub = b.subrange(p + 2, p + 2 + pl);
    vstd::utf8::decode_utf8_encode_utf8(psub);
    let q = p + 2 + pl;
    let dl = le32(b, q);
    lemma_enc16_of_le16(b, at);
    lemma_enc16_of_le16(b, p);
    lemma_enc32_of_le32(b, q);
    let (m, e) = rd_msg(b, at)->0;
    assert(b.subrange(at, e) =~= b.subrange(at, at + 2) + tsub + b.subrange(p, p + 2) + psub
        + b.subrange(q, q + 4) + b.subrange(q + 4, e));
}

proof fn lemma_rd_msgs_shape(b: Seq<u8>, at: int, n: nat)
    requires
        rd_msgs(b, at, n) is Some,
        0 <= at <= b.len(),
    ensures
        ({
            let (ms, e) = rd_msgs(b, at, n)->0;
            &&& ms.len() == n
            &&& at <= e <= b.len()
            &&& forall|k: int| 0 <= k < ms.len() ==> msg_ok(#[trigger] ms[k])
            &&& b.subrange(at, e) == enc_msgs(ms)
        }),
    decreases n,
{
    if n == 0 {
        assert(b.subrange(at, at) =~= Seq::<u8>::empty());
    } else {
        lemma_rd_msg_shape(b, at);
        let (m, p) = rd_msg(b, at)->0;
        lemma_rd_msgs_shape(b, p, (n - 1) as nat);
        let (ms, e) = rd_msgs(b, p, (n - 1) as nat)->0;
        let all = seq![m] + ms;
        assert(all.drop_first() =~= ms);
        assert(all[0] == m);
        assert forall|k: int| 0 <= k < all.len() implies msg_ok(#[trigger] all[k]) by {
            if k > 0 {
                assert(all[k] == ms[k - 1]);
            }
        }
        assert(b.subrange(at, e) =~= b.subrange(at, p) + b.subrange(p, e));
    }
}

/// What reads back is admissible and encodes to exactly the bytes read.
pub proof fn law_outbox_read_is_exact(b: Seq<u8>)
    requires
        decode_outbox(b) is Some,
    ensures
        outbox_ok(decode_outbox(b)->0),
        encode_outbox(decode_outbox(b)->0) == b,
{
    let o = decode_outbox(b)->0;
    let (groups, at) = rd_groups(b)->0;
    if b[0] == 1 {
        let n = le16(b, 1);
        lemma_rd_names_shape(b, 3, n);
        lemma_enc16_of_le16(b, 1);
        assert(b.subrange(0, at) =~= seq![1u8] + b.subrange(1, 3) + b.subrange(3, at));
    } else {
        assert(b.subrange(0, 1) =~= seq![0u8]);
    }
    let n = le32(b, at);
    lemma_rd_msgs_shape(b, at + 4, n);
    lemma_enc32_of_le32(b, at);
    assert(b =~= b.subrange(0, at) + b.subrange(at, at + 4) + b.subrange(at + 4, b.len() as int));
}

/// No admissible outbox encodes to bytes that do not read back.
pub proof fn law_outbox_refusal_is_exact(b: Seq<u8>, o: OutboxView)
    requires
        decode_outbox(b) is None,
        outbox_ok(o),
    ensures
        encode_outbox(o) != b,
{
    law_outbox_round_trip(o);
}


// ---------------------------------------------------------------------------
// The parser
// ---------------------------------------------------------------------------

/// What a module's outbox returned.
#[derive(Debug, Clone, PartialEq, Eq)]
pub struct Outbox {
    /// Its groups, when they changed.
    pub groups: Option<Vec<String>>,
    /// (target, topic, data)
    pub messages: Vec<(String, String, Vec<u8>)>,
}

pub open spec fn strings_view(v: Seq<String>) -> Seq<Seq<char>> {
    v.map_values(|s: String| s@)
}

pub open spec fn message_view(m: (String, String, Vec<u8>)) -> MessageView {
    (m.0@, m.1@, m.2@)
}

impl View for Outbox {
    type V = OutboxView;

    open spec fn view(&self) -> OutboxView {
        OutboxView {
            groups: match self.groups {
                Some(v) => Some(strings_view(v@)),
                None => None,
            },
            messages: self.messages@.map_values(|m: (String, String, Vec<u8>)| message_view(m)),
        }
    }
}

fn read16(b: &[u8], at: usize) -> (r: Option<usize>)
    ensures
        r matches Some(n) ==> at + 2 <= b@.len() && n == le16(b@, at as int),
        r is None ==> at + 2 > b@.len(),
{
    if at < b.len() && b.len() - at >= 2 {
        Some(b[at] as usize + b[at + 1] as usize * 256)
    } else {
        None
    }
}

fn read32(b: &[u8], at: usize) -> (r: Option<usize>)
    ensures
        r matches Some(n) ==> at + 4 <= b@.len() && n == le32(b@, at as int),
        r is None ==> at + 4 > b@.len(),
{
    if at < b.len() && b.len() - at >= 4 {
        let x0 = b[at] as u64;
        let x1 = b[at + 1] as u64;
        let x2 = b[at + 2] as u64;
        let x3 = b[at + 3] as u64;
        let v = x0 + x1 * 256 + x2 * 65536 + x3 * 16777216;
        if v <= usize::MAX as u64 {
            Some(v as usize)
        } else {
            None
        }
    } else {
        None
    }
}

fn copy_range(b: &[u8], from: usize, to: usize) -> (v: Vec<u8>)
    requires
        from <= to <= b@.len(),
    ensures
        v@ == b@.subrange(from as int, to as int),
{
    let mut v: Vec<u8> = Vec::new();
    let mut k = from;
    while k < to
        invariant
            from <= k <= to <= b@.len(),
            v@ == b@.subrange(from as int, k as int),
        decreases to - k,
    {
        v.push(b[k]);
        proof {
            assert(v@ =~= b@.subrange(from as int, k + 1));
        }
        k += 1;
    }
    v
}

fn read_text(b: &[u8], at: usize, len: usize) -> (r: Option<String>)
    ensures
        r matches Some(s) ==> rd_text(b@, at as int, len as nat) == Some(s@) && at + len
            <= b@.len(),
        r is None ==> rd_text(b@, at as int, len as nat) is None,
{
    if at > b.len() || len > b.len() - at {
        return None;
    }
    let v = copy_range(b, at, at + len);
    string_from_utf8(v)
}

pub open spec fn prepend<T>(acc: Seq<T>, r: Option<(Seq<T>, int)>) -> Option<(Seq<T>, int)> {
    match r {
        None => None,
        Some((xs, e)) => Some((acc + xs, e)),
    }
}

fn read_msg(b: &[u8], at: usize) -> (r: Option<((String, String, Vec<u8>), usize)>)
    requires
        at <= b@.len(),
    ensures
        r matches Some((m, e)) ==> rd_msg(b@, at as int) == Some((message_view(m), e as int)),
        r is None ==> rd_msg(b@, at as int) is None,
{
    reveal(rd_msg);
    let blen = b.len();
    let tl = match read16(b, at) {
        Some(n) => n,
        None => return None,
    };
    let target = match read_text(b, at + 2, tl) {
        Some(t) => t,
        None => return None,
    };
    let p = at + 2 + tl;
    let pl = match read16(b, p) {
        Some(n) => n,
        None => return None,
    };
    if pl > MAX_TOPIC {
        return None;
    }
    let topic = match read_text(b, p + 2, pl) {
        Some(t) => t,
        None => return None,
    };
    let q = p + 2 + pl;
    let dl = match read32(b, q) {
        Some(n) => n,
        None => {
            proof {
                if q + 4 <= b@.len() {
                    assert(le32(b@, q as int) > usize::MAX);
                }
            }
            return None;
        },
    };
    if dl > MAX_DATA || dl > b.len() - (q + 4) {
        return None;
    }
    let data = copy_range(b, q + 4, q + 4 + dl);
    Some(((target, topic, data), q + 4 + dl))
}

fn failed(why: &str) -> (r: Result<Outbox, String>)
    ensures
        r matches Err(e) && e@ == why@,
{
    Err(String::from_str(why))
}

impl Outbox {
    /// Parse an outbox. `Ok` exactly when the bytes are the encoding of an
    /// admissible outbox, which it returns.
    pub fn parse(bytes: &[u8]) -> (r: Result<Self, String>)
        ensures
            r matches Ok(o) ==> decode_outbox(bytes@) == Some(o@) && outbox_ok(o@)
                && encode_outbox(o@) == bytes@,
            r is Err ==> decode_outbox(bytes@) is None && forall|o: OutboxView|
                outbox_ok(o) ==> #[trigger] encode_outbox(o) != bytes@,
    {
        let r = Self::read(bytes);
        proof {
            if r is Ok {
                law_outbox_read_is_exact(bytes@);
            } else {
                {
                    assert forall|o: OutboxView| outbox_ok(o) implies #[trigger] encode_outbox(o)
                        != bytes@ by {
                        law_outbox_refusal_is_exact(bytes@, o);
                    }
                }
            }
        }
        r
    }

    fn read(bytes: &[u8]) -> (r: Result<Self, String>)
        ensures
            r matches Ok(o) ==> decode_outbox(bytes@) == Some(o@),
            r is Err ==> decode_outbox(bytes@) is None,
    {
        let ghost b = bytes@;
        if bytes.len() < 1 {
            return failed("the outbox ends early");
        }
        let mut at: usize;
        let groups: Option<Vec<String>>;
        if bytes[0] == 0 {
            at = 1;
            groups = None;
        } else if bytes[0] == 1 {
            let n = match read16(bytes, 1) {
                Some(n) => n,
                None => return failed("the outbox ends early"),
            };
            if n > MAX_GROUPS {
                return failed("more than 64 groups");
            }
            let mut gs: Vec<String> = Vec::new();
            at = 3;
            let mut k: usize = 0;
            proof {
                assert(strings_view(gs@) + Seq::<Seq<char>>::empty() =~= Seq::<Seq<char>>::empty());
                assert(prepend(strings_view(gs@), rd_names(b, at as int, (n - k) as nat))
                    =~= rd_names(b, 3, n as nat));
            }
            while k < n
                invariant
                    b == bytes@,
                    k <= n <= MAX_GROUPS,
                    3 <= at <= b.len(),
                    b.len() >= 3,
                    b[0] == 1,
                    n == le16(b, 1),
                    rd_names(b, 3, n as nat) == prepend(
                        strings_view(gs@),
                        rd_names(b, at as int, (n - k) as nat),
                    ),
                decreases n - k,
            {
                let blen = bytes.len();
                let len = match read16(bytes, at) {
                    Some(l) => l,
                    None => {
                        proof {
                            assert(rd_names(b, at as int, (n - k) as nat) is None);
                            assert(rd_names(b, 3, n as nat) is None);
                            assert(rd_groups(b) is None);
                        }
                        return failed("the outbox ends early");
                    },
                };
                if len == 0 || len > MAX_GROUP {
                    proof {
                        assert(rd_names(b, at as int, (n - k) as nat) is None);
                        assert(rd_names(b, 3, n as nat) is None);
                        assert(rd_groups(b) is None);
                    }
                    return failed("a group name is 1 to 128 bytes");
                }
                let g = match read_text(bytes, at + 2, len) {
                    Some(g) => g,
                    None => {
                        proof {
                            assert(rd_names(b, at as int, (n - k) as nat) is None);
                            assert(rd_names(b, 3, n as nat) is None);
                            assert(rd_groups(b) is None);
                        }
                        return failed("a group name is not UTF-8 or the outbox ends early");
                    },
                };
                let ghost before = strings_view(gs@);
                gs.push(g);
                proof {
                    assert(strings_view(gs@) =~= before.push(g@));
                    let rest = rd_names(b, at + 2 + len, (n - k - 1) as nat);
                    match rest {
                        Some((xs, e)) => {
                            assert(before + (seq![g@] + xs) =~= strings_view(gs@) + xs);
                        },
                        None => {},
                    }
                }
                at = at + 2 + len;
                k += 1;
            }
            groups = Some(gs);
        } else {
            return failed("an unknown groups flag");
        }
        proof {
            assert(rd_groups(b) matches Some((g0, a0)) && a0 == at as int && g0 == (match groups {
                Some(v) => Some(strings_view(v@)),
                None => None,
            })) by {
                if b[0] == 1 {
                    assert(strings_view(groups->0@) + Seq::<Seq<char>>::empty() =~= strings_view(
                        groups->0@,
                    ));
                }
            }
        }
        let count = match read32(bytes, at) {
            Some(c) => c,
            None => {
                proof {
                    if at + 4 <= b.len() {
                        assert(le32(b, at as int) > usize::MAX);
                    }
                }
                return failed("the outbox ends early");
            },
        };
        if count > MAX_MESSAGES_PER_TICK {
            return failed("more than 64 messages in one tick");
        }
        let mut messages: Vec<(String, String, Vec<u8>)> = Vec::new();
        at = at + 4;
        let ghost start = at;
        let mut k: usize = 0;
        proof {
            assert(messages@.map_values(|m: (String, String, Vec<u8>)| message_view(m)) + Seq::<
                MessageView,
            >::empty() =~= Seq::<MessageView>::empty());
        }
        while k < count
            invariant
                b == bytes@,
                k <= count <= MAX_MESSAGES_PER_TICK,
                start <= at <= b.len(),
                start >= 4,
                rd_groups(b) matches Some((g0, a0)) && a0 == start - 4,
                count == le32(b, start - 4),
                start <= b.len(),
                rd_msgs(b, start as int, count as nat) == prepend(
                    messages@.map_values(|m: (String, String, Vec<u8>)| message_view(m)),
                    rd_msgs(b, at as int, (count - k) as nat),
                ),
            decreases count - k,
        {
            let (m, e) = match read_msg(bytes, at) {
                Some(x) => x,
                None => {
                    proof {
                        assert(rd_msgs(b, at as int, (count - k) as nat) is None);
                        assert(rd_msgs(b, start as int, count as nat) is None);
                    }
                    return failed("a message is malformed or the outbox ends early");
                },
            };
            proof {
                reveal(rd_msg);
            }
            let ghost before = messages@.map_values(|m: (String, String, Vec<u8>)| message_view(m));
            let ghost mv = message_view(m);
            messages.push(m);
            proof {
                assert(messages@.map_values(|m: (String, String, Vec<u8>)| message_view(m))
                    =~= before.push(mv));
                let rest = rd_msgs(b, e as int, (count - k - 1) as nat);
                match rest {
                    Some((xs, e2)) => {
                        assert(before + (seq![mv] + xs) =~= before.push(mv) + xs);
                    },
                    None => {},
                }
            }
            at = e;
            k += 1;
        }
        if at != bytes.len() {
            return failed("bytes after the last message");
        }
        proof {
            let mv = messages@.map_values(|m: (String, String, Vec<u8>)| message_view(m));
            assert(mv + Seq::<MessageView>::empty() =~= mv);
        }
        Ok(Outbox { groups, messages })
    }
}

} // verus!
