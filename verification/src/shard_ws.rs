//! What a shard WebSocket connection reads from its upgrade request: the
//! query parameters, the bearer token and the shard ticket, and the
//! subprotocol to echo back; and the per-IP connection cap.

use vstd::prelude::*;

use crate::text::opt_view;
use vstd::utf8::encode_utf8;

use crate::percent::{
    strict_decoded, url_decode, url_decoded, urldecode_strict,
};
use crate::text::{
    chars_eq, chars_of, find_char, first_index_of, is_white, lemma_first_index_of, lemma_trim_end_at,
    lemma_trim_start_at, parse_u64, parse_u64_spec, push_str, slice_chars, starts_with, string_from_chars, string_from_suffix, trim_chars, trimmed,
};

verus! {

// ---------------------------------------------------------------------------
// Query parameters
// ---------------------------------------------------------------------------

/// The value of the first `key=value` pair of `query` (pairs split at `&`,
/// key and value at the first `=`, a pair without `=` has an empty value)
/// whose key is `key`, decoded.
pub open spec fn query_value(query: Seq<char>, key: Seq<char>) -> Option<Seq<char>>
    decreases query.len(),
{
    let i = first_index_of(query, '&');
    let pair = query.take(i);
    let j = first_index_of(pair, '=');
    let k = pair.take(j);
    let v = if j < pair.len() {
        pair.skip(j + 1)
    } else {
        Seq::empty()
    };
    if k == key {
        Some(url_decoded(encode_utf8(v)))
    } else if i >= query.len() {
        None
    } else {
        proof {
            lemma_first_index_of(query, '&');
        }
        query_value(query.skip(i + 1), key)
    }
}

/// The decoded value of parameter `key` in `query`.
pub fn query_param(query: &str, key: &str) -> (r: Option<String>)
    ensures
        match r {
            Some(v) => query_value(query@, key@) == Some(v@),
            None => query_value(query@, key@) is None,
        },
{
    let q = chars_of(query);
    let kc = chars_of(key);
    let n = q.len();
    let mut pos: usize = 0;
    proof {
        assert(q@.skip(0) =~= q@);
    }
    loop
        invariant
            pos <= n == q@.len(),
            q@ == query@,
            kc@ == key@,
            query_value(query@, key@) == query_value(q@.skip(pos as int), key@),
        decreases n - pos,
    {
        let ghost s = q@.skip(pos as int);
        let iend = find_char(q.as_slice(), '&', pos);
        proof {
            lemma_first_index_of(s, '&');
        }
        let pair = slice_chars(q.as_slice(), pos, iend);
        proof {
            assert(pair@ =~= s.take(iend - pos));
        }
        let j = find_char(pair.as_slice(), '=', 0);
        proof {
            assert(pair@.skip(0) =~= pair@);
            lemma_first_index_of(pair@, '=');
        }
        let k = slice_chars(pair.as_slice(), 0, j);
        proof {
            assert(k@ =~= pair@.take(j as int));
        }
        if chars_eq(k.as_slice(), kc.as_slice()) {
            let v = if j < pair.len() {
                let t = slice_chars(pair.as_slice(), j + 1, pair.len());
                proof {
                    assert(t@ =~= pair@.skip(j + 1));
                }
                t
            } else {
                Vec::new()
            };
            let vs = string_from_chars(v.as_slice());
            return Some(url_decode(vs.as_str()));
        }
        if iend >= n {
            return None;
        }
        proof {
            assert(s.skip(iend - pos + 1) =~= q@.skip(iend + 1));
        }
        pos = iend + 1;
    }
}

// ---------------------------------------------------------------------------
// The upgrade request
// ---------------------------------------------------------------------------

/// The shard parameters an upgrade request carries.
pub struct HandshakeParams {
    pub uri: String,
    pub auth_header: Option<String>,
    pub bearer_from_subprotocol: Option<String>,
    /// A shard ticket from `X-Pylon-Shard-Ticket` or a `ticket.` subprotocol.
    pub ticket: Option<String>,
}

/// What reading the headers has found so far, and the subprotocol chosen.
pub ghost struct HandshakeView {
    pub auth: Option<Seq<char>>,
    pub bearer: Option<Seq<char>>,
    pub ticket: Option<Seq<char>>,
    pub chosen: Option<Seq<char>>,
}


pub open spec fn ascii_lower_char(c: char) -> char {
    if 'A' <= c <= 'Z' {
        ((c as u32) + 32) as char
    } else {
        c
    }
}

/// `s` with ASCII capitals made small, as `str::to_ascii_lowercase` does.
pub open spec fn ascii_lower(s: Seq<char>) -> Seq<char> {
    s.map_values(|c: char| ascii_lower_char(c))
}

/// One offered subprotocol: a `bearer.` token is taken when none was yet
/// and it decodes, and chosen; a `ticket.` ticket is taken when it
/// decodes, and chosen when nothing was.
pub open spec fn proto_step(h: HandshakeView, proto: Seq<char>) -> HandshakeView {
    if proto.len() >= 7 && proto.take(7) == "bearer."@ {
        if h.bearer is None {
            match strict_decoded(proto.skip(7)) {
                Ok(d) => HandshakeView { bearer: Some(d), chosen: Some(proto), ..h },
                Err(_) => h,
            }
        } else {
            h
        }
    } else if proto.len() >= 7 && proto.take(7) == "ticket."@ {
        match strict_decoded(proto.skip(7)) {
            Ok(d) => HandshakeView {
                ticket: Some(d),
                chosen: if h.chosen is Some {
                    h.chosen
                } else {
                    Some(proto)
                },
                ..h
            },
            Err(_) => h,
        }
    } else {
        h
    }
}

/// The subprotocols of a `Sec-WebSocket-Protocol` value, split at commas
/// and trimmed, read in order.
pub open spec fn protos_step(h: HandshakeView, v: Seq<char>) -> HandshakeView
    decreases v.len(),
{
    let i = first_index_of(v, ',');
    let h1 = proto_step(h, trimmed(v.take(i)));
    if i >= v.len() {
        h1
    } else {
        proof {
            lemma_first_index_of(v, ',');
        }
        protos_step(h1, v.skip(i + 1))
    }
}

/// One header: `Authorization`, `X-Pylon-Shard-Ticket`, and
/// `Sec-WebSocket-Protocol` count, named in any case.
pub open spec fn header_step(h: HandshakeView, name: Seq<char>, v: Seq<char>) -> HandshakeView {
    let lower = ascii_lower(name);
    if lower == "authorization"@ {
        HandshakeView { auth: Some(v), ..h }
    } else if lower == "x-pylon-shard-ticket"@ {
        HandshakeView { ticket: Some(v), ..h }
    } else if lower == "sec-websocket-protocol"@ {
        protos_step(h, v)
    } else {
        h
    }
}

pub open spec fn no_handshake() -> HandshakeView {
    HandshakeView { auth: None, bearer: None, ticket: None, chosen: None }
}

/// The headers, read in order.
pub open spec fn headers_step(hs: Seq<(String, String)>) -> HandshakeView
    decreases hs.len(),
{
    if hs.len() == 0 {
        no_handshake()
    } else {
        header_step(headers_step(hs.drop_last()), hs.last().0@, hs.last().1@)
    }
}

pub open spec fn view_of(p: HandshakeParams, chosen: Option<String>) -> HandshakeView {
    HandshakeView {
        auth: opt_view(p.auth_header),
        bearer: opt_view(p.bearer_from_subprotocol),
        ticket: opt_view(p.ticket),
        chosen: opt_view(chosen),
    }
}

fn lower_chars(s: &str) -> (r: Vec<char>)
    ensures
        r@ == ascii_lower(s@),
{
    let cs = chars_of(s);
    let mut r: Vec<char> = Vec::new();
    let mut k: usize = 0;
    while k < cs.len()
        invariant
            k <= cs@.len(),
            cs@ == s@,
            r@ == ascii_lower(cs@.take(k as int)),
        decreases cs@.len() - k,
    {
        let c = cs[k];
        let l = if 'A' <= c && c <= 'Z' {
            ((c as u32) + 32) as u8 as char
        } else {
            c
        };
        proof {
            if 'A' <= c <= 'Z' {
                assert(l == ascii_lower_char(c));
            }
        }
        r.push(l);
        proof {
            assert(r@ =~= ascii_lower(cs@.take(k + 1)));
        }
        k += 1;
    }
    proof {
        assert(cs@.take(cs@.len() as int) =~= cs@);
    }
    r
}

fn is_literal(s: &[char], lit: &str) -> (b: bool)
    ensures
        b == (s@ == lit@),
{
    let l = chars_of(lit);
    chars_eq(s, l.as_slice())
}

fn read_proto(
    p: &mut HandshakeParams,
    chosen: &mut Option<String>,
    proto: &[char],
)
    ensures
        view_of(*final(p), *final(chosen)) == proto_step(view_of(*old(p), *old(chosen)), proto@),
        final(p).uri == old(p).uri,
{
    proof {
        reveal_strlit("bearer.");
        reveal_strlit("ticket.");
    }
    let bearer = chars_of("bearer.");
    let ticket = chars_of("ticket.");
    if starts_with(proto, bearer.as_slice()) {
        if p.bearer_from_subprotocol.is_none() {
            let enc = string_from_suffix(proto, 7);
            match urldecode_strict(enc.as_str()) {
                Ok(d) => {
                    p.bearer_from_subprotocol = Some(d);
                    *chosen = Some(string_from_chars(proto));
                },
                Err(_) => {},
            }
        }
    } else if starts_with(proto, ticket.as_slice()) {
        let enc = string_from_suffix(proto, 7);
        match urldecode_strict(enc.as_str()) {
            Ok(d) => {
                p.ticket = Some(d);
                if chosen.is_none() {
                    *chosen = Some(string_from_chars(proto));
                }
            },
            Err(_) => {},
        }
    }
}

/// Read the shard parameters from an upgrade request's URI and headers.
/// Returns them and the subprotocol to echo back, if any.
pub fn read_handshake(uri: String, headers: &[(String, String)]) -> (r: (
    HandshakeParams,
    Option<String>,
))
    ensures
        r.0.uri == uri,
        view_of(r.0, r.1) == headers_step(headers@),
{
    let mut p = HandshakeParams {
        uri,
        auth_header: None,
        bearer_from_subprotocol: None,
        ticket: None,
    };
    let mut chosen: Option<String> = None;
    let mut k: usize = 0;
    proof {
        assert(headers@.take(0) =~= Seq::<(String, String)>::empty());
    }
    while k < headers.len()
        invariant
            k <= headers@.len(),
            p.uri == uri,
            view_of(p, chosen) == headers_step(headers@.take(k as int)),
        decreases headers@.len() - k,
    {
        let name = headers[k].0.as_str();
        let v = headers[k].1.as_str();
        let lower = lower_chars(name);
        proof {
            let t = headers@.take(k + 1);
            assert(t.drop_last() =~= headers@.take(k as int));
            assert(t.last() == headers@[k as int]);
        }
        if is_literal(lower.as_slice(), "authorization") {
            p.auth_header = Some(String::from_str(v));
        } else if is_literal(lower.as_slice(), "x-pylon-shard-ticket") {
            p.ticket = Some(String::from_str(v));
        } else if is_literal(lower.as_slice(), "sec-websocket-protocol") {
            let vc = chars_of(v);
            let n = vc.len();
            let mut pos: usize = 0;
            let ghost start = view_of(p, chosen);
            proof {
                assert(vc@.skip(0) =~= vc@);
            }
            loop
                invariant
                    pos <= n == vc@.len(),
                    vc@ == v@,
                    p.uri == uri,
                    protos_step(start, v@) == protos_step(view_of(p, chosen), vc@.skip(pos as int)),
                ensures
                    p.uri == uri,
                    protos_step(start, v@) == view_of(p, chosen),
                decreases n - pos,
            {
                let ghost s = vc@.skip(pos as int);
                let iend = find_char(vc.as_slice(), ',', pos);
                proof {
                    lemma_first_index_of(s, ',');
                }
                let piece = slice_chars(vc.as_slice(), pos, iend);
                proof {
                    assert(piece@ =~= s.take(iend - pos));
                }
                let proto = trim_chars(piece.as_slice());
                read_proto(&mut p, &mut chosen, proto.as_slice());
                if iend >= n {
                    break;
                }
                proof {
                    assert(s.skip(iend - pos + 1) =~= vc@.skip(iend + 1));
                }
                pos = iend + 1;
            }
        }
        k += 1;
    }
    proof {
        assert(headers@.take(headers@.len() as int) =~= headers@);
    }
    (p, chosen)
}

/// The subprotocol to echo in a shard upgrade response, when the request
/// offered a `bearer.` or `ticket.` one.
pub fn chosen_subprotocol(headers: &[(String, String)]) -> (r: Option<String>)
    ensures
        opt_view(r) == headers_step(headers@).chosen,
{
    read_handshake(String::new(), headers).1
}

// ---------------------------------------------------------------------------
// Connection caps
// ---------------------------------------------------------------------------

/// Concurrent shard connections one IP may hold when nothing is set.
pub const DEFAULT_MAX_CONNECTIONS_PER_IP: u32 = 64;

/// The cap a per-IP counter enforces: `max_per_ip`, or no cap (the
/// largest count) for zero.
pub fn ip_counter_cap(max_per_ip: u32) -> (cap: u32)
    ensures
        cap == (if max_per_ip == 0 {
            u32::MAX
        } else {
            max_per_ip
        }),
{
    if max_per_ip == 0 {
        u32::MAX
    } else {
        max_per_ip
    }
}

/// Worker threads for the connection runtime: the machine's cores, two
/// when unknown, between 2 and 8.
pub fn worker_threads(cores: Option<usize>) -> (n: usize)
    ensures
        n == (match cores {
            Some(c) => if c < 2 {
                2
            } else if c > 8 {
                8
            } else {
                c
            },
            None => 2,
        }),
{
    match cores {
        Some(c) => if c < 2 {
            2
        } else if c > 8 {
            8
        } else {
            c
        },
        None => 2,
    }
}

/// The per-IP cap a setting names: its trimmed value as a number, or the
/// default when it is unset or not a number that fits.
pub open spec fn per_ip_setting(v: Option<Seq<char>>) -> u32 {
    match v {
        Some(s) => match parse_u64_spec(trimmed(s)) {
            Some(n) => if n <= u32::MAX {
                n as u32
            } else {
                DEFAULT_MAX_CONNECTIONS_PER_IP
            },
            None => DEFAULT_MAX_CONNECTIONS_PER_IP,
        },
        None => DEFAULT_MAX_CONNECTIONS_PER_IP,
    }
}

/// Concurrent shard connections one IP may hold, from the value of
/// `PYLON_SHARD_WS_MAX_PER_IP` (default 64; 0 = no cap).
pub fn max_connections_per_ip(v: Option<&str>) -> (n: u32)
    ensures
        n == per_ip_setting(match v {
            Some(s) => Some(s@),
            None => None,
        }),
{
    match v {
        Some(s) => {
            let cs = chars_of(s);
            let t = trim_chars(cs.as_slice());
            match parse_u64(t.as_slice()) {
                Some(n) => if n <= u32::MAX as u64 {
                    n as u32
                } else {
                    DEFAULT_MAX_CONNECTIONS_PER_IP
                },
                None => DEFAULT_MAX_CONNECTIONS_PER_IP,
            }
        },
        None => DEFAULT_MAX_CONNECTIONS_PER_IP,
    }
}

// ---------------------------------------------------------------------------
// The connection
// ---------------------------------------------------------------------------

/// The query of a request URI: what follows its first `?`, else nothing.
pub open spec fn uri_query(uri: Seq<char>) -> Seq<char> {
    let i = first_index_of(uri, '?');
    if i < uri.len() {
        uri.skip(i + 1)
    } else {
        Seq::empty()
    }
}

/// What a connection serves: the shard, the subscriber, and the wire
/// protocol version.
pub struct ConnectionTarget {
    pub shard_id: String,
    pub sid: String,
    pub version: u8,
}

/// The subscriber a connection names: its `sid`, else `anon`.
pub open spec fn sid_of(query: Seq<char>) -> Seq<char> {
    match query_value(query, "sid"@) {
        Some(s) => s,
        None => "anon"@,
    }
}

/// The wire protocol version a connection asks for: 2 for `v=2`, else 1.
pub open spec fn version_of(query: Seq<char>) -> u8 {
    if query_value(query, "v"@) == Some("2"@) {
        2
    } else {
        1
    }
}

/// The shard, subscriber and protocol version of a connection with request
/// URI `uri`; refused without a `shard` parameter.
pub fn connection_target(uri: &str) -> (r: Result<ConnectionTarget, String>)
    ensures
        match query_value(uri_query(uri@), "shard"@) {
            None => r matches Err(e) && e@ == "missing ?shard= parameter"@,
            Some(shard) => r matches Ok(t) && t.shard_id@ == shard && t.sid@ == sid_of(
                uri_query(uri@),
            ) && t.version == version_of(uri_query(uri@)),
        },
{
    let cs = chars_of(uri);
    let i = find_char(cs.as_slice(), '?', 0);
    proof {
        assert(cs@.skip(0) =~= cs@);
        lemma_first_index_of(cs@, '?');
    }
    let query = if i < cs.len() {
        string_from_suffix(cs.as_slice(), i + 1)
    } else {
        String::new()
    };
    proof {
        assert(query@ == uri_query(uri@));
    }
    let shard_id = match query_param(query.as_str(), "shard") {
        Some(s) => s,
        None => {
            return Err(String::from_str("missing ?shard= parameter"));
        },
    };
    let sid = match query_param(query.as_str(), "sid") {
        Some(s) => s,
        None => String::from_str("anon"),
    };
    let version: u8 = match query_param(query.as_str(), "v") {
        Some(v) => {
            let vc = chars_of(v.as_str());
            let two = chars_of("2");
            if chars_eq(vc.as_slice(), two.as_slice()) {
                2
            } else {
                1
            }
        },
        None => 1,
    };
    Ok(ConnectionTarget { shard_id, sid, version })
}

/// The bearer token of a connection: the `Authorization: Bearer` header's,
/// else the one a `bearer.` subprotocol carried.
pub open spec fn bearer_token_of(auth: Option<Seq<char>>, from_subprotocol: Option<Seq<char>>) -> Option<
    Seq<char>,
> {
    match auth {
        Some(h) => if h.len() >= 7 && h.take(7) == "Bearer "@ {
            Some(h.skip(7))
        } else {
            from_subprotocol
        },
        None => from_subprotocol,
    }
}

/// The bearer token the upgrade request carried (see [`bearer_token_of`]).
pub fn bearer_token(p: &HandshakeParams) -> (r: Option<String>)
    ensures
        opt_view(r) == bearer_token_of(opt_view(p.auth_header), opt_view(p.bearer_from_subprotocol)),
{
    let fallback = match &p.bearer_from_subprotocol {
        Some(b) => Some(String::from_str(b.as_str())),
        None => None,
    };
    match &p.auth_header {
        Some(h) => {
            let hc = chars_of(h.as_str());
            let prefix = chars_of("Bearer ");
            proof {
                reveal_strlit("Bearer ");
            }
            if starts_with(hc.as_slice(), prefix.as_slice()) {
                Some(string_from_suffix(hc.as_slice(), 7))
            } else {
                fallback
            }
        },
        None => fallback,
    }
}

/// How a connection is closed: the WebSocket close codes the server uses.
#[derive(Debug, Clone, Copy, PartialEq, Eq, Structural)]
pub enum CloseCode {
    /// 1000, normal closure.
    Normal,
    /// 1002, protocol error.
    Protocol,
    /// 1008, policy violation.
    Policy,
    /// 1013, try again later.
    Again,
}

/// Why a connection was refused before its subscription started.
pub enum Refusal {
    /// The shard ticket did not verify; the text says why.
    BadTicket(String),
    /// No shard of that id runs here.
    NoShard,
    /// The shard's subscribe hook refused; the text says why.
    Unauthorized(String),
    /// Subscribing failed otherwise; the text says how.
    Failed(String),
}

/// The close code and reason of a refused connection to `shard_id`.
pub open spec fn refusal_close(r: Refusal, shard_id: Seq<char>) -> (CloseCode, Seq<char>) {
    match r {
        Refusal::BadTicket(e) => (CloseCode::Policy, "unauthorized: "@ + e@),
        Refusal::NoShard => (CloseCode::Policy, "shard \""@ + shard_id + "\" not found"@),
        Refusal::Unauthorized(e) => (CloseCode::Policy, "unauthorized: "@ + e@),
        Refusal::Failed(e) => (CloseCode::Again, e@),
    }
}

/// How to close a connection to `shard_id` refused for `r`.
pub fn close_for(r: Refusal, shard_id: &str) -> (c: (CloseCode, String))
    ensures
        (c.0, c.1@) == refusal_close(r, shard_id@),
{
    match r {
        Refusal::BadTicket(e) => {
            let mut s = String::from_str("unauthorized: ");
            push_str(&mut s, e.as_str());
            (CloseCode::Policy, s)
        },
        Refusal::NoShard => {
            let mut s = String::from_str("shard \"");
            push_str(&mut s, shard_id);
            push_str(&mut s, "\" not found");
            (CloseCode::Policy, s)
        },
        Refusal::Unauthorized(e) => {
            let mut s = String::from_str("unauthorized: ");
            push_str(&mut s, e.as_str());
            (CloseCode::Policy, s)
        },
        Refusal::Failed(e) => (CloseCode::Again, e),
    }
}

/// What a frame from a subscriber's queue carries.
#[derive(Debug, Clone, Copy, PartialEq, Eq, Structural)]
pub enum FrameKind {
    Snapshot,
    /// The shard refused one of the subscriber's inputs.
    InputRejected,
    /// Replicated entities.
    Replication,
}

/// What the writer does with a frame from the queue.
#[derive(Debug, Clone, PartialEq, Eq)]
pub enum WriterAction {
    /// Send it in the version 2 framing, with its kind, in the replication
    /// codec when `replication_codec`, else in the shard's.
    SendV2 { kind: FrameKind, replication_codec: bool },
    /// Send it in the version 1 framing (tick and bytes).
    SendV1,
    /// Send nothing: version 1 has no such frame.
    Skip,
    /// Close the connection.
    Close(CloseCode, String),
}

/// The reason a version 1 connection to a replicating shard is closed.
pub open spec fn needs_v2_reason() -> Seq<char> {
    "this shard replicates entities; connect with protocol v=2"@
}

/// What the writer does with a frame of kind `kind` on a connection of
/// protocol `version`: version 2 sends every kind, in the replication codec
/// for replication; version 1 sends snapshots, skips rejections, and closes
/// on replication, which it cannot mark.
pub open spec fn writer_does(version: u8, kind: FrameKind, a: WriterAction) -> bool {
    if version == 2 {
        a == (WriterAction::SendV2 { kind, replication_codec: kind == FrameKind::Replication })
    } else {
        match kind {
            FrameKind::Snapshot => a == WriterAction::SendV1,
            FrameKind::InputRejected => a == WriterAction::Skip,
            FrameKind::Replication => a matches WriterAction::Close(code, reason) && code
                == CloseCode::Protocol && reason@ == needs_v2_reason(),
        }
    }
}

/// What to do with a frame of kind `kind` on a connection of protocol
/// `version` (see [`writer_does`]).
pub fn writer_step(version: u8, kind: FrameKind) -> (a: WriterAction)
    ensures
        writer_does(version, kind, a),
{
    if version == 2 {
        let replication_codec = match kind {
            FrameKind::Replication => true,
            _ => false,
        };
        WriterAction::SendV2 { kind, replication_codec }
    } else {
        match kind {
            FrameKind::Snapshot => WriterAction::SendV1,
            FrameKind::InputRejected => WriterAction::Skip,
            FrameKind::Replication => WriterAction::Close(
                CloseCode::Protocol,
                String::from_str("this shard replicates entities; connect with protocol v=2"),
            ),
        }
    }
}

/// How the writer closes a connection whose queue closed: the client was
/// too slow while the shard runs, else the shard stopped.
pub fn queue_closed(shard_running: bool) -> (c: (CloseCode, String))
    ensures
        shard_running ==> c.0 == CloseCode::Again && c.1@ == "client too slow"@,
        !shard_running ==> c.0 == CloseCode::Normal && c.1@ == "shard stopped"@,
{
    if shard_running {
        (CloseCode::Again, String::from_str("client too slow"))
    } else {
        (CloseCode::Normal, String::from_str("shard stopped"))
    }
}

/// A connection that sends nothing, not even a pong, for this long is
/// closed.
pub const IDLE_TIMEOUT_MS: u64 = 60_000;

/// How a connection ended.
#[derive(Debug, Clone, PartialEq, Eq)]
pub enum ConnectionEnd {
    /// The client closed it.
    ClientClosed,
    /// The server closed it, or it failed; the text says why.
    Closed(String),
}

/// What the reader sees next.
pub enum ReaderEvent {
    /// The writer ended, for this reason.
    WriterStopped(String),
    /// The periodic check, at `now_ms`, with whether the queue closed.
    Check { now_ms: u64, queue_closed: bool },
    /// A text frame arrived at `now_ms`.
    Text { now_ms: u64 },
    /// A binary frame arrived at `now_ms`.
    Binary { now_ms: u64 },
    /// A close frame arrived.
    Close,
    /// A ping or pong arrived at `now_ms`.
    Other { now_ms: u64 },
    /// The client's stream ended.
    Ended,
    /// Reading failed, for this reason.
    Failed(String),
}

/// In which format an input arrived.
#[derive(Debug, Clone, Copy, PartialEq, Eq, Structural)]
pub enum InputFormat {
    Json,
    /// The shard's snapshot codec.
    ShardCodec,
}

/// What the reader does next.
#[derive(Debug, Clone, PartialEq, Eq)]
pub enum ReaderAction {
    /// Wait for the next event.
    Continue,
    /// Hand the frame to the shard as an input in `format`; a refused one
    /// is answered on the connection when `answer_rejection`.
    Input { format: InputFormat, answer_rejection: bool },
    /// The connection ends.
    End(ConnectionEnd),
}

/// The reader's state: when the client was last heard from.
pub struct ReaderState {
    pub last_activity_ms: u64,
}

/// The reader's next state and action on `e`, when the client was last
/// heard from at `last`, on a connection of protocol `version`. Any frame
/// from the client counts as activity; the check ends a connection whose
/// queue closed (its writer is stuck sending to a client that stopped
/// reading) or whose client was silent for [`IDLE_TIMEOUT_MS`]. Text frames
/// are JSON; binary frames are in the shard's codec in version 2, JSON in
/// version 1; a refused input is answered in version 2 only.
pub open spec fn reader_does(last: u64, version: u8, e: ReaderEvent, r: (ReaderState, ReaderAction)) -> bool {
    let v2 = version == 2;
    match e {
        ReaderEvent::WriterStopped(why) => r.1 == ReaderAction::End(ConnectionEnd::Closed(why)),
        ReaderEvent::Check { now_ms, queue_closed } => r.0.last_activity_ms == last && if queue_closed {
            r.1 matches ReaderAction::End(ConnectionEnd::Closed(why)) && why@
                == "client too slow; outbound queue closed"@
        } else if now_ms >= last + IDLE_TIMEOUT_MS {
            r.1 matches ReaderAction::End(ConnectionEnd::Closed(why)) && why@ == "idle timeout"@
        } else {
            r.1 == ReaderAction::Continue
        },
        ReaderEvent::Text { now_ms } => r.0.last_activity_ms == now_ms && r.1 == (ReaderAction::Input {
            format: InputFormat::Json,
            answer_rejection: v2,
        }),
        ReaderEvent::Binary { now_ms } => r.0.last_activity_ms == now_ms && r.1 == (ReaderAction::Input {
            format: if v2 {
                InputFormat::ShardCodec
            } else {
                InputFormat::Json
            },
            answer_rejection: v2,
        }),
        ReaderEvent::Close => r.1 == ReaderAction::End(ConnectionEnd::ClientClosed),
        ReaderEvent::Other { now_ms } => r.0.last_activity_ms == now_ms && r.1 == ReaderAction::Continue,
        ReaderEvent::Ended => r.1 == ReaderAction::End(ConnectionEnd::ClientClosed),
        ReaderEvent::Failed(why) => r.1 matches ReaderAction::End(ConnectionEnd::Closed(t)) && t@
            == "ws read: "@ + why@,
    }
}

/// The reader's next state and action on `e` (see [`reader_does`]).
pub fn reader_step(state: ReaderState, version: u8, e: ReaderEvent) -> (r: (ReaderState, ReaderAction))
    ensures
        reader_does(state.last_activity_ms, version, e, r),
{
    let last = state.last_activity_ms;
    match e {
        ReaderEvent::WriterStopped(why) => (state, ReaderAction::End(ConnectionEnd::Closed(why))),
        ReaderEvent::Check { now_ms, queue_closed } => {
            if queue_closed {
                (
                    state,
                    ReaderAction::End(
                        ConnectionEnd::Closed(
                            String::from_str("client too slow; outbound queue closed"),
                        ),
                    ),
                )
            } else if now_ms >= last && now_ms - last >= IDLE_TIMEOUT_MS {
                (state, ReaderAction::End(ConnectionEnd::Closed(String::from_str("idle timeout"))))
            } else {
                (state, ReaderAction::Continue)
            }
        },
        ReaderEvent::Text { now_ms } => (
            ReaderState { last_activity_ms: now_ms },
            ReaderAction::Input { format: InputFormat::Json, answer_rejection: version == 2 },
        ),
        ReaderEvent::Binary { now_ms } => {
            let format = if version == 2 {
                InputFormat::ShardCodec
            } else {
                InputFormat::Json
            };
            (
                ReaderState { last_activity_ms: now_ms },
                ReaderAction::Input { format, answer_rejection: version == 2 },
            )
        },
        ReaderEvent::Close => (state, ReaderAction::End(ConnectionEnd::ClientClosed)),
        ReaderEvent::Other { now_ms } => (
            ReaderState { last_activity_ms: now_ms },
            ReaderAction::Continue,
        ),
        ReaderEvent::Ended => (state, ReaderAction::End(ConnectionEnd::ClientClosed)),
        ReaderEvent::Failed(why) => {
            let mut t = String::from_str("ws read: ");
            push_str(&mut t, why.as_str());
            (state, ReaderAction::End(ConnectionEnd::Closed(t)))
        },
    }
}

/// A connection's bearer token: an `Authorization: Bearer <t>` header gives
/// `t`, whatever subprotocol came with it; without such a header (none, or
/// one of another scheme) the token is the one a `bearer.` subprotocol
/// carried, if any.
pub proof fn law_bearer_header_first(t: Seq<char>, other: Seq<char>, sub: Option<Seq<char>>)
    requires
        !(other.len() >= 7 && other.take(7) == "Bearer "@),
    ensures
        bearer_token_of(Some("Bearer "@ + t), sub) == Some(t),
        bearer_token_of(Some(other), sub) == sub,
        bearer_token_of(None, sub) == sub,
{
    reveal_strlit("Bearer ");
    let h = "Bearer "@ + t;
    assert(h.take(7) =~= "Bearer "@);
    assert(h.skip(7) =~= t);
}

/// A query parameter is found by its key: in `key=v`, alone or after pairs
/// of other keys, `key` has the value `v` decoded; a pair `key` without
/// `=` has the empty value; and the first pair with the key wins.
#[verifier::rlimit(40)]
pub proof fn law_query_value_by_key(key: Seq<char>, v: Seq<char>, w: Seq<char>, before: Seq<char>)
    requires
        !key.contains('&'),
        !key.contains('='),
        !v.contains('&'),
        !before.contains('&'),
        first_index_of(before, '=') < before.len() ==> before.take(first_index_of(before, '='))
            != key,
        first_index_of(before, '=') >= before.len() ==> before != key,
    ensures
        query_value(key + "="@ + v, key) == Some(url_decoded(encode_utf8(v))),
        query_value(key + "="@ + v + "&"@ + key + "="@ + w, key) == Some(url_decoded(encode_utf8(v))),
        query_value(before + "&"@ + key + "="@ + v, key) == Some(url_decoded(encode_utf8(v))),
        query_value(key, key) == Some(url_decoded(encode_utf8(Seq::empty()))),
{
    reveal_strlit("=");
    reveal_strlit("&");
    let e: Seq<char> = Seq::empty();
    assert(key + e =~= key);
    lemma_join_first(key, e, '&');
    lemma_join_first(key, e, '=');
    assert(key.take(key.len() as int) =~= key);
    // `key=v`
    let p1 = key + ("="@ + v);
    lemma_no_char_join(key, "="@, '&');
    lemma_no_char_join(key + "="@, v, '&');
    assert(p1 =~= (key + "="@) + v);
    assert(p1 + e =~= p1);
    lemma_join_first(p1, e, '&');
    assert(p1.take(p1.len() as int) =~= p1);
    lemma_join_first(key, "="@ + v, '=');
    assert(p1.take(key.len() as int) =~= key);
    assert(p1.skip(key.len() + 1int) =~= v);
    assert(key + "="@ + v =~= p1);
    // `key=v&key=w`
    let p2 = key + "="@ + v + ("&"@ + key + "="@ + w);
    lemma_join_first(key + "="@ + v, "&"@ + key + "="@ + w, '&');
    assert(p2.take((key + "="@ + v).len() as int) =~= p1);
    assert(key + "="@ + v + "&"@ + key + "="@ + w =~= p2);
    // `before&key=v`
    let p3 = before + ("&"@ + key + "="@ + v);
    lemma_join_first(before, "&"@ + key + "="@ + v, '&');
    assert(p3.take(before.len() as int) =~= before);
    assert(p3.skip(before.len() + 1int) =~= p1);
    assert(before + "&"@ + key + "="@ + v =~= p3);
    lemma_first_index_of(before, '=');
    if first_index_of(before, '=') >= before.len() {
        assert(before.take(first_index_of(before, '=')) =~= before);
    }
}

/// The first `c` of `h + t`, where `h` holds no `c` and `t` is empty or
/// starts with one, is at the end of `h`.
proof fn lemma_join_first(h: Seq<char>, t: Seq<char>, c: char)
    requires
        !h.contains(c),
        t.len() > 0 ==> t[0] == c,
    ensures
        first_index_of(h + t, c) == h.len(),
{
    let s = h + t;
    lemma_first_index_of(s, c);
    let k = first_index_of(s, c);
    if k < h.len() {
        assert(s[k] == h[k]);
    }
    if k > h.len() {
        assert(s[h.len() as int] == t[0]);
    }
}

proof fn lemma_no_char_join(a: Seq<char>, b: Seq<char>, c: char)
    requires
        !a.contains(c),
        !b.contains(c),
    ensures
        !(a + b).contains(c),
{
    if (a + b).contains(c) {
        let k = choose|k: int| 0 <= k < (a + b).len() && (a + b)[k] == c;
        if k < a.len() {
            assert(a[k] == c);
        } else {
            assert(b[k - a.len()] == c);
        }
    }
}

/// A subprotocol word: not empty, no whitespace, no comma.
pub open spec fn proto_word(w: Seq<char>) -> bool {
    &&& w.len() > 0
    &&& forall|k: int| 0 <= k < w.len() ==> !is_white(#[trigger] w[k]) && w[k] != ','
}

proof fn lemma_proto_piece(pfx: Seq<char>, w: Seq<char>)
    requires
        proto_word(pfx),
        proto_word(w),
    ensures
        proto_word(pfx + w),
        trimmed(pfx + w) == pfx + w,
        first_index_of(pfx + w, ',') == (pfx + w).len(),
        (pfx + w).take((pfx + w).len() as int) == pfx + w,
{
    let s = pfx + w;
    assert forall|k: int| 0 <= k < s.len() implies !is_white(#[trigger] s[k]) && s[k] != ',' by {
        if k < pfx.len() {
            assert(s[k] == pfx[k]);
        } else {
            assert(s[k] == w[k - pfx.len()]);
        }
    }
    lemma_trim_start_at(s, 0);
    assert(s.subrange(0, s.len() as int) =~= s);
    lemma_trim_end_at(s, s.len() as int);
    lemma_first_index_of(s, ',');
    assert(s.take(s.len() as int) =~= s);
}

/// Which offered subprotocol is echoed: a `bearer.` one that decodes wins
/// over a `ticket.` one, whichever comes first, and both are read; a
/// `ticket.` one alone is echoed.
#[verifier::rlimit(40)]
pub proof fn law_bearer_subprotocol_wins(b: Seq<char>, t: Seq<char>)
    requires
        proto_word(b),
        proto_word(t),
        strict_decoded(b) is Ok,
        strict_decoded(t) is Ok,
    ensures
        ({
            let bp = "bearer."@ + b;
            let tp = "ticket."@ + t;
            let both = protos_step(no_handshake(), bp + ","@ + tp);
            let other = protos_step(no_handshake(), tp + ","@ + bp);
            let alone = protos_step(no_handshake(), tp);
            &&& both.chosen == Some(bp) && other.chosen == Some(bp)
            &&& both.bearer == Some(strict_decoded(b)->Ok_0) && other.bearer == Some(
                strict_decoded(b)->Ok_0,
            )
            &&& both.ticket == Some(strict_decoded(t)->Ok_0) && other.ticket == Some(
                strict_decoded(t)->Ok_0,
            )
            &&& alone.chosen == Some(tp) && alone.ticket == Some(strict_decoded(t)->Ok_0)
        }),
{
    reveal_strlit("bearer.");
    reveal_strlit("ticket.");
    reveal_strlit(",");
    let bp = "bearer."@ + b;
    let tp = "ticket."@ + t;
    assert(proto_word("bearer."@)) by {
        assert forall|k: int| 0 <= k < 7 implies !is_white(#[trigger] "bearer."@[k])
            && "bearer."@[k] != ',' by {}
    }
    assert(proto_word("ticket."@)) by {
        assert forall|k: int| 0 <= k < 7 implies !is_white(#[trigger] "ticket."@[k])
            && "ticket."@[k] != ',' by {}
    }
    lemma_proto_piece("bearer."@, b);
    lemma_proto_piece("ticket."@, t);
    assert(bp.take(7) =~= "bearer."@);
    assert(bp.skip(7) =~= b);
    assert(tp.take(7) =~= "ticket."@);
    assert(tp.skip(7) =~= t);
    assert(tp.take(7) != "bearer."@) by {
        assert(tp.take(7)[0] != "bearer."@[0]);
    }
    let v1 = bp + (","@ + tp);
    let v2 = tp + (","@ + bp);
    lemma_comma_split(bp, tp);
    lemma_comma_split(tp, bp);
    assert(bp + ","@ + tp =~= v1);
    assert(tp + ","@ + bp =~= v2);
    let h1 = proto_step(no_handshake(), bp);
    assert(protos_step(h1, tp) == proto_step(h1, tp));
    let h2 = proto_step(no_handshake(), tp);
    assert(protos_step(h2, bp) == proto_step(h2, bp));
    assert(protos_step(no_handshake(), tp) == proto_step(no_handshake(), tp));
}

proof fn lemma_comma_split(a: Seq<char>, c: Seq<char>)
    requires
        proto_word(a),
        proto_word(c),
    ensures
        first_index_of(a + (","@ + c), ',') == a.len(),
        (a + (","@ + c)).take(a.len() as int) == a,
        (a + (","@ + c)).skip(a.len() + 1int) == c,
{
    reveal_strlit(",");
    let s = a + (","@ + c);
    lemma_first_index_of(s, ',');
    let k = first_index_of(s, ',');
    assert(s[a.len() as int] == ',');
    if k < a.len() {
        assert(s[k] == a[k]);
    }
    assert(s.take(a.len() as int) =~= a);
    assert(s.skip(a.len() + 1int) =~= c);
}

} // verus!
