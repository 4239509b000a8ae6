//! Routing a shard request that reached a machine that does not run the
//! shard: which shard a request is for, where the machine that runs it
//! listens, and the signed header a forwarded request carries.

use vstd::prelude::*;

use crate::text::opt_view;
use vstd::utf8::encode_utf8;
use vstd::string::StrSliceExecFns;

use crate::digest::{hex, is_hex_char, lemma_hex_chars, lemma_hex_len};
use crate::percent::{percent_decode, percent_decoded};
use crate::shard_cluster::{
    abs_diff, call_step, expire, holds_nonce, lemma_signature_reads_back, now_ms, opt_bytes, sign,
    signature_text, verify_at, SeenNonces, CALL_WINDOW_MS,
};
use crate::shard_ws::{ascii_lower, uri_query};
use crate::sse::{find_crlf, first_crlf, lemma_first_crlf, lower, second_word, second_word_of};
use crate::text::{
    append_bytes, chars_eq, chars_of, contains_char, ends_with, find_char, first_index_of,
    has_suffix, lemma_first_index_of, parse_u64, parse_unsigned, push_char, push_str, slice_chars,
    starts_with, string_from_chars, string_from_suffix, trim_chars, trimmed,
};

verus! {

/// The decoded value of the first `shard=<id>` pair of `query` whose id
/// is not empty.
pub open spec fn shard_param(query: Seq<char>) -> Option<Seq<char>>
    decreases query.len(),
{
    let i = first_index_of(query, '&');
    let pair = query.take(i);
    let j = first_index_of(pair, '=');
    let here = if j < pair.len() && pair.take(j) == "shard"@ && percent_decoded(pair.skip(j + 1)).len()
        > 0 {
        Some(percent_decoded(pair.skip(j + 1)))
    } else {
        None
    };
    if here is Some {
        here
    } else if i >= query.len() {
        None
    } else {
        proof {
            lemma_first_index_of(query, '&');
        }
        shard_param(query.skip(i + 1))
    }
}

/// The shard a URL names, when the request must be served where the shard
/// runs: the WebSocket (`/shard?shard=<id>`), the SSE stream
/// (`/api/shards/<id>/connect`), and inputs (`/api/shards/<id>/input`).
pub open spec fn shard_of_url(url: Seq<char>) -> Option<Seq<char>> {
    let q = first_index_of(url, '?');
    let path = url.take(q);
    let query = if q < url.len() {
        url.skip(q + 1)
    } else {
        Seq::empty()
    };
    if path == "/shard"@ {
        shard_param(query)
    } else if path.len() >= 12 && path.take(12) == "/api/shards/"@ {
        let rest = path.skip(12);
        let id = if has_suffix(rest, "/connect"@) {
            Some(rest.take(rest.len() - 8))
        } else if has_suffix(rest, "/input"@) {
            Some(rest.take(rest.len() - 6))
        } else {
            None
        };
        match id {
            Some(i) => if i.len() > 0 && !i.contains('/') {
                Some(percent_decoded(i))
            } else {
                None
            },
            None => None,
        }
    } else {
        None
    }
}


/// Percent-decode a path segment or query value.
pub fn decode(s: &str) -> (r: String)
    ensures
        r@ == percent_decoded(s@),
{
    percent_decode(s)
}

fn shard_in_query(q: &[char]) -> (r: Option<String>)
    ensures
        opt_view(r) == shard_param(q@),
{
    let n = q.len();
    let key = chars_of("shard");
    let mut pos: usize = 0;
    proof {
        assert(q@.skip(0) =~= q@);
    }
    loop
        invariant
            pos <= n == q@.len(),
            key@ == "shard"@,
            shard_param(q@) == shard_param(q@.skip(pos as int)),
        decreases n - pos,
    {
        let ghost s = q@.skip(pos as int);
        let iend = find_char(q, '&', pos);
        proof {
            lemma_first_index_of(s, '&');
        }
        let pair = slice_chars(q, pos, iend);
        proof {
            assert(pair@ =~= s.take(iend - pos));
        }
        let j = find_char(pair.as_slice(), '=', 0);
        proof {
            assert(pair@.skip(0) =~= pair@);
            lemma_first_index_of(pair@, '=');
        }
        if j < pair.len() {
            let k = slice_chars(pair.as_slice(), 0, j);
            proof {
                assert(k@ =~= pair@.take(j as int));
            }
            if chars_eq(k.as_slice(), key.as_slice()) {
                let v = slice_chars(pair.as_slice(), j + 1, pair.len());
                proof {
                    assert(v@ =~= pair@.skip(j + 1));
                }
                let vs = string_from_chars(v.as_slice());
                let d = percent_decode(vs.as_str());
                let dc = chars_of(d.as_str());
                if dc.len() > 0 {
                    return Some(d);
                }
            }
        }
        if iend >= n {
            return None;
        }
        proof {
            assert(s.skip(iend - pos + 1) =~= q@.skip(iend + 1));
        }
        pos = iend + 1;
    }
}

/// The shard a request is for, when it must be served where the shard
/// runs.
pub fn shard_of(url: &str) -> (r: Option<String>)
    ensures
        opt_view(r) == shard_of_url(url@),
{
    proof {
        reveal_strlit("/api/shards/");
        reveal_strlit("/connect");
        reveal_strlit("/input");
    }
    let u = chars_of(url);
    let q = find_char(u.as_slice(), '?', 0);
    proof {
        assert(u@.skip(0) =~= u@);
        lemma_first_index_of(u@, '?');
    }
    let path = slice_chars(u.as_slice(), 0, q);
    proof {
        assert(path@ =~= u@.take(q as int));
    }
    let shard = chars_of("/shard");
    if chars_eq(path.as_slice(), shard.as_slice()) {
        let query = if q < u.len() {
            let t = slice_chars(u.as_slice(), q + 1, u.len());
            proof {
                assert(t@ =~= u@.skip(q + 1));
            }
            t
        } else {
            let t: Vec<char> = Vec::new();
            proof {
                assert(t@ =~= Seq::<char>::empty());
            }
            t
        };
        return shard_in_query(query.as_slice());
    }
    let prefix = chars_of("/api/shards/");
    if !starts_with(path.as_slice(), prefix.as_slice()) {
        return None;
    }
    let rest = slice_chars(path.as_slice(), 12, path.len());
    proof {
        assert(rest@ =~= path@.skip(12));
    }
    let connect = chars_of("/connect");
    let input = chars_of("/input");
    let id = if ends_with(rest.as_slice(), connect.as_slice()) {
        let t = slice_chars(rest.as_slice(), 0, rest.len() - 8);
        proof {
            assert(t@ =~= rest@.take(rest@.len() - 8));
        }
        t
    } else if ends_with(rest.as_slice(), input.as_slice()) {
        let t = slice_chars(rest.as_slice(), 0, rest.len() - 6);
        proof {
            assert(t@ =~= rest@.take(rest@.len() - 6));
        }
        t
    } else {
        return None;
    };
    if id.len() > 0 && !contains_char(id.as_slice(), '/') {
        let ids = string_from_chars(id.as_slice());
        Some(percent_decode(ids.as_str()))
    } else {
        None
    }
}

/// `host:port` from an address `http://host:port[/...]`; None for another
/// scheme.
pub open spec fn authority_of(address: Seq<char>) -> Option<Seq<char>> {
    if address.len() >= 7 && address.take(7) == "http://"@ {
        let rest = address.skip(7);
        Some(rest.take(first_index_of(rest, '/')))
    } else {
        None
    }
}

/// `host:port` from `http://host:port`.
pub fn authority(address: &str) -> (r: Option<String>)
    ensures
        opt_view(r) == authority_of(address@),
{
    proof {
        reveal_strlit("http://");
    }
    let a = chars_of(address);
    let scheme = chars_of("http://");
    if !starts_with(a.as_slice(), scheme.as_slice()) {
        return None;
    }
    let rest = slice_chars(a.as_slice(), 7, a.len());
    proof {
        assert(rest@ =~= a@.skip(7));
    }
    let end = find_char(rest.as_slice(), '/', 0);
    proof {
        assert(rest@.skip(0) =~= rest@);
    }
    let host = slice_chars(rest.as_slice(), 0, end);
    proof {
        assert(host@ =~= rest@.take(end as int));
    }
    Some(string_from_chars(host.as_slice()))
}

/// What the signature on a forwarded request covers: the client IP, the
/// method and the URL, a newline between each.
pub open spec fn forward_message(ip: Seq<char>, method: Seq<char>, url: Seq<char>) -> Seq<u8> {
    encode_utf8(ip) + seq![10u8] + encode_utf8(method) + seq![10u8] + encode_utf8(url)
}

/// The bytes a forwarding machine signs.
pub fn forward_payload(ip: &str, method: &str, url: &str) -> (p: Vec<u8>)
    ensures
        p@ == forward_message(ip@, method@, url@),
{
    let mut p: Vec<u8> = Vec::new();
    append_bytes(&mut p, ip.as_bytes());
    p.push(10u8);
    append_bytes(&mut p, method.as_bytes());
    p.push(10u8);
    append_bytes(&mut p, url.as_bytes());
    proof {
        assert(p@ =~= forward_message(ip@, method@, url@));
    }
    p
}

/// The `X-Pylon-Shard-Forwarded` value for a request from `ip` passed to
/// machine `to`: `<ip>;<signature>`. None without a call key.
pub fn forwarded_value(
    call_key: Option<&[u8]>,
    to: &str,
    ip: &str,
    method: &str,
    url: &str,
) -> (r: Option<String>)
    ensures
        r is Some <==> call_key is Some,
        r matches Some(v) ==> exists|at: i64, b: Seq<u8>|
            b.len() == 12 && v@ == ip@ + seq![';'] + signature_text(
                call_key->0@,
                at,
                hex(b),
                to@,
                forward_message(ip@, method@, url@),
            ),
{
    let payload = forward_payload(ip, method, url);
    match sign(call_key, to, payload.as_slice()) {
        Some(sig) => {
            let mut v = String::from_str(ip);
            push_char(&mut v, ';');
            push_str(&mut v, sig.as_str());
            Some(v)
        },
        None => None,
    }
}

/// A forwarded header's client IP and signature, cut at the first `;`.
pub open spec fn forwarded_parts(value: Seq<char>) -> Option<(Seq<char>, Seq<char>)> {
    let i = first_index_of(value, ';');
    if i < value.len() {
        Some((value.take(i), value.skip(i + 1)))
    } else {
        None
    }
}

/// Checking, at `now`, the signature `sig` a forwarding machine put on a
/// request from `ip`: the nonces kept after, and whether it was accepted.
pub open spec fn vouch_step(
    before: Seq<(i64, Seq<char>)>,
    after: Seq<(i64, Seq<char>)>,
    key: Option<Seq<u8>>,
    me: Seq<char>,
    ip: Seq<char>,
    sig: Seq<char>,
    method: Seq<char>,
    url: Seq<char>,
    accepted: bool,
    now: i64,
) -> bool {
    let step = call_step(before, key, me, sig, forward_message(ip, method, url), now);
    &&& after == step.1
    &&& accepted <==> step.0 is Ok
}

/// The client IP a machine that forwarded a request to `me` vouched for,
/// checked at `now`: when its header value is present and correctly
/// signed over the IP, the request's method and its URL. The signature's
/// nonce is kept, so a header is accepted once.
pub fn vouched_client_ip_at(
    seen: &mut SeenNonces,
    call_key: Option<&[u8]>,
    me: &str,
    value: &str,
    method: &str,
    url: &str,
    now: i64,
) -> (r: Option<String>)
    requires
        old(seen).wf(),
    ensures
        final(seen).wf(),
        forwarded_parts(value@) is None ==> r is None && final(seen)@ == old(seen)@,
        forwarded_parts(value@) matches Some((ip, sig)) ==> vouch_step(
            old(seen)@,
            final(seen)@,
            opt_bytes(call_key),
            me@,
            ip,
            sig,
            method@,
            url@,
            r is Some,
            now,
        ),
        forwarded_parts(value@) matches Some((ip, sig)) ==> (r matches Some(v) ==> v@ == ip),
{
    let vc = chars_of(value);
    let i = find_char(vc.as_slice(), ';', 0);
    proof {
        assert(vc@.skip(0) =~= vc@);
        lemma_first_index_of(vc@, ';');
    }
    if i >= vc.len() {
        return None;
    }
    let ip = slice_chars(vc.as_slice(), 0, i);
    let sig = slice_chars(vc.as_slice(), i + 1, vc.len());
    proof {
        assert(ip@ =~= vc@.take(i as int));
        assert(sig@ =~= vc@.skip(i + 1));
    }
    let ip_s = string_from_chars(ip.as_slice());
    let sig_s = string_from_chars(sig.as_slice());
    let payload = forward_payload(ip_s.as_str(), method, url);
    let outcome = verify_at(seen, call_key, me, sig_s.as_str(), payload.as_slice(), now);
    proof {
        assert(forwarded_parts(value@) == Some((ip_s@, sig_s@)));
    }
    match outcome {
        Ok(()) => Some(ip_s),
        Err(_) => None,
    }
}

/// The client IP a machine that forwarded a request to `me` vouched for,
/// checked now.
pub fn vouched_client_ip(
    seen: &mut SeenNonces,
    call_key: Option<&[u8]>,
    me: &str,
    value: &str,
    method: &str,
    url: &str,
) -> (r: Option<String>)
    requires
        old(seen).wf(),
    ensures
        final(seen).wf(),
        forwarded_parts(value@) is None ==> r is None && final(seen)@ == old(seen)@,
        forwarded_parts(value@) matches Some((ip, sig)) ==> exists|now: i64|
            #[trigger] vouch_step(
                old(seen)@,
                final(seen)@,
                opt_bytes(call_key),
                me@,
                ip,
                sig,
                method@,
                url@,
                r is Some,
                now,
            ),
        forwarded_parts(value@) matches Some((ip, sig)) ==> (r matches Some(v) ==> v@ == ip),
{
    let now = now_ms();
    vouched_client_ip_at(seen, call_key, me, value, method, url, now)
}

// ---------------------------------------------------------------------------
// Passing a connection on to the machine that runs its shard
// ---------------------------------------------------------------------------

/// The URL of a request head: the second word of its request line.
pub open spec fn head_url(head: Seq<char>) -> Option<Seq<char>> {
    second_word(head.take(first_crlf(head)))
}

/// The URL of a request head (see [`head_url`]).
pub fn request_url(head: &str) -> (r: Option<String>)
    ensures
        opt_view(r) == head_url(head@),
{
    let cs = chars_of(head);
    let i = find_crlf(cs.as_slice(), 0);
    proof {
        assert(cs@.skip(0) =~= cs@);
    }
    let line = slice_chars(cs.as_slice(), 0, i);
    proof {
        assert(line@ =~= head@.take(first_crlf(head@)));
    }
    match second_word_of(line.as_slice()) {
        Some(w) => Some(string_from_chars(w.as_slice())),
        None => None,
    }
}

/// Where the machine that runs a shard serves a connection with URL `url`:
/// its `/shard` path, with the same query.
pub open spec fn owner_url(url: Seq<char>) -> Seq<char> {
    "/shard?"@ + uri_query(url)
}

/// A header line passed on as `Name: value`, both trimmed; a line without
/// a colon, and the `Host` and `X-Pylon-Shard-Forwarded` headers (named in
/// any case), are dropped.
pub open spec fn kept_header(line: Seq<char>) -> Seq<char> {
    let j = first_index_of(line, ':');
    if j >= line.len() {
        Seq::empty()
    } else {
        let k = trimmed(line.take(j));
        let v = trimmed(line.skip(j + 1));
        if ascii_lower(k) == "host"@ || ascii_lower(k) == "x-pylon-shard-forwarded"@ {
            Seq::empty()
        } else {
            k + ": "@ + v + "\r\n"@
        }
    }
}

/// The header lines of `s`, split at `\r\n`, passed on in order.
pub open spec fn kept_headers(s: Seq<char>) -> Seq<char>
    decreases s.len(),
{
    let i = first_crlf(s);
    if i >= s.len() {
        kept_header(s)
    } else {
        proof {
            lemma_first_crlf(s);
        }
        kept_header(s.take(i)) + kept_headers(s.skip(i + 2))
    }
}

/// The request head sent to the machine that runs the shard: a `GET` of
/// `target_url` from `host`, the client's headers but its `Host` and any
/// forwarded header, and the forwarded header this machine vouches with.
pub open spec fn owner_head(head: Seq<char>, target_url: Seq<char>, host: Seq<char>, forwarded: Seq<
    char,
>) -> Seq<char> {
    let i = first_crlf(head);
    let rest = if i >= head.len() {
        Seq::empty()
    } else {
        head.skip(i + 2)
    };
    "GET "@ + target_url + " HTTP/1.1\r\nHost: "@ + host + "\r\n"@ + kept_headers(rest)
        + "X-Pylon-Shard-Forwarded: "@ + forwarded + "\r\n\r\n"@
}

fn kept_header_of(line: &[char]) -> (r: Vec<char>)
    ensures
        r@ == kept_header(line@),
{
    let j = find_char(line, ':', 0);
    proof {
        assert(line@.skip(0) =~= line@);
        lemma_first_index_of(line@, ':');
    }
    if j >= line.len() {
        return Vec::new();
    }
    let kr = slice_chars(line, 0, j);
    let vr = slice_chars(line, j + 1, line.len());
    proof {
        assert(kr@ =~= line@.take(j as int));
        assert(vr@ =~= line@.skip(j + 1));
    }
    let k = trim_chars(kr.as_slice());
    let v = trim_chars(vr.as_slice());
    let lk = lower(k.as_slice());
    let host = chars_of("host");
    let fwd = chars_of("x-pylon-shard-forwarded");
    if chars_eq(lk.as_slice(), host.as_slice()) || chars_eq(lk.as_slice(), fwd.as_slice()) {
        return Vec::new();
    }
    let mut r = k;
    let sep = chars_of(": ");
    let end = chars_of("\r\n");
    let mut vv = v;
    let mut s2 = sep;
    let mut e2 = end;
    r.append(&mut s2);
    r.append(&mut vv);
    r.append(&mut e2);
    r
}

fn kept_headers_of(v: &[char], from: usize) -> (r: Vec<char>)
    requires
        from <= v@.len(),
    ensures
        r@ == kept_headers(v@.skip(from as int)),
{
    let mut out: Vec<char> = Vec::new();
    let mut pos = from;
    let ghost all = v@.skip(from as int);
    loop
        invariant
            from <= pos <= v@.len(),
            all == v@.skip(from as int),
            kept_headers(all) == out@ + kept_headers(v@.skip(pos as int)),
        decreases v@.len() - pos,
    {
        let ghost s = v@.skip(pos as int);
        let i = find_crlf(v, pos);
        proof {
            lemma_first_crlf(s);
        }
        let line = slice_chars(v, pos, i);
        proof {
            assert(line@ =~= s.take(i - pos));
        }
        let mut h = kept_header_of(line.as_slice());
        if i >= v.len() {
            proof {
                assert(s.take(i - pos) =~= s);
                assert(kept_headers(s) == h@);
            }
            out.append(&mut h);
            return out;
        }
        proof {
            assert(s.skip(i - pos + 2) =~= v@.skip(i + 2));
            assert(out@ + h@ + kept_headers(v@.skip(i + 2)) =~= out@ + (h@ + kept_headers(
                v@.skip(i + 2),
            )));
        }
        out.append(&mut h);
        pos = i + 2;
    }
}

/// The request head to send to the machine that runs the shard (see
/// [`owner_head`]).
pub fn owner_request_head(head: &str, target_url: &str, host: &str, forwarded: &str) -> (r: String)
    ensures
        r@ == owner_head(head@, target_url@, host@, forwarded@),
{
    let cs = chars_of(head);
    let i = find_crlf(cs.as_slice(), 0);
    proof {
        assert(cs@.skip(0) =~= cs@);
        lemma_first_crlf(cs@);
    }
    let kept = if i >= cs.len() {
        proof {
            assert(Seq::<char>::empty().len() == 0);
            assert(kept_headers(Seq::<char>::empty()) =~= Seq::<char>::empty()) by {
                reveal_with_fuel(kept_headers, 1);
            }
        }
        Vec::new()
    } else {
        kept_headers_of(cs.as_slice(), i + 2)
    };
    let mut r = String::from_str("GET ");
    push_str(&mut r, target_url);
    push_str(&mut r, " HTTP/1.1\r\nHost: ");
    push_str(&mut r, host);
    push_str(&mut r, "\r\n");
    let ks = string_from_chars(kept.as_slice());
    push_str(&mut r, ks.as_str());
    push_str(&mut r, "X-Pylon-Shard-Forwarded: ");
    push_str(&mut r, forwarded);
    push_str(&mut r, "\r\n\r\n");
    r
}

/// The request passing a connection from `client_ip`, with head `head`
/// and URL `url`, on to machine `machine_id` at `address`, which runs its
/// shard: the host to connect to, and the head to send, vouched for with a
/// signature made now. None when the address is not `http://` or there is
/// no call key.
pub fn owner_request(
    call_key: Option<&[u8]>,
    head: &str,
    url: &str,
    machine_id: &str,
    address: &str,
    client_ip: &str,
) -> (r: Option<(String, String)>)
    ensures
        r is Some <==> (authority_of(address@) is Some && call_key is Some),
        r matches Some((host, h)) ==> host@ == authority_of(address@)->0 && exists|at: i64, b: Seq<u8>|
            b.len() == 12 && h@ == owner_head(
                head@,
                owner_url(url@),
                host@,
                client_ip@ + seq![';'] + signature_text(
                    call_key->0@,
                    at,
                    hex(b),
                    machine_id@,
                    forward_message(client_ip@, "GET"@, owner_url(url@)),
                ),
            ),
{
    let uc = chars_of(url);
    let q = find_char(uc.as_slice(), '?', 0);
    proof {
        assert(uc@.skip(0) =~= uc@);
        lemma_first_index_of(uc@, '?');
    }
    let query = if q < uc.len() {
        string_from_suffix(uc.as_slice(), q + 1)
    } else {
        String::new()
    };
    let mut target = String::from_str("/shard?");
    push_str(&mut target, query.as_str());
    proof {
        assert(target@ == owner_url(url@));
    }
    let host = match authority(address) {
        Some(h) => h,
        None => {
            return None;
        },
    };
    let forwarded = match forwarded_value(call_key, machine_id, client_ip, "GET", target.as_str()) {
        Some(v) => v,
        None => {
            return None;
        },
    };
    let h = owner_request_head(head, target.as_str(), host.as_str(), forwarded.as_str());
    Some((host, h))
}

// ---------------------------------------------------------------------------
// Passing a request on: the decision, the headers, the heads
// ---------------------------------------------------------------------------

/// How a request for a shard that machine `machine_id` runs is passed on.
#[derive(Debug, Clone, PartialEq, Eq)]
pub enum RouteAction {
    /// Fly's proxy replays it on that machine: the `fly-replay` value.
    Replay(String),
    /// The machine has no address: answer 503 with this message.
    NoAddress(String),
    /// A WebSocket upgrade: proxy the connection.
    Proxy,
    /// Forward the request and pass the answer back.
    Forward,
}

pub open spec fn headers_view(hs: Seq<(String, String)>) -> Seq<(Seq<char>, Seq<char>)> {
    Seq::new(hs.len(), |i: int| (hs[i].0@, hs[i].1@))
}

/// A request asks for a WebSocket upgrade: an `Upgrade` header (named in
/// any case) whose value is `websocket` in any case.
pub open spec fn is_upgrade(hs: Seq<(Seq<char>, Seq<char>)>) -> bool {
    exists|i: int| 0 <= i < hs.len() && ascii_lower((#[trigger] hs[i]).0) == "upgrade"@ && ascii_lower(hs[i].1)
        == "websocket"@
}

fn upgrade_requested(headers: &[(String, String)]) -> (b: bool)
    ensures
        b == is_upgrade(headers_view(headers@)),
{
    let ghost hv = headers_view(headers@);
    let n = headers.len();
    let mut i: usize = 0;
    let up = chars_of("upgrade");
    let ws = chars_of("websocket");
    while i < n
        invariant
            n == headers@.len(),
            hv == headers_view(headers@),
            i <= n,
            up@ == "upgrade"@,
            ws@ == "websocket"@,
            forall|j: int| 0 <= j < i ==> !(ascii_lower((#[trigger] hv[j]).0) == "upgrade"@ && ascii_lower(hv[j].1)
                == "websocket"@),
        decreases n - i,
    {
        let k = lower(chars_of(headers[i].0.as_str()).as_slice());
        let v = lower(chars_of(headers[i].1.as_str()).as_slice());
        if chars_eq(k.as_slice(), up.as_slice()) && chars_eq(v.as_slice(), ws.as_slice()) {
            proof {
                assert(hv[i as int] == (headers@[i as int].0@, headers@[i as int].1@));
            }
            return true;
        }
        proof {
            assert(hv[i as int] == (headers@[i as int].0@, headers@[i as int].1@));
        }
        i += 1;
    }
    false
}

/// The message of a 503 for a shard on a machine without an address.
pub open spec fn no_address_message(machine_id: Seq<char>) -> Seq<char> {
    "the shard runs on machine "@ + machine_id + ", which has no address (set PYLON_SHARD_ADVERTISE_URL)"@
}

/// How to pass on a request with headers `headers` for a shard machine
/// `machine_id` runs: on Fly its proxy replays it; without an address the
/// request fails; an upgrade is proxied; anything else forwarded.
pub fn route_action(machine_id: &str, address: Option<&str>, fly: bool, headers: &[(String, String)]) -> (a: RouteAction)
    ensures
        fly ==> (a matches RouteAction::Replay(v) && v@ == "instance="@ + machine_id@),
        !fly && address is None ==> (a matches RouteAction::NoAddress(m) && m@ == no_address_message(machine_id@)),
        !fly && address is Some ==> a == if is_upgrade(headers_view(headers@)) {
            RouteAction::Proxy
        } else {
            RouteAction::Forward
        },
{
    if fly {
        let mut v = String::from_str("instance=");
        push_str(&mut v, machine_id);
        return RouteAction::Replay(v);
    }
    if address.is_none() {
        let mut m = String::from_str("the shard runs on machine ");
        push_str(&mut m, machine_id);
        push_str(&mut m, ", which has no address (set PYLON_SHARD_ADVERTISE_URL)");
        return RouteAction::NoAddress(m);
    }
    if upgrade_requested(headers) {
        RouteAction::Proxy
    } else {
        RouteAction::Forward
    }
}

/// Which headers a hop keeps.
#[derive(Debug, Clone, Copy, PartialEq, Eq, Structural)]
pub enum HeaderRule {
    /// The client's headers passed to the machine that runs the shard:
    /// all but `Host`, `Content-Length`, `Transfer-Encoding` and any
    /// forwarded header.
    Passed,
    /// Those of a forwarded request: the passed ones but `Connection`.
    ForwardedRequest,
    /// Those of a forwarded answer: all but `Content-Length`,
    /// `Transfer-Encoding` and `Connection`.
    ForwardedReply,
    /// Those of an accepted upgrade: `Upgrade`, `Connection`,
    /// `Sec-WebSocket-Accept` and `Sec-WebSocket-Protocol`.
    UpgradeReply,
    /// Those of a refused upgrade: `Content-Type`.
    RefusedReply,
}

/// Rule `r` keeps a header named `name` (compared in lower case).
pub open spec fn keeps(r: HeaderRule, name: Seq<char>) -> bool {
    let l = ascii_lower(name);
    match r {
        HeaderRule::Passed => !(l == "host"@ || l == "content-length"@ || l == "transfer-encoding"@ || l
            == "x-pylon-shard-forwarded"@),
        HeaderRule::ForwardedRequest => !(l == "host"@ || l == "content-length"@ || l == "transfer-encoding"@
            || l == "x-pylon-shard-forwarded"@ || l == "connection"@),
        HeaderRule::ForwardedReply => !(l == "content-length"@ || l == "transfer-encoding"@ || l == "connection"@),
        HeaderRule::UpgradeReply => l == "upgrade"@ || l == "connection"@ || l == "sec-websocket-accept"@ || l
            == "sec-websocket-protocol"@,
        HeaderRule::RefusedReply => l == "content-type"@,
    }
}

/// The headers of `hs` rule `r` keeps, in order.
pub open spec fn kept_by(hs: Seq<(Seq<char>, Seq<char>)>, r: HeaderRule) -> Seq<(Seq<char>, Seq<char>)>
    decreases hs.len(),
{
    if hs.len() == 0 {
        Seq::empty()
    } else {
        let rest = kept_by(hs.drop_last(), r);
        if keeps(r, hs.last().0) {
            rest.push(hs.last())
        } else {
            rest
        }
    }
}

fn is_named(l: &[char], name: &str) -> (b: bool)
    ensures
        b == (l@ == name@),
{
    let c = chars_of(name);
    chars_eq(l, c.as_slice())
}

fn keeps_header(r: HeaderRule, name: &str) -> (b: bool)
    ensures
        b == keeps(r, name@),
{
    let lv = lower(chars_of(name).as_slice());
    let l = lv.as_slice();
    match r {
        HeaderRule::Passed => !(is_named(l, "host") || is_named(l, "content-length") || is_named(
            l,
            "transfer-encoding",
        ) || is_named(l, "x-pylon-shard-forwarded")),
        HeaderRule::ForwardedRequest => !(is_named(l, "host") || is_named(l, "content-length")
            || is_named(l, "transfer-encoding") || is_named(l, "x-pylon-shard-forwarded") || is_named(
            l,
            "connection",
        )),
        HeaderRule::ForwardedReply => !(is_named(l, "content-length") || is_named(l, "transfer-encoding")
            || is_named(l, "connection")),
        HeaderRule::UpgradeReply => is_named(l, "upgrade") || is_named(l, "connection") || is_named(
            l,
            "sec-websocket-accept",
        ) || is_named(l, "sec-websocket-protocol"),
        HeaderRule::RefusedReply => is_named(l, "content-type"),
    }
}

/// The headers of `headers` rule `r` keeps, in order.
pub fn keep_headers(headers: &[(String, String)], r: HeaderRule) -> (out: Vec<(String, String)>)
    ensures
        headers_view(out@) == kept_by(headers_view(headers@), r),
{
    let ghost hv = headers_view(headers@);
    let mut out: Vec<(String, String)> = Vec::new();
    let n = headers.len();
    let mut i: usize = 0;
    proof {
        assert(headers_view(out@) =~= kept_by(hv.take(0), r));
    }
    while i < n
        invariant
            n == headers@.len(),
            hv == headers_view(headers@),
            i <= n,
            headers_view(out@) == kept_by(hv.take(i as int), r),
        decreases n - i,
    {
        let ghost before = headers_view(out@);
        proof {
            assert(hv.take(i + 1).drop_last() =~= hv.take(i as int));
            assert(hv.take(i + 1).last() == hv[i as int]);
            assert(hv[i as int] == (headers@[i as int].0@, headers@[i as int].1@));
        }
        if keeps_header(r, headers[i].0.as_str()) {
            let k = String::from_str(headers[i].0.as_str());
            let v = String::from_str(headers[i].1.as_str());
            out.push((k, v));
            proof {
                assert(headers_view(out@) =~= before.push(hv[i as int]));
            }
        }
        i += 1;
    }
    proof {
        assert(hv.take(n as int) =~= hv);
    }
    out
}

/// Header lines: `Name: value` and a line break each.
pub open spec fn header_lines(hs: Seq<(Seq<char>, Seq<char>)>) -> Seq<char>
    decreases hs.len(),
{
    if hs.len() == 0 {
        Seq::empty()
    } else {
        header_lines(hs.drop_last()) + hs.last().0 + ": "@ + hs.last().1 + "\r\n"@
    }
}

/// The head of an upgrade request proxied to the machine that runs the
/// shard: a `GET` of `url` from `host`, the passed headers, and the
/// forwarded header this machine vouches with.
pub open spec fn proxy_head(url: Seq<char>, host: Seq<char>, passed: Seq<(Seq<char>, Seq<char>)>, forwarded: Seq<char>) -> Seq<char> {
    "GET "@ + url + " HTTP/1.1\r\nHost: "@ + host + "\r\n"@ + header_lines(passed) + "X-Pylon-Shard-Forwarded: "@
        + forwarded + "\r\n\r\n"@
}

/// See [`proxy_head`].
pub fn proxy_request_head(url: &str, host: &str, passed: &[(String, String)], forwarded: &str) -> (h: String)
    ensures
        h@ == proxy_head(url@, host@, headers_view(passed@), forwarded@),
{
    let ghost pv = headers_view(passed@);
    let mut h = String::from_str("GET ");
    push_str(&mut h, url);
    push_str(&mut h, " HTTP/1.1\r\nHost: ");
    push_str(&mut h, host);
    push_str(&mut h, "\r\n");
    let ghost start = h@;
    let n = passed.len();
    let mut i: usize = 0;
    proof {
        assert(h@ =~= start + header_lines(pv.take(0)));
    }
    while i < n
        invariant
            n == passed@.len(),
            pv == headers_view(passed@),
            i <= n,
            h@ == start + header_lines(pv.take(i as int)),
        decreases n - i,
    {
        proof {
            assert(pv.take(i + 1).drop_last() =~= pv.take(i as int));
            assert(pv.take(i + 1).last() == pv[i as int]);
            assert(pv[i as int] == (passed@[i as int].0@, passed@[i as int].1@));
        }
        push_str(&mut h, passed[i].0.as_str());
        push_str(&mut h, ": ");
        push_str(&mut h, passed[i].1.as_str());
        push_str(&mut h, "\r\n");
        proof {
            assert(h@ =~= start + header_lines(pv.take(i + 1)));
        }
        i += 1;
    }
    proof {
        assert(pv.take(n as int) =~= pv);
    }
    push_str(&mut h, "X-Pylon-Shard-Forwarded: ");
    push_str(&mut h, forwarded);
    push_str(&mut h, "\r\n\r\n");
    h
}

/// The headers of an answer's header lines `s` (split at `\r\n`): each
/// line with a colon, split at the first, name and value trimmed.
pub open spec fn reply_headers(s: Seq<char>) -> Seq<(Seq<char>, Seq<char>)>
    decreases s.len(),
{
    let i = first_crlf(s);
    let line = s.take(i);
    let j = first_index_of(line, ':');
    let here: Seq<(Seq<char>, Seq<char>)> = if j < line.len() {
        seq![(trimmed(line.take(j)), trimmed(line.skip(j + 1)))]
    } else {
        Seq::empty()
    };
    if i >= s.len() {
        here
    } else {
        proof {
            lemma_first_crlf(s);
        }
        here + reply_headers(s.skip(i + 2))
    }
}

/// A status code as `u16::from_str` reads one.
pub open spec fn status_of(w: Seq<char>) -> Option<u16> {
    match parse_unsigned(w) {
        Some(n) => if n <= 65535 {
            Some(n as u16)
        } else {
            None
        },
        None => None,
    }
}

/// The status and headers of an answer's head `head`: the status is the
/// second word of its first line; None without one.
pub open spec fn reply_head(head: Seq<char>) -> Option<(u16, Seq<(Seq<char>, Seq<char>)>)> {
    let i = first_crlf(head);
    match second_word(head.take(i)) {
        Some(w) => match status_of(w) {
            Some(code) => Some(
                (
                    code,
                    if i >= head.len() {
                        Seq::empty()
                    } else {
                        reply_headers(head.skip(i + 2))
                    },
                ),
            ),
            None => None,
        },
        None => None,
    }
}

fn reply_headers_of(v: &[char], from: usize) -> (r: Vec<(String, String)>)
    requires
        from <= v@.len(),
    ensures
        headers_view(r@) == reply_headers(v@.skip(from as int)),
{
    let mut out: Vec<(String, String)> = Vec::new();
    let mut pos = from;
    let ghost all = v@.skip(from as int);
    proof {
        assert(headers_view(out@) =~= Seq::<(Seq<char>, Seq<char>)>::empty());
    }
    loop
        invariant
            from <= pos <= v@.len(),
            all == v@.skip(from as int),
            reply_headers(all) == headers_view(out@) + reply_headers(v@.skip(pos as int)),
        decreases v@.len() - pos,
    {
        let ghost s = v@.skip(pos as int);
        let ghost before = headers_view(out@);
        let i = find_crlf(v, pos);
        proof {
            lemma_first_crlf(s);
        }
        let line = slice_chars(v, pos, i);
        proof {
            assert(line@ =~= s.take(i - pos));
        }
        let j = find_char(line.as_slice(), ':', 0);
        proof {
            assert(line@.skip(0) =~= line@);
            lemma_first_index_of(line@, ':');
        }
        let ghost here: Seq<(Seq<char>, Seq<char>)> = if j < line@.len() {
            seq![(trimmed(line@.take(j as int)), trimmed(line@.skip(j + 1)))]
        } else {
            Seq::empty()
        };
        if j < line.len() {
            let kr = slice_chars(line.as_slice(), 0, j);
            let vr = slice_chars(line.as_slice(), j + 1, line.len());
            proof {
                assert(kr@ =~= line@.take(j as int));
                assert(vr@ =~= line@.skip(j + 1));
            }
            let k = string_from_chars(trim_chars(kr.as_slice()).as_slice());
            let val = string_from_chars(trim_chars(vr.as_slice()).as_slice());
            out.push((k, val));
            proof {
                assert(headers_view(out@) =~= before + here);
            }
        } else {
            proof {
                assert(headers_view(out@) =~= before + here);
            }
        }
        if i >= v.len() {
            proof {
                assert(s.take(i - pos) =~= s);
                assert(reply_headers(s) == here);
            }
            return out;
        }
        proof {
            assert(s.skip(i - pos + 2) =~= v@.skip(i + 2));
            assert(reply_headers(s) == here + reply_headers(v@.skip(i + 2)));
            assert(headers_view(out@) + reply_headers(v@.skip(i + 2)) =~= before + (here + reply_headers(
                v@.skip(i + 2),
            )));
        }
        pos = i + 2;
    }
}

/// The status and headers of an answer's head (see [`reply_head`]).
pub fn parse_reply_head(head: &str) -> (r: Option<(u16, Vec<(String, String)>)>)
    ensures
        match r {
            Some((code, hs)) => reply_head(head@) == Some((code, headers_view(hs@))),
            None => reply_head(head@) is None,
        },
{
    let cs = chars_of(head);
    let i = find_crlf(cs.as_slice(), 0);
    proof {
        assert(cs@.skip(0) =~= cs@);
        lemma_first_crlf(cs@);
    }
    let line = slice_chars(cs.as_slice(), 0, i);
    proof {
        assert(line@ =~= head@.take(i as int));
    }
    let w = match second_word_of(line.as_slice()) {
        Some(w) => w,
        None => {
            return None;
        },
    };
    let code: u16 = match parse_u64(w.as_slice()) {
        Some(n) => if n <= 65535 {
            n as u16
        } else {
            return None;
        },
        None => {
            return None;
        },
    };
    let hs = if i >= cs.len() {
        Vec::new()
    } else {
        reply_headers_of(cs.as_slice(), i + 2)
    };
    proof {
        if i >= cs.len() {
            assert(headers_view(hs@) =~= Seq::<(Seq<char>, Seq<char>)>::empty());
        }
    }
    Some((code, hs))
}

/// A client cannot vouch for itself: whatever headers it sends, the ones
/// passed on to the machine that runs the shard (and those of a forwarded
/// request) hold no `X-Pylon-Shard-Forwarded` header, in any case; only
/// the one this machine adds.
pub proof fn law_no_forged_forwarded_header(hs: Seq<(Seq<char>, Seq<char>)>, r: HeaderRule)
    requires
        r == HeaderRule::Passed || r == HeaderRule::ForwardedRequest,
    ensures
        forall|i: int| 0 <= i < kept_by(hs, r).len() ==> ascii_lower((#[trigger] kept_by(hs, r)[i]).0)
            != "x-pylon-shard-forwarded"@,
    decreases hs.len(),
{
    if hs.len() > 0 {
        law_no_forged_forwarded_header(hs.drop_last(), r);
        let rest = kept_by(hs.drop_last(), r);
        if keeps(r, hs.last().0) {
            assert forall|i: int| 0 <= i < kept_by(hs, r).len() implies ascii_lower((#[trigger] kept_by(hs, r)[i]).0)
                != "x-pylon-shard-forwarded"@ by {
                if i < rest.len() {
                    assert(kept_by(hs, r)[i] == rest[i]);
                }
            }
        }
    }
}


// ---------------------------------------------------------------------------
// The answers a routing machine gives itself
// ---------------------------------------------------------------------------

/// A lowercase hexadecimal digit.
pub open spec fn hex_digit_char(d: nat) -> char {
    if d < 10 {
        ((d + 48) as u32) as char
    } else {
        ((d + 87) as u32) as char
    }
}

/// One character inside a JSON string, escaped as `serde_json` writes it:
/// quote and backslash escaped, the control characters with a short escape
/// where JSON has one, the others as `\u00XX`.
pub open spec fn json_char(c: char) -> Seq<char> {
    if c == '"' {
        seq!['\\', '"']
    } else if c == '\\' {
        seq!['\\', '\\']
    } else if c == '\n' {
        seq!['\\', 'n']
    } else if c == '\r' {
        seq!['\\', 'r']
    } else if c == '\t' {
        seq!['\\', 't']
    } else if c == '\u{8}' {
        seq!['\\', 'b']
    } else if c == '\u{c}' {
        seq!['\\', 'f']
    } else if (c as u32) < 0x20 {
        seq!['\\', 'u', '0', '0', hex_digit_char((c as u32 / 16) as nat), hex_digit_char((c as u32 % 16) as nat)]
    } else {
        seq![c]
    }
}

/// The inside of a JSON string holding `s`.
pub open spec fn json_text(s: Seq<char>) -> Seq<char>
    decreases s.len(),
{
    if s.len() == 0 {
        Seq::empty()
    } else {
        json_text(s.drop_last()) + json_char(s.last())
    }
}

fn hex_digit(d: u32) -> (c: char)
    requires
        d < 16,
    ensures
        c == hex_digit_char(d as nat),
{
    if d < 10 {
        let v: u8 = 48 + d as u8;
        v as char
    } else {
        let v: u8 = 87 + d as u8;
        v as char
    }
}

/// Appends `s` escaped for the inside of a JSON string.
fn push_json_text(out: &mut String, s: &str)
    ensures
        final(out)@ == old(out)@ + json_text(s@),
{
    let cs = chars_of(s);
    let mut k: usize = 0;
    while k < cs.len()
        invariant
            k <= cs@.len(),
            cs@ == s@,
            out@ == old(out)@ + json_text(cs@.take(k as int)),
        decreases cs@.len() - k,
    {
        let c = cs[k];
        let ghost before = out@;
        if c == '"' {
            push_char(out, '\\');
            push_char(out, '"');
        } else if c == '\\' {
            push_char(out, '\\');
            push_char(out, '\\');
        } else if c == '\n' {
            push_char(out, '\\');
            push_char(out, 'n');
        } else if c == '\r' {
            push_char(out, '\\');
            push_char(out, 'r');
        } else if c == '\t' {
            push_char(out, '\\');
            push_char(out, 't');
        } else if c == '\u{8}' {
            push_char(out, '\\');
            push_char(out, 'b');
        } else if c == '\u{c}' {
            push_char(out, '\\');
            push_char(out, 'f');
        } else if (c as u32) < 0x20 {
            push_char(out, '\\');
            push_char(out, 'u');
            push_char(out, '0');
            push_char(out, '0');
            push_char(out, hex_digit(c as u32 / 16));
            push_char(out, hex_digit(c as u32 % 16));
        } else {
            push_char(out, c);
        }
        proof {
            let t = cs@.take(k + 1);
            assert(t.drop_last() =~= cs@.take(k as int));
            assert(t.last() == c);
            assert(out@ =~= before + json_char(c));
            assert(old(out)@ + json_text(t) =~= (old(out)@ + json_text(cs@.take(k as int))) + json_char(c));
        }
        k += 1;
    }
    proof {
        assert(cs@.take(cs@.len() as int) =~= cs@);
    }
}

/// The JSON error body a machine answers with:
/// `{"error":{"code":…,"message":…}}`.
pub open spec fn error_json(code: Seq<char>, message: Seq<char>) -> Seq<char> {
    "{\"error\":{\"code\":\""@ + json_text(code) + "\",\"message\":\""@ + json_text(message)
        + "\"}}"@
}

/// An answer the routing machine gives the client itself: its status, the
/// headers it sets, and its body.
pub struct Answer {
    pub status: u16,
    pub headers: Vec<(String, String)>,
    pub body: Vec<u8>,
}

fn header(name: &str, value: &str) -> (h: (String, String))
    ensures
        h.0@ == name@,
        h.1@ == value@,
{
    (String::from_str(name), String::from_str(value))
}

/// A JSON error answer: `status`, a JSON content type, and
/// [`error_json`] of `code` and `message`.
pub fn error_answer(status: u16, code: &str, message: &str) -> (a: Answer)
    ensures
        a.status == status,
        headers_view(a.headers@) == seq![("Content-Type"@, "application/json"@)],
        a.body@ == encode_utf8(error_json(code@, message@)),
{
    let mut body = String::from_str("{\"error\":{\"code\":\"");
    push_json_text(&mut body, code);
    push_str(&mut body, "\",\"message\":\"");
    push_json_text(&mut body, message);
    push_str(&mut body, "\"}}");
    let headers: Vec<(String, String)> = vec![header("Content-Type", "application/json")];
    proof {
        assert(body@ =~= error_json(code@, message@));
        assert(headers_view(headers@) =~= seq![("Content-Type"@, "application/json"@)]);
    }
    Answer { status, headers, body: body.as_str().as_bytes_vec() }
}

/// The answer a routing decision gives the client at once: on Fly, a 200
/// with the `fly-replay` header and no body; without an address, a 503
/// `SHARD_MACHINE_UNREACHABLE` with the message. A proxied or forwarded
/// request has none yet. The status is also what the routing returns.
pub fn route_answer(a: &RouteAction) -> (r: Option<Answer>)
    ensures
        match *a {
            RouteAction::Replay(v) => r matches Some(ans) && ans.status == 200 && headers_view(ans.headers@)
                == seq![("fly-replay"@, v@)] && ans.body@.len() == 0,
            RouteAction::NoAddress(m) => r matches Some(ans) && ans.status == 503 && headers_view(ans.headers@)
                == seq![("Content-Type"@, "application/json"@)] && ans.body@ == encode_utf8(
                error_json("SHARD_MACHINE_UNREACHABLE"@, m@),
            ),
            _ => r is None,
        },
{
    match a {
        RouteAction::Replay(v) => {
            let headers: Vec<(String, String)> = vec![header("fly-replay", v.as_str())];
            proof {
                assert(headers_view(headers@) =~= seq![("fly-replay"@, v@)]);
            }
            Some(Answer { status: 200, headers, body: Vec::new() })
        },
        RouteAction::NoAddress(m) => Some(error_answer(503, "SHARD_MACHINE_UNREACHABLE", m.as_str())),
        _ => None,
    }
}

/// The answer when the machine that runs the shard did not answer a
/// proxied or forwarded request: a 502.
pub fn unreachable_answer() -> (a: Answer)
    ensures
        a.status == 502,
        headers_view(a.headers@) == seq![("Content-Type"@, "application/json"@)],
        a.body@ == encode_utf8(
            error_json("SHARD_MACHINE_UNREACHABLE"@, "the machine that runs the shard did not answer"@),
        ),
{
    error_answer(502, "SHARD_MACHINE_UNREACHABLE", "the machine that runs the shard did not answer")
}

/// The answer when the client's connection cannot be taken over for a
/// proxied upgrade: a 501.
pub fn upgrade_unsupported_answer() -> (a: Answer)
    ensures
        a.status == 501,
        headers_view(a.headers@) == seq![("Content-Type"@, "application/json"@)],
        a.body@ == encode_utf8(
            error_json(
                "SHARD_UPGRADE_UNSUPPORTED"@,
                "this connection cannot be proxied (TLS terminated by pylon)"@,
            ),
        ),
{
    error_answer(501, "SHARD_UPGRADE_UNSUPPORTED", "this connection cannot be proxied (TLS terminated by pylon)")
}

/// The answer when a request's body could not be read for forwarding: a
/// 400.
pub fn unreadable_body_answer() -> (a: Answer)
    ensures
        a.status == 400,
        headers_view(a.headers@) == seq![("Content-Type"@, "application/json"@)],
        a.body@ == encode_utf8(error_json("BAD_REQUEST"@, "could not read the body"@)),
{
    error_answer(400, "BAD_REQUEST", "could not read the body")
}

/// The answer when the machine that runs the shard refused an upgrade
/// (answered anything but 101): its status, its content type, and the
/// bytes it sent after its head.
pub fn refused_upgrade_answer(status: u16, headers: &[(String, String)], early: Vec<u8>) -> (a: Answer)
    ensures
        a.status == status,
        headers_view(a.headers@) == kept_by(headers_view(headers@), HeaderRule::RefusedReply),
        a.body@ == early@,
{
    Answer { status, headers: keep_headers(headers, HeaderRule::RefusedReply), body: early }
}

/// The head of an accepted upgrade handed to the client: a 101 with the
/// machine's upgrade headers.
pub fn accepted_upgrade_answer(headers: &[(String, String)]) -> (a: Answer)
    ensures
        a.status == 101,
        headers_view(a.headers@) == kept_by(headers_view(headers@), HeaderRule::UpgradeReply),
        a.body@.len() == 0,
{
    Answer { status: 101, headers: keep_headers(headers, HeaderRule::UpgradeReply), body: Vec::new() }
}


/// A forwarded header vouches for the request it was made for, and no
/// other: one that machine `to`'s key signed at `at`, with a fresh nonce
/// of twelve random bytes, for a request from `ip` (which holds no `;`)
/// with `method` and `url`, reads back as that IP and signature, and is
/// accepted by `to` within the call window for that request. For a
/// request with another method or URL, whose signature would be another
/// text, it is refused.
pub proof fn law_forwarded_header_vouches_for_its_request(
    seen: Seq<(i64, Seq<char>)>,
    key: Seq<u8>,
    to: Seq<char>,
    ip: Seq<char>,
    method: Seq<char>,
    url: Seq<char>,
    other_method: Seq<char>,
    other_url: Seq<char>,
    at: i64,
    b: Seq<u8>,
    now: i64,
)
    requires
        b.len() == 12,
        !ip.contains(';'),
        abs_diff(now as int, at as int) <= CALL_WINDOW_MS,
        !holds_nonce(expire(seen, now as int), hex(b)),
    ensures
        ({
            let sig = signature_text(key, at, hex(b), to, forward_message(ip, method, url));
            &&& forwarded_parts(ip + seq![';'] + sig) == Some((ip, sig))
            &&& call_step(seen, Some(key), to, sig, forward_message(ip, method, url), now).0 is Ok
            &&& signature_text(key, at, hex(b), to, forward_message(ip, other_method, other_url))
                != sig ==> call_step(
                seen,
                Some(key),
                to,
                sig,
                forward_message(ip, other_method, other_url),
                now,
            ).0 is Err
        }),
{
    let n = hex(b);
    let fm = forward_message(ip, method, url);
    let fm2 = forward_message(ip, other_method, other_url);
    let sig = signature_text(key, at, n, to, fm);
    lemma_hex_len(b);
    lemma_hex_chars(b);
    assert forall|k: int| 0 <= k < n.len() implies n[k] != '.' by {
        assert(is_hex_char(n[k]));
    }
    lemma_signature_reads_back(key, at, n, to, fm);
    lemma_signature_reads_back(key, at, n, to, fm2);
    let v = ip + seq![';'] + sig;
    lemma_first_index_of(v, ';');
    assert(v[ip.len() as int] == ';');
    assert forall|k: int| 0 <= k < ip.len() implies v[k] != ';' by {
        assert(v[k] == ip[k]);
        if ip[k] == ';' {
            assert(ip.contains(';'));
        }
    }
    assert(v.take(ip.len() as int) =~= ip);
    assert(v.skip(ip.len() as int + 1) =~= sig);
}

/// The shard named in a shard path is its id percent-decoded, for the SSE
/// stream (`/api/shards/<id>/connect`) and inputs
/// (`/api/shards/<id>/input`) alike; and it is the shard the WebSocket
/// form `/shard?shard=<id>` names with the same text.
#[verifier::rlimit(40)]
pub proof fn law_shard_path_id_is_decoded(i: Seq<char>)
    requires
        i.len() > 0,
        !i.contains('/'),
        !i.contains('?'),
    ensures
        shard_of_url("/api/shards/"@ + i + "/connect"@) == Some(percent_decoded(i)),
        shard_of_url("/api/shards/"@ + i + "/input"@) == Some(percent_decoded(i)),
        !i.contains('&') && percent_decoded(i).len() > 0 ==> shard_of_url("/shard?shard="@ + i)
            == Some(percent_decoded(i)),
{
    reveal_strlit("/api/shards/");
    reveal_strlit("/connect");
    reveal_strlit("/input");
    reveal_strlit("/shard");
    reveal_strlit("/shard?shard=");
    reveal_strlit("shard");
    reveal_strlit("shard=");
    let tails = seq!["/connect"@, "/input"@];
    assert forall|k: int| 0 <= k < 2 implies shard_of_url("/api/shards/"@ + i + #[trigger] tails[k])
        == Some(percent_decoded(i)) by {
        let t = tails[k];
        let u = "/api/shards/"@ + i + t;
        lemma_first_index_of(u, '?');
        let q = first_index_of(u, '?');
        assert(!u.contains('?')) by {
            if u.contains('?') {
                let w = choose|w: int| 0 <= w < u.len() && u[w] == '?';
                if w >= 12 && w < 12 + i.len() {
                    assert(i[w - 12] == '?');
                }
            }
        }
        if q < u.len() {
            assert(u[q] == '?');
        }
        assert(u.take(q) =~= u);
        assert(u.len() != 6);
        assert(u.take(12) =~= "/api/shards/"@);
        let rest = u.skip(12);
        assert(rest =~= i + t);
        assert(has_suffix(rest, "/connect"@) <==> k == 0) by {
            if k == 0 {
                assert(rest.skip(rest.len() - 8) =~= "/connect"@);
            } else if rest.len() >= 8 {
                assert(rest[rest.len() - 6] == '/');
                assert(rest.skip(rest.len() - 8)[2] == rest[rest.len() - 6]);
            }
        }
        assert(k == 1 ==> rest.skip(rest.len() - 6) =~= "/input"@);
        assert(k == 0 ==> rest.take(rest.len() - 8) =~= i);
        assert(k == 1 ==> rest.take(rest.len() - 6) =~= i);
    }
    assert(tails[0] == "/connect"@);
    assert(tails[1] == "/input"@);
    if !i.contains('&') && percent_decoded(i).len() > 0 {
        let u = "/shard?shard="@ + i;
        lemma_first_index_of(u, '?');
        let q = first_index_of(u, '?');
        assert(u[6] == '?');
        assert(q <= 6);
        assert forall|w: int| 0 <= w < 6 implies u[w] != '?' by {}
        assert(q == 6);
        assert(u.take(6) =~= "/shard"@);
        let query = u.skip(7);
        assert(query =~= "shard="@ + i);
        lemma_first_index_of(query, '&');
        let a = first_index_of(query, '&');
        assert(a == query.len()) by {
            if a < query.len() {
                assert(query[a] == '&');
                if a >= 6 {
                    assert(i[a - 6] == '&');
                }
            }
        }
        let pair = query.take(a);
        assert(pair =~= query);
        lemma_first_index_of(pair, '=');
        let j = first_index_of(pair, '=');
        assert(pair[5] == '=');
        assert forall|w: int| 0 <= w < 5 implies pair[w] != '=' by {}
        assert(j == 5);
        assert(pair.take(5) =~= "shard"@);
        assert(pair.skip(6) =~= i);
    }
}

/// What each hop drops, whatever the case of a header's name: the client's
/// `Host`, `Content-Length` and `Transfer-Encoding`, and any forwarded
/// header a client sent (so no client vouches for itself), are not passed
/// on; a forwarded request also drops `Connection`, and a forwarded answer
/// drops `Content-Length`, `Transfer-Encoding` and `Connection`; an
/// accepted upgrade answers with `Upgrade`, `Connection`,
/// `Sec-WebSocket-Accept` and `Sec-WebSocket-Protocol` only, and a refused
/// one with `Content-Type` only. Any other header passes every hop but the
/// two upgrade answers. A hop keeps, of the headers it is given, exactly
/// those its rule keeps.
#[verifier::rlimit(40)]
pub proof fn law_hops_keep_what_they_should(hs: Seq<(Seq<char>, Seq<char>)>, r: HeaderRule, name: Seq<char>)
    ensures
        ascii_lower(name) == "host"@ ==> !keeps(HeaderRule::Passed, name) && !keeps(
            HeaderRule::ForwardedRequest,
            name,
        ) && keeps(HeaderRule::ForwardedReply, name),
        ascii_lower(name) == "content-length"@ || ascii_lower(name) == "transfer-encoding"@ ==> !keeps(
            HeaderRule::Passed,
            name,
        ) && !keeps(HeaderRule::ForwardedRequest, name) && !keeps(HeaderRule::ForwardedReply, name),
        ascii_lower(name) == "x-pylon-shard-forwarded"@ ==> !keeps(HeaderRule::Passed, name) && !keeps(
            HeaderRule::ForwardedRequest,
            name,
        ),
        ascii_lower(name) == "connection"@ ==> keeps(HeaderRule::Passed, name) && !keeps(
            HeaderRule::ForwardedRequest,
            name,
        ) && !keeps(HeaderRule::ForwardedReply, name) && keeps(HeaderRule::UpgradeReply, name),
        ascii_lower(name) == "upgrade"@ || ascii_lower(name) == "sec-websocket-accept"@ || ascii_lower(
            name,
        ) == "sec-websocket-protocol"@ ==> keeps(HeaderRule::UpgradeReply, name),
        ascii_lower(name) == "content-type"@ ==> keeps(HeaderRule::RefusedReply, name) && keeps(
            HeaderRule::ForwardedReply,
            name,
        ) && !keeps(HeaderRule::UpgradeReply, name),
        !(ascii_lower(name) == "host"@ || ascii_lower(name) == "content-length"@ || ascii_lower(name)
            == "transfer-encoding"@ || ascii_lower(name) == "x-pylon-shard-forwarded"@
            || ascii_lower(name) == "connection"@ || ascii_lower(name) == "upgrade"@ || ascii_lower(
            name,
        ) == "sec-websocket-accept"@ || ascii_lower(name) == "sec-websocket-protocol"@
            || ascii_lower(name) == "content-type"@) ==> keeps(HeaderRule::Passed, name) && keeps(
            HeaderRule::ForwardedRequest,
            name,
        ) && keeps(HeaderRule::ForwardedReply, name) && !keeps(HeaderRule::UpgradeReply, name)
            && !keeps(HeaderRule::RefusedReply, name),
        forall|x: (Seq<char>, Seq<char>)| #[trigger]
            kept_by(hs, r).contains(x) <==> hs.contains(x) && keeps(r, x.0),
{
    reveal_strlit("host");
    reveal_strlit("content-length");
    reveal_strlit("transfer-encoding");
    reveal_strlit("x-pylon-shard-forwarded");
    reveal_strlit("connection");
    reveal_strlit("upgrade");
    reveal_strlit("sec-websocket-accept");
    reveal_strlit("sec-websocket-protocol");
    reveal_strlit("content-type");
    let l = ascii_lower(name);
    assert(l == "host"@ ==> l.len() == 4);
    assert(l == "connection"@ ==> l.len() == 10 && l[3] == 'n');
    assert(l == "content-type"@ ==> l.len() == 12 && l[8] == 't');
    assert(l == "content-length"@ ==> l.len() == 14);
    assert("transfer-encoding"@.len() == 17);
    assert("x-pylon-shard-forwarded"@.len() == 23);
    assert("upgrade"@.len() == 7);
    assert("sec-websocket-accept"@.len() == 20);
    assert("sec-websocket-protocol"@.len() == 22);
    assert("content-type"@[8] == 't' && "content-length"@.len() == 14);
    assert("connection"@[3] == 'n' && "content-type"@[3] == 't');
    lemma_kept_by_contains(hs, r);
}

proof fn lemma_kept_by_contains(hs: Seq<(Seq<char>, Seq<char>)>, r: HeaderRule)
    ensures
        forall|x: (Seq<char>, Seq<char>)| #[trigger]
            kept_by(hs, r).contains(x) <==> hs.contains(x) && keeps(r, x.0),
    decreases hs.len(),
{
    if hs.len() > 0 {
        let d = hs.drop_last();
        let lx = hs.last();
        let rest = kept_by(d, r);
        lemma_kept_by_contains(d, r);
        assert forall|x: (Seq<char>, Seq<char>)| #[trigger]
            kept_by(hs, r).contains(x) <==> hs.contains(x) && keeps(r, x.0) by {
            let kept = kept_by(hs, r);
            if kept.contains(x) {
                let k = choose|k: int| 0 <= k < kept.len() && kept[k] == x;
                if keeps(r, lx.0) && k == rest.len() {
                    assert(x == lx);
                    assert(hs[hs.len() - 1] == x);
                } else {
                    assert(rest[k] == x);
                    assert(rest.contains(x));
                    let m = choose|m: int| 0 <= m < d.len() && d[m] == x;
                    assert(hs[m] == x);
                }
            }
            if hs.contains(x) && keeps(r, x.0) {
                let k = choose|k: int| 0 <= k < hs.len() && hs[k] == x;
                if k < hs.len() - 1 {
                    assert(d[k] == x);
                    assert(d.contains(x));
                    assert(rest.contains(x));
                    let m = choose|m: int| 0 <= m < rest.len() && rest[m] == x;
                    if keeps(r, lx.0) {
                        assert(rest.push(lx)[m] == x);
                    }
                } else {
                    assert(x == lx);
                    assert(rest.push(lx)[rest.len() as int] == x);
                }
            }
        }
    }
}

/// JSON escaping works character by character: the text of `a + b` is the
/// text of `a`, then that of `b`; a text with no quote, backslash or
/// control character is its own JSON text; and a quote or a backslash
/// always comes out behind a backslash, so no text ends the JSON string
/// early.
pub proof fn law_json_text_escapes_each_character(a: Seq<char>, b: Seq<char>)
    ensures
        json_text(a + b) == json_text(a) + json_text(b),
        (forall|k: int|
            0 <= k < a.len() ==> (#[trigger] a[k]) != '"' && a[k] != '\\' && (a[k] as u32) >= 0x20)
            ==> json_text(a) == a,
        json_text(seq!['"']) == seq!['\\', '"'],
        json_text(seq!['\\']) == seq!['\\', '\\'],
        forall|c: char| c != '"' && c != '\\' ==> !(#[trigger] json_char(c)).contains('"'),
    decreases b.len(),
{
    if b.len() > 0 {
        law_json_text_escapes_each_character(a, b.drop_last());
        assert((a + b).drop_last() =~= a + b.drop_last());
        assert((a + b).last() == b.last());
    } else {
        assert(a + b =~= a);
    }
    lemma_plain_json_text(a);
    let q = seq!['"'];
    let bs = seq!['\\'];
    assert(q.drop_last() =~= Seq::<char>::empty());
    assert(bs.drop_last() =~= Seq::<char>::empty());
    assert(json_text(Seq::<char>::empty()) == Seq::<char>::empty());
    assert(q.last() == '"');
    assert(bs.last() == '\\');
    assert(json_text(q) =~= seq!['\\', '"']);
    assert(json_text(bs) =~= seq!['\\', '\\']);
    assert forall|c: char| c != '"' && c != '\\' implies !(#[trigger] json_char(c)).contains('"') by {
        let j = json_char(c);
        if j.contains('"') {
            let k = choose|k: int| 0 <= k < j.len() && j[k] == '"';
            if (c as u32) < 0x20 && c != '\n' && c != '\r' && c != '\t' && c != '\u{8}' && c
                != '\u{c}' {
                let d1 = ((c as u32 / 16) as nat);
                let d2 = ((c as u32 % 16) as nat);
                assert(d1 < 2);
                assert(d2 < 16);
            }
        }
    }
}

proof fn lemma_plain_json_text(a: Seq<char>)
    ensures
        (forall|k: int|
            0 <= k < a.len() ==> (#[trigger] a[k]) != '"' && a[k] != '\\' && (a[k] as u32) >= 0x20)
            ==> json_text(a) == a,
    decreases a.len(),
{
    if a.len() > 0 {
        lemma_plain_json_text(a.drop_last());
        if forall|k: int|
            0 <= k < a.len() ==> (#[trigger] a[k]) != '"' && a[k] != '\\' && (a[k] as u32) >= 0x20 {
            let d = a.drop_last();
            assert forall|k: int| 0 <= k < d.len() implies (#[trigger] d[k]) != '"' && d[k] != '\\'
                && (d[k] as u32) >= 0x20 by {
                assert(d[k] == a[k]);
            }
            assert(a.last() == a[a.len() - 1]);
            assert(a =~= d.push(a.last()));
        }
    }
}

/// The head passed to the machine that runs the shard asks for the target
/// URL from the target host first, and ends with this machine's forwarded
/// header, after every passed header. Of the client's header lines, one
/// naming `Host` or the forwarded header (in any case) is dropped, so the
/// only forwarded header the owner reads is the one this machine vouches
/// with; another is passed on as `Name: value`, both trimmed.
#[verifier::rlimit(40)]
pub proof fn law_owner_head_vouches_once(
    head: Seq<char>,
    target_url: Seq<char>,
    host: Seq<char>,
    forwarded: Seq<char>,
    name: Seq<char>,
    value: Seq<char>,
)
    requires
        !name.contains(':'),
    ensures
        ({
            let o = owner_head(head, target_url, host, forwarded);
            let first = "GET "@ + target_url + " HTTP/1.1\r\nHost: "@ + host + "\r\n"@;
            let last = "X-Pylon-Shard-Forwarded: "@ + forwarded + "\r\n\r\n"@;
            &&& o.len() >= first.len() + last.len()
            &&& o.take(first.len() as int) == first
            &&& o.skip(o.len() - last.len()) == last
        }),
        ascii_lower(trimmed(name)) == "host"@ || ascii_lower(trimmed(name))
            == "x-pylon-shard-forwarded"@ ==> kept_header(name + ":"@ + value) == Seq::<char>::empty(),
        !(ascii_lower(trimmed(name)) == "host"@ || ascii_lower(trimmed(name))
            == "x-pylon-shard-forwarded"@) ==> kept_header(name + ":"@ + value) == trimmed(name)
            + ": "@ + trimmed(value) + "\r\n"@,
{
    reveal_strlit(":");
    let i = first_crlf(head);
    let rest = if i >= head.len() {
        Seq::empty()
    } else {
        head.skip(i + 2)
    };
    let first = "GET "@ + target_url + " HTTP/1.1\r\nHost: "@ + host + "\r\n"@;
    let last = "X-Pylon-Shard-Forwarded: "@ + forwarded + "\r\n\r\n"@;
    let o = owner_head(head, target_url, host, forwarded);
    assert(o =~= first + kept_headers(rest) + last);
    assert(o.take(first.len() as int) =~= first);
    assert(o.skip(o.len() - last.len()) =~= last);
    let line = name + (":"@ + value);
    lemma_first_index_of(line, ':');
    let j = first_index_of(line, ':');
    assert(line[name.len() as int] == ':');
    if j < name.len() {
        assert(line[j] == name[j]);
        assert(name.contains(':'));
    }
    assert(j == name.len());
    assert(line.take(j) =~= name);
    assert(line.skip(j + 1) =~= value);
    assert(name + ":"@ + value =~= line);
}

/// The head of a proxied upgrade asks for `url` from `host` first, passes
/// the kept headers as `Name: value` lines in order, and ends with this
/// machine's forwarded header.
pub proof fn law_proxy_head_vouches_last(
    url: Seq<char>,
    host: Seq<char>,
    passed: Seq<(Seq<char>, Seq<char>)>,
    forwarded: Seq<char>,
    name: Seq<char>,
    value: Seq<char>,
)
    ensures
        ({
            let p = proxy_head(url, host, passed, forwarded);
            let first = "GET "@ + url + " HTTP/1.1\r\nHost: "@ + host + "\r\n"@;
            let last = "X-Pylon-Shard-Forwarded: "@ + forwarded + "\r\n\r\n"@;
            &&& p.len() >= first.len() + last.len()
            &&& p.take(first.len() as int) == first
            &&& p.skip(p.len() - last.len()) == last
        }),
        header_lines(passed.push((name, value))) == header_lines(passed) + name + ": "@ + value
            + "\r\n"@,
{
    let first = "GET "@ + url + " HTTP/1.1\r\nHost: "@ + host + "\r\n"@;
    let last = "X-Pylon-Shard-Forwarded: "@ + forwarded + "\r\n\r\n"@;
    let p = proxy_head(url, host, passed, forwarded);
    assert(p =~= first + header_lines(passed) + last);
    assert(p.take(first.len() as int) =~= first);
    assert(p.skip(p.len() - last.len()) =~= last);
    assert(passed.push((name, value)).drop_last() =~= passed);
}

/// The authority of an `http://` address is what follows the scheme, up
/// to a path: `http://<a>` and `http://<a>/<p>` both give `a` (an `a` with
/// no `/`); an address of another scheme gives none.
pub proof fn law_authority_is_host_and_port(a: Seq<char>, p: Seq<char>, other: Seq<char>)
    requires
        !a.contains('/'),
        !(other.len() >= 7 && other.take(7) == "http://"@),
    ensures
        authority_of("http://"@ + a) == Some(a),
        authority_of("http://"@ + a + "/"@ + p) == Some(a),
        authority_of(other) is None,
{
    reveal_strlit("http://");
    reveal_strlit("/");
    let s1 = "http://"@ + a;
    let s2 = "http://"@ + a + "/"@ + p;
    assert(s1.take(7) =~= "http://"@);
    assert(s2.take(7) =~= "http://"@);
    assert(s1.skip(7) =~= a);
    let r2 = a + ("/"@ + p);
    assert(s2.skip(7) =~= r2);
    lemma_first_index_of(a, '/');
    assert(a.take(a.len() as int) =~= a);
    lemma_first_index_of(r2, '/');
    let k = first_index_of(r2, '/');
    assert(r2[a.len() as int] == '/');
    if k < a.len() {
        assert(r2[k] == a[k]);
    }
    assert(r2.take(a.len() as int) =~= a);
}

} // verus!
