//! The token an SSE connection presents: a bearer token, the session
//! cookie, or a `token` query parameter, read from the raw request head.

use vstd::prelude::*;

use crate::shard_ws::{ascii_lower, ascii_lower_char};
use crate::text::{
    chars_eq, chars_of, decimal, decimal_string, find_char, first_index_of, is_white,
    is_white_char, lemma_first_index_of, lemma_trim_end_at, lemma_trim_start_at, push_str, slice_chars, starts_with, string_from_chars,
    string_from_utf8, text_len, trim_chars, trim_start, trimmed,
};

verus! {

// ---------------------------------------------------------------------------
// The request line
// ---------------------------------------------------------------------------

/// The index of the first `\r\n` in `s`, or its length when it has none.
pub open spec fn first_crlf(s: Seq<char>) -> int
    decreases s.len(),
{
    if s.len() < 2 {
        s.len() as int
    } else if s[0] == '\r' && s[1] == '\n' {
        0
    } else {
        1 + first_crlf(s.drop_first())
    }
}

/// The index of the first whitespace character of `s`, or its length.
pub open spec fn first_white(s: Seq<char>) -> int
    decreases s.len(),
{
    if s.len() == 0 {
        0
    } else if is_white(s[0]) {
        0
    } else {
        1 + first_white(s.drop_first())
    }
}

/// The second whitespace-separated word of `s`.
pub open spec fn second_word(s: Seq<char>) -> Option<Seq<char>> {
    let s1 = trim_start(s);
    let rest = s1.skip(first_white(s1));
    let s2 = trim_start(rest);
    if s2.len() == 0 {
        None
    } else {
        Some(s2.take(first_white(s2)))
    }
}

/// What follows the first `?` of a path, up to the next one.
pub open spec fn query_of(path: Seq<char>) -> Option<Seq<char>> {
    let i = first_index_of(path, '?');
    if i >= path.len() {
        None
    } else {
        let rest = path.skip(i + 1);
        Some(rest.take(first_index_of(rest, '?')))
    }
}

/// The value of the first `token=` pair of a query.
pub open spec fn token_param(q: Seq<char>) -> Option<Seq<char>>
    decreases q.len(),
{
    let i = first_index_of(q, '&');
    let pair = q.take(i);
    let j = first_index_of(pair, '=');
    if j < pair.len() && pair.take(j) == "token"@ {
        Some(pair.skip(j + 1))
    } else if i >= q.len() {
        None
    } else {
        proof {
            lemma_first_index_of(q, '&');
        }
        token_param(q.skip(i + 1))
    }
}

/// The `token` query parameter of a request line.
pub open spec fn query_token(request_line: Seq<char>) -> Option<Seq<char>> {
    match second_word(request_line) {
        Some(path) => match query_of(path) {
            Some(q) => token_param(q),
            None => None,
        },
        None => None,
    }
}

// ---------------------------------------------------------------------------
// The header lines
// ---------------------------------------------------------------------------

/// What the header lines have given so far.
pub ghost struct SseHeads {
    pub bearer: Option<Seq<char>>,
    pub cookie: Option<Seq<char>>,
}

/// The cookie pairs of a `Cookie` value, split at `;`, until the one named
/// `name`: the cookie found, or `cookie` when none is. A pair without `=`
/// names no cookie and is passed over.
pub open spec fn cookie_scan(cookie: Option<Seq<char>>, v: Seq<char>, name: Seq<char>) -> Option<
    Seq<char>,
>
    decreases v.len(),
{
    let i = first_index_of(v, ';');
    let kv = trimmed(v.take(i));
    let j = first_index_of(kv, '=');
    if j < kv.len() && trimmed(kv.take(j)) == name {
        Some(trimmed(kv.skip(j + 1)))
    } else if i >= v.len() {
        cookie
    } else {
        proof {
            lemma_first_index_of(v, ';');
        }
        cookie_scan(cookie, v.skip(i + 1), name)
    }
}

/// One header line: an `Authorization: Bearer` token, or the session
/// cookie, the name matched in any case.
pub open spec fn line_step(st: SseHeads, line: Seq<char>, name: Seq<char>) -> SseHeads {
    let lower = ascii_lower(line);
    if lower.len() >= 14 && lower.take(14) == "authorization:"@ {
        let t = trimmed(line.skip(14));
        if t.len() >= 7 && (t.take(7) == "Bearer "@ || t.take(7) == "bearer "@) {
            SseHeads { bearer: Some(trimmed(t.skip(7))), ..st }
        } else {
            st
        }
    } else if lower.len() >= 7 && lower.take(7) == "cookie:"@ {
        SseHeads { cookie: cookie_scan(st.cookie, line.skip(7), name), ..st }
    } else {
        st
    }
}

/// The header lines, split at `\r\n`, read in order.
pub open spec fn lines_step(st: SseHeads, s: Seq<char>, name: Seq<char>) -> SseHeads
    decreases s.len(),
{
    let i = first_crlf(s);
    let st1 = line_step(st, s.take(i), name);
    if i >= s.len() {
        st1
    } else {
        proof {
            lemma_first_crlf(s);
        }
        lines_step(st1, s.skip(i + 2), name)
    }
}

/// The token of a request head: a bearer token first, then the session
/// cookie `cookie_name`, then the `token` query parameter.
pub open spec fn sse_token(text: Seq<char>, cookie_name: Seq<char>) -> Option<Seq<char>> {
    let i = first_crlf(text);
    let q = query_token(text.take(i));
    let heads = if i >= text.len() {
        SseHeads { bearer: None, cookie: None }
    } else {
        lines_step(SseHeads { bearer: None, cookie: None }, text.skip(i + 2), cookie_name)
    };
    if heads.bearer is Some {
        heads.bearer
    } else if heads.cookie is Some {
        heads.cookie
    } else {
        q
    }
}

pub proof fn lemma_first_crlf(s: Seq<char>)
    ensures
        0 <= first_crlf(s) <= s.len(),
        first_crlf(s) < s.len() ==> first_crlf(s) + 1 < s.len() && s[first_crlf(s)] == '\r'
            && s[first_crlf(s) + 1] == '\n',
    decreases s.len(),
{
    if s.len() >= 2 && !(s[0] == '\r' && s[1] == '\n') {
        lemma_first_crlf(s.drop_first());
    }
}

proof fn lemma_first_white(s: Seq<char>)
    ensures
        0 <= first_white(s) <= s.len(),
    decreases s.len(),
{
    if s.len() > 0 && !is_white(s[0]) {
        lemma_first_white(s.drop_first());
    }
}

// ---------------------------------------------------------------------------
// Reading
// ---------------------------------------------------------------------------

pub(crate) fn find_crlf(v: &[char], from: usize) -> (r: usize)
    requires
        from <= v@.len(),
    ensures
        r == from + first_crlf(v@.skip(from as int)),
        from <= r <= v@.len(),
{
    let mut k = from;
    proof {
        lemma_first_crlf(v@.skip(from as int));
    }
    loop
        invariant
            from <= k <= v@.len(),
            from + first_crlf(v@.skip(from as int)) == k + first_crlf(v@.skip(k as int)),
        decreases v@.len() - k,
    {
        let ghost s = v@.skip(k as int);
        if v.len() - k < 2 {
            return v.len();
        }
        if v[k] == '\r' && v[k + 1] == '\n' {
            proof {
                assert(s[0] == v@[k as int] && s[1] == v@[k + 1]);
            }
            return k;
        }
        proof {
            assert(s[0] == v@[k as int] && s[1] == v@[k + 1]);
            assert(s.drop_first() =~= v@.skip(k + 1));
        }
        k += 1;
    }
}

fn find_white(v: &[char], from: usize) -> (r: usize)
    requires
        from <= v@.len(),
    ensures
        r == from + first_white(v@.skip(from as int)),
        from <= r <= v@.len(),
{
    let mut k = from;
    proof {
        lemma_first_white(v@.skip(from as int));
    }
    while k < v.len() && !is_white_char(v[k])
        invariant
            from <= k <= v@.len(),
            from + first_white(v@.skip(from as int)) == k + first_white(v@.skip(k as int)),
        decreases v@.len() - k,
    {
        proof {
            assert(v@.skip(k as int)[0] == v@[k as int]);
            assert(v@.skip(k as int).drop_first() =~= v@.skip(k + 1));
        }
        k += 1;
    }
    proof {
        if k < v@.len() {
            assert(v@.skip(k as int)[0] == v@[k as int]);
        }
    }
    k
}

fn skip_white(v: &[char], from: usize) -> (r: usize)
    requires
        from <= v@.len(),
    ensures
        from <= r <= v@.len(),
        v@.skip(r as int) == trim_start(v@.skip(from as int)),
{
    let mut k = from;
    while k < v.len() && is_white_char(v[k])
        invariant
            from <= k <= v@.len(),
            trim_start(v@.skip(from as int)) == trim_start(v@.skip(k as int)),
        decreases v@.len() - k,
    {
        proof {
            assert(v@.skip(k as int)[0] == v@[k as int]);
            assert(v@.skip(k as int).drop_first() =~= v@.skip(k + 1));
        }
        k += 1;
    }
    proof {
        if k < v@.len() {
            assert(v@.skip(k as int)[0] == v@[k as int]);
        }
    }
    k
}

pub(crate) fn second_word_of(line: &[char]) -> (r: Option<Vec<char>>)
    ensures
        match r {
            Some(w) => second_word(line@) == Some(w@),
            None => second_word(line@) is None,
        },
{
    proof {
        assert(line@.skip(0) =~= line@);
    }
    let a = skip_white(line, 0);
    let b = find_white(line, a);
    proof {
        let s1 = line@.skip(a as int);
        assert(s1.skip(first_white(s1)) =~= line@.skip(b as int));
    }
    let c = skip_white(line, b);
    if c >= line.len() {
        return None;
    }
    let d = find_white(line, c);
    let w = slice_chars(line, c, d);
    proof {
        let s2 = line@.skip(c as int);
        assert(w@ =~= s2.take(first_white(s2)));
    }
    Some(w)
}

fn query_of_path(path: &[char]) -> (r: Option<Vec<char>>)
    ensures
        match r {
            Some(q) => query_of(path@) == Some(q@),
            None => query_of(path@) is None,
        },
{
    let i = find_char(path, '?', 0);
    proof {
        assert(path@.skip(0) =~= path@);
    }
    if i >= path.len() {
        return None;
    }
    let j = find_char(path, '?', i + 1);
    let q = slice_chars(path, i + 1, j);
    proof {
        let rest = path@.skip(i + 1);
        assert(q@ =~= rest.take(first_index_of(rest, '?')));
    }
    Some(q)
}

fn token_in_query(q: &[char]) -> (r: Option<Vec<char>>)
    ensures
        match r {
            Some(t) => token_param(q@) == Some(t@),
            None => token_param(q@) is None,
        },
{
    let n = q.len();
    let key = chars_of("token");
    let mut pos: usize = 0;
    proof {
        assert(q@.skip(0) =~= q@);
    }
    loop
        invariant
            pos <= n == q@.len(),
            key@ == "token"@,
            token_param(q@) == token_param(q@.skip(pos as int)),
        decreases n - pos,
    {
        let ghost s = q@.skip(pos as int);
        let iend = find_char(q, '&', pos);
        proof {
            lemma_first_index_of(s, '&');
        }
        let pair = slice_chars(q, pos, iend);
        proof {
            assert(pair@ =~= s.take(iend - pos));
        }
        let j = find_char(pair.as_slice(), '=', 0);
        proof {
            assert(pair@.skip(0) =~= pair@);
            lemma_first_index_of(pair@, '=');
        }
        if j < pair.len() {
            let k = slice_chars(pair.as_slice(), 0, j);
            proof {
                assert(k@ =~= pair@.take(j as int));
            }
            if chars_eq(k.as_slice(), key.as_slice()) {
                let v = slice_chars(pair.as_slice(), j + 1, pair.len());
                proof {
                    assert(v@ =~= pair@.skip(j + 1));
                }
                return Some(v);
            }
        }
        if iend >= n {
            return None;
        }
        proof {
            assert(s.skip(iend - pos + 1) =~= q@.skip(iend + 1));
        }
        pos = iend + 1;
    }
}

pub(crate) fn lower(v: &[char]) -> (r: Vec<char>)
    ensures
        r@ == ascii_lower(v@),
{
    let mut r: Vec<char> = Vec::new();
    let mut k: usize = 0;
    while k < v.len()
        invariant
            k <= v@.len(),
            r@ == ascii_lower(v@.take(k as int)),
        decreases v@.len() - k,
    {
        let c = v[k];
        let l = if 'A' <= c && c <= 'Z' {
            ((c as u32) + 32) as u8 as char
        } else {
            c
        };
        r.push(l);
        proof {
            assert(r@ =~= ascii_lower(v@.take(k + 1)));
        }
        k += 1;
    }
    proof {
        assert(v@.take(v@.len() as int) =~= v@);
    }
    r
}

/// Read the cookie pairs of `v` into `cookie`: the value of the one named
/// `name`, when there is one; a pair without `=` is passed over.
fn read_cookies(v: &[char], name: &[char], cookie: &mut Option<Vec<char>>)
    ensures
        opt_chars(*final(cookie)) == cookie_scan(opt_chars(*old(cookie)), v@, name@),
{
    let n = v.len();
    let mut pos: usize = 0;
    proof {
        assert(v@.skip(0) =~= v@);
    }
    loop
        invariant
            pos <= n == v@.len(),
            cookie_scan(opt_chars(*old(cookie)), v@, name@) == cookie_scan(
                opt_chars(*cookie),
                v@.skip(pos as int),
                name@,
            ),
        decreases n - pos,
    {
        let ghost s = v@.skip(pos as int);
        let iend = find_char(v, ';', pos);
        proof {
            lemma_first_index_of(s, ';');
        }
        let piece = slice_chars(v, pos, iend);
        proof {
            assert(piece@ =~= s.take(iend - pos));
        }
        let kv = trim_chars(piece.as_slice());
        let j = find_char(kv.as_slice(), '=', 0);
        proof {
            assert(kv@.skip(0) =~= kv@);
            lemma_first_index_of(kv@, '=');
        }
        if j < kv.len() {
            let k = slice_chars(kv.as_slice(), 0, j);
            let key = trim_chars(k.as_slice());
            proof {
                assert(k@ =~= kv@.take(j as int));
            }
            if chars_eq(key.as_slice(), name) {
                let val = slice_chars(kv.as_slice(), j + 1, kv.len());
                proof {
                    assert(val@ =~= kv@.skip(j + 1));
                }
                *cookie = Some(trim_chars(val.as_slice()));
                return;
            }
        }
        if iend >= n {
            return;
        }
        proof {
            assert(s.skip(iend - pos + 1) =~= v@.skip(iend + 1));
        }
        pos = iend + 1;
    }
}

pub open spec fn opt_chars(o: Option<Vec<char>>) -> Option<Seq<char>> {
    match o {
        Some(v) => Some(v@),
        None => None,
    }
}

/// The token an SSE request head carries, with `cookie_name` the session
/// cookie's name: a bearer token first, then the cookie, then the `token`
/// query parameter; the first of these the head holds. None when the head
/// is not UTF-8 or holds none. A cookie pair without `=` is passed over.
pub fn extract_sse_token(buf: &[u8], cookie_name: &str) -> (r: Option<String>)
    ensures
        match r {
            Some(t) => vstd::utf8::valid_utf8(buf@) && sse_token(
                vstd::utf8::decode_utf8(buf@),
                cookie_name@,
            ) == Some(t@),
            None => !vstd::utf8::valid_utf8(buf@) || sse_token(
                vstd::utf8::decode_utf8(buf@),
                cookie_name@,
            ) is None,
        },
{
    proof {
        reveal_strlit("authorization:");
        reveal_strlit("cookie:");
        reveal_strlit("Bearer ");
        reveal_strlit("bearer ");
    }
    let text = match string_from_utf8(vstd::slice::slice_to_vec(buf)) {
        Some(t) => t,
        None => {
            return None;
        },
    };
    let name = chars_of(cookie_name);
    let tc = chars_of(text.as_str());
    let n = tc.len();
    let i = find_crlf(tc.as_slice(), 0);
    proof {
        assert(tc@.skip(0) =~= tc@);
        lemma_first_crlf(tc@);
    }
    let request_line = slice_chars(tc.as_slice(), 0, i);
    proof {
        assert(request_line@ =~= tc@.take(i as int));
    }
    let query_token: Option<Vec<char>> = match second_word_of(request_line.as_slice()) {
        Some(path) => match query_of_path(path.as_slice()) {
            Some(q) => token_in_query(q.as_slice()),
            None => None,
        },
        None => None,
    };
    let mut bearer: Option<Vec<char>> = None;
    let mut cookie: Option<Vec<char>> = None;
    if i < n {
        let auth = chars_of("authorization:");
        let cook = chars_of("cookie:");
        let big = chars_of("Bearer ");
        let small = chars_of("bearer ");
        let mut pos: usize = i + 2;
        let ghost init = SseHeads { bearer: None, cookie: None };
        loop
            invariant_except_break
                lines_step(init, tc@.skip(i + 2), name@) == lines_step(
                    SseHeads { bearer: opt_chars(bearer), cookie: opt_chars(cookie) },
                    tc@.skip(pos as int),
                    name@,
                ),
            invariant
                i < n == tc@.len(),
                i == first_crlf(tc@),
                tc@ == vstd::utf8::decode_utf8(buf@),
                vstd::utf8::valid_utf8(buf@),
                i + 2 <= pos <= n,
                name@ == cookie_name@,
                auth@ == "authorization:"@,
                cook@ == "cookie:"@,
                big@ == "Bearer "@,
                small@ == "bearer "@,
                "authorization:"@.len() == 14,
                "cookie:"@.len() == 7,
                "Bearer "@.len() == 7,
                "bearer "@.len() == 7,
                init == (SseHeads { bearer: None, cookie: None }),
            ensures
                lines_step(init, tc@.skip(i + 2), name@) == (SseHeads {
                    bearer: opt_chars(bearer),
                    cookie: opt_chars(cookie),
                }),
            decreases n - pos,
        {
            let ghost s = tc@.skip(pos as int);
            let ghost st = SseHeads { bearer: opt_chars(bearer), cookie: opt_chars(cookie) };
            let e = find_crlf(tc.as_slice(), pos);
            proof {
                lemma_first_crlf(s);
            }
            let line = slice_chars(tc.as_slice(), pos, e);
            proof {
                assert(line@ =~= s.take(e - pos));
            }
            let lw = lower(line.as_slice());
            if starts_with(lw.as_slice(), auth.as_slice()) {
                let rest = slice_chars(line.as_slice(), 14, line.len());
                proof {
                    assert(rest@ =~= line@.skip(14));
                }
                let t = trim_chars(rest.as_slice());
                if starts_with(t.as_slice(), big.as_slice()) || starts_with(t.as_slice(), small.as_slice()) {
                    let tail = slice_chars(t.as_slice(), 7, t.len());
                    proof {
                        assert(tail@ =~= t@.skip(7));
                    }
                    bearer = Some(trim_chars(tail.as_slice()));
                }
            } else if starts_with(lw.as_slice(), cook.as_slice()) {
                let rest = slice_chars(line.as_slice(), 7, line.len());
                proof {
                    assert(rest@ =~= line@.skip(7));
                }
                read_cookies(rest.as_slice(), name.as_slice(), &mut cookie);
            }
            proof {
                assert(line_step(st, line@, name@) == (SseHeads {
                    bearer: opt_chars(bearer),
                    cookie: opt_chars(cookie),
                }));
            }
            if e >= n {
                break;
            }
            proof {
                assert(s.skip(e - pos + 2) =~= tc@.skip(e + 2));
            }
            pos = e + 2;
        }
    }
    let chosen = match bearer {
        Some(b) => Some(b),
        None => match cookie {
            Some(c) => Some(c),
            None => query_token,
        },
    };
    match chosen {
        Some(v) => Some(string_from_chars(v.as_slice())),
        None => None,
    }
}

// ---------------------------------------------------------------------------
// Serving the stream
// ---------------------------------------------------------------------------

/// A flag in the environment is on: `1`, or `true` in any case.
pub open spec fn flag_on(v: Option<Seq<char>>) -> bool {
    match v {
        Some(s) => s == "1"@ || ascii_lower(s) == "true"@,
        None => false,
    }
}

/// See [`flag_on`].
pub fn is_flag_on(v: Option<&str>) -> (b: bool)
    ensures
        b == flag_on(match v {
            Some(s) => Some(s@),
            None => None,
        }),
{
    match v {
        Some(s) => {
            let cs = chars_of(s);
            let one = chars_of("1");
            let t = chars_of("true");
            chars_eq(cs.as_slice(), one.as_slice()) || chars_eq(lower(cs.as_slice()).as_slice(), t.as_slice())
        },
        None => false,
    }
}

/// The stream is served to a caller: one with a user or the admin token;
/// any caller in development, or when the operator accepted anonymous
/// streams.
pub fn serves_caller(has_user: bool, is_admin: bool, dev_mode: bool, anonymous_ok: bool) -> (b: bool)
    ensures
        b == (has_user || is_admin || dev_mode || anonymous_ok),
{
    has_user || is_admin || dev_mode || anonymous_ok
}

/// The body of the answer to a caller the stream is refused to.
pub open spec fn refusal_body() -> Seq<char> {
    "{\"error\":{\"code\":\"AUTH_REQUIRED\",\"message\":\"SSE requires authentication; pass session cookie, Authorization: Bearer, or ?token=\"}}"@
}

/// The answer to a caller the stream is refused to: a 401 with a JSON
/// error, its length in the head.
pub fn refusal_response() -> (r: String)
    ensures
        r@ == "HTTP/1.1 401 Unauthorized\r\nContent-Type: application/json\r\nContent-Length: "@ + decimal(
            text_len(refusal_body()),
        ) + "\r\nConnection: close\r\n\r\n"@ + refusal_body(),
{
    let body = "{\"error\":{\"code\":\"AUTH_REQUIRED\",\"message\":\"SSE requires authentication; pass session cookie, Authorization: Bearer, or ?token=\"}}";
    let mut r = String::from_str("HTTP/1.1 401 Unauthorized\r\nContent-Type: application/json\r\nContent-Length: ");
    let n = crate::text::str_len(body);
    let d = decimal_string(n as u64);
    push_str(&mut r, d.as_str());
    push_str(&mut r, "\r\nConnection: close\r\n\r\n");
    push_str(&mut r, body);
    r
}

/// The head of an accepted stream, and its first comment.
pub fn stream_head() -> (r: String)
    ensures
        r@ == "HTTP/1.1 200 OK\r\nContent-Type: text/event-stream\r\nCache-Control: no-cache\r\nConnection: keep-alive\r\nAccess-Control-Allow-Origin: *\r\nX-Content-Type-Options: nosniff\r\n\r\n: connected\n\n"@,
{
    String::from_str(
        "HTTP/1.1 200 OK\r\nContent-Type: text/event-stream\r\nCache-Control: no-cache\r\nConnection: keep-alive\r\nAccess-Control-Allow-Origin: *\r\nX-Content-Type-Options: nosniff\r\n\r\n: connected\n\n",
    )
}

/// One event as the stream carries it.
pub fn sse_data(json: &str) -> (r: String)
    ensures
        r@ == "data: "@ + json@ + "\n\n"@,
{
    let mut r = String::from_str("data: ");
    push_str(&mut r, json);
    push_str(&mut r, "\n\n");
    r
}

/// What a client of the stream gets of a change.
#[derive(Debug, Clone, Copy, PartialEq, Eq, Structural)]
pub enum Delivery {
    /// The change.
    Change,
    /// A delete of the row, so that a client that could read the row
    /// before and cannot now drops it.
    Tombstone,
    /// Nothing.
    Skip,
}

/// What a client gets of a change: the admin and a client that may read
/// the row after it get the change; else, when there is a tombstone (an
/// update with a row before it), a client that could read the row before
/// gets it; else nothing. `pre_allowed` is consulted only then.
pub fn delivery_for(is_admin: bool, post_allowed: bool, has_tombstone: bool, pre_allowed: bool) -> (d: Delivery)
    ensures
        d == if is_admin || post_allowed {
            Delivery::Change
        } else if has_tombstone && pre_allowed {
            Delivery::Tombstone
        } else {
            Delivery::Skip
        },
{
    if is_admin || post_allowed {
        Delivery::Change
    } else if has_tombstone && pre_allowed {
        Delivery::Tombstone
    } else {
        Delivery::Skip
    }
}

/// How many shards the stream's clients are spread over.
pub const NUM_SHARDS: u64 = 16;

/// The shard client `id` belongs to.
pub fn shard_of_client(id: u64) -> (i: usize)
    ensures
        i == id % NUM_SHARDS,
        i < NUM_SHARDS,
{
    (id % NUM_SHARDS) as usize
}

/// A word of a request head: not empty, and free of whitespace and of the
/// characters that split heads, cookies and queries.
pub open spec fn plain_word(w: Seq<char>) -> bool {
    &&& w.len() > 0
    &&& forall|k: int|
        0 <= k < w.len() ==> {
            let c = #[trigger] w[k];
            &&& !is_white(c)
            &&& c != '\r' && c != ';' && c != '&' && c != '?' && c != '='
        }
}

proof fn lemma_plain_join(a: Seq<char>, b: Seq<char>)
    requires
        plain_word(a),
        plain_word(b),
    ensures
        plain_word(a + b),
{
    assert forall|k: int| 0 <= k < (a + b).len() implies {
        let c = #[trigger] (a + b)[k];
        &&& !is_white(c)
        &&& c != '\r' && c != ';' && c != '&' && c != '?' && c != '='
    } by {
        if k < a.len() {
            assert((a + b)[k] == a[k]);
        } else {
            assert((a + b)[k] == b[k - a.len()]);
        }
    }
}

/// Leading whitespace `x` and trailing none: trimming leaves `s`.
proof fn lemma_trimmed_after(x: Seq<char>, s: Seq<char>)
    requires
        forall|k: int| 0 <= k < x.len() ==> is_white(#[trigger] x[k]),
        s.len() > 0,
        !is_white(s[0]),
        !is_white(s.last()),
    ensures
        trimmed(x + s) == s,
{
    let y = x + s;
    assert forall|k: int| 0 <= k < x.len() implies is_white(#[trigger] y[k]) by {
        assert(y[k] == x[k]);
    }
    assert(y[x.len() as int] == s[0]);
    lemma_trim_start_at(y, x.len() as int);
    assert(y.subrange(x.len() as int, y.len() as int) =~= s);
    lemma_trim_end_at(s, s.len() as int);
    assert(s.subrange(0, s.len() as int) =~= s);
}

proof fn lemma_no_cr_crlf(s: Seq<char>)
    requires
        !s.contains('\r'),
    ensures
        first_crlf(s) == s.len(),
    decreases s.len(),
{
    if s.len() >= 2 {
        assert(s[0] != '\r');
        let r = s.drop_first();
        assert(!r.contains('\r')) by {
            if r.contains('\r') {
                let k = choose|k: int| 0 <= k < r.len() && r[k] == '\r';
                assert(s[k + 1] == '\r');
            }
        }
        lemma_no_cr_crlf(r);
    }
}

proof fn lemma_crlf_after(a: Seq<char>, b: Seq<char>)
    requires
        !a.contains('\r'),
    ensures
        first_crlf(a + "\r\n"@ + b) == a.len(),
        (a + "\r\n"@ + b).take(a.len() as int) == a,
        (a + "\r\n"@ + b).skip(a.len() + 2int) == b,
    decreases a.len(),
{
    reveal_strlit("\r\n");
    let s = a + "\r\n"@ + b;
    assert(s.take(a.len() as int) =~= a);
    assert(s.skip(a.len() + 2int) =~= b);
    if a.len() > 0 {
        assert(s[0] == a[0]);
        let r = a.drop_first();
        assert(!r.contains('\r')) by {
            if r.contains('\r') {
                let k = choose|k: int| 0 <= k < r.len() && r[k] == '\r';
                assert(a[k + 1] == '\r');
            }
        }
        lemma_crlf_after(r, b);
        assert(s.drop_first() =~= r + "\r\n"@ + b);
    }
}

/// The header lines `l1`, `l2` (no `\r` in either) are read in order.
proof fn lemma_lines(st: SseHeads, l1: Seq<char>, l2: Seq<char>, name: Seq<char>)
    requires
        !l1.contains('\r'),
        !l2.contains('\r'),
    ensures
        lines_step(st, l1, name) == line_step(st, l1, name),
        lines_step(st, l1 + "\r\n"@ + l2, name) == line_step(line_step(st, l1, name), l2, name),
{
    lemma_no_cr_crlf(l1);
    lemma_no_cr_crlf(l2);
    assert(l1.take(l1.len() as int) =~= l1);
    assert(l2.take(l2.len() as int) =~= l2);
    lemma_crlf_after(l1, l2);
    let st1 = line_step(st, l1, name);
    assert(lines_step(st1, l2, name) == line_step(st1, l2, name));
}

proof fn lemma_plain_no_cr(w: Seq<char>)
    requires
        plain_word(w),
    ensures
        !w.contains('\r'),
{
    if w.contains('\r') {
        let k = choose|k: int| 0 <= k < w.len() && w[k] == '\r';
        assert(w[k] != '\r');
    }
}

/// `authorization: Bearer <b>` sets the bearer token to `b`.
#[verifier::rlimit(40)]
proof fn lemma_auth_line(st: SseHeads, b: Seq<char>, name: Seq<char>)
    requires
        plain_word(b),
    ensures
        line_step(st, "authorization: Bearer "@ + b, name) == (SseHeads { bearer: Some(b), ..st }),
        !("authorization: Bearer "@ + b).contains('\r'),
{
    reveal_strlit("authorization: Bearer ");
    reveal_strlit("authorization:");
    reveal_strlit("Bearer ");
    reveal_strlit("bearer ");
    reveal_strlit(" Bearer ");
    reveal_strlit(" ");
    let line = "authorization: Bearer "@ + b;
    let lower = ascii_lower(line);
    assert(lower.take(14) =~= "authorization:"@) by {
        assert forall|k: int| 0 <= k < 14 implies lower[k] == "authorization:"@[k] by {
            assert(line[k] == "authorization: Bearer "@[k]);
        }
    }
    assert(line.skip(14) =~= " "@ + ("Bearer "@ + b));
    lemma_trimmed_after(" "@, "Bearer "@ + b);
    let t = "Bearer "@ + b;
    assert(t.take(7) =~= "Bearer "@);
    assert(t.skip(7) =~= b);
    lemma_trimmed_after(Seq::empty(), b);
    assert(Seq::<char>::empty() + b =~= b);
    lemma_plain_no_cr(b);
    assert(!line.contains('\r')) by {
        if line.contains('\r') {
            let k = choose|k: int| 0 <= k < line.len() && line[k] == '\r';
            if k >= 22 {
                assert(b[k - 22] == '\r');
            }
        }
    }
}

/// `cookie: <name>=<c>` sets the session cookie to `c`.
#[verifier::rlimit(40)]
proof fn lemma_cookie_line(st: SseHeads, name: Seq<char>, c: Seq<char>)
    requires
        plain_word(name),
        plain_word(c),
    ensures
        line_step(st, "cookie: "@ + name + "="@ + c, name) == (SseHeads { cookie: Some(c), ..st }),
        !("cookie: "@ + name + "="@ + c).contains('\r'),
{
    reveal_strlit("cookie: ");
    reveal_strlit("cookie:");
    reveal_strlit("authorization:");
    reveal_strlit("=");
    reveal_strlit(" ");
    let line = "cookie: "@ + name + "="@ + c;
    let lower = ascii_lower(line);
    assert(lower.take(7) =~= "cookie:"@) by {
        assert forall|k: int| 0 <= k < 7 implies lower[k] == "cookie:"@[k] by {
            assert(line[k] == "cookie: "@[k]);
        }
    }
    assert(lower.len() < 14 || lower.take(14) != "authorization:"@) by {
        if lower.len() >= 14 {
            assert(lower.take(14)[0] == ascii_lower_char(line[0]));
            assert(line[0] == 'c');
        }
    }
    let v = line.skip(7);
    let kv0 = name + ("="@ + c);
    assert(v =~= " "@ + kv0);
    // One cookie pair: no `;` in it.
    lemma_first_index_of(v, ';');
    assert(first_index_of(v, ';') == v.len()) by {
        let i = first_index_of(v, ';');
        if i < v.len() {
            assert(v[i] == ';');
            if i >= 1 && i < 1 + name.len() {
                assert(name[i - 1] == ';');
            } else if i > 1 + name.len() {
                assert(c[i - 2 - name.len()] == ';');
            }
        }
    }
    assert(v.take(v.len() as int) =~= v);
    assert(kv0[0] == name[0]);
    assert(kv0.last() == c.last());
    lemma_trimmed_after(" "@, kv0);
    lemma_first_index_of(kv0, '=');
    assert(first_index_of(kv0, '=') == name.len()) by {
        let j = first_index_of(kv0, '=');
        assert(kv0[name.len() as int] == '=');
        if j < name.len() {
            assert(kv0[j] == name[j]);
        }
    }
    assert(kv0.take(name.len() as int) =~= name);
    assert(kv0.skip(name.len() + 1int) =~= c);
    lemma_trimmed_after(Seq::empty(), name);
    assert(Seq::<char>::empty() + name =~= name);
    lemma_trimmed_after(Seq::empty(), c);
    assert(Seq::<char>::empty() + c =~= c);
    assert(!line.contains('\r')) by {
        if line.contains('\r') {
            let k = choose|k: int| 0 <= k < line.len() && line[k] == '\r';
            if k >= 8 && k < 8 + name.len() {
                assert(name[k - 8] == '\r');
            } else if k > 8 + name.len() {
                assert(c[k - 9 - name.len()] == '\r');
            }
        }
    }
}

/// `GET /events?token=<t> HTTP/1.1` carries the token `t`.
proof fn lemma_query_line(t: Seq<char>)
    requires
        plain_word(t),
    ensures
        query_token("GET /events?token="@ + t + " HTTP/1.1"@) == Some(t),
        !("GET /events?token="@ + t + " HTTP/1.1"@).contains('\r'),
{
    reveal_strlit("GET /events?token=");
    reveal_strlit(" HTTP/1.1");
    let r = "GET /events?token="@ + t + " HTTP/1.1"@;
    lemma_request_path(t);
    lemma_path_token(t);
    assert(!r.contains('\r')) by {
        if r.contains('\r') {
            let k = choose|k: int| 0 <= k < r.len() && r[k] == '\r';
            if k >= 18 && k < 18 + t.len() {
                assert(t[k - 18] == '\r');
            }
        }
    }
}

/// The second word of `GET /events?token=<t> HTTP/1.1` is its path.
#[verifier::rlimit(40)]
proof fn lemma_request_path(t: Seq<char>)
    requires
        plain_word(t),
    ensures
        second_word("GET /events?token="@ + t + " HTTP/1.1"@) == Some("/events?token="@ + t),
{
    reveal_strlit("GET /events?token=");
    reveal_strlit(" HTTP/1.1");
    reveal_strlit("GET");
    reveal_strlit("/events?token=");
    reveal_strlit(" ");
    let path = "/events?token="@ + t;
    let r = "GET /events?token="@ + t + " HTTP/1.1"@;
    assert(r =~= "GET"@ + (" "@ + (path + " HTTP/1.1"@)));
    lemma_trim_start_at(r, 0);
    assert(r.subrange(0, r.len() as int) =~= r);
    assert(r[3] == ' ');
    assert(!is_white(r[0]) && !is_white(r[1]) && !is_white(r[2]));
    lemma_first_white_at(r, 3);
    let rest = r.skip(3);
    let p2 = path + " HTTP/1.1"@;
    assert(rest =~= " "@ + p2);
    lemma_trim_start_at(rest, 1);
    assert(rest.subrange(1, rest.len() as int) =~= p2);
    assert forall|k: int| 0 <= k < path.len() implies !is_white(#[trigger] p2[k]) by {
        assert(p2[k] == path[k]);
        if k >= 14 {
            assert(path[k] == t[k - 14]);
        }
    }
    assert(p2[path.len() as int] == ' ');
    lemma_first_white_at(p2, path.len() as int);
    assert(p2.take(path.len() as int) =~= path);
}

/// The path `/events?token=<t>` carries the token `t`.
#[verifier::rlimit(40)]
proof fn lemma_path_token(t: Seq<char>)
    requires
        plain_word(t),
    ensures
        (match query_of("/events?token="@ + t) {
            Some(q) => token_param(q),
            None => None,
        }) == Some(t),
{
    reveal_strlit("/events?token=");
    reveal_strlit("token=");
    reveal_strlit("token");
    let path = "/events?token="@ + t;
    lemma_first_index_of(path, '?');
    assert(first_index_of(path, '?') == 7) by {
        assert(path[7] == '?');
        let i = first_index_of(path, '?');
        if i < 7 {
            assert(path[i] == "/events?token="@[i]);
        }
    }
    let q = path.skip(8);
    assert(q =~= "token="@ + t);
    lemma_first_index_of(q, '?');
    assert(first_index_of(q, '?') == q.len()) by {
        let i = first_index_of(q, '?');
        if i < q.len() && i >= 6 {
            assert(q[i] == t[i - 6]);
        }
    }
    assert(q.take(q.len() as int) =~= q);
    lemma_first_index_of(q, '&');
    assert(first_index_of(q, '&') == q.len()) by {
        let i = first_index_of(q, '&');
        if i < q.len() && i >= 6 {
            assert(q[i] == t[i - 6]);
        }
    }
    lemma_first_index_of(q, '=');
    assert(first_index_of(q, '=') == 5) by {
        assert(q[5] == '=');
        let j = first_index_of(q, '=');
        if j < 5 {
            assert(q[j] == "token="@[j]);
        }
    }
    assert(q.take(5) =~= "token"@);
    assert(q.skip(6) =~= t);
}

proof fn lemma_first_white_at(s: Seq<char>, a: int)
    requires
        0 <= a <= s.len(),
        forall|k: int| 0 <= k < a ==> !is_white(#[trigger] s[k]),
        a == s.len() || is_white(s[a]),
    ensures
        first_white(s) == a,
    decreases a,
{
    if a > 0 {
        let r = s.drop_first();
        assert forall|k: int| 0 <= k < a - 1 implies !is_white(#[trigger] r[k]) by {
            assert(r[k] == s[k + 1]);
        }
        if a - 1 < r.len() {
            assert(r[a - 1] == s[a]);
        }
        assert(!is_white(s[0]));
        lemma_first_white_at(r, a - 1);
    }
}

/// Where an SSE connection's token comes from: the `token` query
/// parameter of the request line when nothing else carries one; the
/// session cookie over the query parameter; and a bearer token over both,
/// whichever header line comes first.
#[verifier::rlimit(40)]
pub proof fn law_sse_token_prefers_bearer_then_cookie_then_query(
    t: Seq<char>,
    c: Seq<char>,
    b: Seq<char>,
    name: Seq<char>,
)
    requires
        plain_word(t),
        plain_word(c),
        plain_word(b),
        plain_word(name),
    ensures
        ({
            let request = "GET /events?token="@ + t + " HTTP/1.1"@;
            let cookie = "cookie: "@ + name + "="@ + c;
            let auth = "authorization: Bearer "@ + b;
            &&& sse_token(request, name) == Some(t)
            &&& sse_token(request + "\r\n"@ + cookie, name) == Some(c)
            &&& sse_token(request + "\r\n"@ + cookie + "\r\n"@ + auth, name) == Some(b)
            &&& sse_token(request + "\r\n"@ + auth + "\r\n"@ + cookie, name) == Some(b)
        }),
{
    let request = "GET /events?token="@ + t + " HTTP/1.1"@;
    let cookie = "cookie: "@ + name + "="@ + c;
    let auth = "authorization: Bearer "@ + b;
    let none = SseHeads { bearer: None, cookie: None };
    lemma_query_line(t);
    lemma_cookie_line(none, name, c);
    lemma_auth_line(none, b, name);
    lemma_cookie_line(SseHeads { bearer: Some(b), cookie: None }, name, c);
    lemma_auth_line(SseHeads { bearer: None, cookie: Some(c) }, b, name);
    lemma_no_cr_crlf(request);
    assert(request.take(request.len() as int) =~= request);
    lemma_crlf_after(request, cookie);
    lemma_lines(none, cookie, auth, name);
    lemma_lines(none, auth, cookie, name);
    lemma_crlf_after(request, cookie + "\r\n"@ + auth);
    assert(request + "\r\n"@ + cookie + "\r\n"@ + auth =~= request + "\r\n"@ + (cookie + "\r\n"@
        + auth));
    lemma_crlf_after(request, auth + "\r\n"@ + cookie);
    assert(request + "\r\n"@ + auth + "\r\n"@ + cookie =~= request + "\r\n"@ + (auth + "\r\n"@
        + cookie));
}

} // verus!
