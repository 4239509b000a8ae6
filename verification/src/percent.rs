//! Percent-encoding, as the runtime reads and writes it in URLs, query
//! strings and WebSocket subprotocols.

use vstd::prelude::*;
use vstd::utf8::{decode_utf8, encode_utf8, valid_utf8};

use crate::text::{push_char, string_from_utf8};

verus! {

pub open spec fn is_hex_byte(b: u8) -> bool {
    (48 <= b <= 57) || (65 <= b <= 70) || (97 <= b <= 102)
}

pub open spec fn hex_byte_value(b: u8) -> nat {
    if 48 <= b <= 57 {
        (b - 48) as nat
    } else if 65 <= b <= 70 {
        (b - 55) as nat
    } else {
        (b - 87) as nat
    }
}

/// Two bytes read as a hexadecimal `u8`, as `u8::from_str_radix(_, 16)`
/// reads them: two hex digits, or a `+` and one hex digit.
pub open spec fn hex_pair(b1: u8, b2: u8) -> Option<u8> {
    if b1 == 43 && is_hex_byte(b2) {
        Some(hex_byte_value(b2) as u8)
    } else if is_hex_byte(b1) && is_hex_byte(b2) {
        Some((hex_byte_value(b1) * 16 + hex_byte_value(b2)) as u8)
    } else {
        None
    }
}

fn hex_value(b: u8) -> (r: Option<u8>)
    ensures
        r is Some <==> is_hex_byte(b),
        r matches Some(v) ==> v == hex_byte_value(b) && v < 16,
{
    if 48 <= b && b <= 57 {
        Some(b - 48)
    } else if 65 <= b && b <= 70 {
        Some(b - 55)
    } else if 97 <= b && b <= 102 {
        Some(b - 87)
    } else {
        None
    }
}

fn read_hex_pair(b1: u8, b2: u8) -> (r: Option<u8>)
    ensures
        r == hex_pair(b1, b2),
{
    match hex_value(b2) {
        None => None,
        Some(lo) => {
            if b1 == 43 {
                Some(lo)
            } else {
                match hex_value(b1) {
                    Some(hi) => Some(hi * 16 + lo),
                    None => None,
                }
            }
        },
    }
}

// ---------------------------------------------------------------------------
// Lenient decoding to characters
// ---------------------------------------------------------------------------

/// A query value decoded byte by byte: `+` is a space, `%XX` the byte
/// `XX`, and every other byte itself; each byte becomes the character with
/// its value.
pub open spec fn url_decoded(b: Seq<u8>) -> Seq<char>
    decreases b.len(),
{
    if b.len() == 0 {
        Seq::empty()
    } else if b[0] == 43 {
        seq![' '] + url_decoded(b.drop_first())
    } else if b[0] == 37 && b.len() > 2 && hex_pair(b[1], b[2]) is Some {
        seq![((hex_pair(b[1], b[2])->0) as u32) as char] + url_decoded(b.skip(3))
    } else {
        seq![(b[0] as u32) as char] + url_decoded(b.drop_first())
    }
}

/// Decode a query value: `+` is a space, `%XX` a byte, anything else kept;
/// each byte becomes one character.
pub fn url_decode(s: &str) -> (r: String)
    ensures
        r@ == url_decoded(encode_utf8(s@)),
{
    let b = s.as_bytes();
    let ghost all = b@;
    let mut out = String::new();
    let mut i: usize = 0;
    proof {
        assert(all.skip(0) =~= all);
    }
    while i < b.len()
        invariant
            i <= all.len(),
            b@ == all,
            url_decoded(all) == out@ + url_decoded(all.skip(i as int)),
        decreases all.len() - i,
    {
        let ghost rest = all.skip(i as int);
        let ghost before = out@;
        proof {
            assert(rest[0] == all[i as int]);
            assert(rest.drop_first() =~= all.skip(i + 1));
        }
        if b[i] == 43 {
            push_char(&mut out, ' ');
            proof {
                assert(before + (seq![' '] + url_decoded(all.skip(i + 1))) =~= out@ + url_decoded(
                    all.skip(i + 1),
                ));
            }
            i += 1;
        } else if b[i] == 37 && b.len() - i > 2 {
            proof {
                assert(rest[1] == all[i + 1]);
                assert(rest[2] == all[i + 2]);
                assert(rest.skip(3) =~= all.skip(i + 3));
            }
            match read_hex_pair(b[i + 1], b[i + 2]) {
                Some(h) => {
                    let c = h as char;
                    push_char(&mut out, c);
                    proof {
                        assert(before + (seq![c] + url_decoded(all.skip(i + 3))) =~= out@
                            + url_decoded(all.skip(i + 3)));
                    }
                    i += 3;
                },
                None => {
                    let c = b[i] as char;
                    push_char(&mut out, c);
                    proof {
                        assert(before + (seq![c] + url_decoded(all.skip(i + 1))) =~= out@
                            + url_decoded(all.skip(i + 1)));
                    }
                    i += 1;
                },
            }
        } else {
            let c = b[i] as char;
            push_char(&mut out, c);
            proof {
                assert(before + (seq![c] + url_decoded(all.skip(i + 1))) =~= out@ + url_decoded(
                    all.skip(i + 1),
                ));
            }
            i += 1;
        }
    }
    proof {
        assert(all.skip(i as int).len() == 0);
        assert(out@ + url_decoded(all.skip(i as int)) =~= out@);
    }
    out
}

// ---------------------------------------------------------------------------
// Strict decoding to UTF-8 text
// ---------------------------------------------------------------------------

/// Why strict decoding refused its input.
pub ghost enum StrictRefusal {
    Truncated,
    BadHex,
    NotUtf8,
}

pub open spec fn strict_refusal_text(r: StrictRefusal) -> Seq<char> {
    match r {
        StrictRefusal::Truncated => "truncated percent-encoding"@,
        StrictRefusal::BadHex => "bad hex in percent-encoding"@,
        StrictRefusal::NotUtf8 => "percent-encoded token is not valid UTF-8"@,
    }
}

pub open spec fn prepend_bytes(acc: Seq<u8>, r: Result<Seq<u8>, StrictRefusal>) -> Result<
    Seq<u8>,
    StrictRefusal,
> {
    match r {
        Ok(x) => Ok(acc + x),
        Err(e) => Err(e),
    }
}

/// The bytes strict decoding reads: `%` and two hex digits is a byte, `+`
/// a space, anything else itself; a `%` without two hex digits after it
/// is refused.
pub open spec fn strict_bytes(b: Seq<u8>) -> Result<Seq<u8>, StrictRefusal>
    decreases b.len(),
{
    if b.len() == 0 {
        Ok(Seq::empty())
    } else if b[0] == 37 {
        if b.len() <= 2 {
            Err(StrictRefusal::Truncated)
        } else if !is_hex_byte(b[1]) || !is_hex_byte(b[2]) {
            Err(StrictRefusal::BadHex)
        } else {
            prepend_bytes(
                seq![(hex_byte_value(b[1]) * 16 + hex_byte_value(b[2])) as u8],
                strict_bytes(b.skip(3)),
            )
        }
    } else if b[0] == 43 {
        prepend_bytes(seq![32u8], strict_bytes(b.drop_first()))
    } else {
        prepend_bytes(seq![b[0]], strict_bytes(b.drop_first()))
    }
}

/// Strict decoding of a token: its bytes, then the text they encode.
pub open spec fn strict_decoded(s: Seq<char>) -> Result<Seq<char>, StrictRefusal> {
    match strict_bytes(encode_utf8(s)) {
        Err(e) => Err(e),
        Ok(b) => if valid_utf8(b) {
            Ok(decode_utf8(b))
        } else {
            Err(StrictRefusal::NotUtf8)
        },
    }
}

pub open spec fn strict_reported(r: Result<Seq<char>, StrictRefusal>) -> Result<
    Seq<char>,
    Seq<char>,
> {
    match r {
        Ok(t) => Ok(t),
        Err(e) => Err(strict_refusal_text(e)),
    }
}

pub open spec fn string_result(r: Result<String, String>) -> Result<Seq<char>, Seq<char>> {
    match r {
        Ok(t) => Ok(t@),
        Err(e) => Err(e@),
    }
}

proof fn lemma_prepend_bytes(a: Seq<u8>, b: Seq<u8>, r: Result<Seq<u8>, StrictRefusal>)
    ensures
        prepend_bytes(a, prepend_bytes(b, r)) == prepend_bytes(a + b, r),
{
    match r {
        Ok(x) => {
            assert(a + (b + x) =~= (a + b) + x);
        },
        Err(_) => {},
    }
}

/// Strict percent-decoding: fails on malformed input, and on bytes that
/// are not UTF-8.
pub fn urldecode_strict(s: &str) -> (r: Result<String, String>)
    ensures
        string_result(r) == strict_reported(strict_decoded(s@)),
{
    let b = s.as_bytes();
    let ghost all = b@;
    let mut out: Vec<u8> = Vec::new();
    let mut i: usize = 0;
    proof {
        assert(all.skip(0) =~= all);
        assert(Seq::<u8>::empty() + all =~= all);
        match strict_bytes(all) {
            Ok(x) => assert(Seq::<u8>::empty() + x =~= x),
            Err(_) => {},
        }
    }
    while i < b.len()
        invariant
            i <= all.len(),
            b@ == all,
            strict_bytes(all) == prepend_bytes(out@, strict_bytes(all.skip(i as int))),
            all == encode_utf8(s@),
        decreases all.len() - i,
    {
        let ghost rest = all.skip(i as int);
        let ghost before = out@;
        proof {
            assert(rest[0] == all[i as int]);
            assert(rest.drop_first() =~= all.skip(i + 1));
        }
        if b[i] == 37 {
            if b.len() - i <= 2 {
                proof {
                    assert(strict_bytes(rest) == Err::<Seq<u8>, StrictRefusal>(StrictRefusal::Truncated));
                    assert(all == encode_utf8(s@));
                }
                return Err(String::from_str("truncated percent-encoding"));
            }
            proof {
                assert(rest[1] == all[i + 1]);
                assert(rest[2] == all[i + 2]);
                assert(rest.skip(3) =~= all.skip(i + 3));
            }
            let hi = match hex_value(b[i + 1]) {
                Some(v) => v,
                None => {
                    proof {
                        assert(strict_bytes(rest) == Err::<Seq<u8>, StrictRefusal>(StrictRefusal::BadHex));
                        assert(all == encode_utf8(s@));
                    }
                    return Err(String::from_str("bad hex in percent-encoding"));
                },
            };
            let lo = match hex_value(b[i + 2]) {
                Some(v) => v,
                None => {
                    proof {
                        assert(strict_bytes(rest) == Err::<Seq<u8>, StrictRefusal>(StrictRefusal::BadHex));
                        assert(all == encode_utf8(s@));
                    }
                    return Err(String::from_str("bad hex in percent-encoding"));
                },
            };
            let v = hi * 16 + lo;
            out.push(v);
            proof {
                lemma_prepend_bytes(before, seq![v], strict_bytes(all.skip(i + 3)));
                assert(before + seq![v] =~= out@);
            }
            i += 3;
        } else if b[i] == 43 {
            out.push(32u8);
            proof {
                lemma_prepend_bytes(before, seq![32u8], strict_bytes(all.skip(i + 1)));
                assert(before + seq![32u8] =~= out@);
            }
            i += 1;
        } else {
            let v = b[i];
            out.push(v);
            proof {
                lemma_prepend_bytes(before, seq![v], strict_bytes(all.skip(i + 1)));
                assert(before + seq![v] =~= out@);
            }
            i += 1;
        }
    }
    proof {
        assert(all.skip(i as int).len() == 0);
        assert(out@ + Seq::<u8>::empty() =~= out@);
    }
    match string_from_utf8(out) {
        Some(t) => Ok(t),
        None => Err(String::from_str("percent-encoded token is not valid UTF-8")),
    }
}

// ---------------------------------------------------------------------------
// Lossy decoding of a path or query value
// ---------------------------------------------------------------------------

/// The text `String::from_utf8_lossy` makes of a byte string: what the
/// bytes encode, with a replacement character where they are not UTF-8.
pub uninterp spec fn utf8_lossy(b: Seq<u8>) -> Seq<char>;

/// `String::from_utf8_lossy`, owned. On valid UTF-8 it is the text the
/// bytes encode.
#[verifier::external_body]
pub(crate) fn string_from_utf8_lossy(b: &[u8]) -> (s: String)
    ensures
        s@ == utf8_lossy(b@),
        valid_utf8(b@) ==> s@ == decode_utf8(b@),
{
    String::from_utf8_lossy(b).into_owned()
}

/// The bytes of a path segment or query value with each `%XX` decoded,
/// and every other byte kept (a `+` stays a `+`).
pub open spec fn percent_bytes(b: Seq<u8>) -> Seq<u8>
    decreases b.len(),
{
    if b.len() == 0 {
        Seq::empty()
    } else if b[0] == 37 && b.len() > 2 && hex_pair(b[1], b[2]) is Some {
        seq![hex_pair(b[1], b[2])->0] + percent_bytes(b.skip(3))
    } else {
        seq![b[0]] + percent_bytes(b.drop_first())
    }
}

/// A percent-decoded path segment or query value, as text: the text the
/// decoded bytes encode when they are UTF-8, else their lossy reading.
pub open spec fn percent_decoded(s: Seq<char>) -> Seq<char> {
    let b = percent_bytes(encode_utf8(s));
    if valid_utf8(b) {
        decode_utf8(b)
    } else {
        utf8_lossy(b)
    }
}

/// Percent-decode `s`: each `%XX` becomes its byte, and the bytes are read
/// as UTF-8, with a replacement character where they are not.
pub fn percent_decode(s: &str) -> (r: String)
    ensures
        r@ == percent_decoded(s@),
{
    let b = s.as_bytes();
    let ghost all = b@;
    let mut out: Vec<u8> = Vec::new();
    let mut i: usize = 0;
    proof {
        assert(all.skip(0) =~= all);
        assert(Seq::<u8>::empty() + percent_bytes(all) =~= percent_bytes(all));
    }
    while i < b.len()
        invariant
            i <= all.len(),
            b@ == all,
            percent_bytes(all) == out@ + percent_bytes(all.skip(i as int)),
        decreases all.len() - i,
    {
        let ghost rest = all.skip(i as int);
        let ghost before = out@;
        proof {
            assert(rest[0] == all[i as int]);
            assert(rest.drop_first() =~= all.skip(i + 1));
        }
        let mut step: usize = 1;
        let mut v: u8 = b[i];
        if b[i] == 37 && b.len() - i > 2 {
            proof {
                assert(rest[1] == all[i + 1]);
                assert(rest[2] == all[i + 2]);
                assert(rest.skip(3) =~= all.skip(i + 3));
            }
            match read_hex_pair(b[i + 1], b[i + 2]) {
                Some(h) => {
                    v = h;
                    step = 3;
                },
                None => {},
            }
        }
        out.push(v);
        proof {
            assert(before + (seq![v] + percent_bytes(all.skip(i + step))) =~= out@ + percent_bytes(
                all.skip(i + step),
            ));
        }
        i += step;
    }
    proof {
        assert(all.skip(i as int).len() == 0);
        assert(out@ + Seq::<u8>::empty() =~= out@);
    }
    string_from_utf8_lossy(out.as_slice())
}

// ---------------------------------------------------------------------------
// Encoding
// ---------------------------------------------------------------------------

/// The bytes kept as they are: letters, digits, `-`, `_`, `.` and `~`.
pub open spec fn is_unreserved(b: u8) -> bool {
    (65 <= b <= 90) || (97 <= b <= 122) || (48 <= b <= 57) || b == 45 || b == 95 || b == 46
        || b == 126
}

pub open spec fn upper_hex_digit(d: nat) -> char {
    if d < 10 {
        ((d + 48) as u32) as char
    } else {
        ((d + 55) as u32) as char
    }
}

/// Each byte of `b` kept when unreserved, else written `%XX` in uppercase
/// hexadecimal.
pub open spec fn url_encoded(b: Seq<u8>) -> Seq<char>
    decreases b.len(),
{
    if b.len() == 0 {
        Seq::empty()
    } else if is_unreserved(b[0]) {
        seq![(b[0] as u32) as char] + url_encoded(b.drop_first())
    } else {
        seq!['%', upper_hex_digit((b[0] / 16) as nat), upper_hex_digit((b[0] % 16) as nat)]
            + url_encoded(b.drop_first())
    }
}

fn upper_hex_char(d: u8) -> (c: char)
    requires
        d < 16,
    ensures
        c == upper_hex_digit(d as nat),
{
    if d < 10 {
        (48 + d) as char
    } else {
        (55 + d) as char
    }
}

/// Percent-encode `s` for a query value.
pub fn urlencoding_encode(s: &str) -> (r: String)
    ensures
        r@ == url_encoded(encode_utf8(s@)),
{
    let b = s.as_bytes();
    let ghost all = b@;
    let mut out = String::new();
    let mut i: usize = 0;
    proof {
        assert(all.skip(0) =~= all);
        assert(Seq::<char>::empty() + url_encoded(all) =~= url_encoded(all));
    }
    while i < b.len()
        invariant
            i <= all.len(),
            b@ == all,
            url_encoded(all) == out@ + url_encoded(all.skip(i as int)),
        decreases all.len() - i,
    {
        let ghost rest = all.skip(i as int);
        let ghost before = out@;
        proof {
            assert(rest[0] == all[i as int]);
            assert(rest.drop_first() =~= all.skip(i + 1));
        }
        let c = b[i];
        if (65 <= c && c <= 90) || (97 <= c && c <= 122) || (48 <= c && c <= 57) || c == 45 || c
            == 95 || c == 46 || c == 126 {
            push_char(&mut out, c as char);
            proof {
                assert(before + (seq![(c as u32) as char] + url_encoded(all.skip(i + 1))) =~= out@
                    + url_encoded(all.skip(i + 1)));
            }
        } else {
            push_char(&mut out, '%');
            push_char(&mut out, upper_hex_char(c / 16));
            push_char(&mut out, upper_hex_char(c % 16));
            proof {
                let t = seq!['%', upper_hex_digit((c / 16) as nat), upper_hex_digit((c % 16) as nat)];
                assert(before + (t + url_encoded(all.skip(i + 1))) =~= out@ + url_encoded(
                    all.skip(i + 1),
                ));
            }
        }
        i += 1;
    }
    proof {
        assert(all.skip(i as int).len() == 0);
        assert(out@ + Seq::<char>::empty() =~= out@);
    }
    out
}

} // verus!
