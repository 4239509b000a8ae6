//! Characters, strings and decimal text, with their specifications.

use vstd::prelude::*;
use vstd::utf8::encode_utf8;

verus! {

/// The length of a text in UTF-8 bytes.
pub open spec fn text_len(s: Seq<char>) -> nat {
    encode_utf8(s).len()
}

/// `String::push`: appends one character.
#[verifier::external_body]
pub(crate) fn push_char(s: &mut String, c: char)
    ensures
        final(s)@ == old(s)@.push(c),
{
    s.push(c);
}

/// `str::len`: the length of a string in UTF-8 bytes. vstd states the
/// same up to a cast to `usize`; a string in memory is never longer than
/// `usize::MAX` bytes, so the cast changes nothing.
#[verifier::external_body]
pub(crate) fn str_len(s: &str) -> (n: usize)
    ensures
        n == text_len(s@),
{
    s.len()
}

/// `v` with `b` appended.
pub fn append_bytes(v: &mut Vec<u8>, b: &[u8])
    ensures
        final(v)@ == old(v)@ + b@,
{
    let mut k: usize = 0;
    while k < b.len()
        invariant
            k <= b@.len(),
            v@ == old(v)@ + b@.take(k as int),
        decreases b@.len() - k,
    {
        v.push(b[k]);
        proof {
            assert(v@ =~= old(v)@ + b@.take(k + 1));
        }
        k += 1;
    }
    proof {
        assert(b@.take(b@.len() as int) =~= b@);
    }
}

/// `str::eq`: whether two strings hold the same characters.
#[verifier::external_body]
pub(crate) fn str_eq(a: &str, b: &str) -> (r: bool)
    ensures
        r == (a@ == b@),
{
    a == b
}

/// `String::from_utf8`: the text the bytes encode, when they are valid
/// UTF-8.
#[verifier::external_body]
pub(crate) fn string_from_utf8(v: Vec<u8>) -> (r: Option<String>)
    ensures
        r is Some <==> vstd::utf8::valid_utf8(v@),
        r matches Some(s) ==> s@ == vstd::utf8::decode_utf8(v@),
{
    String::from_utf8(v).ok()
}

/// Only the empty text has no bytes.
pub proof fn lemma_text_len_empty(s: Seq<char>)
    ensures
        (text_len(s) == 0) <==> (s.len() == 0),
{
    broadcast use vstd::utf8::char_is_scalar;
    if s.len() > 0 {
        assert(encode_utf8(s) =~= vstd::utf8::encode_scalar(s[0] as u32) + encode_utf8(s.drop_first())) by {
            reveal_with_fuel(encode_utf8, 2);
        }
    } else {
        assert(encode_utf8(s) =~= Seq::<u8>::empty()) by {
            reveal_with_fuel(encode_utf8, 1);
        }
    }
}

/// An optional string as an optional text.
pub open spec fn opt_view(o: Option<String>) -> Option<Seq<char>> {
    match o {
        Some(s) => Some(s@),
        None => None,
    }
}

/// A copy of an optional string.
pub fn clone_opt_string(o: &Option<String>) -> (r: Option<String>)
    ensures
        r == *o,
{
    match o {
        Some(s) => Some(s.clone()),
        None => None,
    }
}

/// The characters of `s`, in order.
pub fn chars_of(s: &str) -> (out: Vec<char>)
    ensures
        out@ == s@,
{
    let mut out: Vec<char> = Vec::new();
    for c in it: s.chars()
        invariant
            out@ == it.seq().take(it.index() as int),
    {
        out.push(c);
    }
    out
}


// ---------------------------------------------------------------------------
// Whitespace and trimming
// ---------------------------------------------------------------------------

/// Unicode `White_Space`, the set `char::is_whitespace` tests.
pub open spec fn is_white(c: char) -> bool {
    let u = c as u32;
    (0x09 <= u <= 0x0d) || u == 0x20 || u == 0x85 || u == 0xa0 || u == 0x1680 || (0x2000 <= u
        <= 0x200a) || u == 0x2028 || u == 0x2029 || u == 0x202f || u == 0x205f || u == 0x3000
}

pub fn is_white_char(c: char) -> (b: bool)
    ensures
        b == is_white(c),
{
    let u = c as u32;
    (0x09 <= u && u <= 0x0d) || u == 0x20 || u == 0x85 || u == 0xa0 || u == 0x1680 || (0x2000 <= u
        && u <= 0x200a) || u == 0x2028 || u == 0x2029 || u == 0x202f || u == 0x205f || u == 0x3000
}

/// Leading whitespace removed.
pub open spec fn trim_start(s: Seq<char>) -> Seq<char>
    decreases s.len(),
{
    if s.len() > 0 && is_white(s[0]) {
        trim_start(s.drop_first())
    } else {
        s
    }
}

/// Trailing whitespace removed.
pub open spec fn trim_end(s: Seq<char>) -> Seq<char>
    decreases s.len(),
{
    if s.len() > 0 && is_white(s.last()) {
        trim_end(s.drop_last())
    } else {
        s
    }
}

/// Leading and trailing whitespace removed, as `str::trim` does.
pub open spec fn trimmed(s: Seq<char>) -> Seq<char> {
    trim_end(trim_start(s))
}

pub proof fn lemma_trim_start_at(s: Seq<char>, a: int)
    requires
        0 <= a <= s.len(),
        forall|k: int| 0 <= k < a ==> is_white(#[trigger] s[k]),
        a == s.len() || !is_white(s[a]),
    ensures
        trim_start(s) == s.subrange(a, s.len() as int),
    decreases a,
{
    if a == 0 {
        assert(s.subrange(0, s.len() as int) =~= s);
    } else {
        let r = s.drop_first();
        assert forall|k: int| 0 <= k < a - 1 implies is_white(#[trigger] r[k]) by {
            assert(r[k] == s[k + 1]);
        }
        if a - 1 < r.len() {
            assert(r[a - 1] == s[a]);
        }
        lemma_trim_start_at(r, a - 1);
        assert(r.subrange(a - 1, r.len() as int) =~= s.subrange(a, s.len() as int));
    }
}

pub proof fn lemma_trim_end_at(s: Seq<char>, b: int)
    requires
        0 <= b <= s.len(),
        forall|k: int| b <= k < s.len() ==> is_white(#[trigger] s[k]),
        b == 0 || !is_white(s[b - 1]),
    ensures
        trim_end(s) == s.subrange(0, b),
    decreases s.len() - b,
{
    if b == s.len() {
        assert(s.subrange(0, b) =~= s);
    } else {
        let r = s.drop_last();
        assert forall|k: int| b <= k < r.len() implies is_white(#[trigger] r[k]) by {
            assert(r[k] == s[k]);
        }
        if b > 0 {
            assert(r[b - 1] == s[b - 1]);
        }
        lemma_trim_end_at(r, b);
        assert(r.subrange(0, b) =~= s.subrange(0, b));
    }
}

/// `s` without leading and trailing whitespace.
pub fn trim_chars(s: &[char]) -> (r: Vec<char>)
    ensures
        r@ == trimmed(s@),
{
    let n = s.len();
    let mut a: usize = 0;
    while a < n && is_white_char(s[a])
        invariant
            a <= n,
            n == s@.len(),
            forall|k: int| 0 <= k < a ==> is_white(#[trigger] s@[k]),
        decreases n - a,
    {
        a += 1;
    }
    let mut b: usize = n;
    while b > a && is_white_char(s[b - 1])
        invariant
            a <= b <= n,
            n == s@.len(),
            forall|k: int| b <= k < n ==> is_white(#[trigger] s@[k]),
        decreases b,
    {
        b -= 1;
    }
    proof {
        lemma_trim_start_at(s@, a as int);
        let t = s@.subrange(a as int, n as int);
        assert forall|k: int| b - a <= k < t.len() implies is_white(#[trigger] t[k]) by {
            assert(t[k] == s@[a + k]);
        }
        if b > a {
            assert(t[b - a - 1] == s@[b - 1]);
        }
        lemma_trim_end_at(t, b - a);
        assert(t.subrange(0, b - a) =~= s@.subrange(a as int, b as int));
    }
    let mut r: Vec<char> = Vec::new();
    let mut k = a;
    while k < b
        invariant
            a <= k <= b <= n,
            n == s@.len(),
            r@ == s@.subrange(a as int, k as int),
        decreases b - k,
    {
        r.push(s[k]);
        proof {
            assert(r@ =~= s@.subrange(a as int, k + 1));
        }
        k += 1;
    }
    r
}

// ---------------------------------------------------------------------------
// Unsigned decimal numbers
// ---------------------------------------------------------------------------

pub open spec fn is_digit(c: char) -> bool {
    '0' <= c <= '9'
}

pub open spec fn digit_value(c: char) -> nat {
    (c as u32 - '0' as u32) as nat
}

pub open spec fn all_digits(s: Seq<char>) -> bool {
    forall|k: int| 0 <= k < s.len() ==> is_digit(#[trigger] s[k])
}

/// The value of a run of decimal digits.
pub open spec fn digits_value(s: Seq<char>) -> nat
    decreases s.len(),
{
    if s.len() == 0 {
        0
    } else {
        digits_value(s.drop_last()) * 10 + digit_value(s.last())
    }
}

/// An unsigned integer as `str::parse` reads one: an optional `+`, then one
/// or more decimal digits.
pub open spec fn parse_unsigned(s: Seq<char>) -> Option<nat> {
    let body = if s.len() > 0 && s[0] == '+' {
        s.drop_first()
    } else {
        s
    };
    if body.len() > 0 && all_digits(body) {
        Some(digits_value(body))
    } else {
        None
    }
}

/// `parse_unsigned` within `u64`.
pub open spec fn parse_u64_spec(s: Seq<char>) -> Option<u64> {
    match parse_unsigned(s) {
        Some(v) => if v <= u64::MAX {
            Some(v as u64)
        } else {
            None
        },
        None => None,
    }
}

proof fn lemma_digits_grow(s: Seq<char>, k: int)
    requires
        0 <= k <= s.len(),
        all_digits(s),
    ensures
        digits_value(s.take(k)) <= digits_value(s),
    decreases s.len(),
{
    if k < s.len() {
        let d = s.drop_last();
        assert(all_digits(d)) by {
            assert forall|j: int| 0 <= j < d.len() implies is_digit(#[trigger] d[j]) by {
                assert(d[j] == s[j]);
            }
        }
        lemma_digits_grow(d, k);
        assert(d.take(k) =~= s.take(k));
    } else {
        assert(s.take(k) =~= s);
    }
}

/// Parse an unsigned decimal number, as `u64::from_str` does.
pub fn parse_u64(s: &[char]) -> (r: Option<u64>)
    ensures
        r == parse_u64_spec(s@),
{
    let n = s.len();
    let start: usize = if n > 0 && s[0] == '+' {
        1
    } else {
        0
    };
    let ghost body = s@.subrange(start as int, n as int);
    proof {
        if start == 1 {
            assert(body =~= s@.drop_first());
        } else {
            assert(body =~= s@);
        }
    }
    if start == n {
        return None;
    }
    let mut k = start;
    let mut v: u64 = 0;
    let mut over = false;
    while k < n
        invariant
            start <= k <= n,
            n == s@.len(),
            body == s@.subrange(start as int, n as int),
            body == (if s@.len() > 0 && s@[0] == '+' {
                s@.drop_first()
            } else {
                s@
            }),
            body.len() > 0,
            all_digits(body.take(k - start)),
            !over ==> v == digits_value(body.take(k - start)),
            over ==> digits_value(body.take(k - start)) > u64::MAX,
        decreases n - k,
    {
        let c = s[k];
        if !('0' <= c && c <= '9') {
            proof {
                assert(body[k - start] == c);
                assert(!is_digit(body[k - start]));
                assert(!all_digits(body));
                assert(parse_unsigned(s@) is None);
            }
            return None;
        }
        let ghost pre = body.take(k - start);
        let ghost next = body.take(k - start + 1);
        proof {
            assert(next.drop_last() =~= pre);
            assert(next.last() == c);
            assert(all_digits(next)) by {
                assert forall|j: int| 0 <= j < next.len() implies is_digit(#[trigger] next[j]) by {
                    if j < pre.len() {
                        assert(next[j] == pre[j]);
                    }
                }
            }
        }
        let d = (c as u32 - '0' as u32) as u64;
        if !over {
            match v.checked_mul(10) {
                Some(t) => match t.checked_add(d) {
                    Some(u) => {
                        v = u;
                    },
                    None => {
                        over = true;
                    },
                },
                None => {
                    over = true;
                },
            }
        } else {
            proof {
                assert(digits_value(next) >= digits_value(pre) * 10) by (nonlinear_arith)
                    requires
                        digits_value(next) == digits_value(pre) * 10 + digit_value(c),
                ;
            }
        }
        k += 1;
    }
    proof {
        assert(body.take(n - start) =~= body);
    }
    if over {
        None
    } else {
        Some(v)
    }
}

/// A positive number from a setting, as the runtime reads its environment:
/// trimmed, parsed, and kept only when above zero.
pub open spec fn setting_value(v: Option<Seq<char>>) -> Option<u64> {
    match v {
        Some(s) => match parse_u64_spec(trimmed(s)) {
            Some(n) => if n > 0 {
                Some(n)
            } else {
                None
            },
            None => None,
        },
        None => None,
    }
}

pub fn setting(v: Option<&str>) -> (r: Option<u64>)
    ensures
        r == setting_value(match v {
            Some(s) => Some(s@),
            None => None,
        }),
{
    match v {
        Some(s) => {
            let chars = chars_of(s);
            let t = trim_chars(chars.as_slice());
            match parse_u64(t.as_slice()) {
                Some(n) => if n > 0 {
                    Some(n)
                } else {
                    None
                },
                None => None,
            }
        },
        None => None,
    }
}


// ---------------------------------------------------------------------------
// Building strings
// ---------------------------------------------------------------------------

/// `String::push_str`: appends a string.
#[verifier::external_body]
pub(crate) fn push_str(s: &mut String, t: &str)
    ensures
        final(s)@ == old(s)@ + t@,
{
    s.push_str(t);
}

/// A string holding `v`.
pub fn string_from_chars(v: &[char]) -> (s: String)
    ensures
        s@ == v@,
{
    let mut s = String::new();
    let mut k: usize = 0;
    while k < v.len()
        invariant
            k <= v@.len(),
            s@ == v@.take(k as int),
        decreases v@.len() - k,
    {
        push_char(&mut s, v[k]);
        proof {
            assert(s@ =~= v@.take(k + 1));
        }
        k += 1;
    }
    proof {
        assert(v@.take(v@.len() as int) =~= v@);
    }
    s
}

/// The characters of `v` from `from` on, as a string.
pub fn string_from_suffix(v: &[char], from: usize) -> (s: String)
    requires
        from <= v@.len(),
    ensures
        s@ == v@.skip(from as int),
{
    let mut s = String::new();
    let mut k: usize = from;
    while k < v.len()
        invariant
            from <= k <= v@.len(),
            s@ == v@.subrange(from as int, k as int),
        decreases v@.len() - k,
    {
        push_char(&mut s, v[k]);
        proof {
            assert(s@ =~= v@.subrange(from as int, k + 1));
        }
        k += 1;
    }
    proof {
        assert(v@.subrange(from as int, v@.len() as int) =~= v@.skip(from as int));
    }
    s
}

/// Whether `s` begins with `p`.
pub fn starts_with(s: &[char], p: &[char]) -> (b: bool)
    ensures
        b == (p@.len() <= s@.len() && s@.take(p@.len() as int) == p@),
{
    if p.len() > s.len() {
        return false;
    }
    let mut k: usize = 0;
    while k < p.len()
        invariant
            k <= p@.len() <= s@.len(),
            s@.take(k as int) == p@.take(k as int),
        decreases p@.len() - k,
    {
        if s[k] != p[k] {
            proof {
                assert(s@.take(p@.len() as int)[k as int] != p@[k as int]);
            }
            return false;
        }
        proof {
            assert(s@.take(k + 1) =~= p@.take(k + 1));
        }
        k += 1;
    }
    proof {
        assert(p@.take(p@.len() as int) =~= p@);
    }
    true
}

/// Whether `a` and `b` hold the same characters.
pub fn chars_eq(a: &[char], b: &[char]) -> (r: bool)
    ensures
        r == (a@ == b@),
{
    if a.len() != b.len() {
        return false;
    }
    let r = starts_with(a, b);
    proof {
        assert(a@.take(a@.len() as int) =~= a@);
    }
    r
}

/// The decimal digits of `n`.
pub open spec fn decimal(n: nat) -> Seq<char>
    decreases n,
{
    if n < 10 {
        seq![digit_char(n)]
    } else {
        decimal(n / 10).push(digit_char(n % 10))
    }
}

pub open spec fn digit_char(d: nat) -> char {
    ((d + 48) as u32) as char
}

fn digit(d: u64) -> (c: char)
    requires
        d < 10,
    ensures
        c == digit_char(d as nat),
{
    let v: u8 = 48 + d as u8;
    v as char
}

/// `n` written in decimal.
pub fn decimal_string(n: u64) -> (s: String)
    ensures
        s@ == decimal(n as nat),
    decreases n,
{
    if n < 10 {
        let mut s = String::new();
        push_char(&mut s, digit(n));
        proof {
            assert(s@ =~= seq![digit_char(n as nat)]);
        }
        s
    } else {
        let mut s = decimal_string(n / 10);
        push_char(&mut s, digit(n % 10));
        s
    }
}

/// `n` written in decimal, zero-padded on the left to `width` digits.
pub open spec fn padded(n: nat, width: nat) -> Seq<char> {
    let d = decimal(n);
    if d.len() >= width {
        d
    } else {
        Seq::new((width - d.len()) as nat, |i: int| '0') + d
    }
}

proof fn lemma_decimal_len(n: nat)
    ensures
        decimal(n).len() >= 1,
        n < 10 ==> decimal(n).len() == 1,
        10 <= n < 100 ==> decimal(n).len() == 2,
        100 <= n < 1000 ==> decimal(n).len() == 3,
        1000 <= n < 10000 ==> decimal(n).len() == 4,
    decreases n,
{
    if n >= 10 {
        lemma_decimal_len(n / 10);
    }
}

/// `n` zero-padded to `width` digits.
pub fn padded_string(n: u64, width: usize) -> (s: String)
    ensures
        s@ == padded(n as nat, width as nat),
{
    let d = decimal_string(n);
    let len = str_len(d.as_str());
    proof {
        assert(d@.len() == len) by {
            lemma_decimal_ascii(n as nat);
            lemma_ascii_text_len(d@);
        }
    }
    if len >= width {
        return d;
    }
    let mut s = String::new();
    let mut k: usize = 0;
    while k < width - len
        invariant
            k <= width - len,
            s@ == Seq::new(k as nat, |i: int| '0'),
        decreases width - len - k,
    {
        push_char(&mut s, '0');
        proof {
            assert(s@ =~= Seq::new((k + 1) as nat, |i: int| '0'));
        }
        k += 1;
    }
    push_str(&mut s, d.as_str());
    s
}

pub open spec fn all_ascii(s: Seq<char>) -> bool {
    forall|k: int| 0 <= k < s.len() ==> (#[trigger] s[k] as u32) < 128
}

proof fn lemma_decimal_ascii(n: nat)
    ensures
        all_ascii(decimal(n)),
    decreases n,
{
    if n >= 10 {
        lemma_decimal_ascii(n / 10);
        let d = decimal(n / 10).push(digit_char(n % 10));
        assert forall|k: int| 0 <= k < d.len() implies (#[trigger] d[k] as u32) < 128 by {
            if k < d.len() - 1 {
                assert(d[k] == decimal(n / 10)[k]);
            }
        }
    }
}

/// A text of ASCII characters is as long in bytes as in characters.
pub proof fn lemma_ascii_text_len(s: Seq<char>)
    requires
        all_ascii(s),
    ensures
        text_len(s) == s.len(),
    decreases s.len(),
{
    broadcast use vstd::utf8::char_is_scalar;
    if s.len() > 0 {
        let r = s.drop_first();
        assert(all_ascii(r)) by {
            assert forall|k: int| 0 <= k < r.len() implies (#[trigger] r[k] as u32) < 128 by {
                assert(r[k] == s[k + 1]);
            }
        }
        lemma_ascii_text_len(r);
        assert((s[0] as u32) < 128);
        assert(encode_utf8(s) =~= vstd::utf8::encode_scalar(s[0] as u32) + encode_utf8(r)) by {
            reveal_with_fuel(encode_utf8, 2);
        }
    }
}


// ---------------------------------------------------------------------------
// Lexicographic order
// ---------------------------------------------------------------------------

/// `a` sorts before `b`, character by character, a proper prefix first.
/// This is the order Rust gives strings: UTF-8 keeps the order of
/// characters in the order of their bytes.
pub open spec fn lex_lt(a: Seq<char>, b: Seq<char>) -> bool
    decreases a.len(),
{
    if b.len() == 0 {
        false
    } else if a.len() == 0 {
        true
    } else if a[0] != b[0] {
        a[0] < b[0]
    } else {
        lex_lt(a.drop_first(), b.drop_first())
    }
}

pub proof fn lemma_lex_irreflexive(a: Seq<char>)
    ensures
        !lex_lt(a, a),
    decreases a.len(),
{
    if a.len() > 0 {
        lemma_lex_irreflexive(a.drop_first());
    }
}

pub proof fn lemma_lex_total(a: Seq<char>, b: Seq<char>)
    ensures
        lex_lt(a, b) || lex_lt(b, a) || a == b,
    decreases a.len(),
{
    if a.len() > 0 && b.len() > 0 && a[0] == b[0] {
        lemma_lex_total(a.drop_first(), b.drop_first());
        if a.drop_first() == b.drop_first() {
            assert(a =~= seq![a[0]] + a.drop_first());
            assert(b =~= seq![b[0]] + b.drop_first());
        }
    } else if a.len() == 0 && b.len() == 0 {
        assert(a =~= b);
    }
}

pub proof fn lemma_lex_asymmetric(a: Seq<char>, b: Seq<char>)
    ensures
        !(lex_lt(a, b) && lex_lt(b, a)),
    decreases a.len(),
{
    if a.len() > 0 && b.len() > 0 && a[0] == b[0] {
        lemma_lex_asymmetric(a.drop_first(), b.drop_first());
    }
}

pub proof fn lemma_lex_transitive(a: Seq<char>, b: Seq<char>, c: Seq<char>)
    requires
        lex_lt(a, b),
        lex_lt(b, c),
    ensures
        lex_lt(a, c),
    decreases a.len(),
{
    if a.len() > 0 && b.len() > 0 && c.len() > 0 && a[0] == b[0] && b[0] == c[0] {
        lemma_lex_transitive(a.drop_first(), b.drop_first(), c.drop_first());
    }
}

/// Whether `a` sorts before `b`.
pub fn lex_less(a: &[char], b: &[char]) -> (r: bool)
    ensures
        r == lex_lt(a@, b@),
{
    let mut k: usize = 0;
    proof {
        assert(a@.skip(0) =~= a@);
        assert(b@.skip(0) =~= b@);
    }
    while k < a.len() && k < b.len() && a[k] == b[k]
        invariant
            k <= a@.len(),
            k <= b@.len(),
            a@.take(k as int) == b@.take(k as int),
            lex_lt(a@, b@) == lex_lt(a@.skip(k as int), b@.skip(k as int)),
        decreases a@.len() - k,
    {
        proof {
            assert(a@.skip(k as int).drop_first() =~= a@.skip(k + 1));
            assert(b@.skip(k as int).drop_first() =~= b@.skip(k + 1));
            assert(a@.take(k + 1) =~= b@.take(k + 1));
        }
        k += 1;
    }
    proof {
        if k < a@.len() {
            assert(a@.skip(k as int)[0] == a@[k as int]);
        }
        if k < b@.len() {
            assert(b@.skip(k as int)[0] == b@[k as int]);
        }
    }
    if k >= b.len() {
        false
    } else if k >= a.len() {
        true
    } else {
        a[k] < b[k]
    }
}

// ---------------------------------------------------------------------------
// Signed decimal numbers
// ---------------------------------------------------------------------------

/// `v` in decimal, as `i64::to_string` writes it: a minus sign before a
/// negative number, no sign before another.
pub open spec fn signed_decimal(v: int) -> Seq<char> {
    if v < 0 {
        seq!['-'] + decimal((-v) as nat)
    } else {
        decimal(v as nat)
    }
}

/// A signed integer as `i64::from_str` reads one: an optional `+` or `-`,
/// then one or more decimal digits, within the range of `i64`.
pub open spec fn parse_i64_spec(s: Seq<char>) -> Option<i64> {
    let neg = s.len() > 0 && s[0] == '-';
    let body = if s.len() > 0 && (s[0] == '-' || s[0] == '+') {
        s.drop_first()
    } else {
        s
    };
    if body.len() > 0 && all_digits(body) {
        let v = digits_value(body);
        if neg && v <= 0x8000_0000_0000_0000 {
            Some((-v) as i64)
        } else if !neg && v <= 0x7fff_ffff_ffff_ffff {
            Some(v as i64)
        } else {
            None
        }
    } else {
        None
    }
}

/// The digits of a number are digits, and read back as the number.
pub proof fn lemma_decimal_digits(n: nat)
    ensures
        all_digits(decimal(n)),
        digits_value(decimal(n)) == n,
        decimal(n).len() > 0,
    decreases n,
{
    let c = digit_char(n % 10);
    assert(digit_value(c) == n % 10);
    if n < 10 {
        assert(decimal(n).drop_last() =~= Seq::<char>::empty());
        assert(digits_value(decimal(n)) == digits_value(Seq::<char>::empty()) * 10 + digit_value(c));
    } else {
        lemma_decimal_digits(n / 10);
        let d = decimal(n);
        assert(d.drop_last() =~= decimal(n / 10));
        assert(n == (n / 10) * 10 + n % 10);
        assert forall|k: int| 0 <= k < d.len() implies is_digit(#[trigger] d[k]) by {
            if k < d.len() - 1 {
                assert(d[k] == decimal(n / 10)[k]);
            }
        }
    }
}

/// Signed decimal text is made of digits and a leading minus sign.
pub proof fn lemma_signed_decimal_chars(v: int)
    ensures
        forall|k: int|
            0 <= k < signed_decimal(v).len() ==> is_digit(#[trigger] signed_decimal(v)[k])
                || signed_decimal(v)[k] == '-',
        signed_decimal(v).len() > 0,
{
    if v < 0 {
        lemma_decimal_digits((-v) as nat);
        let t = signed_decimal(v);
        assert forall|k: int| 0 <= k < t.len() implies is_digit(#[trigger] t[k]) || t[k] == '-' by {
            if k > 0 {
                assert(t[k] == decimal((-v) as nat)[k - 1]);
            }
        }
    } else {
        lemma_decimal_digits(v as nat);
    }
}

/// Reading back a number written by `i64::to_string` gives the number.
pub proof fn lemma_signed_decimal_parses(v: i64)
    ensures
        parse_i64_spec(signed_decimal(v as int)) == Some(v),
{
    let t = signed_decimal(v as int);
    if v < 0 {
        lemma_decimal_digits((-v) as nat);
        assert(t.drop_first() =~= decimal((-v) as nat));
    } else {
        lemma_decimal_digits(v as nat);
        let d = decimal(v as nat);
        assert(is_digit(d[0]));
    }
}

/// `v` written in decimal, as `i64::to_string` does.
pub fn signed_decimal_string(v: i64) -> (s: String)
    ensures
        s@ == signed_decimal(v as int),
{
    if v < 0 {
        let m: u64 = (0i128 - v as i128) as u64;
        let mut s = String::new();
        push_char(&mut s, '-');
        let d = decimal_string(m);
        push_str(&mut s, d.as_str());
        proof {
            assert(s@ =~= seq!['-'] + decimal((-v) as nat));
        }
        s
    } else {
        decimal_string(v as u64)
    }
}

/// Parse a signed decimal number, as `i64::from_str` does.
pub fn parse_i64(s: &[char]) -> (r: Option<i64>)
    ensures
        r == parse_i64_spec(s@),
{
    let n = s.len();
    let neg = n > 0 && s[0] == '-';
    let signed = n > 0 && (s[0] == '-' || s[0] == '+');
    let start: usize = if signed { 1 } else { 0 };
    let ghost body = s@.subrange(start as int, n as int);
    proof {
        if signed {
            assert(body =~= s@.drop_first());
        } else {
            assert(body =~= s@);
        }
    }
    if start == n {
        return None;
    }
    let mut k = start;
    let mut v: u64 = 0;
    let mut over = false;
    while k < n
        invariant
            start <= k <= n,
            n == s@.len(),
            body == s@.subrange(start as int, n as int),
            body == (if s@.len() > 0 && (s@[0] == '-' || s@[0] == '+') {
                s@.drop_first()
            } else {
                s@
            }),
            neg == (s@.len() > 0 && s@[0] == '-'),
            body.len() > 0,
            all_digits(body.take(k - start)),
            !over ==> v == digits_value(body.take(k - start)),
            over ==> digits_value(body.take(k - start)) > u64::MAX,
        decreases n - k,
    {
        let c = s[k];
        if !('0' <= c && c <= '9') {
            proof {
                assert(body[k - start] == c);
                assert(!is_digit(body[k - start]));
                assert(!all_digits(body));
            }
            return None;
        }
        let ghost pre = body.take(k - start);
        let ghost next = body.take(k - start + 1);
        proof {
            assert(next.drop_last() =~= pre);
            assert(next.last() == c);
            assert(all_digits(next)) by {
                assert forall|j: int| 0 <= j < next.len() implies is_digit(#[trigger] next[j]) by {
                    if j < pre.len() {
                        assert(next[j] == pre[j]);
                    }
                }
            }
        }
        let d = (c as u32 - '0' as u32) as u64;
        if !over {
            match v.checked_mul(10) {
                Some(t) => match t.checked_add(d) {
                    Some(u) => {
                        v = u;
                    },
                    None => {
                        over = true;
                    },
                },
                None => {
                    over = true;
                },
            }
        } else {
            proof {
                assert(digits_value(next) >= digits_value(pre) * 10) by (nonlinear_arith)
                    requires
                        digits_value(next) == digits_value(pre) * 10 + digit_value(c),
                ;
            }
        }
        k += 1;
    }
    proof {
        assert(body.take(n - start) =~= body);
    }
    if over {
        None
    } else if neg {
        if v <= 0x8000_0000_0000_0000u64 {
            Some((0i128 - v as i128) as i64)
        } else {
            None
        }
    } else if v <= 0x7fff_ffff_ffff_ffffu64 {
        Some(v as i64)
    } else {
        None
    }
}

// ---------------------------------------------------------------------------
// Searching and cutting
// ---------------------------------------------------------------------------

/// The index of the first `c` in `s`, or its length when it has none.
pub open spec fn first_index_of(s: Seq<char>, c: char) -> int
    decreases s.len(),
{
    if s.len() == 0 {
        0
    } else if s[0] == c {
        0
    } else {
        1 + first_index_of(s.drop_first(), c)
    }
}

pub proof fn lemma_first_index_of(s: Seq<char>, c: char)
    ensures
        0 <= first_index_of(s, c) <= s.len(),
        first_index_of(s, c) < s.len() ==> s[first_index_of(s, c)] == c,
        forall|k: int| 0 <= k < first_index_of(s, c) ==> s[k] != c,
    decreases s.len(),
{
    if s.len() > 0 && s[0] != c {
        let r = s.drop_first();
        lemma_first_index_of(r, c);
        assert forall|k: int| 0 <= k < first_index_of(s, c) implies s[k] != c by {
            if k > 0 {
                assert(s[k] == r[k - 1]);
            }
        }
    }
}

/// The index of the first `c` at or after `from`, or the length.
pub fn find_char(v: &[char], c: char, from: usize) -> (r: usize)
    requires
        from <= v@.len(),
    ensures
        r == from + first_index_of(v@.skip(from as int), c),
        from <= r <= v@.len(),
{
    let mut k = from;
    proof {
        lemma_first_index_of(v@.skip(from as int), c);
    }
    while k < v.len() && v[k] != c
        invariant
            from <= k <= v@.len(),
            from + first_index_of(v@.skip(from as int), c) == k + first_index_of(
                v@.skip(k as int),
                c,
            ),
        decreases v@.len() - k,
    {
        proof {
            assert(v@.skip(k as int).drop_first() =~= v@.skip(k + 1));
            assert(v@.skip(k as int)[0] == v@[k as int]);
        }
        k += 1;
    }
    proof {
        if k < v@.len() {
            assert(v@.skip(k as int)[0] == v@[k as int]);
        } else {
            assert(v@.skip(k as int).len() == 0);
        }
    }
    k
}

/// `v[from..to]`.
pub fn slice_chars(v: &[char], from: usize, to: usize) -> (r: Vec<char>)
    requires
        from <= to <= v@.len(),
    ensures
        r@ == v@.subrange(from as int, to as int),
{
    let mut r: Vec<char> = Vec::new();
    let mut k = from;
    while k < to
        invariant
            from <= k <= to <= v@.len(),
            r@ == v@.subrange(from as int, k as int),
        decreases to - k,
    {
        r.push(v[k]);
        proof {
            assert(r@ =~= v@.subrange(from as int, k + 1));
        }
        k += 1;
    }
    r
}

/// `s` ends with `p`.
pub open spec fn has_suffix(s: Seq<char>, p: Seq<char>) -> bool {
    p.len() <= s.len() && s.skip(s.len() - p.len()) == p
}

/// Whether `s` ends with `p`.
pub fn ends_with(s: &[char], p: &[char]) -> (b: bool)
    ensures
        b == has_suffix(s@, p@),
{
    if p.len() > s.len() {
        return false;
    }
    let off = s.len() - p.len();
    let mut k: usize = 0;
    while k < p.len()
        invariant
            k <= p@.len(),
            off + p@.len() == s@.len(),
            s@.len() == s.len(),
            p@.len() == p.len(),
            forall|j: int| 0 <= j < k ==> s@[off + j] == p@[j],
        decreases p@.len() - k,
    {
        if s[off + k] != p[k] {
            proof {
                assert(s@.skip(off as int)[k as int] != p@[k as int]);
            }
            return false;
        }
        k += 1;
    }
    proof {
        assert(s@.skip(off as int) =~= p@);
    }
    true
}

/// Whether `c` occurs in `s`.
pub fn contains_char(s: &[char], c: char) -> (b: bool)
    ensures
        b == s@.contains(c),
{
    let i = find_char(s, c, 0);
    proof {
        assert(s@.skip(0) =~= s@);
        lemma_first_index_of(s@, c);
        if i < s@.len() {
            assert(s@[i as int] == c);
        }
    }
    i < s.len()
}

} // verus!
