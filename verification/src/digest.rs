//! SHA-256, HMAC-SHA-256, random bytes, and lowercase hexadecimal.

use vstd::prelude::*;

use hmac::{Hmac, Mac};
use sha2::{Digest, Sha256};

verus! {

/// The SHA-256 digest of a byte string.
pub uninterp spec fn sha256(data: Seq<u8>) -> Seq<u8>;

/// The HMAC-SHA-256 tag of a message under a key.
pub uninterp spec fn hmac_sha256(key: Seq<u8>, msg: Seq<u8>) -> Seq<u8>;

/// `sha2::Sha256::digest`: the SHA-256 digest of `data`, 32 bytes long (the
/// output size the type declares).
#[verifier::external_body]
pub(crate) fn sha256_digest(data: &[u8]) -> (d: Vec<u8>)
    ensures
        d@ == sha256(data@),
        d@.len() == 32,
{
    Sha256::digest(data).to_vec()
}

/// `hmac::Hmac::<Sha256>::new_from_slice`, `update` and `finalize`: the tag
/// of `msg` under `key`, 32 bytes long. HMAC takes a key of any length, so
/// `new_from_slice` never fails.
#[verifier::external_body]
pub(crate) fn hmac_sha256_tag(key: &[u8], msg: &[u8]) -> (t: Vec<u8>)
    ensures
        t@ == hmac_sha256(key@, msg@),
        t@.len() == 32,
{
    let mut mac = <Hmac<Sha256> as Mac>::new_from_slice(key).expect("HMAC takes any key length");
    mac.update(msg);
    mac.finalize().into_bytes().to_vec()
}

/// `rand::random::<u8>()`: a byte from the thread's generator. Nothing is
/// promised of it.
#[verifier::external_body]
pub(crate) fn random_byte() -> u8 {
    rand::random::<u8>()
}

/// `rand::random::<i64>()`: a number from the thread's generator. Nothing
/// is promised of it.
#[verifier::external_body]
pub(crate) fn random_i64() -> i64 {
    rand::random::<i64>()
}

/// The lowercase hexadecimal digit of `d`.
pub open spec fn hex_digit(d: nat) -> char {
    if d < 10 {
        ((d + 48) as u32) as char
    } else {
        ((d + 87) as u32) as char
    }
}

/// `bytes` in lowercase hexadecimal, two digits a byte.
pub open spec fn hex(bytes: Seq<u8>) -> Seq<char>
    decreases bytes.len(),
{
    if bytes.len() == 0 {
        Seq::empty()
    } else {
        hex(bytes.drop_last()) + seq![
            hex_digit((bytes.last() / 16) as nat),
            hex_digit((bytes.last() % 16) as nat),
        ]
    }
}

pub open spec fn is_hex_char(c: char) -> bool {
    ('0' <= c <= '9') || ('a' <= c <= 'f')
}

pub proof fn lemma_hex_len(bytes: Seq<u8>)
    ensures
        hex(bytes).len() == 2 * bytes.len(),
    decreases bytes.len(),
{
    if bytes.len() > 0 {
        lemma_hex_len(bytes.drop_last());
    }
}

/// Hexadecimal text holds only digits and `a` to `f`.
pub proof fn lemma_hex_chars(bytes: Seq<u8>)
    ensures
        forall|k: int| 0 <= k < hex(bytes).len() ==> is_hex_char(#[trigger] hex(bytes)[k]),
    decreases bytes.len(),
{
    if bytes.len() > 0 {
        let p = bytes.drop_last();
        lemma_hex_chars(p);
        lemma_hex_len(p);
        let h = hex(bytes);
        assert forall|k: int| 0 <= k < h.len() implies is_hex_char(#[trigger] h[k]) by {
            if k < hex(p).len() {
                assert(h[k] == hex(p)[k]);
            }
        }
    }
}

fn hex_char(d: u8) -> (c: char)
    requires
        d < 16,
    ensures
        c == hex_digit(d as nat),
{
    if d < 10 {
        (48 + d) as char
    } else {
        (87 + d) as char
    }
}

/// `bytes` in lowercase hexadecimal, as `format!("{b:02x}")` writes each.
pub fn hex_string(bytes: &[u8]) -> (s: String)
    ensures
        s@ == hex(bytes@),
{
    let mut s = String::new();
    let mut k: usize = 0;
    while k < bytes.len()
        invariant
            k <= bytes@.len(),
            s@ == hex(bytes@.take(k as int)),
        decreases bytes@.len() - k,
    {
        let b = bytes[k];
        crate::text::push_char(&mut s, hex_char(b / 16));
        crate::text::push_char(&mut s, hex_char(b % 16));
        proof {
            let t = bytes@.take(k + 1);
            assert(t.drop_last() =~= bytes@.take(k as int));
            assert(t.last() == b);
            assert(s@ =~= hex(t));
        }
        k += 1;
    }
    proof {
        assert(bytes@.take(bytes@.len() as int) =~= bytes@);
    }
    s
}

} // verus!
