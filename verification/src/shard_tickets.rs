//! Shard tickets: how long one lives, and the clock it is checked against.

use vstd::prelude::*;

use vstd::utf8::encode_utf8;

use crate::clock::unix_time_ms;
use crate::digest::{hmac_sha256, hmac_sha256_tag};

verus! {

/// The longest lifetime a ticket can be minted with.
pub const MAX_TTL_SECS: u64 = 3600;
/// Lifetime when the caller does not pass one.
pub const DEFAULT_TTL_SECS: u64 = 60;

/// A ticket's lifetime: the one asked for, else the default, between one
/// second and an hour.
pub fn ticket_ttl(ttl_secs: Option<u64>) -> (t: u64)
    ensures
        t == (match ttl_secs {
            Some(s) => if s < 1 {
                1
            } else if s > MAX_TTL_SECS {
                MAX_TTL_SECS
            } else {
                s
            },
            None => DEFAULT_TTL_SECS,
        }),
{
    let t = match ttl_secs {
        Some(s) => s,
        None => DEFAULT_TTL_SECS,
    };
    if t < 1 {
        1
    } else if t > MAX_TTL_SECS {
        MAX_TTL_SECS
    } else {
        t
    }
}

/// When a ticket minted at `now` with lifetime `ttl_secs` expires.
pub fn ticket_expiry(now: u64, ttl_secs: Option<u64>) -> (exp: u64)
    requires
        now <= u64::MAX - MAX_TTL_SECS,
    ensures
        exp == now + (match ttl_secs {
            Some(s) => if s < 1 {
                1
            } else if s > MAX_TTL_SECS {
                MAX_TTL_SECS
            } else {
                s
            },
            None => DEFAULT_TTL_SECS,
        }),
{
    now + ticket_ttl(ttl_secs)
}

/// The secret tickets are signed with: the configured one when it is set
/// and not empty, else the HMAC of `pylon-shard-ticket-v1` under the host's
/// signing secret, so that a ticket signature is never valid as a signature
/// of another kind, or the reverse.
pub fn ticket_secret(configured: Option<&str>, signing_secret: &[u8]) -> (s: Vec<u8>)
    ensures
        s@ == (if configured is Some && configured->0@.len() > 0 {
            encode_utf8(configured->0@)
        } else {
            hmac_sha256(signing_secret@, encode_utf8("pylon-shard-ticket-v1"@))
        }),
{
    if let Some(v) = configured {
        let b = v.as_bytes();
        if b.len() > 0 {
            return vstd::slice::slice_to_vec(b);
        }
    }
    hmac_sha256_tag(signing_secret, "pylon-shard-ticket-v1".as_bytes())
}

/// The host's signing secret as the environment gives it: the JWT secret
/// when it is set and not empty, else the encryption key, else nothing.
pub open spec fn signing_secret_of(jwt: Option<Seq<char>>, encryption_key: Option<Seq<char>>) -> Seq<u8> {
    if jwt is Some && jwt->0.len() > 0 {
        encode_utf8(jwt->0)
    } else if encryption_key is Some {
        encode_utf8(encryption_key->0)
    } else {
        Seq::empty()
    }
}

pub open spec fn opt_text(o: Option<&str>) -> Option<Seq<char>> {
    match o {
        Some(s) => Some(s@),
        None => None,
    }
}

/// The ticket secret from the environment's three settings
/// (`PYLON_SHARD_TICKET_SECRET`, `PYLON_JWT_SECRET`,
/// `PYLON_ENCRYPTION_KEY`): see [`ticket_secret`] and [`signing_secret_of`].
pub fn ticket_secret_from(configured: Option<&str>, jwt: Option<&str>, encryption_key: Option<&str>) -> (s: Vec<u8>)
    ensures
        s@ == (if configured is Some && configured->0@.len() > 0 {
            encode_utf8(configured->0@)
        } else {
            hmac_sha256(
                signing_secret_of(opt_text(jwt), opt_text(encryption_key)),
                encode_utf8("pylon-shard-ticket-v1"@),
            )
        }),
{
    let jwt_set = match jwt {
        Some(j) => crate::text::str_len(j) > 0,
        None => false,
    };
    let signing: Vec<u8> = if jwt_set {
        vstd::slice::slice_to_vec(jwt.unwrap().as_bytes())
    } else {
        match encryption_key {
            Some(k) => vstd::slice::slice_to_vec(k.as_bytes()),
            None => Vec::new(),
        }
    };
    proof {
        match jwt {
            Some(j) => {
                if j@.len() > 0 {
                    assert(encode_utf8(j@).len() > 0) by {
                        crate::text::lemma_text_len_empty(j@);
                    }
                } else {
                    assert(encode_utf8(j@).len() == 0) by {
                        crate::text::lemma_text_len_empty(j@);
                    }
                }
            },
            None => {},
        }
        assert(signing@ =~= signing_secret_of(opt_text(jwt), opt_text(encryption_key)));
    }
    ticket_secret(configured, signing.as_slice())
}

/// Seconds since the Unix epoch, or zero for a clock set before it.
pub fn unix_now() -> u64 {
    unix_time_ms() / 1000
}

} // verus!
