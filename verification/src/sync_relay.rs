//! The sync relay's settings, the URLs a push goes to, and the signature
//! each push carries.

use vstd::prelude::*;
use vstd::utf8::encode_utf8;

use crate::clock::unix_time_ms;
use crate::digest::{hex, hex_string, hmac_sha256, hmac_sha256_tag};
use crate::percent::{url_encoded, urlencoding_encode};
use crate::shard_cluster::{strip_trailing_slashes, without_trailing_slashes};
use crate::text::{append_bytes, decimal, decimal_string, push_str, str_len};

verus! {

/// Where the relay is, the secret pushes are signed with, and the app (the
/// relay instance) they go to.
pub struct RelayConfig {
    /// The relay's base URL, without a trailing slash.
    pub base_url: String,
    pub secret: String,
    pub app: String,
}

pub open spec fn given(o: Option<&str>) -> Option<Seq<char>> {
    match o {
        Some(s) => if s@.len() > 0 {
            Some(s@)
        } else {
            None
        },
        None => None,
    }
}

fn nonempty(o: Option<&str>) -> (r: Option<&str>)
    ensures
        match r {
            Some(s) => given(o) == Some(s@),
            None => given(o) is None,
        },
{
    match o {
        Some(s) => {
            let n = str_len(s);
            proof {
                crate::text::lemma_text_len_empty(s@);
            }
            if n > 0 {
                Some(s)
            } else {
                None
            }
        },
        None => None,
    }
}

impl RelayConfig {
    /// The settings from the values of `PYLON_SYNC_RELAY_URL`,
    /// `PYLON_SYNC_RELAY_SECRET`, `PYLON_SYNC_RELAY_APP` and
    /// `PYLON_PROJECT_ID` (None: unset). Off unless the URL and the secret
    /// are both set; the app defaults to the project id, then the manifest
    /// name.
    pub fn from_env(
        url: Option<&str>,
        secret: Option<&str>,
        app: Option<&str>,
        project_id: Option<&str>,
        manifest_name: &str,
    ) -> (r: Option<RelayConfig>)
        ensures
            r is Some <==> (given(url) is Some && given(secret) is Some),
            r matches Some(c) ==> {
                &&& c.base_url@ == without_trailing_slashes(given(url)->0)
                &&& c.secret@ == given(secret)->0
                &&& c.app@ == (if given(app) is Some {
                    given(app)->0
                } else if given(project_id) is Some {
                    given(project_id)->0
                } else {
                    manifest_name@
                })
            },
    {
        let url = match nonempty(url) {
            Some(u) => u,
            None => {
                return None;
            },
        };
        let secret = match nonempty(secret) {
            Some(s) => s,
            None => {
                return None;
            },
        };
        let app = match nonempty(app) {
            Some(a) => String::from_str(a),
            None => match nonempty(project_id) {
                Some(p) => String::from_str(p),
                None => String::from_str(manifest_name),
            },
        };
        Some(RelayConfig {
            base_url: strip_trailing_slashes(url),
            secret: String::from_str(secret),
            app,
        })
    }

    /// Where a push of kind `path` goes: `{base}/sync/{path}?app={app}`,
    /// the app percent-encoded.
    pub fn push_url(&self, path: &str) -> (u: String)
        ensures
            u@ == self.base_url@ + "/sync/"@ + path@ + "?app="@ + url_encoded(encode_utf8(self.app@)),
    {
        let mut u = self.base_url.clone();
        push_str(&mut u, "/sync/");
        push_str(&mut u, path);
        push_str(&mut u, "?app=");
        let a = urlencoding_encode(self.app.as_str());
        push_str(&mut u, a.as_str());
        u
    }
}

/// What a push's signature covers: the timestamp in decimal, a dot, then
/// the body.
pub open spec fn relay_message(ts: u64, body: Seq<u8>) -> Seq<u8> {
    encode_utf8(decimal(ts as nat)) + seq![46u8] + body
}

/// The signature of a push: `hex(HMAC_SHA256(secret, ts + "." + body))`.
pub fn relay_signature(secret: &str, ts: u64, body: &[u8]) -> (s: String)
    ensures
        s@ == hex(hmac_sha256(encode_utf8(secret@), relay_message(ts, body@))),
{
    let t = decimal_string(ts);
    let mut m: Vec<u8> = Vec::new();
    append_bytes(&mut m, t.as_str().as_bytes());
    m.push(46u8);
    append_bytes(&mut m, body);
    proof {
        assert(m@ =~= relay_message(ts, body@));
    }
    let tag = hmac_sha256_tag(secret.as_bytes(), m.as_slice());
    hex_string(tag.as_slice())
}

/// Seconds since the Unix epoch, or zero for a clock set before it.
pub fn now_secs() -> u64 {
    unix_time_ms() / 1000
}

pub open spec fn pow2(k: nat) -> nat
    decreases k,
{
    if k == 0 {
        1
    } else {
        2 * pow2((k - 1) as nat)
    }
}

/// Events a push carries at most.
pub const BATCH_MAX: usize = 200;

/// The pause before manifest push `attempt` is tried again, in seconds:
/// doubling from 2, at most 32.
pub fn manifest_backoff_secs(attempt: u32) -> (s: u64)
    ensures
        s == (if attempt <= 4 {
            2 * pow2(attempt as nat)
        } else {
            32
        }),
{
    let a = if attempt < 4 {
        attempt
    } else {
        4
    };
    let mut s: u64 = 2;
    let mut k: u32 = 0;
    while k < a
        invariant
            k <= a <= 4,
            s == 2 * pow2(k as nat),
        decreases a - k,
    {
        proof {
            reveal_with_fuel(pow2, 5);
            assert(k == 0 || k == 1 || k == 2 || k == 3);
        }
        s = s * 2;
        k += 1;
    }
    proof {
        if attempt > 4 {
            reveal_with_fuel(pow2, 5);
        }
    }
    s
}


/// Tries of a manifest push before the shipper gives up until the next
/// batch.
pub const MANIFEST_ATTEMPTS: u32 = 5;

/// Tries of an event push before its batch is dropped.
pub const PUSH_ATTEMPTS: u32 = 2;

/// The pause before an event push is tried again, in milliseconds.
pub const RETRY_PAUSE_MS: u64 = 500;

/// What follows one try of a push.
#[derive(Debug, Clone, Copy, PartialEq, Eq, Structural)]
pub enum PushStep {
    /// It landed.
    Landed,
    /// It failed: pause this many milliseconds, then try again (`again`)
    /// or give up.
    Pause { ms: u64, again: bool },
    /// It failed for the last time, with no pause.
    GiveUp,
}

/// After manifest try `attempt` (from 0): landed, or a pause of
/// [`manifest_backoff_secs`] (also after the last try), then another try
/// while fewer than [`MANIFEST_ATTEMPTS`] were made.
pub fn manifest_step(attempt: u32, landed: bool) -> (st: PushStep)
    requires
        attempt < MANIFEST_ATTEMPTS,
    ensures
        landed ==> st == PushStep::Landed,
        !landed ==> st == (PushStep::Pause {
            ms: (1000 * manifest_backoff_secs_spec(attempt)) as u64,
            again: attempt + 1 < MANIFEST_ATTEMPTS,
        }),
{
    if landed {
        return PushStep::Landed;
    }
    let secs = manifest_backoff_secs(attempt);
    proof {
        reveal_with_fuel(pow2, 5);
    }
    PushStep::Pause { ms: secs * 1000, again: attempt + 1 < MANIFEST_ATTEMPTS }
}

/// The pause of [`manifest_backoff_secs`].
pub open spec fn manifest_backoff_secs_spec(attempt: u32) -> nat {
    if attempt <= 4 {
        2 * pow2(attempt as nat)
    } else {
        32
    }
}

/// After event push try `attempt` (from 0): landed; after the first
/// failure a pause of [`RETRY_PAUSE_MS`] and one more try; after the
/// second, the batch is dropped (and the manifest is pushed again before
/// the next batch).
pub fn push_step(attempt: u32, landed: bool) -> (st: PushStep)
    requires
        attempt < PUSH_ATTEMPTS,
    ensures
        landed ==> st == PushStep::Landed,
        !landed && attempt == 0 ==> st == (PushStep::Pause { ms: RETRY_PAUSE_MS, again: true }),
        !landed && attempt == 1 ==> st == PushStep::GiveUp,
{
    if landed {
        PushStep::Landed
    } else if attempt == 0 {
        PushStep::Pause { ms: RETRY_PAUSE_MS, again: true }
    } else {
        PushStep::GiveUp
    }
}

} // verus!
