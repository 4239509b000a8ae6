//! The trusted-host set for an app's tenant domains: the hosts the control
//! plane lists, lowercased, checked by exact match. It fails closed: with
//! no set nothing extra is trusted, and a failed refresh keeps the last set.

use vstd::prelude::*;

use crate::text::{
    chars_of, find_char, first_index_of, lemma_first_index_of, push_str, slice_chars,
    starts_with, str_eq, string_from_chars,
};

verus! {

/// The lowercase form of a text, by Unicode's case mapping.
pub uninterp spec fn lowercase(s: Seq<char>) -> Seq<char>;

/// `str::to_lowercase`.
#[verifier::external_body]
pub(crate) fn to_lowercase(s: &str) -> (r: String)
    ensures
        r@ == lowercase(s@),
{
    s.to_lowercase()
}

/// The hosts trusted for tenant domains.
pub struct TenantHosts {
    hosts: Vec<String>,
}

impl View for TenantHosts {
    type V = Set<Seq<char>>;

    closed spec fn view(&self) -> Set<Seq<char>> {
        Set::new(|h: Seq<char>| exists|i: int| 0 <= i < self.hosts@.len() && self.hosts@[i]@ == h)
    }
}

/// The set a listing makes: each listed host, lowercased.
pub open spec fn listed(hosts: Seq<String>) -> Set<Seq<char>> {
    Set::new(|h: Seq<char>| exists|i: int| 0 <= i < hosts.len() && lowercase(hosts[i]@) == h)
}

impl TenantHosts {
    /// No host trusted.
    pub fn empty() -> (t: TenantHosts)
        ensures
            t@ == Set::<Seq<char>>::empty(),
    {
        let t = TenantHosts { hosts: Vec::new() };
        proof {
            assert(t@ =~= Set::<Seq<char>>::empty());
        }
        t
    }

    /// The set of a listing from the control plane.
    pub fn from_list(hosts: &[String]) -> (t: TenantHosts)
        ensures
            t@ == listed(hosts@),
    {
        let mut v: Vec<String> = Vec::new();
        let mut k: usize = 0;
        while k < hosts.len()
            invariant
                k <= hosts@.len(),
                v@.len() == k,
                forall|i: int| 0 <= i < k ==> (#[trigger] v@[i])@ == lowercase(hosts@[i]@),
            decreases hosts@.len() - k,
        {
            v.push(to_lowercase(hosts[k].as_str()));
            k += 1;
        }
        let t = TenantHosts { hosts: v };
        proof {
            assert forall|h: Seq<char>| t@.contains(h) <==> listed(hosts@).contains(h) by {
                if t@.contains(h) {
                    let i = choose|i: int| 0 <= i < v@.len() && v@[i]@ == h;
                    assert(lowercase(hosts@[i]@) == h);
                }
                if listed(hosts@).contains(h) {
                    let i = choose|i: int| 0 <= i < hosts@.len() && lowercase(hosts@[i]@) == h;
                    assert(v@[i]@ == h);
                }
            }
            assert(t@ =~= listed(hosts@));
        }
        t
    }

    /// Take a fresh listing, or keep the set when the refresh failed.
    pub fn refresh(&mut self, fetched: Option<&[String]>)
        ensures
            match fetched {
                Some(l) => final(self)@ == listed(l@),
                None => final(self)@ == old(self)@,
            },
    {
        match fetched {
            Some(l) => {
                *self = TenantHosts::from_list(l);
            },
            None => {},
        }
    }

    /// Whether `host`, already lowercased, is in the set.
    fn holds(&self, host: &str) -> (b: bool)
        ensures
            b == self@.contains(host@),
    {
        let mut k: usize = 0;
        while k < self.hosts.len()
            invariant
                k <= self.hosts@.len(),
                forall|i: int| 0 <= i < k ==> (#[trigger] self.hosts@[i])@ != host@,
            decreases self.hosts@.len() - k,
        {
            if str_eq(self.hosts[k].as_str(), host) {
                return true;
            }
            k += 1;
        }
        false
    }
}

/// Whether a host is trusted: with a set, when its lowercase form is in
/// it; with none (the feature off), never.
pub open spec fn trusted_host(hosts: Option<Set<Seq<char>>>, host: Seq<char>) -> bool {
    match hosts {
        Some(s) => s.contains(lowercase(host)),
        None => false,
    }
}

pub open spec fn set_of(hosts: Option<&TenantHosts>) -> Option<Set<Seq<char>>> {
    match hosts {
        Some(t) => Some(t@),
        None => None,
    }
}

/// Is `host` (a bare hostname, no scheme or port) a trusted tenant host?
/// Exact match only.
pub fn is_trusted_host(hosts: Option<&TenantHosts>, host: &str) -> (b: bool)
    ensures
        b == trusted_host(set_of(hosts), host@),
{
    match hosts {
        Some(t) => {
            let lower = to_lowercase(host);
            t.holds(lower.as_str())
        },
        None => false,
    }
}

/// The bare host of an `http://` or `https://` origin: up to the first
/// `/`, without a `:port`. None for another scheme or an empty host.
pub open spec fn origin_host(origin: Seq<char>) -> Option<Seq<char>> {
    let rest = if origin.len() >= 8 && origin.take(8) == "https://"@ {
        Some(origin.skip(8))
    } else if origin.len() >= 7 && origin.take(7) == "http://"@ {
        Some(origin.skip(7))
    } else {
        None
    };
    match rest {
        None => None,
        Some(r) => {
            let a = r.take(first_index_of(r, '/'));
            let h = a.take(first_index_of(a, ':'));
            if h.len() == 0 {
                None
            } else {
                Some(h)
            }
        },
    }
}

/// Bare host from an origin string, or None if it isn't an http(s) origin.
pub fn host_of_origin(origin: &str) -> (r: Option<String>)
    ensures
        match r {
            Some(h) => origin_host(origin@) == Some(h@),
            None => origin_host(origin@) is None,
        },
{
    proof {
        reveal_strlit("https://");
        reveal_strlit("http://");
    }
    let o = chars_of(origin);
    let https = chars_of("https://");
    let http = chars_of("http://");
    let from: usize = if starts_with(o.as_slice(), https.as_slice()) {
        8
    } else if starts_with(o.as_slice(), http.as_slice()) {
        7
    } else {
        return None;
    };
    let rest = slice_chars(o.as_slice(), from, o.len());
    proof {
        assert(rest@ =~= o@.skip(from as int));
    }
    let slash = find_char(rest.as_slice(), '/', 0);
    proof {
        assert(rest@.skip(0) =~= rest@);
    }
    let a = slice_chars(rest.as_slice(), 0, slash);
    proof {
        assert(a@ =~= rest@.take(slash as int));
    }
    let colon = find_char(a.as_slice(), ':', 0);
    proof {
        assert(a@.skip(0) =~= a@);
    }
    let h = slice_chars(a.as_slice(), 0, colon);
    proof {
        assert(h@ =~= a@.take(colon as int));
    }
    if h.len() == 0 {
        None
    } else {
        Some(string_from_chars(h.as_slice()))
    }
}

/// Is `origin` (`scheme://host[:port]`) a trusted tenant origin?
/// Non-http(s) or hostless origins are never trusted.
pub fn is_trusted_origin(hosts: Option<&TenantHosts>, origin: &str) -> (b: bool)
    ensures
        b == match origin_host(origin@) {
            Some(h) => trusted_host(set_of(hosts), h),
            None => false,
        },
{
    match host_of_origin(origin) {
        Some(h) => is_trusted_host(hosts, h.as_str()),
        None => false,
    }
}

/// The control plane's listing endpoint for a cloud URL, and the token to
/// call it with. None unless both are set and non-empty.
pub fn listing_endpoint(cloud_url: Option<&str>, token: Option<&str>) -> (r: Option<(String, String)>)
    ensures
        r is Some <==> (match (cloud_url, token) {
            (Some(c), Some(t)) => c@.len() > 0 && t@.len() > 0,
            _ => false,
        }),
        r matches Some((url, tok)) ==> {
            &&& url@ == crate::shard_cluster::without_trailing_slashes(cloud_url->0@)
                + "/api/fn/listProjectTrustedHosts"@
            &&& tok@ == token->0@
        },
{
    let (c, t) = match (cloud_url, token) {
        (Some(c), Some(t)) => (c, t),
        _ => {
            return None;
        },
    };
    let cc = chars_of(c);
    let tc = chars_of(t);
    if cc.len() == 0 || tc.len() == 0 {
        return None;
    }
    let mut url = crate::shard_cluster::strip_trailing_slashes(c);
    push_str(&mut url, "/api/fn/listProjectTrustedHosts");
    Some((url, String::from_str(t)))
}

/// The first `c` of `h + t`, where `h` holds no `c` and `t` starts with
/// one, is at the end of `h`; and the first `c` of `h` alone is its end.
proof fn lemma_first_at_join(h: Seq<char>, t: Seq<char>, c: char)
    requires
        !h.contains(c),
        t.len() > 0 ==> t[0] == c,
    ensures
        first_index_of(h + t, c) == h.len(),
{
    let s = h + t;
    lemma_first_index_of(s, c);
    let k = first_index_of(s, c);
    if k < h.len() {
        assert(s[k] == h[k]);
    }
    if k > h.len() {
        assert(s[h.len() as int] == t[0]);
    }
}

/// The host of an origin does not depend on its scheme: for both `http`
/// and `https`, the port after the host is stripped, and so is a path.
/// With `h` a host (not empty, no `:` or `/`): `scheme://h:p` and
/// `scheme://h/p` both have host `h`, whatever `p` is, and so has
/// `scheme://h`.
#[verifier::rlimit(40)]
pub proof fn law_origin_host_strips_port_for_both_schemes(h: Seq<char>, p: Seq<char>)
    requires
        h.len() > 0,
        !h.contains(':'),
        !h.contains('/'),
    ensures
        origin_host("http://"@ + h + ":"@ + p) == Some(h),
        origin_host("https://"@ + h + ":"@ + p) == Some(h),
        origin_host("http://"@ + h + "/"@ + p) == Some(h),
        origin_host("https://"@ + h + "/"@ + p) == Some(h),
        origin_host("http://"@ + h) == Some(h),
        origin_host("https://"@ + h) == Some(h),
{
    reveal_strlit("http://");
    reveal_strlit("https://");
    reveal_strlit(":");
    reveal_strlit("/");
    let e: Seq<char> = Seq::empty();
    assert(h + e =~= h);
    lemma_first_at_join(h, e, '/');
    lemma_first_at_join(h, e, ':');
    // `h:p`
    let r1 = h + (":"@ + p);
    let i1 = first_index_of(r1, '/');
    lemma_first_index_of(r1, '/');
    let a1 = r1.take(i1);
    assert(i1 >= h.len()) by {
        if i1 < h.len() {
            assert(r1[i1] == h[i1]);
        }
    }
    assert(a1 =~= h + a1.skip(h.len() as int));
    assert(i1 > h.len()) by {
        assert(r1[h.len() as int] == ':');
    }
    assert(a1.skip(h.len() as int)[0] == ':');
    lemma_first_at_join(h, a1.skip(h.len() as int), ':');
    assert(a1.take(h.len() as int) =~= h);
    // `h/p`
    let r2 = h + ("/"@ + p);
    lemma_first_at_join(h, "/"@ + p, '/');
    assert(r2.take(h.len() as int) =~= h);
    assert(h.take(h.len() as int) =~= h);
    let schemes = seq!["http://"@, "https://"@];
    assert forall|k: int| 0 <= k < 2 implies {
        let s = #[trigger] schemes[k];
        &&& origin_host(s + h + ":"@ + p) == Some(h)
        &&& origin_host(s + h + "/"@ + p) == Some(h)
        &&& origin_host(s + h) == Some(h)
    } by {
        let s = schemes[k];
        assert((s + h + ":"@ + p).skip(s.len() as int) =~= r1);
        assert((s + h + "/"@ + p).skip(s.len() as int) =~= r2);
        assert((s + h).skip(s.len() as int) =~= h);
        assert((s + h + ":"@ + p).take(s.len() as int) =~= s);
        assert((s + h + "/"@ + p).take(s.len() as int) =~= s);
        assert((s + h).take(s.len() as int) =~= s);
        if k == 0 {
            assert((s + h + ":"@ + p)[4] == ':');
            assert((s + h + "/"@ + p)[4] == ':');
            assert((s + h)[4] == ':');
            assert((s + h + ":"@ + p).take(8)[4] != "https://"@[4]);
            assert((s + h + "/"@ + p).take(8)[4] != "https://"@[4]);
            assert((s + h).take(8)[4] != "https://"@[4]);
        }
    }
    assert(schemes[0] == "http://"@);
    assert(schemes[1] == "https://"@);
}

/// A host is trusted exactly when the listing holds it, compared in lower
/// case; with no listing nothing is. An origin of such a host, `http` or
/// `https`, with a port or a path or neither, is trusted exactly when the
/// host is.
pub proof fn law_listed_hosts_are_trusted(list: Seq<String>, h: Seq<char>, p: Seq<char>)
    requires
        h.len() > 0,
        !h.contains(':'),
        !h.contains('/'),
    ensures
        trusted_host(Some(listed(list)), h) <==> exists|i: int|
            0 <= i < list.len() && lowercase(#[trigger] list[i]@) == lowercase(h),
        !trusted_host(None, h),
        ({
            let t = Some(listed(list));
            &&& (origin_host("http://"@ + h + ":"@ + p) matches Some(x) && trusted_host(t, x))
                <==> trusted_host(t, h)
            &&& (origin_host("https://"@ + h + ":"@ + p) matches Some(x) && trusted_host(t, x))
                <==> trusted_host(t, h)
            &&& (origin_host("https://"@ + h + "/"@ + p) matches Some(x) && trusted_host(t, x))
                <==> trusted_host(t, h)
            &&& (origin_host("http://"@ + h) matches Some(x) && trusted_host(t, x)) <==> trusted_host(
                t,
                h,
            )
        }),
{
    law_origin_host_strips_port_for_both_schemes(h, p);
}

} // verus!
