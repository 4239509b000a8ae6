//! The cache of anonymous server-rendered pages: its keys, the in-memory
//! layer in front of the disk, freshness, the disk sweep's plan, and the
//! single-flight claims on writes.

use vstd::prelude::*;
use vstd::utf8::encode_utf8;

use crate::digest::{hex, hex_string, lemma_hex_chars, lemma_hex_len, sha256, sha256_digest};
use crate::text::{
    append_bytes, chars_of, parse_u64, parse_u64_spec, trim_chars, trimmed, lemma_lex_asymmetric, lemma_lex_irreflexive, lemma_lex_total,
    lemma_lex_transitive, lex_less, lex_lt, str_eq,
};

verus! {

broadcast use {
    vstd::seq_lib::group_to_multiset_ensures,
    vstd::seq_lib::lemma_multiset_commutative,
    vstd::multiset::group_multiset_axioms,
};

// ---------------------------------------------------------------------------
// Keys
// ---------------------------------------------------------------------------

pub open spec fn pair_view(p: (String, String)) -> (Seq<char>, Seq<char>) {
    (p.0@, p.1@)
}

pub open spec fn pairs_view(s: Seq<(String, String)>) -> Seq<(Seq<char>, Seq<char>)> {
    s.map_values(|p: (String, String)| pair_view(p))
}

/// `a` sorts before `b`: by name, then by value.
pub open spec fn pair_lt(a: (Seq<char>, Seq<char>), b: (Seq<char>, Seq<char>)) -> bool {
    lex_lt(a.0, b.0) || (a.0 == b.0 && lex_lt(a.1, b.1))
}

pub open spec fn pairs_sorted(s: Seq<(Seq<char>, Seq<char>)>) -> bool {
    forall|i: int, j: int| 0 <= i < j < s.len() ==> !pair_lt(#[trigger] s[j], #[trigger] s[i])
}

proof fn lemma_pair_order(
    a: (Seq<char>, Seq<char>),
    b: (Seq<char>, Seq<char>),
    c: (Seq<char>, Seq<char>),
)
    ensures
        !pair_lt(a, a),
        pair_lt(a, b) ==> !pair_lt(b, a),
        !pair_lt(a, b) && !pair_lt(b, a) ==> a == b,
        !pair_lt(a, b) && !pair_lt(b, c) ==> !pair_lt(a, c),
{
    lemma_lex_irreflexive(a.0);
    lemma_lex_irreflexive(a.1);
    lemma_lex_asymmetric(a.0, b.0);
    lemma_lex_asymmetric(a.1, b.1);
    lemma_lex_asymmetric(a.0, c.0);
    lemma_lex_asymmetric(a.1, c.1);
    lemma_lex_asymmetric(b.0, c.0);
    lemma_lex_asymmetric(b.1, c.1);
    lemma_lex_total(a.0, b.0);
    lemma_lex_total(a.1, b.1);
    lemma_lex_total(b.0, c.0);
    lemma_lex_total(b.1, c.1);
    lemma_lex_total(a.0, c.0);
    lemma_lex_total(a.1, c.1);
    if lex_lt(c.0, b.0) && lex_lt(b.0, a.0) {
        lemma_lex_transitive(c.0, b.0, a.0);
    }
    if lex_lt(c.1, b.1) && lex_lt(b.1, a.1) {
        lemma_lex_transitive(c.1, b.1, a.1);
    }
}

/// What a key hashes: the route, a zero byte, the path, then for each
/// parameter a zero byte, its name, `=`, and its value.
pub open spec fn params_bytes(s: Seq<(Seq<char>, Seq<char>)>) -> Seq<u8>
    decreases s.len(),
{
    if s.len() == 0 {
        Seq::empty()
    } else {
        params_bytes(s.drop_last()) + seq![0u8] + encode_utf8(s.last().0) + seq![61u8]
            + encode_utf8(s.last().1)
    }
}

pub open spec fn key_input(
    route: Seq<char>,
    path: Seq<char>,
    params: Seq<(Seq<char>, Seq<char>)>,
) -> Seq<u8> {
    encode_utf8(route) + seq![0u8] + encode_utf8(path) + params_bytes(params)
}

/// The key of a page: the SHA-256 of its route, its path and its
/// parameters sorted, in hexadecimal.
pub open spec fn is_cache_key(
    key: Seq<char>,
    route: Seq<char>,
    path: Seq<char>,
    vary: Seq<(Seq<char>, Seq<char>)>,
) -> bool {
    exists|s: Seq<(Seq<char>, Seq<char>)>|
        #[trigger] pairs_sorted(s) && s.to_multiset() == vary.to_multiset() && key == hex(
            sha256(key_input(route, path, s)),
        )
}

fn pair_less(a: &(String, String), b: &(String, String)) -> (r: bool)
    ensures
        r == pair_lt(pair_view(*a), pair_view(*b)),
{
    let a0 = chars_of(a.0.as_str());
    let b0 = chars_of(b.0.as_str());
    if lex_less(a0.as_slice(), b0.as_slice()) {
        return true;
    }
    if !str_eq(a.0.as_str(), b.0.as_str()) {
        return false;
    }
    let a1 = chars_of(a.1.as_str());
    let b1 = chars_of(b.1.as_str());
    lex_less(a1.as_slice(), b1.as_slice())
}

pub open spec fn picked(vary: Seq<(String, String)>, order: Seq<usize>) -> Seq<(Seq<char>, Seq<char>)> {
    order.map_values(|i: usize| pair_view(vary[i as int]))
}

/// The positions of `vary` in sorted order.
fn sorted_order(vary: &[(String, String)]) -> (order: Vec<usize>)
    ensures
        forall|k: int| 0 <= k < order@.len() ==> order@[k] < vary@.len(),
        pairs_sorted(picked(vary@, order@)),
        picked(vary@, order@).to_multiset() == pairs_view(vary@).to_multiset(),
{
    let mut order: Vec<usize> = Vec::new();
    let mut t: usize = 0;
    proof {
        assert(picked(vary@, order@) =~= Seq::<(Seq<char>, Seq<char>)>::empty());
        assert(pairs_view(vary@).take(0) =~= Seq::<(Seq<char>, Seq<char>)>::empty());
    }
    while t < vary.len()
        invariant
            t <= vary@.len(),
            forall|k: int| 0 <= k < order@.len() ==> order@[k] < vary@.len(),
            pairs_sorted(picked(vary@, order@)),
            picked(vary@, order@).to_multiset() == pairs_view(vary@).take(t as int).to_multiset(),
        decreases vary@.len() - t,
    {
        let ghost before = picked(vary@, order@);
        let ghost x = pair_view(vary@[t as int]);
        let mut p: usize = 0;
        while p < order.len() && !pair_less(&vary[t], &vary[order[p]])
            invariant
                p <= order@.len(),
                t < vary@.len(),
                forall|k: int| 0 <= k < order@.len() ==> order@[k] < vary@.len(),
                before == picked(vary@, order@),
                x == pair_view(vary@[t as int]),
                forall|k: int| 0 <= k < p ==> !pair_lt(x, #[trigger] before[k]),
            decreases order@.len() - p,
        {
            proof {
                assert(before[p as int] == pair_view(vary@[order@[p as int] as int]));
            }
            p += 1;
        }
        order.insert(p, t);
        proof {
            let after = picked(vary@, order@);
            assert(after =~= before.insert(p as int, x));
            assert(pairs_view(vary@).take(t + 1) =~= pairs_view(vary@).take(t as int).push(x));
            assert(pairs_sorted(after)) by {
                assert forall|i: int, j: int| 0 <= i < j < after.len() implies !pair_lt(
                    #[trigger] after[j],
                    #[trigger] after[i],
                ) by {
                    if j < p {
                        assert(after[i] == before[i] && after[j] == before[j]);
                    } else if j == p {
                        assert(after[i] == before[i]);
                        lemma_pair_order(x, before[i], x);
                    } else if i == p {
                        assert(after[j] == before[j - 1]);
                        if p < before.len() {
                            if j - 1 > p {
                                assert(!pair_lt(before[j - 1], before[p as int]));
                            }
                            lemma_pair_order(before[j - 1], before[p as int], x);
                            lemma_pair_order(x, before[p as int], x);
                        }
                    } else if i < p {
                        assert(after[i] == before[i] && after[j] == before[j - 1]);
                    } else {
                        assert(after[i] == before[i - 1] && after[j] == before[j - 1]);
                    }
                }
            }
        }
        t += 1;
    }
    proof {
        assert(pairs_view(vary@).take(vary@.len() as int) =~= pairs_view(vary@));
    }
    order
}

/// SHA-256 hex of the route, the path and the sorted parameters.
pub fn cache_key(route_path: &str, pathname: &str, vary: &[(String, String)]) -> (k: String)
    ensures
        is_cache_key(k@, route_path@, pathname@, pairs_view(vary@)),
        k@.len() == 64,
        forall|i: int| 0 <= i < k@.len() ==> crate::digest::is_hex_char(#[trigger] k@[i]),
{
    let order = sorted_order(vary);
    let ghost s = picked(vary@, order@);
    let mut input: Vec<u8> = Vec::new();
    append_bytes(&mut input, route_path.as_bytes());
    input.push(0u8);
    append_bytes(&mut input, pathname.as_bytes());
    let ghost head = input@;
    let mut k: usize = 0;
    proof {
        assert(s.take(0) =~= Seq::<(Seq<char>, Seq<char>)>::empty());
        assert(input@ =~= head + params_bytes(s.take(0)));
    }
    while k < order.len()
        invariant
            k <= order@.len(),
            s == picked(vary@, order@),
            forall|q: int| 0 <= q < order@.len() ==> order@[q] < vary@.len(),
            input@ == head + params_bytes(s.take(k as int)),
        decreases order@.len() - k,
    {
        let i = order[k];
        let pair = &vary[i];
        input.push(0u8);
        append_bytes(&mut input, pair.0.as_str().as_bytes());
        input.push(61u8);
        append_bytes(&mut input, pair.1.as_str().as_bytes());
        proof {
            let t = s.take(k + 1);
            assert(t.drop_last() =~= s.take(k as int));
            assert(t.last() == pair_view(vary@[i as int]));
            assert(input@ =~= head + params_bytes(t));
        }
        k += 1;
    }
    proof {
        assert(s.take(order@.len() as int) =~= s);
        assert(input@ =~= key_input(route_path@, pathname@, s));
    }
    let d = sha256_digest(input.as_slice());
    let key = hex_string(d.as_slice());
    proof {
        assert(pairs_sorted(s));
        lemma_hex_len(d@);
        lemma_hex_chars(d@);
    }
    key
}

proof fn lemma_sorted_unique(a: Seq<(Seq<char>, Seq<char>)>, b: Seq<(Seq<char>, Seq<char>)>)
    requires
        pairs_sorted(a),
        pairs_sorted(b),
        a.to_multiset() == b.to_multiset(),
    ensures
        a == b,
    decreases a.len(),
{
    if a.len() == 0 {
        vstd::seq_lib::to_multiset_len(a);
        vstd::seq_lib::to_multiset_len(b);
        assert(b.len() == 0);
        assert(a =~= b);
    } else {
        vstd::seq_lib::to_multiset_len(a);
        vstd::seq_lib::to_multiset_len(b);
        assert(b.len() == a.len());
        let x = a[0];
        let y = b[0];
        assert(a.to_multiset().count(x) > 0);
        assert(b.contains(x));
        let kb = choose|k: int| 0 <= k < b.len() && b[k] == x;
        assert(b.to_multiset().count(y) > 0);
        assert(a.contains(y));
        let ka = choose|k: int| 0 <= k < a.len() && a[k] == y;
        if kb > 0 {
            assert(!pair_lt(b[kb], b[0]));
        }
        if ka > 0 {
            assert(!pair_lt(a[ka], a[0]));
        }
        lemma_pair_order(x, y, x);
        assert(x == y);
        let a1 = a.drop_first();
        let b1 = b.drop_first();
        assert(a1 =~= a.remove(0));
        assert(b1 =~= b.remove(0));
        assert(a1.to_multiset() =~= b1.to_multiset());
        assert(pairs_sorted(a1)) by {
            assert forall|i: int, j: int| 0 <= i < j < a1.len() implies !pair_lt(
                #[trigger] a1[j],
                #[trigger] a1[i],
            ) by {
                assert(a1[i] == a[i + 1] && a1[j] == a[j + 1]);
            }
        }
        assert(pairs_sorted(b1)) by {
            assert forall|i: int, j: int| 0 <= i < j < b1.len() implies !pair_lt(
                #[trigger] b1[j],
                #[trigger] b1[i],
            ) by {
                assert(b1[i] == b[i + 1] && b1[j] == b[j + 1]);
            }
        }
        lemma_sorted_unique(a1, b1);
        assert(a =~= b) by {
            assert forall|i: int| 0 <= i < a.len() implies a[i] == b[i] by {
                if i > 0 {
                    assert(a[i] == a1[i - 1] && b[i] == b1[i - 1]);
                }
            }
        }
    }
}

/// A page's key does not depend on the order of its parameters, only on
/// which they are.
pub proof fn law_cache_key_ignores_parameter_order(
    k1: Seq<char>,
    k2: Seq<char>,
    route: Seq<char>,
    path: Seq<char>,
    v1: Seq<(Seq<char>, Seq<char>)>,
    v2: Seq<(Seq<char>, Seq<char>)>,
)
    requires
        is_cache_key(k1, route, path, v1),
        is_cache_key(k2, route, path, v2),
        v1.to_multiset() == v2.to_multiset(),
    ensures
        k1 == k2,
{
    let s1 = choose|s: Seq<(Seq<char>, Seq<char>)>|
        #[trigger] pairs_sorted(s) && s.to_multiset() == v1.to_multiset() && k1 == hex(
            sha256(key_input(route, path, s)),
        );
    let s2 = choose|s: Seq<(Seq<char>, Seq<char>)>|
        #[trigger] pairs_sorted(s) && s.to_multiset() == v2.to_multiset() && k2 == hex(
            sha256(key_input(route, path, s)),
        );
    lemma_sorted_unique(s1, s2);
}

// ---------------------------------------------------------------------------
// The in-memory layer
// ---------------------------------------------------------------------------

/// A cached render held in memory.
pub struct MemEntry {
    pub status: u16,
    pub headers: Vec<(String, String)>,
    pub body: Vec<u8>,
    /// When it was rendered, in Unix seconds.
    pub rendered_at: u64,
    pub revalidate_secs: u64,
    /// Its place in insertion order.
    pub seq: u64,
}

/// What an entry holds.
pub ghost struct EntryView {
    pub status: u16,
    pub headers: Seq<(Seq<char>, Seq<char>)>,
    pub body: Seq<u8>,
    pub rendered_at: u64,
    pub revalidate_secs: u64,
}

pub open spec fn entry_view(e: MemEntry) -> EntryView {
    EntryView {
        status: e.status,
        headers: pairs_view(e.headers@),
        body: e.body@,
        rendered_at: e.rendered_at,
        revalidate_secs: e.revalidate_secs,
    }
}

/// The bytes of bodies the entries hold.
pub open spec fn total(s: Seq<(Seq<char>, EntryView)>) -> nat
    decreases s.len(),
{
    if s.len() == 0 {
        0
    } else {
        s[0].1.body.len() + total(s.drop_first())
    }
}

/// The entries without the one under `k`.
pub open spec fn without_key(s: Seq<(Seq<char>, EntryView)>, k: Seq<char>) -> Seq<
    (Seq<char>, EntryView),
>
    decreases s.len(),
{
    if s.len() == 0 {
        s
    } else if s[0].0 == k {
        without_key(s.drop_first(), k)
    } else {
        seq![s[0]] + without_key(s.drop_first(), k)
    }
}

/// The entries after the oldest are dropped until their bodies fit the
/// budget.
pub open spec fn trim(s: Seq<(Seq<char>, EntryView)>, budget: nat) -> Seq<(Seq<char>, EntryView)>
    decreases s.len(),
{
    if s.len() > 0 && total(s) > budget {
        trim(s.drop_first(), budget)
    } else {
        s
    }
}

/// Putting an entry: a body larger than the whole budget is not held (it
/// would evict the working set, and is served from disk instead), and no
/// older render stays under its key; another replaces the entry under its
/// key as the newest, then the oldest go until the bodies fit.
pub open spec fn put_step(
    s: Seq<(Seq<char>, EntryView)>,
    k: Seq<char>,
    e: EntryView,
    budget: nat,
) -> Seq<(Seq<char>, EntryView)> {
    if e.body.len() > budget {
        without_key(s, k)
    } else {
        trim(without_key(s, k).push((k, e)), budget)
    }
}

/// The entry under `k`.
pub open spec fn lookup(s: Seq<(Seq<char>, EntryView)>, k: Seq<char>) -> Option<EntryView>
    decreases s.len(),
{
    if s.len() == 0 {
        None
    } else if s[0].0 == k {
        Some(s[0].1)
    } else {
        lookup(s.drop_first(), k)
    }
}

pub open spec fn distinct_keys(s: Seq<(Seq<char>, EntryView)>) -> bool {
    forall|i: int, j: int| 0 <= i < j < s.len() ==> (#[trigger] s[i]).0 != (#[trigger] s[j]).0
}

/// Renders held in memory in front of the disk, oldest first, their
/// bodies within a byte budget.
pub struct MemCache {
    entries: Vec<(String, MemEntry)>,
    bytes: usize,
    seq: u64,
    budget_bytes: usize,
}

impl View for MemCache {
    type V = Seq<(Seq<char>, EntryView)>;

    closed spec fn view(&self) -> Seq<(Seq<char>, EntryView)> {
        self.entries@.map_values(|e: (String, MemEntry)| (e.0@, entry_view(e.1)))
    }
}

proof fn lemma_total_push(s: Seq<(Seq<char>, EntryView)>, x: (Seq<char>, EntryView))
    ensures
        total(s.push(x)) == total(s) + x.1.body.len(),
    decreases s.len(),
{
    if s.len() > 0 {
        assert(s.push(x).drop_first() =~= s.drop_first().push(x));
        assert(s.push(x)[0] == s[0]);
        lemma_total_push(s.drop_first(), x);
    } else {
        assert(s.push(x).drop_first() =~= Seq::<(Seq<char>, EntryView)>::empty());
        assert(s.push(x)[0] == x);
        assert(total(Seq::<(Seq<char>, EntryView)>::empty()) == 0);
    }
}

proof fn lemma_total_remove(s: Seq<(Seq<char>, EntryView)>, i: int)
    requires
        0 <= i < s.len(),
    ensures
        total(s.remove(i)) + s[i].1.body.len() == total(s),
    decreases s.len(),
{
    if i > 0 {
        assert(s.remove(i).drop_first() =~= s.drop_first().remove(i - 1));
        lemma_total_remove(s.drop_first(), i - 1);
    } else {
        assert(s.remove(0) =~= s.drop_first());
    }
}

proof fn lemma_without_key(s: Seq<(Seq<char>, EntryView)>, k: Seq<char>, i: int)
    requires
        distinct_keys(s),
        0 <= i < s.len(),
        s[i].0 == k,
    ensures
        without_key(s, k) == s.remove(i),
        lookup(s, k) == Some(s[i].1),
    decreases s.len(),
{
    if i > 0 {
        let r = s.drop_first();
        assert(distinct_keys(r)) by {
            assert forall|a: int, b: int| 0 <= a < b < r.len() implies (#[trigger] r[a]).0 != (
            #[trigger] r[b]).0 by {
                assert(r[a] == s[a + 1] && r[b] == s[b + 1]);
            }
        }
        assert(s[0].0 != k) by {
            assert(s[0].0 != s[i].0);
        }
        lemma_without_key(r, k, i - 1);
        assert(s.remove(i) =~= seq![s[0]] + r.remove(i - 1));
    } else {
        let r = s.drop_first();
        lemma_no_key(r, k);
        assert(s.remove(0) =~= r);
    }
}

proof fn lemma_no_key(s: Seq<(Seq<char>, EntryView)>, k: Seq<char>)
    requires
        forall|j: int| 0 <= j < s.len() ==> (#[trigger] s[j]).0 != k,
    ensures
        without_key(s, k) == s,
        lookup(s, k) is None,
    decreases s.len(),
{
    if s.len() > 0 {
        let r = s.drop_first();
        assert forall|j: int| 0 <= j < r.len() implies (#[trigger] r[j]).0 != k by {
            assert(r[j] == s[j + 1]);
        }
        lemma_no_key(r, k);
        assert(seq![s[0]] + r =~= s);
    } else {
        assert(without_key(s, k) =~= s);
    }
}

proof fn lemma_distinct_remove(s: Seq<(Seq<char>, EntryView)>, i: int)
    requires
        distinct_keys(s),
        0 <= i < s.len(),
    ensures
        distinct_keys(s.remove(i)),
        forall|j: int| 0 <= j < s.remove(i).len() ==> (#[trigger] s.remove(i)[j]).0 != s[i].0,
{
    let r = s.remove(i);
    assert forall|a: int, b: int| 0 <= a < b < r.len() implies (#[trigger] r[a]).0 != (
    #[trigger] r[b]).0 by {
        let a1 = if a < i {
            a
        } else {
            a + 1
        };
        let b1 = if b < i {
            b
        } else {
            b + 1
        };
        assert(r[a] == s[a1] && r[b] == s[b1]);
    }
    assert forall|j: int| 0 <= j < r.len() implies (#[trigger] r[j]).0 != s[i].0 by {
        let j1 = if j < i {
            j
        } else {
            j + 1
        };
        assert(r[j] == s[j1]);
    }
}

fn copy_pairs(v: &[(String, String)]) -> (r: Vec<(String, String)>)
    ensures
        pairs_view(r@) == pairs_view(v@),
{
    let mut r: Vec<(String, String)> = Vec::new();
    let mut k: usize = 0;
    while k < v.len()
        invariant
            k <= v@.len(),
            r@.len() == k,
            pairs_view(r@) == pairs_view(v@.take(k as int)),
        decreases v@.len() - k,
    {
        let a = v[k].0.clone();
        let b = v[k].1.clone();
        let ghost before = r@;
        r.push((a, b));
        proof {
            assert(pair_view(r@[k as int]) == pair_view(v@[k as int]));
            assert(v@.take(k + 1) =~= v@.take(k as int).push(v@[k as int]));
            assert(r@ =~= before.push((a, b)));
            assert forall|i: int| 0 <= i < k + 1 implies pairs_view(r@)[i] == pairs_view(v@.take(k + 1))[i] by {
                if i < k {
                    assert(pairs_view(r@)[i] == pairs_view(before)[i]);
                    assert(pairs_view(v@.take(k + 1))[i] == pairs_view(v@.take(k as int))[i]);
                }
            }
            assert(pairs_view(r@) =~= pairs_view(v@.take(k + 1)));
        }
        k += 1;
    }
    proof {
        assert(v@.take(v@.len() as int) =~= v@);
    }
    r
}

impl MemCache {
    /// Each key once, and the bodies held within the budget.
    pub closed spec fn wf(&self) -> bool {
        &&& distinct_keys(self@)
        &&& self.bytes == total(self@)
        &&& self.bytes <= self.budget_bytes
    }

    pub closed spec fn budget(&self) -> nat {
        self.budget_bytes as nat
    }

    /// An empty layer with a budget of `budget_bytes`.
    pub fn new(budget_bytes: usize) -> (m: MemCache)
        ensures
            m.wf(),
            m@ == Seq::<(Seq<char>, EntryView)>::empty(),
            m.budget() == budget_bytes,
    {
        let m = MemCache { entries: Vec::new(), bytes: 0, seq: 0, budget_bytes };
        proof {
            assert(m@ =~= Seq::<(Seq<char>, EntryView)>::empty());
        }
        m
    }

    /// The bytes of bodies held.
    pub fn bytes(&self) -> (n: usize)
        requires
            self.wf(),
        ensures
            n == total(self@),
    {
        self.bytes
    }

    fn find(&self, key: &str) -> (r: Option<usize>)
        requires
            self.wf(),
        ensures
            match r {
                Some(i) => i < self@.len() && self@[i as int].0 == key@,
                None => forall|j: int| 0 <= j < self@.len() ==> (#[trigger] self@[j]).0 != key@,
            },
    {
        let mut k: usize = 0;
        while k < self.entries.len()
            invariant
                k <= self.entries@.len() == self@.len(),
                self@ == self.entries@.map_values(|e: (String, MemEntry)| (e.0@, entry_view(e.1))),
                forall|j: int| 0 <= j < k ==> (#[trigger] self@[j]).0 != key@,
            decreases self.entries@.len() - k,
        {
            if str_eq(self.entries[k].0.as_str(), key) {
                return Some(k);
            }
            k += 1;
        }
        None
    }

    /// The entry under `key`.
    pub fn get(&self, key: &str) -> (r: Option<&MemEntry>)
        requires
            self.wf(),
        ensures
            match r {
                Some(e) => lookup(self@, key@) == Some(entry_view(*e)),
                None => lookup(self@, key@) is None,
            },
    {
        match self.find(key) {
            Some(i) => {
                proof {
                    lemma_without_key(self@, key@, i as int);
                }
                Some(&self.entries[i].1)
            },
            None => {
                proof {
                    lemma_no_key(self@, key@);
                }
                None
            },
        }
    }

    /// Hold a render under `key`, as the newest entry.
    pub fn put(
        &mut self,
        key: &str,
        status: u16,
        headers: &[(String, String)],
        body: &[u8],
        rendered_at: u64,
        revalidate_secs: u64,
    )
        requires
            old(self).wf(),
        ensures
            final(self).wf(),
            final(self).budget() == old(self).budget(),
            final(self)@ == put_step(
                old(self)@,
                key@,
                EntryView {
                    status,
                    headers: pairs_view(headers@),
                    body: body@,
                    rendered_at,
                    revalidate_secs,
                },
                old(self).budget(),
            ),
    {
        let ghost ev = EntryView {
            status,
            headers: pairs_view(headers@),
            body: body@,
            rendered_at,
            revalidate_secs,
        };
        if body.len() > self.budget_bytes {
            let ghost start = self@;
            match self.find(key) {
                Some(i) => {
                    proof {
                        lemma_without_key(self@, key@, i as int);
                        lemma_total_remove(self@, i as int);
                        lemma_distinct_remove(self@, i as int);
                    }
                    let (_, old_entry) = self.entries.remove(i);
                    self.bytes = self.bytes - old_entry.body.len();
                    proof {
                        assert(self@ =~= start.remove(i as int));
                    }
                },
                None => {
                    proof {
                        lemma_no_key(self@, key@);
                    }
                },
            }
            return;
        }
        self.seq = if self.seq < u64::MAX {
            self.seq + 1
        } else {
            u64::MAX
        };
        let ghost start = self@;
        let mut total_bytes: u128 = self.bytes as u128;
        match self.find(key) {
            Some(i) => {
                proof {
                    lemma_without_key(self@, key@, i as int);
                    lemma_total_remove(self@, i as int);
                    lemma_distinct_remove(self@, i as int);
                }
                let (_, old_entry) = self.entries.remove(i);
                total_bytes = total_bytes - old_entry.body.len() as u128;
                proof {
                    assert(self@ =~= start.remove(i as int));
                }
            },
            None => {
                proof {
                    lemma_no_key(self@, key@);
                }
            },
        }
        let ghost mid = self@;
        assert(mid == without_key(start, key@));
        let entry = MemEntry {
            status,
            headers: copy_pairs(headers),
            body: vstd::slice::slice_to_vec(body),
            rendered_at,
            revalidate_secs,
            seq: self.seq,
        };
        let len = entry.body.len();
        self.entries.push((String::from_str(key), entry));
        total_bytes = total_bytes + len as u128;
        proof {
            assert(self@ =~= mid.push((key@, ev)));
            lemma_total_push(mid, (key@, ev));
            assert(distinct_keys(self@)) by {
                assert forall|a: int, b: int| 0 <= a < b < self@.len() implies (#[trigger] self@[a]).0
                    != (#[trigger] self@[b]).0 by {
                    if b == mid.len() {
                        assert(self@[a] == mid[a]);
                    } else {
                        assert(self@[a] == mid[a] && self@[b] == mid[b]);
                    }
                }
            }
        }
        let ghost pushed = self@;
        while total_bytes > self.budget_bytes as u128
            invariant
                total_bytes == total(self@),
                distinct_keys(self@),
                trim(pushed, self.budget_bytes as nat) == trim(self@, self.budget_bytes as nat),
                self@.len() > 0,
                self@.last() == (key@, ev),
                ev.body.len() <= self.budget_bytes,
                self@ == self.entries@.map_values(|e: (String, MemEntry)| (e.0@, entry_view(e.1))),
                self.budget_bytes == old(self).budget_bytes,
            decreases self@.len(),
        {
            let ghost before = self@;
            proof {
                if before.len() == 1 {
                    assert(before.drop_first() =~= Seq::<(Seq<char>, EntryView)>::empty());
                    assert(total(Seq::<(Seq<char>, EntryView)>::empty()) == 0);
                    assert(before[0] == before.last());
                    assert(total(before) == ev.body.len());
                }
            }
            let (_, victim) = self.entries.remove(0);
            total_bytes = total_bytes - victim.body.len() as u128;
            proof {
                assert(self@ =~= before.drop_first());
                assert(before.remove(0) =~= before.drop_first());
                lemma_distinct_remove(before, 0);
                assert(self@.last() == before.last());
            }
        }
        proof {
            assert(trim(self@, self.budget_bytes as nat) == self@);
            assert(start == old(self)@);
        }
        self.bytes = total_bytes as usize;
    }

    /// Drop every entry.
    pub fn clear(&mut self)
        ensures
            final(self).wf(),
            final(self).budget() == old(self).budget(),
            final(self)@ == Seq::<(Seq<char>, EntryView)>::empty(),
    {
        self.entries = Vec::new();
        self.bytes = 0;
        proof {
            assert(self@ =~= Seq::<(Seq<char>, EntryView)>::empty());
        }
    }
}

proof fn lemma_trim_suffix(s: Seq<(Seq<char>, EntryView)>, budget: nat)
    ensures
        exists|n: int| 0 <= n <= s.len() && #[trigger] s.skip(n) == trim(s, budget),
        s.len() > 0 && s.last().1.body.len() <= budget ==> trim(s, budget).len() > 0
            && trim(s, budget).last() == s.last(),
    decreases s.len(),
{
    if s.len() > 0 && total(s) > budget {
        let r = s.drop_first();
        lemma_trim_suffix(r, budget);
        let n = choose|n: int| 0 <= n <= r.len() && #[trigger] r.skip(n) == trim(r, budget);
        assert(s.skip(n + 1) =~= r.skip(n));
        if s.len() == 1 {
            assert(r =~= Seq::<(Seq<char>, EntryView)>::empty());
            assert(total(r) == 0);
            assert(s[0] == s.last());
        } else {
            assert(r.last() == s.last());
        }
    } else {
        assert(s.skip(0) =~= s);
    }
}

proof fn lemma_lookup_last(s: Seq<(Seq<char>, EntryView)>, k: Seq<char>, e: EntryView)
    requires
        s.len() > 0,
        s.last() == (k, e),
        forall|j: int| 0 <= j < s.len() - 1 ==> (#[trigger] s[j]).0 != k,
    ensures
        lookup(s, k) == Some(e),
    decreases s.len(),
{
    if s.len() > 1 {
        let r = s.drop_first();
        assert(s[0].0 != k);
        assert forall|j: int| 0 <= j < r.len() - 1 implies (#[trigger] r[j]).0 != k by {
            assert(r[j] == s[j + 1]);
        }
        lemma_lookup_last(r, k, e);
    } else {
        assert(s[0] == s.last());
    }
}

proof fn lemma_without_key_lacks(s: Seq<(Seq<char>, EntryView)>, k: Seq<char>)
    ensures
        forall|j: int| 0 <= j < without_key(s, k).len() ==> (#[trigger] without_key(s, k)[j]).0 != k,
    decreases s.len(),
{
    if s.len() > 0 {
        lemma_without_key_lacks(s.drop_first(), k);
        let w = without_key(s.drop_first(), k);
        if s[0].0 != k {
            assert forall|j: int| 0 <= j < without_key(s, k).len() implies (
            #[trigger] without_key(s, k)[j]).0 != k by {
                if j > 0 {
                    assert(without_key(s, k)[j] == w[j - 1]);
                }
            }
        }
    }
}

/// What was just put is read back, never an older render: a render whose
/// body fits the budget is held under its key right after the put, however
/// full the layer was; a larger one leaves nothing under its key, so the
/// read falls through to the disk, where the render was written.
pub proof fn law_a_put_render_is_read_back(
    s: Seq<(Seq<char>, EntryView)>,
    k: Seq<char>,
    e: EntryView,
    budget: nat,
)
    ensures
        lookup(put_step(s, k, e, budget), k) == (if e.body.len() <= budget {
            Some(e)
        } else {
            None
        }),
{
    if e.body.len() > budget {
        lemma_without_key_lacks(s, k);
        lemma_no_key(without_key(s, k), k);
    } else {
        let p = without_key(s, k).push((k, e));
        lemma_without_key_lacks(s, k);
        lemma_trim_suffix(p, budget);
        let t = trim(p, budget);
        let n = choose|n: int| 0 <= n <= p.len() && #[trigger] p.skip(n) == t;
        assert forall|j: int| 0 <= j < t.len() - 1 implies (#[trigger] t[j]).0 != k by {
            assert(t[j] == p[j + n]);
            assert(p[j + n] == without_key(s, k)[j + n]);
        }
        lemma_lookup_last(t, k, e);
    }
}

/// Eviction drops the oldest first: what a put keeps is a suffix of the
/// entries in insertion order, the new one last.
pub proof fn law_eviction_takes_the_oldest(
    s: Seq<(Seq<char>, EntryView)>,
    k: Seq<char>,
    e: EntryView,
    budget: nat,
)
    requires
        e.body.len() <= budget,
    ensures
        exists|n: int|
            0 <= n <= without_key(s, k).len() && #[trigger] without_key(s, k).push((k, e)).skip(n)
                == put_step(s, k, e, budget),
{
    let p = without_key(s, k).push((k, e));
    lemma_trim_suffix(p, budget);
    let n = choose|n: int| 0 <= n <= p.len() && #[trigger] p.skip(n) == trim(p, budget);
    if n == p.len() {
        assert(trim(p, budget).len() > 0);
        assert(p.skip(n).len() == 0);
    }
}

// ---------------------------------------------------------------------------
// Entries read back
// ---------------------------------------------------------------------------

/// A cached render read back.
pub struct CacheEntry {
    pub status: u16,
    pub headers: Vec<(String, String)>,
    pub body: Vec<u8>,
    /// True when within the revalidate window. A stale entry re-renders live.
    pub fresh: bool,
}

/// Seconds since the Unix epoch, or zero for a clock set before it.
pub fn now_secs() -> u64 {
    crate::clock::unix_time_ms() / 1000
}

/// A render is fresh while its age is under its revalidate window; a
/// render from the future has age zero.
pub open spec fn is_fresh(now: u64, rendered_at: u64, revalidate_secs: u64) -> bool {
    (if now >= rendered_at {
        now - rendered_at
    } else {
        0
    }) < revalidate_secs
}

pub fn fresh(now: u64, rendered_at: u64, revalidate_secs: u64) -> (b: bool)
    ensures
        b == is_fresh(now, rendered_at, revalidate_secs),
{
    let age = if now >= rendered_at {
        now - rendered_at
    } else {
        0
    };
    age < revalidate_secs
}

impl MemCache {
    /// The render under `key`, its freshness judged at `now`.
    pub fn lookup_at(&self, key: &str, now: u64) -> (r: Option<CacheEntry>)
        requires
            self.wf(),
        ensures
            match r {
                Some(c) => lookup(self@, key@) matches Some(e) && c.status == e.status
                    && pairs_view(c.headers@) == e.headers && c.body@ == e.body && c.fresh
                    == is_fresh(now, e.rendered_at, e.revalidate_secs),
                None => lookup(self@, key@) is None,
            },
    {
        match self.get(key) {
            Some(e) => Some(
                CacheEntry {
                    status: e.status,
                    headers: copy_pairs(e.headers.as_slice()),
                    body: vstd::slice::slice_to_vec(e.body.as_slice()),
                    fresh: fresh(now, e.rendered_at, e.revalidate_secs),
                },
            ),
            None => None,
        }
    }
}

// ---------------------------------------------------------------------------
// Settings
// ---------------------------------------------------------------------------

/// The deploy's namespace: `PYLON_ARTIFACT_ID` when set, else `dev`.
pub fn build_namespace(artifact_id: Option<&str>) -> (n: String)
    ensures
        n@ == (match artifact_id {
            Some(a) => if a@.len() > 0 {
                a@
            } else {
                "dev"@
            },
            None => "dev"@,
        }),
{
    match artifact_id {
        Some(a) => {
            let cs = chars_of(a);
            if cs.len() > 0 {
                String::from_str(a)
            } else {
                String::from_str("dev")
            }
        },
        None => String::from_str("dev"),
    }
}

/// A namespace directory of another deploy, to wipe at boot.
pub fn is_stale_namespace(name: &str, current: &str) -> (b: bool)
    ensures
        b == (name@ != current@),
{
    !str_eq(name, current)
}

/// A byte count from a setting: its trimmed value, or `default` when it is
/// unset or not a number that fits.
pub open spec fn count_setting(v: Option<Seq<char>>, default: u64, max: u64) -> u64 {
    match v {
        Some(s) => match parse_u64_spec(trimmed(s)) {
            Some(n) => if n <= max {
                n
            } else {
                default
            },
            None => default,
        },
        None => default,
    }
}

fn read_count(v: Option<&str>, default: u64, max: u64) -> (n: u64)
    ensures
        n == count_setting(
            match v {
                Some(s) => Some(s@),
                None => None,
            },
            default,
            max,
        ),
{
    match v {
        Some(s) => {
            let cs = chars_of(s);
            let t = trim_chars(cs.as_slice());
            match parse_u64(t.as_slice()) {
                Some(n) => if n <= max {
                    n
                } else {
                    default
                },
                None => default,
            }
        },
        None => default,
    }
}

/// The in-memory layer's budget from `PYLON_SSR_MEMCACHE_BYTES` (default
/// 32 MiB); zero turns the layer off.
pub fn mem_budget(v: Option<&str>) -> (r: Option<usize>)
    ensures
        ({
            let n = count_setting(
                match v {
                    Some(s) => Some(s@),
                    None => None,
                },
                33_554_432,
                usize::MAX as u64,
            );
            &&& r is Some <==> n != 0
            &&& r matches Some(b) ==> b == n
        }),
{
    let n = read_count(v, 33_554_432, usize::MAX as u64);
    if n == 0 {
        None
    } else {
        Some(n as usize)
    }
}

/// The disk bounds from `PYLON_SSR_DISK_CACHE_MAX_ENTRIES` (default 4096)
/// and `PYLON_SSR_DISK_CACHE_MAX_BYTES` (default 512 MiB); zero turns a
/// bound off.
pub fn disk_cache_limits(entries: Option<&str>, bytes: Option<&str>) -> (r: (usize, u64))
    ensures
        r.0 == count_setting(
            match entries {
                Some(s) => Some(s@),
                None => None,
            },
            4096,
            usize::MAX as u64,
        ),
        r.1 == count_setting(
            match bytes {
                Some(s) => Some(s@),
                None => None,
            },
            536_870_912,
            u64::MAX,
        ),
{
    let e = read_count(entries, 4096, usize::MAX as u64);
    let b = read_count(bytes, 536_870_912, u64::MAX);
    (e as usize, b)
}

// ---------------------------------------------------------------------------
// The disk sweep
// ---------------------------------------------------------------------------

/// Within both bounds (a bound of zero is off).
pub open spec fn within(count: int, total: int, max_entries: usize, max_bytes: u64) -> bool {
    (max_entries == 0 || count <= max_entries) && (max_bytes == 0 || total <= max_bytes)
}

/// The bytes of the entries.
pub open spec fn sum_bytes(s: Seq<(u64, u64)>) -> nat
    decreases s.len(),
{
    if s.len() == 0 {
        0
    } else {
        sum_bytes(s.drop_last()) + (s.last().1 as nat)
    }
}

/// How many of the oldest entries go, of sizes `sizes` oldest first, to
/// bring `count` entries of `total` bytes within the bounds.
pub open spec fn evict_count(sizes: Seq<u64>, count: int, total: int, max_entries: usize, max_bytes: u64) -> nat
    decreases sizes.len(),
{
    if within(count, total, max_entries, max_bytes) || sizes.len() == 0 {
        0
    } else {
        1 + evict_count(
            sizes.drop_first(),
            count - 1,
            if total >= sizes[0] {
                total - sizes[0]
            } else {
                0
            },
            max_entries,
            max_bytes,
        )
    }
}

/// `order` lists the entries' positions oldest first, the earlier listed
/// first among those of the same age.
pub open spec fn is_age_order(entries: Seq<(u64, u64)>, order: Seq<usize>) -> bool {
    &&& order.len() == entries.len()
    &&& forall|k: int| 0 <= k < order.len() ==> order[k] < entries.len()
    &&& forall|i: int, j: int|
        0 <= i < j < order.len() ==> entries[order[i] as int].0 < entries[order[j] as int].0 || (
        entries[order[i] as int].0 == entries[order[j] as int].0 && order[i] < order[j])
}

pub open spec fn sizes_in(entries: Seq<(u64, u64)>, order: Seq<usize>) -> Seq<u64> {
    order.map_values(|i: usize| entries[i as int].1)
}

proof fn lemma_sum_bytes_push(s: Seq<(u64, u64)>, k: int)
    requires
        0 <= k < s.len(),
    ensures
        sum_bytes(s.take(k + 1)) == sum_bytes(s.take(k)) + s[k].1,
{
    assert(s.take(k + 1).drop_last() =~= s.take(k));
}

/// The entries to evict, oldest first, of entries given as (age, bytes):
/// none when within both bounds, else the oldest until within them.
pub fn sweep_victims(entries: &[(u64, u64)], max_entries: usize, max_bytes: u64) -> (r: Vec<usize>)
    requires
        sum_bytes(entries@) <= u64::MAX,
    ensures
        exists|order: Seq<usize>|
            #[trigger] is_age_order(entries@, order) && r@ == order.take(
                evict_count(
                    sizes_in(entries@, order),
                    entries@.len() as int,
                    sum_bytes(entries@) as int,
                    max_entries,
                    max_bytes,
                ) as int,
            ),
{
    let n = entries.len();
    let mut total: u64 = 0;
    let mut k: usize = 0;
    while k < n
        invariant
            k <= n == entries@.len(),
            total == sum_bytes(entries@.take(k as int)),
            sum_bytes(entries@) <= u64::MAX,
        decreases n - k,
    {
        proof {
            lemma_sum_bytes_push(entries@, k as int);
            lemma_sum_bytes_prefix(entries@, k + 1);
        }
        total = total + entries[k].1;
        k += 1;
    }
    proof {
        assert(entries@.take(n as int) =~= entries@);
    }
    let mut order: Vec<usize> = Vec::new();
    let mut t: usize = 0;
    while t < n
        invariant
            t <= n == entries@.len(),
            order@.len() == t,
            forall|q: int| 0 <= q < order@.len() ==> order@[q] < t,
            forall|i: int, j: int|
                0 <= i < j < order@.len() ==> entries@[order@[i] as int].0 < entries@[order@[j] as int].0
                    || (entries@[order@[i] as int].0 == entries@[order@[j] as int].0 && order@[i]
                    < order@[j]),
        decreases n - t,
    {
        let mut p: usize = 0;
        while p < order.len() && entries[order[p]].0 <= entries[t].0
            invariant
                p <= order@.len(),
                t < n == entries@.len(),
                forall|q: int| 0 <= q < order@.len() ==> order@[q] < t,
                forall|q: int| 0 <= q < p ==> entries@[order@[q] as int].0 <= entries@[t as int].0,
            decreases order@.len() - p,
        {
            p += 1;
        }
        let ghost before = order@;
        order.insert(p, t);
        proof {
            assert(order@ =~= before.insert(p as int, t));
            assert forall|i: int, j: int|
                0 <= i < j < order@.len() implies entries@[order@[i] as int].0 < entries@[order@[j] as int].0
                || (entries@[order@[i] as int].0 == entries@[order@[j] as int].0 && order@[i]
                < order@[j]) by {
                if j < p {
                    assert(order@[i] == before[i] && order@[j] == before[j]);
                } else if j == p {
                    assert(order@[i] == before[i]);
                } else if i == p {
                    assert(order@[j] == before[j - 1]);
                    assert(entries@[before[p as int] as int].0 > entries@[t as int].0);
                    if j - 1 > p {
                        assert(entries@[before[p as int] as int].0 <= entries@[before[j - 1] as int].0);
                    }
                } else if i < p {
                    assert(order@[i] == before[i] && order@[j] == before[j - 1]);
                } else {
                    assert(order@[i] == before[i - 1] && order@[j] == before[j - 1]);
                }
            }
        }
        t += 1;
    }
    let ghost sizes = sizes_in(entries@, order@);
    let mut victims: Vec<usize> = Vec::new();
    let mut count: usize = n;
    let mut left: u64 = total;
    let mut v: usize = 0;
    proof {
        assert(is_age_order(entries@, order@));
        assert(sizes.skip(0) =~= sizes);
    }
    while v < n
        invariant
            v <= n == order@.len() == sizes.len(),
            sizes == sizes_in(entries@, order@),
            forall|q: int| 0 <= q < order@.len() ==> order@[q] < n,
            victims@ == order@.take(v as int),
            n == entries@.len(),
            count == n - v,
            evict_count(sizes, n as int, sum_bytes(entries@) as int, max_entries, max_bytes) == v
                + evict_count(sizes.skip(v as int), count as int, left as int, max_entries, max_bytes),
        ensures
            victims@ == order@.take(v as int),
            evict_count(sizes, n as int, sum_bytes(entries@) as int, max_entries, max_bytes) == v,
        decreases n - v,
    {
        if (max_entries == 0 || count <= max_entries) && (max_bytes == 0 || left <= max_bytes) {
            proof {
                assert(within(count as int, left as int, max_entries, max_bytes));
            }
            break;
        }
        let i = order[v];
        let b = entries[i].1;
        proof {
            assert(sizes.skip(v as int)[0] == b);
            assert(sizes.skip(v as int).drop_first() =~= sizes.skip(v + 1));
        }
        victims.push(i);
        count = count - 1;
        left = if left >= b {
            left - b
        } else {
            0
        };
        proof {
            assert(victims@ =~= order@.take(v + 1));
        }
        v += 1;
        proof {
            if v == n {
                assert(sizes.skip(v as int).len() == 0);
            }
        }
    }
    proof {
        assert(is_age_order(entries@, order@));
    }
    victims
}

proof fn lemma_sum_bytes_prefix(s: Seq<(u64, u64)>, k: int)
    requires
        0 <= k <= s.len(),
    ensures
        sum_bytes(s.take(k)) <= sum_bytes(s),
    decreases s.len() - k,
{
    if k < s.len() {
        lemma_sum_bytes_prefix(s, k + 1);
        lemma_sum_bytes_push(s, k);
    } else {
        assert(s.take(k) =~= s);
    }
}

/// Writes that went by since the last sweep before one runs again.
pub const DISK_SWEEP_INTERVAL: u64 = 64;

/// Whether write number `n` (from zero) sweeps the disk: one write in
/// [`DISK_SWEEP_INTERVAL`], the first included, unless both bounds are off.
pub fn should_sweep(n: u64, max_entries: usize, max_bytes: u64) -> (b: bool)
    ensures
        b == (n % DISK_SWEEP_INTERVAL == 0 && !(max_entries == 0 && max_bytes == 0)),
{
    n % DISK_SWEEP_INTERVAL == 0 && !(max_entries == 0 && max_bytes == 0)
}

// ---------------------------------------------------------------------------
// Single-flight writes
// ---------------------------------------------------------------------------

/// The keys a render is being written under.
pub struct WriteClaims {
    keys: Vec<String>,
}

/// The slot to write one key, held until released.
pub struct WriteClaim {
    key: String,
}

impl WriteClaim {
    pub closed spec fn key(&self) -> Seq<char> {
        self.key@
    }
}

impl View for WriteClaims {
    type V = Set<Seq<char>>;

    closed spec fn view(&self) -> Set<Seq<char>> {
        Set::new(|k: Seq<char>| exists|i: int| 0 <= i < self.keys@.len() && self.keys@[i]@ == k)
    }
}

impl WriteClaims {
    pub fn new() -> (c: WriteClaims)
        ensures
            c@ == Set::<Seq<char>>::empty(),
    {
        let c = WriteClaims { keys: Vec::new() };
        proof {
            assert(c@ =~= Set::<Seq<char>>::empty());
        }
        c
    }

    fn position(&self, key: &str) -> (r: Option<usize>)
        ensures
            match r {
                Some(i) => i < self.keys@.len() && self.keys@[i as int]@ == key@,
                None => !self@.contains(key@),
            },
    {
        let mut k: usize = 0;
        while k < self.keys.len()
            invariant
                k <= self.keys@.len(),
                forall|j: int| 0 <= j < k ==> (#[trigger] self.keys@[j])@ != key@,
            decreases self.keys@.len() - k,
        {
            if str_eq(self.keys[k].as_str(), key) {
                return Some(k);
            }
            k += 1;
        }
        None
    }

    /// Claim the slot to write `key`: the first claim wins, and the key is
    /// claimed until released.
    pub fn try_claim(&mut self, key: &str) -> (r: Option<WriteClaim>)
        ensures
            r is Some <==> !old(self)@.contains(key@),
            r matches Some(c) ==> c.key() == key@ && final(self)@ == old(self)@.insert(key@),
            r is None ==> final(self)@ == old(self)@,
    {
        match self.position(key) {
            Some(i) => {
                proof {
                    assert(self@.contains(key@));
                }
                None
            },
            None => {
                let ghost before = self.keys@;
                self.keys.push(String::from_str(key));
                proof {
                    assert forall|k: Seq<char>| self@.contains(k) <==> old(self)@.insert(key@).contains(k) by {
                        if self@.contains(k) {
                            let i = choose|i: int| 0 <= i < self.keys@.len() && self.keys@[i]@ == k;
                            if i < before.len() {
                                assert(self.keys@[i] == before[i]);
                            }
                        }
                        if old(self)@.contains(k) {
                            let i = choose|i: int| 0 <= i < before.len() && before[i]@ == k;
                            assert(self.keys@[i] == before[i]);
                        }
                        if k == key@ {
                            assert(self.keys@[before.len() as int]@ == key@);
                        }
                    }
                    assert(self@ =~= old(self)@.insert(key@));
                }
                Some(WriteClaim { key: String::from_str(key) })
            },
        }
    }

    /// Give the slot back.
    pub fn release(&mut self, claim: WriteClaim)
        ensures
            final(self)@ == old(self)@.remove(claim.key()),
    {
        loop
            invariant
                self@ == old(self)@.remove(claim.key()) || self@ == old(self)@,
                self@.remove(claim.key()) == old(self)@.remove(claim.key()),
            ensures
                self@ == old(self)@.remove(claim.key()),
            decreases self.keys@.len(),
        {
            match self.position(claim.key.as_str()) {
                Some(i) => {
                    let ghost before = self.keys@;
                    let ghost sv = self@;
                    self.keys.remove(i);
                    proof {
                        assert forall|k: Seq<char>| self@.contains(k) implies sv.contains(k) by {
                            {
                                let j = choose|j: int| 0 <= j < self.keys@.len() && self.keys@[j]@ == k;
                                if j < i {
                                    assert(self.keys@[j] == before[j]);
                                } else {
                                    assert(self.keys@[j] == before[j + 1]);
                                }
                            }
                        }
                        assert forall|k: Seq<char>| sv.contains(k) && k != claim.key() implies self@.contains(k) by {
                            {
                                let j = choose|j: int| 0 <= j < before.len() && before[j]@ == k;
                                assert(j != i);
                                if j < i {
                                    assert(self.keys@[j] == before[j]);
                                } else {
                                    assert(self.keys@[j - 1] == before[j]);
                                }
                            }
                        }
                        assert(self@.remove(claim.key()) =~= sv.remove(claim.key()));
                    }
                },
                None => {
                    proof {
                        assert(self@ =~= self@.remove(claim.key()));
                    }
                    break;
                },
            }
        }
    }
}

/// Claim the slot to write the page of `route_path`, `pathname` and its
/// parameters. None when another writer holds it.
pub fn try_claim_write(
    claims: &mut WriteClaims,
    route_path: &str,
    pathname: &str,
    vary: &[(String, String)],
) -> (r: Option<WriteClaim>)
    ensures
        exists|key: Seq<char>|
            #[trigger] is_cache_key(key, route_path@, pathname@, pairs_view(vary@)) && (r is Some
                <==> !old(claims)@.contains(key)) && (r matches Some(c) ==> c.key() == key
                && final(claims)@ == old(claims)@.insert(key)) && (r is None ==> final(claims)@
                == old(claims)@),
{
    let key = cache_key(route_path, pathname, vary);
    claims.try_claim(key.as_str())
}

/// The page's path is hashed: its UTF-8 bytes stand in the hashed input
/// right after the route and its zero byte, so two pages of one route with
/// the same parameters but different paths hash different inputs.
pub proof fn law_key_hashes_the_path(
    route: Seq<char>,
    p1: Seq<char>,
    p2: Seq<char>,
    params: Seq<(Seq<char>, Seq<char>)>,
)
    ensures
        key_input(route, p1, params).subrange(
            encode_utf8(route).len() + 1int,
            encode_utf8(route).len() + 1int + encode_utf8(p1).len(),
        ) == encode_utf8(p1),
        p1 != p2 ==> key_input(route, p1, params) != key_input(route, p2, params),
{
    let a = encode_utf8(route) + seq![0u8];
    let e1 = encode_utf8(p1);
    let e2 = encode_utf8(p2);
    let b = params_bytes(params);
    assert(key_input(route, p1, params) =~= a + e1 + b);
    assert(key_input(route, p2, params) =~= a + e2 + b);
    assert((a + e1 + b).subrange(a.len() as int, a.len() + e1.len() as int) =~= e1);
    if key_input(route, p1, params) == key_input(route, p2, params) {
        let s = a + e1 + b;
        assert(s.len() == (a + e2 + b).len());
        assert(e1.len() == e2.len());
        assert((a + e2 + b).subrange(a.len() as int, a.len() + e2.len() as int) =~= e2);
        assert(e1 == e2);
        vstd::utf8::encode_utf8_decode_utf8(p1);
        vstd::utf8::encode_utf8_decode_utf8(p2);
    }
}

/// The bytes of sizes, first to last.
pub open spec fn sum_front(s: Seq<u64>) -> nat
    decreases s.len(),
{
    if s.len() == 0 {
        0
    } else {
        s[0] as nat + sum_front(s.drop_first())
    }
}

/// The disk sweep evicts just enough: of entries of sizes `sizes`, oldest
/// first, the oldest go until at most `max_entries` entries of at most
/// `max_bytes` bytes are left (a bound of zero is off), or none is; and
/// evicting fewer would leave a bound broken.
pub proof fn law_sweep_evicts_just_enough(sizes: Seq<u64>, max_entries: usize, max_bytes: u64)
    ensures
        ({
            let n = evict_count(
                sizes,
                sizes.len() as int,
                sum_front(sizes) as int,
                max_entries,
                max_bytes,
            ) as int;
            &&& n <= sizes.len()
            &&& n == sizes.len() || ((max_entries == 0 || sizes.len() - n <= max_entries) && (
            max_bytes == 0 || sum_front(sizes) - sum_front(sizes.take(n)) <= max_bytes))
            &&& forall|m: int|
                0 <= m < n ==> !((max_entries == 0 || sizes.len() - m <= max_entries) && (max_bytes
                    == 0 || sum_front(sizes) - sum_front(#[trigger] sizes.take(m)) <= max_bytes))
        }),
    decreases sizes.len(),
{
    let count = sizes.len() as int;
    let total = sum_front(sizes) as int;
    assert(sizes.take(0) =~= Seq::<u64>::empty());
    assert(sum_front(sizes.take(0)) == 0);
    if within(count, total, max_entries, max_bytes) || sizes.len() == 0 {
        assert(evict_count(sizes, count, total, max_entries, max_bytes) == 0);
    } else {
        let rest = sizes.drop_first();
        law_sweep_evicts_just_enough(rest, max_entries, max_bytes);
        assert(total >= sizes[0]);
        assert(total - sizes[0] == sum_front(rest));
        let n1 = evict_count(rest, rest.len() as int, sum_front(rest) as int, max_entries, max_bytes)
            as int;
        assert(evict_count(sizes, count, total, max_entries, max_bytes) == 1 + n1);
        assert forall|m: int| 0 <= m < rest.len() + 1 implies sum_front(#[trigger] sizes.take(m))
            == if m == 0 {
            0
        } else {
            sizes[0] + sum_front(rest.take(m - 1))
        } by {
            if m > 0 {
                assert(sizes.take(m).drop_first() =~= rest.take(m - 1));
            }
        }
        assert forall|m: int| 0 <= m < n1 + 1 implies !((max_entries == 0 || sizes.len() - m
            <= max_entries) && (max_bytes == 0 || sum_front(sizes) - sum_front(
            #[trigger] sizes.take(m),
        ) <= max_bytes)) by {
            if m > 0 {
                assert(sum_front(sizes.take(m)) == sizes[0] + sum_front(rest.take(m - 1)));
            }
        }
        if n1 < rest.len() {
            assert(sum_front(sizes.take(n1 + 1)) == sizes[0] + sum_front(rest.take(n1)));
        }
    }
}

/// A render is fresh from when it was rendered until its revalidate
/// window has passed (a render from the future counts as just rendered),
/// and never with a window of zero.
pub proof fn law_fresh_within_its_window(now: u64, rendered_at: u64, revalidate_secs: u64)
    ensures
        revalidate_secs == 0 ==> !is_fresh(now, rendered_at, revalidate_secs),
        rendered_at <= now < rendered_at + revalidate_secs ==> is_fresh(
            now,
            rendered_at,
            revalidate_secs,
        ),
        now >= rendered_at + revalidate_secs ==> !is_fresh(now, rendered_at, revalidate_secs),
        now < rendered_at ==> (is_fresh(now, rendered_at, revalidate_secs) <==> revalidate_secs > 0),
{
}

/// The parameters a page varies on are hashed after its path, each as a
/// zero byte, its name, `=` and its value, in order: so two keys of one
/// page differ when their hashed parameters do.
pub proof fn law_key_hashes_the_parameters(
    route: Seq<char>,
    path: Seq<char>,
    params: Seq<(Seq<char>, Seq<char>)>,
    name: Seq<char>,
    value: Seq<char>,
)
    ensures
        ({
            let head = encode_utf8(route).len() + 1 + encode_utf8(path).len();
            key_input(route, path, params).skip(head as int) == params_bytes(params)
        }),
        params_bytes(params.push((name, value))) == params_bytes(params) + seq![0u8] + encode_utf8(
            name,
        ) + seq![61u8] + encode_utf8(value),
        params_bytes(Seq::empty()) == Seq::<u8>::empty(),
{
    let a = encode_utf8(route) + seq![0u8] + encode_utf8(path);
    assert(key_input(route, path, params) =~= a + params_bytes(params));
    assert((a + params_bytes(params)).skip(a.len() as int) =~= params_bytes(params));
    assert(params.push((name, value)).drop_last() =~= params);
}

} // verus!
