//! Shards across machines: which machine a new shard goes to, where an
//! orphaned shard moves, this machine's settings, and the signatures
//! machines put on the calls they make to each other.

use vstd::prelude::*;

use crate::text::opt_view;

pub mod db;

use std::collections::VecDeque;
use vstd::utf8::encode_utf8;

use crate::clock::unix_time_ms;
use crate::digest::{
    hex, hex_string, hmac_sha256, hmac_sha256_tag, random_byte, random_i64, sha256, sha256_digest,
};
use crate::text::{
    append_bytes,
    chars_of, decimal, decimal_string, lemma_signed_decimal_chars, lemma_signed_decimal_parses,
    parse_i64, parse_i64_spec, signed_decimal,
    signed_decimal_string, lex_less, lex_lt, lemma_lex_asymmetric,
    lemma_lex_irreflexive, lemma_lex_total, lemma_lex_transitive, parse_u64, parse_unsigned,
    push_char, push_str, str_eq, string_from_chars, trim_chars, trimmed,
};

verus! {

// ---------------------------------------------------------------------------
// This machine's settings
// ---------------------------------------------------------------------------

/// This machine, as the directory knows it.
pub struct MachineConfig {
    /// `PYLON_REPLICA_ID`, `FLY_MACHINE_ID`, or `FLY_ALLOC_ID`; else the
    /// host name and process id, so a restart is a new machine.
    pub id: String,
    /// Base URL other machines reach this one at, without a trailing slash.
    pub address: Option<String>,
    /// Shards this machine takes before placement prefers others.
    pub capacity: u32,
    /// `FLY_MACHINE_ID`: the instance `fly-replay` names.
    pub fly_instance: Option<String>,
}

/// The value of `key` in an environment listing: the first pair that
/// names it.
pub open spec fn env_get(vars: Seq<(String, String)>, key: Seq<char>) -> Option<Seq<char>>
    decreases vars.len(),
{
    if vars.len() == 0 {
        None
    } else if vars[0].0@ == key {
        Some(vars[0].1@)
    } else {
        env_get(vars.drop_first(), key)
    }
}

/// A setting as the machine reads it: trimmed, and absent when blank.
pub open spec fn env_clean(vars: Seq<(String, String)>, key: Seq<char>) -> Option<Seq<char>> {
    match env_get(vars, key) {
        Some(v) => if trimmed(v).len() > 0 {
            Some(trimmed(v))
        } else {
            None
        },
        None => None,
    }
}

/// `s` without its trailing slashes.
pub open spec fn without_trailing_slashes(s: Seq<char>) -> Seq<char>
    decreases s.len(),
{
    if s.len() > 0 && s.last() == '/' {
        without_trailing_slashes(s.drop_last())
    } else {
        s
    }
}

pub open spec fn config_id(vars: Seq<(String, String)>, pid: u32) -> Seq<char> {
    if env_clean(vars, "PYLON_REPLICA_ID"@) is Some {
        env_clean(vars, "PYLON_REPLICA_ID"@)->0
    } else if env_clean(vars, "FLY_MACHINE_ID"@) is Some {
        env_clean(vars, "FLY_MACHINE_ID"@)->0
    } else if env_clean(vars, "FLY_ALLOC_ID"@) is Some {
        env_clean(vars, "FLY_ALLOC_ID"@)->0
    } else {
        let host = match env_clean(vars, "HOSTNAME"@) {
            Some(h) => h,
            None => "local"@,
        };
        host + ":"@ + decimal(pid as nat)
    }
}

pub open spec fn config_address(vars: Seq<(String, String)>, port: u16) -> Option<Seq<char>> {
    match env_clean(vars, "PYLON_SHARD_ADVERTISE_URL"@) {
        Some(u) => Some(without_trailing_slashes(u)),
        None => match env_clean(vars, "FLY_PRIVATE_IP"@) {
            Some(ip) => Some("http://["@ + ip + "]:"@ + decimal(port as nat)),
            None => None,
        },
    }
}

pub open spec fn config_capacity(vars: Seq<(String, String)>) -> u32 {
    match env_clean(vars, "PYLON_SHARD_CAPACITY"@) {
        Some(v) => match parse_unsigned(v) {
            Some(n) => if 0 < n <= u32::MAX {
                n as u32
            } else {
                100
            },
            None => 100,
        },
        None => 100,
    }
}


/// The value of `key` in `vars`.
fn lookup(vars: &[(String, String)], key: &str) -> (r: Option<String>)
    ensures
        opt_view(r) == env_get(vars@, key@),
{
    let mut k: usize = 0;
    proof {
        assert(vars@.skip(0) =~= vars@);
    }
    while k < vars.len()
        invariant
            k <= vars@.len(),
            env_get(vars@, key@) == env_get(vars@.skip(k as int), key@),
        decreases vars@.len() - k,
    {
        proof {
            assert(vars@.skip(k as int).drop_first() =~= vars@.skip(k + 1));
            assert(vars@.skip(k as int)[0] == vars@[k as int]);
        }
        if str_eq(vars[k].0.as_str(), key) {
            return Some(vars[k].1.clone());
        }
        k += 1;
    }
    None
}

/// The setting `key` in `vars`, trimmed, or None when absent or blank.
fn clean(vars: &[(String, String)], key: &str) -> (r: Option<String>)
    ensures
        opt_view(r) == env_clean(vars@, key@),
{
    match lookup(vars, key) {
        Some(v) => {
            let cs = chars_of(v.as_str());
            let t = trim_chars(cs.as_slice());
            if t.len() > 0 {
                Some(string_from_chars(t.as_slice()))
            } else {
                None
            }
        },
        None => None,
    }
}

pub(crate) fn strip_trailing_slashes(s: &str) -> (r: String)
    ensures
        r@ == without_trailing_slashes(s@),
{
    let cs = chars_of(s);
    let mut n = cs.len();
    proof {
        assert(cs@.take(n as int) =~= cs@);
    }
    while n > 0 && cs[n - 1] == '/'
        invariant
            n <= cs@.len(),
            without_trailing_slashes(s@) == without_trailing_slashes(cs@.take(n as int)),
        decreases n,
    {
        proof {
            assert(cs@.take(n as int).drop_last() =~= cs@.take(n - 1));
        }
        n -= 1;
    }
    let mut r = String::new();
    let mut k: usize = 0;
    while k < n
        invariant
            k <= n <= cs@.len(),
            r@ == cs@.take(k as int),
        decreases n - k,
    {
        push_char(&mut r, cs[k]);
        proof {
            assert(r@ =~= cs@.take(k + 1));
        }
        k += 1;
    }
    r
}

impl MachineConfig {
    /// The config from an environment listing, for a server on `port` in
    /// process `pid`.
    pub fn from_lookup(vars: &[(String, String)], port: u16, pid: u32) -> (c: MachineConfig)
        ensures
            c.id@ == config_id(vars@, pid),
            opt_view(c.address) == config_address(vars@, port),
            c.capacity == config_capacity(vars@),
            opt_view(c.fly_instance) == env_clean(vars@, "FLY_MACHINE_ID"@),
    {
        let id = match clean(vars, "PYLON_REPLICA_ID") {
            Some(v) => v,
            None => match clean(vars, "FLY_MACHINE_ID") {
                Some(v) => v,
                None => match clean(vars, "FLY_ALLOC_ID") {
                    Some(v) => v,
                    None => {
                        let mut s = match clean(vars, "HOSTNAME") {
                            Some(h) => h,
                            None => String::from_str("local"),
                        };
                        push_str(&mut s, ":");
                        let d = decimal_string(pid as u64);
                        push_str(&mut s, d.as_str());
                        s
                    },
                },
            },
        };
        let address = match clean(vars, "PYLON_SHARD_ADVERTISE_URL") {
            Some(u) => Some(strip_trailing_slashes(u.as_str())),
            None => match clean(vars, "FLY_PRIVATE_IP") {
                Some(ip) => {
                    let mut s = String::from_str("http://[");
                    push_str(&mut s, ip.as_str());
                    push_str(&mut s, "]:");
                    let d = decimal_string(port as u64);
                    push_str(&mut s, d.as_str());
                    Some(s)
                },
                None => None,
            },
        };
        let capacity: u32 = match clean(vars, "PYLON_SHARD_CAPACITY") {
            Some(v) => {
                let cs = chars_of(v.as_str());
                match parse_u64(cs.as_slice()) {
                    Some(n) => if 0 < n && n <= u32::MAX as u64 {
                        n as u32
                    } else {
                        100
                    },
                    None => 100,
                }
            },
            None => 100,
        };
        let fly_instance = clean(vars, "FLY_MACHINE_ID");
        MachineConfig { id, address, capacity, fly_instance }
    }
}

// ---------------------------------------------------------------------------
// Placement
// ---------------------------------------------------------------------------

/// A live machine.
pub struct Machine {
    pub id: String,
    pub address: Option<String>,
    pub fly_instance: Option<String>,
    pub capacity: u32,
    /// Shards placed on it.
    pub load: u32,
    /// Its current lease epoch.
    pub epoch: i64,
}

impl Machine {
    /// Room left: capacity less load, negative when over capacity.
    pub open spec fn free_spec(&self) -> int {
        self.capacity - self.load
    }

    pub fn free(&self) -> (f: i64)
        ensures
            f == self.free_spec(),
    {
        self.capacity as i64 - self.load as i64
    }
}

/// `a` is a better place for a new shard than `b`: more free capacity, or
/// as much and a lower id.
pub open spec fn placed_before(a: Machine, b: Machine) -> bool {
    a.free_spec() > b.free_spec() || (a.free_spec() == b.free_spec() && lex_lt(a.id@, b.id@))
}

/// Machine `i` is where a new shard goes: none is better, and it is the
/// last of those as good.
pub open spec fn is_choice(ms: Seq<Machine>, i: int) -> bool {
    &&& 0 <= i < ms.len()
    &&& forall|j: int| 0 <= j < ms.len() ==> !placed_before(#[trigger] ms[j], ms[i])
    &&& forall|j: int| i < j < ms.len() ==> placed_before(ms[i], #[trigger] ms[j])
}

proof fn lemma_placed_before_order(a: Machine, b: Machine, c: Machine)
    ensures
        !placed_before(a, a),
        placed_before(a, b) ==> !placed_before(b, a),
        !placed_before(a, b) && !placed_before(b, c) ==> !placed_before(a, c),
        !placed_before(a, b) && a.id@ != b.id@ ==> placed_before(b, a),
{
    lemma_lex_irreflexive(a.id@);
    lemma_lex_asymmetric(a.id@, b.id@);
    lemma_lex_total(a.id@, b.id@);
    lemma_lex_total(b.id@, c.id@);
    lemma_lex_total(a.id@, c.id@);
    if lex_lt(c.id@, b.id@) && lex_lt(b.id@, a.id@) {
        lemma_lex_transitive(c.id@, b.id@, a.id@);
    }
    if lex_lt(c.id@, a.id@) && lex_lt(a.id@, b.id@) {
        lemma_lex_transitive(c.id@, a.id@, b.id@);
    }
    if lex_lt(b.id@, c.id@) && lex_lt(c.id@, a.id@) {
        lemma_lex_transitive(b.id@, c.id@, a.id@);
    }
    if lex_lt(a.id@, c.id@) && lex_lt(c.id@, b.id@) {
        lemma_lex_transitive(a.id@, c.id@, b.id@);
    }
}

fn is_placed_before(a: &Machine, b: &Machine) -> (r: bool)
    ensures
        r == placed_before(*a, *b),
{
    let fa = a.free();
    let fb = b.free();
    if fa != fb {
        fa > fb
    } else {
        let ia = chars_of(a.id.as_str());
        let ib = chars_of(b.id.as_str());
        lex_less(ia.as_slice(), ib.as_slice())
    }
}

/// At most one machine is where a new shard goes.
pub proof fn lemma_choice_unique(ms: Seq<Machine>, i: int, k: int)
    requires
        is_choice(ms, i),
        is_choice(ms, k),
    ensures
        i == k,
{
    if i < k {
        assert(placed_before(ms[i], ms[k]));
        assert(!placed_before(ms[i], ms[k]));
    } else if k < i {
        assert(placed_before(ms[k], ms[i]));
        assert(!placed_before(ms[k], ms[i]));
    }
}

/// The machine a new shard should go to: the most free capacity, then the
/// lowest id. None when there is no machine.
pub fn choose_machine(machines: &[Machine]) -> (r: Option<&Machine>)
    ensures
        r is Some <==> machines@.len() > 0,
        r matches Some(m) ==> exists|i: int| is_choice(machines@, i) && *m == machines@[i],
{
    if machines.len() == 0 {
        return None;
    }
    let mut best: usize = 0;
    let mut j: usize = 1;
    proof {
        lemma_placed_before_order(machines@[0], machines@[0], machines@[0]);
    }
    while j < machines.len()
        invariant
            best < j <= machines@.len(),
            forall|k: int| 0 <= k < j ==> !placed_before(#[trigger] machines@[k], machines@[best as int]),
            forall|k: int| best < k < j ==> placed_before(machines@[best as int], #[trigger] machines@[k]),
        decreases machines@.len() - j,
    {
        if !is_placed_before(&machines[best], &machines[j]) {
            proof {
                assert forall|k: int| 0 <= k < j + 1 implies !placed_before(#[trigger] machines@[k], machines@[j as int]) by {
                    lemma_placed_before_order(machines@[k], machines@[best as int], machines@[j as int]);
                    lemma_placed_before_order(machines@[j as int], machines@[j as int], machines@[j as int]);
                }
            }
            best = j;
        } else {
            proof {
                lemma_placed_before_order(machines@[best as int], machines@[j as int], machines@[j as int]);
            }
        }
        j += 1;
    }
    proof {
        assert(is_choice(machines@, best as int));
    }
    Some(&machines[best])
}

/// A big-endian unsigned number.
pub open spec fn be_value(s: Seq<u8>) -> nat
    decreases s.len(),
{
    if s.len() == 0 {
        0
    } else {
        be_value(s.drop_last()) * 256 + (s.last() as nat)
    }
}

pub open spec fn pow256(k: nat) -> nat
    decreases k,
{
    if k == 0 {
        1
    } else {
        pow256((k - 1) as nat) * 256
    }
}

/// What a machine's rendezvous score hashes: the shard id, a zero byte,
/// and the machine id, in UTF-8.
pub open spec fn home_input(shard: Seq<char>, id: Seq<char>) -> Seq<u8> {
    encode_utf8(shard) + seq![0u8] + encode_utf8(id)
}

/// A machine's rendezvous score for a shard: the first eight bytes of the
/// SHA-256 digest, big-endian.
pub open spec fn home_score(shard: Seq<char>, id: Seq<char>) -> nat {
    be_value(sha256(home_input(shard, id)).take(8))
}

/// `a` wins shard `shard` over `b`: a higher score, or the same score and
/// a higher id.
pub open spec fn home_before(shard: Seq<char>, a: Machine, b: Machine) -> bool {
    home_score(shard, a.id@) > home_score(shard, b.id@) || (home_score(shard, a.id@)
        == home_score(shard, b.id@) && lex_lt(b.id@, a.id@))
}

pub open spec fn has_room(m: Machine) -> bool {
    m.free_spec() > 0
}

pub open spec fn any_room(ms: Seq<Machine>) -> bool {
    exists|k: int| 0 <= k < ms.len() && #[trigger] has_room(ms[k])
}

/// Machine `j` is a candidate home: it has room, or no machine has.
pub open spec fn in_pool(ms: Seq<Machine>, j: int) -> bool {
    !any_room(ms) || has_room(ms[j])
}

/// Machine `i` is the new home of `shard`: a candidate that no candidate
/// beats, and the last of those it does not beat.
pub open spec fn is_home(shard: Seq<char>, ms: Seq<Machine>, i: int) -> bool {
    &&& 0 <= i < ms.len()
    &&& in_pool(ms, i)
    &&& forall|j: int|
        0 <= j < ms.len() && in_pool(ms, j) ==> !home_before(shard, #[trigger] ms[j], ms[i])
    &&& forall|j: int|
        i < j < ms.len() && in_pool(ms, j) ==> home_before(shard, ms[i], #[trigger] ms[j])
}

proof fn lemma_home_before_order(shard: Seq<char>, a: Machine, b: Machine, c: Machine)
    ensures
        !home_before(shard, a, a),
        home_before(shard, a, b) ==> !home_before(shard, b, a),
        !home_before(shard, a, b) && !home_before(shard, b, c) ==> !home_before(shard, a, c),
{
    lemma_lex_irreflexive(a.id@);
    lemma_lex_asymmetric(a.id@, b.id@);
    lemma_lex_total(a.id@, b.id@);
    lemma_lex_total(b.id@, c.id@);
    lemma_lex_total(a.id@, c.id@);
    if lex_lt(a.id@, b.id@) && lex_lt(b.id@, c.id@) {
        lemma_lex_transitive(a.id@, b.id@, c.id@);
    }
    if lex_lt(a.id@, c.id@) && lex_lt(c.id@, b.id@) {
        lemma_lex_transitive(a.id@, c.id@, b.id@);
    }
    if lex_lt(b.id@, a.id@) && lex_lt(a.id@, c.id@) {
        lemma_lex_transitive(b.id@, a.id@, c.id@);
    }
    if lex_lt(c.id@, a.id@) && lex_lt(a.id@, b.id@) {
        lemma_lex_transitive(c.id@, a.id@, b.id@);
    }
}

proof fn lemma_be_value_bound(s: Seq<u8>)
    ensures
        be_value(s) < pow256(s.len()),
    decreases s.len(),
{
    if s.len() > 0 {
        lemma_be_value_bound(s.drop_last());
        let p = pow256((s.len() - 1) as nat);
        let v = be_value(s.drop_last());
        assert(v * 256 + s.last() < p * 256) by (nonlinear_arith)
            requires
                v < p,
                s.last() < 256,
        ;
    }
}

/// The rendezvous score of machine `id` for `shard`.
fn score(shard: &str, id: &str) -> (v: u64)
    ensures
        v == home_score(shard@, id@),
{
    let mut input: Vec<u8> = Vec::new();
    append_bytes(&mut input, shard.as_bytes());
    input.push(0u8);
    append_bytes(&mut input, id.as_bytes());
    proof {
        assert(input@ =~= home_input(shard@, id@));
    }
    let d = sha256_digest(input.as_slice());
    let mut v: u64 = 0;
    let mut k: usize = 0;
    proof {
        assert(d@.take(0) =~= Seq::<u8>::empty());
        reveal_with_fuel(pow256, 9);
        assert(pow256(8) == 0x1_0000_0000_0000_0000);
    }
    while k < 8
        invariant
            k <= 8,
            d@.len() == 32,
            v == be_value(d@.take(k as int)),
            pow256(8) == 0x1_0000_0000_0000_0000,
        decreases 8 - k,
    {
        proof {
            lemma_be_value_bound(d@.take(k as int));
            let p = pow256(k as nat);
            assert(pow256((k + 1) as nat) == p * 256);
            assert(pow256(k as nat) <= pow256(7)) by {
                lemma_pow256_mono(k as nat, 7);
            }
            reveal_with_fuel(pow256, 8);
            assert(v * 256 + 255 < 0x1_0000_0000_0000_0000) by (nonlinear_arith)
                requires
                    v < p,
                    p <= 0x100_0000_0000_0000,
            ;
            assert(d@.take(k + 1).drop_last() =~= d@.take(k as int));
        }
        v = v * 256 + d[k] as u64;
        k += 1;
    }
    v
}

proof fn lemma_pow256_mono(a: nat, b: nat)
    requires
        a <= b,
    ensures
        pow256(a) <= pow256(b),
    decreases b,
{
    if a < b {
        lemma_pow256_mono(a, (b - 1) as nat);
    }
}

fn beats(shard: &str, a: &Machine, score_a: u64, b: &Machine, score_b: u64) -> (r: bool)
    requires
        score_a == home_score(shard@, a.id@),
        score_b == home_score(shard@, b.id@),
    ensures
        r == home_before(shard@, *a, *b),
{
    if score_a != score_b {
        score_a > score_b
    } else {
        let ia = chars_of(a.id.as_str());
        let ib = chars_of(b.id.as_str());
        lex_less(ib.as_slice(), ia.as_slice())
    }
}

/// At most one machine is the new home of a shard.
pub proof fn lemma_home_unique(shard: Seq<char>, ms: Seq<Machine>, i: int, k: int)
    requires
        is_home(shard, ms, i),
        is_home(shard, ms, k),
    ensures
        i == k,
{
    if i < k {
        assert(home_before(shard, ms[i], ms[k]));
        assert(!home_before(shard, ms[i], ms[k]));
    } else if k < i {
        assert(home_before(shard, ms[k], ms[i]));
        assert(!home_before(shard, ms[k], ms[i]));
    }
}

/// The new home of an orphaned shard: rendezvous hashing over the machines
/// with free capacity (all of them when none has). None when there is no
/// machine.
pub fn home<'a>(shard_id: &str, machines: &'a [Machine]) -> (r: Option<&'a Machine>)
    ensures
        r is Some <==> machines@.len() > 0,
        r matches Some(m) ==> exists|i: int| is_home(shard_id@, machines@, i) && *m == machines@[i],
{
    let n = machines.len();
    let mut room = false;
    let mut k: usize = 0;
    while k < n
        invariant
            k <= n == machines@.len(),
            room <==> exists|j: int| 0 <= j < k && #[trigger] has_room(machines@[j]),
        decreases n - k,
    {
        if machines[k].free() > 0 {
            proof {
                assert(has_room(machines@[k as int]));
            }
            room = true;
        }
        k += 1;
    }
    assert(room == any_room(machines@));
    let mut best: Option<usize> = None;
    let mut best_score: u64 = 0;
    let mut j: usize = 0;
    while j < n
        invariant
            j <= n == machines@.len(),
            room == any_room(machines@),
            best matches Some(b) ==> {
                &&& b < j
                &&& in_pool(machines@, b as int)
                &&& best_score == home_score(shard_id@, machines@[b as int].id@)
                &&& forall|q: int|
                    0 <= q < j && in_pool(machines@, q) ==> !home_before(
                        shard_id@,
                        #[trigger] machines@[q],
                        machines@[b as int],
                    )
                &&& forall|q: int|
                    b < q < j && in_pool(machines@, q) ==> home_before(
                        shard_id@,
                        machines@[b as int],
                        #[trigger] machines@[q],
                    )
            },
            best is None ==> forall|q: int| 0 <= q < j ==> !in_pool(machines@, q),
        decreases n - j,
    {
        let candidate = !room || machines[j].free() > 0;
        if candidate {
            let sj = score(shard_id, machines[j].id.as_str());
            match best {
                None => {
                    proof {
                        lemma_home_before_order(shard_id@, machines@[j as int], machines@[j as int], machines@[j as int]);
                    }
                    best = Some(j);
                    best_score = sj;
                },
                Some(b) => {
                    if !beats(shard_id, &machines[b], best_score, &machines[j], sj) {
                        proof {
                            assert forall|q: int|
                                0 <= q < j + 1 && in_pool(machines@, q) implies !home_before(
                                shard_id@,
                                #[trigger] machines@[q],
                                machines@[j as int],
                            ) by {
                                lemma_home_before_order(shard_id@, machines@[q], machines@[b as int], machines@[j as int]);
                                lemma_home_before_order(shard_id@, machines@[j as int], machines@[j as int], machines@[j as int]);
                            }
                        }
                        best = Some(j);
                        best_score = sj;
                    } else {
                        proof {
                            lemma_home_before_order(shard_id@, machines@[b as int], machines@[j as int], machines@[j as int]);
                        }
                    }
                },
            }
        }
        j += 1;
    }
    match best {
        Some(b) => {
            proof {
                assert(is_home(shard_id@, machines@, b as int));
            }
            Some(&machines[b])
        },
        None => {
            proof {
                if n > 0 {
                    if room {
                        let w = choose|w: int| 0 <= w < n && #[trigger] has_room(machines@[w]);
                        assert(in_pool(machines@, w));
                    } else {
                        assert(in_pool(machines@, 0));
                    }
                }
            }
            None
        },
    }
}

/// Every id of `a` is the id of a machine of `b`.
pub open spec fn ids_in(a: Seq<Machine>, b: Seq<Machine>) -> bool {
    forall|k: int|
        0 <= k < a.len() ==> exists|l: int| 0 <= l < b.len() && (#[trigger] b[l]).id@ == (#[trigger] a[k]).id@
}

/// Every id of a machine of `a` with room is the id of a machine of `b`
/// with room.
pub open spec fn room_ids_in(a: Seq<Machine>, b: Seq<Machine>) -> bool {
    forall|k: int|
        0 <= k < a.len() && has_room(#[trigger] a[k]) ==> exists|l: int|
            0 <= l < b.len() && (#[trigger] b[l]).id@ == a[k].id@ && has_room(b[l])
}

/// Machine `j` of `b` is a candidate there; then a machine of `a` with its
/// id is a candidate in `a`.
proof fn lemma_pool_id(a: Seq<Machine>, b: Seq<Machine>, j: int) -> (l: int)
    requires
        ids_in(b, a),
        room_ids_in(b, a),
        room_ids_in(a, b),
        0 <= j < b.len(),
        in_pool(b, j),
    ensures
        0 <= l < a.len(),
        a[l].id@ == b[j].id@,
        in_pool(a, l),
{
    if any_room(a) {
        let w = choose|w: int| 0 <= w < a.len() && #[trigger] has_room(a[w]);
        assert(has_room(a[w]));
        let v = choose|l: int| 0 <= l < b.len() && (#[trigger] b[l]).id@ == a[w].id@ && has_room(b[l]);
        assert(has_room(b[v]));
        assert(any_room(b));
        assert(has_room(b[j]));
        choose|l: int| 0 <= l < a.len() && (#[trigger] a[l]).id@ == b[j].id@ && has_room(a[l])
    } else {
        assert(b[j] == b[j]);
        choose|l: int| 0 <= l < a.len() && (#[trigger] a[l]).id@ == b[j].id@
    }
}

/// Machines that list the live set differently agree on a shard's new
/// home: when their lists hold the same machine ids, in any order and with
/// any repeats and loads, and the same ids among those with room, their
/// homes have the same id.
pub proof fn law_home_ignores_order(shard: Seq<char>, a: Seq<Machine>, b: Seq<Machine>, i: int, j: int)
    requires
        ids_in(a, b),
        ids_in(b, a),
        room_ids_in(a, b),
        room_ids_in(b, a),
        is_home(shard, a, i),
        is_home(shard, b, j),
    ensures
        a[i].id@ == b[j].id@,
{
    let x = a[i];
    let y = b[j];
    let ya = lemma_pool_id(a, b, j);
    assert(!home_before(shard, a[ya], x));
    let xb = lemma_pool_id(b, a, i);
    assert(!home_before(shard, b[xb], y));
    assert(!home_before(shard, y, x));
    assert(!home_before(shard, x, y));
    lemma_lex_total(x.id@, y.id@);
}

/// Every machine computes the same new home for a shard from the same
/// live set, whatever load each read: the home depends on the machines'
/// ids and on which of them have room, and on nothing else.
pub proof fn law_home_depends_only_on_ids_and_room(
    shard: Seq<char>,
    a: Seq<Machine>,
    b: Seq<Machine>,
    i: int,
)
    requires
        a.len() == b.len(),
        forall|k: int| 0 <= k < a.len() ==> (#[trigger] a[k]).id@ == b[k].id@,
        forall|k: int| 0 <= k < a.len() ==> has_room(#[trigger] a[k]) == has_room(b[k]),
    ensures
        is_home(shard, a, i) <==> is_home(shard, b, i),
{
    assert(any_room(a) ==> any_room(b)) by {
        if any_room(a) {
            let w = choose|w: int| 0 <= w < a.len() && #[trigger] has_room(a[w]);
            assert(has_room(b[w]));
        }
    }
    assert(any_room(b) ==> any_room(a)) by {
        if any_room(b) {
            let w = choose|w: int| 0 <= w < b.len() && #[trigger] has_room(b[w]);
            assert(has_room(a[w]));
        }
    }
    assert forall|j: int, k: int| 0 <= j < a.len() && 0 <= k < a.len() implies home_before(
        shard,
        a[j],
        a[k],
    ) == home_before(shard, b[j], b[k]) by {
        assert(a[j].id@ == b[j].id@);
        assert(a[k].id@ == b[k].id@);
    }
    assert forall|j: int| 0 <= j < a.len() implies in_pool(a, j) == in_pool(b, j) by {
        assert(has_room(a[j]) == has_room(b[j]));
    }
    if is_home(shard, a, i) {
        assert forall|j: int| 0 <= j < b.len() && in_pool(b, j) implies !home_before(
            shard,
            #[trigger] b[j],
            b[i],
        ) by {
            assert(in_pool(a, j));
            assert(!home_before(shard, a[j], a[i]));
        }
        assert forall|j: int| i < j < b.len() && in_pool(b, j) implies home_before(
            shard,
            b[i],
            #[trigger] b[j],
        ) by {
            assert(in_pool(a, j));
            assert(home_before(shard, a[i], a[j]));
        }
    }
    if is_home(shard, b, i) {
        assert forall|j: int| 0 <= j < a.len() && in_pool(a, j) implies !home_before(
            shard,
            #[trigger] a[j],
            a[i],
        ) by {
            assert(in_pool(b, j));
            assert(!home_before(shard, b[j], b[i]));
        }
        assert forall|j: int| i < j < a.len() && in_pool(a, j) implies home_before(
            shard,
            a[i],
            #[trigger] a[j],
        ) by {
            assert(in_pool(b, j));
            assert(home_before(shard, b[i], b[j]));
        }
    }
}

// ---------------------------------------------------------------------------
// Signed machine-to-machine calls
// ---------------------------------------------------------------------------

/// Signed calls further than this from now, either way, are refused.
pub const CALL_WINDOW_MS: i64 = 30_000;

/// The index of the first `.` in `s`, or its length when it has none.
pub open spec fn first_dot(s: Seq<char>) -> int
    decreases s.len(),
{
    if s.len() == 0 {
        0
    } else if s[0] == '.' {
        0
    } else {
        1 + first_dot(s.drop_first())
    }
}

/// A signature header's three parts, as `splitn(3, '.')` cuts them: the
/// time, the nonce, and the MAC (which may hold dots).
pub open spec fn header_parts(h: Seq<char>) -> Option<(Seq<char>, Seq<char>, Seq<char>)> {
    let i = first_dot(h);
    if i >= h.len() {
        None
    } else {
        let rest = h.skip(i + 1);
        let j = first_dot(rest);
        if j >= rest.len() {
            None
        } else {
            Some((h.take(i), rest.take(j), rest.skip(j + 1)))
        }
    }
}

/// What a call's MAC covers: the time as written, the nonce, the receiving
/// machine and the payload, a newline between each.
pub open spec fn call_message(
    at: Seq<char>,
    nonce: Seq<char>,
    to: Seq<char>,
    payload: Seq<u8>,
) -> Seq<u8> {
    encode_utf8(at) + seq![10u8] + encode_utf8(nonce) + seq![10u8] + encode_utf8(to) + seq![10u8]
        + payload
}

/// The MAC of a call, in lowercase hexadecimal.
pub open spec fn call_mac(
    key: Seq<u8>,
    at: Seq<char>,
    nonce: Seq<char>,
    to: Seq<char>,
    payload: Seq<u8>,
) -> Seq<char> {
    hex(hmac_sha256(key, call_message(at, nonce, to, payload)))
}

/// The signature of `payload` for machine `to`: `<ms>.<nonce>.<mac>`.
pub open spec fn signature_text(
    key: Seq<u8>,
    at: i64,
    nonce: Seq<char>,
    to: Seq<char>,
    payload: Seq<u8>,
) -> Seq<char> {
    signed_decimal(at as int) + seq!['.'] + nonce + seq!['.'] + call_mac(
        key,
        signed_decimal(at as int),
        nonce,
        to,
        payload,
    )
}

/// Why a signed call is refused.
pub ghost enum CallRefusal {
    Malformed,
    Expired,
    BadSignature,
    Replayed,
    NoKey,
}

/// The text each refusal is reported with.
pub open spec fn refusal_text(r: CallRefusal) -> Seq<char> {
    match r {
        CallRefusal::Malformed => "malformed signature"@,
        CallRefusal::Expired => "signature expired"@,
        CallRefusal::BadSignature => "bad signature"@,
        CallRefusal::Replayed => "signature already used"@,
        CallRefusal::NoKey => "this machine is not in the shard directory"@,
    }
}

pub open spec fn reported(o: Result<(), CallRefusal>) -> Result<(), Seq<char>> {
    match o {
        Ok(()) => Ok(()),
        Err(r) => Err(refusal_text(r)),
    }
}

pub open spec fn as_reported(r: Result<(), &'static str>) -> Result<(), Seq<char>> {
    match r {
        Ok(()) => Ok(()),
        Err(e) => Err(e@),
    }
}

pub open spec fn abs_diff(a: int, b: int) -> int {
    if a >= b {
        a - b
    } else {
        b - a
    }
}

/// What checking a signature addressed to machine `me` finds at time
/// `now`: its form (the time in its one spelling, a nonce), its age, then
/// its MAC.
pub open spec fn check_signature(
    key: Seq<u8>,
    me: Seq<char>,
    header: Seq<char>,
    payload: Seq<u8>,
    now: i64,
) -> Result<(), CallRefusal> {
    match header_parts(header) {
        None => Err(CallRefusal::Malformed),
        Some((at, nonce, sig)) => match parse_i64_spec(at) {
            None => Err(CallRefusal::Malformed),
            Some(t) => if signed_decimal(t as int) != at || nonce.len() == 0 {
                Err(CallRefusal::Malformed)
            } else if abs_diff(now as int, t as int) > CALL_WINDOW_MS {
                Err(CallRefusal::Expired)
            } else if call_mac(key, at, nonce, me, payload) == sig {
                Ok(())
            } else {
                Err(CallRefusal::BadSignature)
            },
        },
    }
}

/// The message a MAC covers, built.
fn call_message_bytes(at: &str, nonce: &str, to: &str, payload: &[u8]) -> (m: Vec<u8>)
    ensures
        m@ == call_message(at@, nonce@, to@, payload@),
{
    let mut m: Vec<u8> = Vec::new();
    append_bytes(&mut m, at.as_bytes());
    m.push(10u8);
    append_bytes(&mut m, nonce.as_bytes());
    m.push(10u8);
    append_bytes(&mut m, to.as_bytes());
    m.push(10u8);
    append_bytes(&mut m, payload);
    proof {
        assert(m@ =~= call_message(at@, nonce@, to@, payload@));
    }
    m
}

/// The MAC of a call, as text.
fn call_mac_text(key: &[u8], at: &str, nonce: &str, to: &str, payload: &[u8]) -> (s: String)
    ensures
        s@ == call_mac(key@, at@, nonce@, to@, payload@),
{
    let m = call_message_bytes(at, nonce, to, payload);
    let tag = hmac_sha256_tag(key, m.as_slice());
    hex_string(tag.as_slice())
}

/// The signature of `payload` for machine `to`, made at `at` with `nonce`.
pub fn sign_with(key: &[u8], at: i64, nonce: &str, to: &str, payload: &[u8]) -> (s: String)
    ensures
        s@ == signature_text(key@, at, nonce@, to@, payload@),
{
    let at_s = signed_decimal_string(at);
    let sig = call_mac_text(key, at_s.as_str(), nonce, to, payload);
    let mut s = at_s.clone();
    push_char(&mut s, '.');
    push_str(&mut s, nonce);
    push_char(&mut s, '.');
    push_str(&mut s, sig.as_str());
    proof {
        assert(s@ =~= signature_text(key@, at, nonce@, to@, payload@));
    }
    s
}

/// The index of the first `.` at or after `from`, or the length.
fn find_dot(v: &[char], from: usize) -> (r: usize)
    requires
        from <= v@.len(),
    ensures
        r == from + first_dot(v@.skip(from as int)),
        r <= v@.len(),
{
    let mut k = from;
    proof {
        lemma_first_dot_bound(v@.skip(from as int));
    }
    while k < v.len() && v[k] != '.'
        invariant
            from <= k <= v@.len(),
            from + first_dot(v@.skip(from as int)) == k + first_dot(v@.skip(k as int)),
        decreases v@.len() - k,
    {
        proof {
            assert(v@.skip(k as int).drop_first() =~= v@.skip(k + 1));
            assert(v@.skip(k as int)[0] == v@[k as int]);
        }
        k += 1;
    }
    proof {
        if k < v@.len() {
            assert(v@.skip(k as int)[0] == v@[k as int]);
        } else {
            assert(v@.skip(k as int).len() == 0);
        }
    }
    k
}

proof fn lemma_first_dot_bound(s: Seq<char>)
    ensures
        0 <= first_dot(s) <= s.len(),
        first_dot(s) < s.len() ==> s[first_dot(s)] == '.',
        forall|k: int| 0 <= k < first_dot(s) ==> s[k] != '.',
    decreases s.len(),
{
    if s.len() > 0 && s[0] != '.' {
        let r = s.drop_first();
        lemma_first_dot_bound(r);
        assert forall|k: int| 0 <= k < first_dot(s) implies s[k] != '.' by {
            if k > 0 {
                assert(s[k] == r[k - 1]);
            }
        }
    }
}

/// `v[from..to]`.
fn slice_chars(v: &[char], from: usize, to: usize) -> (r: Vec<char>)
    requires
        from <= to <= v@.len(),
    ensures
        r@ == v@.subrange(from as int, to as int),
{
    let mut r: Vec<char> = Vec::new();
    let mut k = from;
    while k < to
        invariant
            from <= k <= to <= v@.len(),
            r@ == v@.subrange(from as int, k as int),
        decreases to - k,
    {
        r.push(v[k]);
        proof {
            assert(r@ =~= v@.subrange(from as int, k + 1));
        }
        k += 1;
    }
    r
}

/// Whether `a` and `b` hold the same characters, reading every character
/// of both when their lengths agree.
fn same_text(a: &[char], b: &[char]) -> (r: bool)
    ensures
        r == (a@ == b@),
{
    if a.len() != b.len() {
        return false;
    }
    let mut differ = false;
    let mut k: usize = 0;
    while k < a.len()
        invariant
            k <= a@.len() == b@.len(),
            differ == !(a@.take(k as int) =~= b@.take(k as int)),
        decreases a@.len() - k,
    {
        let d = a[k] != b[k];
        proof {
            if !d {
                if a@.take(k as int) =~= b@.take(k as int) {
                    assert(a@.take(k + 1) =~= b@.take(k + 1));
                } else {
                    assert(!(a@.take(k + 1) =~= b@.take(k + 1))) by {
                        let j = choose|j: int|
                            0 <= j < k && a@.take(k as int)[j] != b@.take(k as int)[j];
                        assert(a@.take(k + 1)[j] != b@.take(k + 1)[j]);
                    }
                }
            } else {
                assert(a@.take(k + 1)[k as int] != b@.take(k + 1)[k as int]);
            }
        }
        differ = if d { true } else { differ };
        k += 1;
    }
    proof {
        assert(a@.take(a@.len() as int) =~= a@);
        assert(b@.take(b@.len() as int) =~= b@);
    }
    !differ
}

/// The parts of a header, cut at its first two dots.
fn split_header(hc: &[char]) -> (r: Option<(Vec<char>, Vec<char>, Vec<char>)>)
    ensures
        match r {
            None => header_parts(hc@) is None,
            Some((a, n, m)) => header_parts(hc@) == Some((a@, n@, m@)),
        },
{
    let i = find_dot(hc, 0);
    proof {
        assert(hc@.skip(0) =~= hc@);
    }
    if i >= hc.len() {
        return None;
    }
    let j = find_dot(hc, i + 1);
    let ghost rest = hc@.skip(i + 1);
    proof {
        lemma_first_dot_bound(rest);
    }
    if j >= hc.len() {
        return None;
    }
    let at = slice_chars(hc, 0, i);
    let nonce = slice_chars(hc, i + 1, j);
    let mac = slice_chars(hc, j + 1, hc.len());
    proof {
        assert(at@ =~= hc@.take(i as int));
        assert(nonce@ =~= rest.take(j - i - 1));
        assert(mac@ =~= rest.skip(j - i));
    }
    Some((at, nonce, mac))
}

/// Check a signature addressed to machine `me` at time `now`: its form,
/// its age, and its MAC under `key`.
pub fn verify_with(key: &[u8], me: &str, header: &str, payload: &[u8], now: i64) -> (r: Result<
    (),
    &'static str,
>)
    ensures
        as_reported(r) == reported(check_signature(key@, me@, header@, payload@, now)),
{
    let hc = chars_of(header);
    let (at, nonce, sig) = match split_header(hc.as_slice()) {
        Some(p) => p,
        None => {
            return Err("malformed signature");
        },
    };
    let t = match parse_i64(at.as_slice()) {
        Some(t) => t,
        None => {
            return Err("malformed signature");
        },
    };
    let canonical = signed_decimal_string(t);
    let cc = chars_of(canonical.as_str());
    if !same_text(cc.as_slice(), at.as_slice()) || nonce.len() == 0 {
        return Err("malformed signature");
    }
    let gap: i128 = now as i128 - t as i128;
    if gap > CALL_WINDOW_MS as i128 || gap < -(CALL_WINDOW_MS as i128) {
        return Err("signature expired");
    }
    let nonce_s = string_from_chars(nonce.as_slice());
    let want = call_mac_text(key, canonical.as_str(), nonce_s.as_str(), me, payload);
    let wc = chars_of(want.as_str());
    if same_text(wc.as_slice(), sig.as_slice()) {
        Ok(())
    } else {
        Err("bad signature")
    }
}

proof fn lemma_first_dot_after(p: Seq<char>, q: Seq<char>)
    requires
        forall|k: int| 0 <= k < p.len() ==> p[k] != '.',
    ensures
        first_dot(p + seq!['.'] + q) == p.len(),
    decreases p.len(),
{
    let s = p + seq!['.'] + q;
    if p.len() > 0 {
        let r = p.drop_first();
        assert(s.drop_first() =~= r + seq!['.'] + q);
        lemma_first_dot_after(r, q);
    }
}

/// A signature reads back as what it was made of: its time (written in
/// decimal, and read back as the same time), its nonce, and its MAC.
pub proof fn lemma_signature_reads_back(
    key: Seq<u8>,
    at: i64,
    nonce: Seq<char>,
    to: Seq<char>,
    payload: Seq<u8>,
)
    requires
        nonce.len() > 0,
        forall|k: int| 0 <= k < nonce.len() ==> nonce[k] != '.',
    ensures
        header_parts(signature_text(key, at, nonce, to, payload)) == Some(
            (signed_decimal(at as int), nonce, call_mac(key, signed_decimal(at as int), nonce, to, payload)),
        ),
        parse_i64_spec(signed_decimal(at as int)) == Some(at),
{
    let a = signed_decimal(at as int);
    let m = call_mac(key, a, nonce, to, payload);
    let h = signature_text(key, at, nonce, to, payload);
    lemma_signed_decimal_chars(at as int);
    assert forall|k: int| 0 <= k < a.len() implies a[k] != '.' by {
        assert(crate::text::is_digit(a[k]) || a[k] == '-');
    }
    assert(h =~= a + seq!['.'] + (nonce + seq!['.'] + m));
    lemma_first_dot_after(a, nonce + seq!['.'] + m);
    let rest = h.skip(a.len() as int + 1);
    assert(rest =~= nonce + seq!['.'] + m);
    lemma_first_dot_after(nonce, m);
    assert(h.take(a.len() as int) =~= a);
    assert(rest.take(nonce.len() as int) =~= nonce);
    assert(rest.skip(nonce.len() as int + 1) =~= m);
    lemma_signed_decimal_parses(at);
}

/// A machine accepts the signature it was sent, unless the signature is
/// out of date: one made at `at` with a nonce that holds no dot is
/// accepted within [`CALL_WINDOW_MS`] of `at`, either way, and refused as
/// expired beyond it.
pub proof fn law_a_fresh_signature_is_accepted(
    key: Seq<u8>,
    at: i64,
    nonce: Seq<char>,
    to: Seq<char>,
    payload: Seq<u8>,
    now: i64,
)
    requires
        nonce.len() > 0,
        forall|k: int| 0 <= k < nonce.len() ==> nonce[k] != '.',
    ensures
        check_signature(key, to, signature_text(key, at, nonce, to, payload), payload, now) == (
        if abs_diff(now as int, at as int) > CALL_WINDOW_MS {
            Err(CallRefusal::Expired)
        } else {
            Ok(())
        }),
{
    let a = signed_decimal(at as int);
    let m = call_mac(key, a, nonce, to, payload);
    let h = signature_text(key, at, nonce, to, payload);
    lemma_signed_decimal_chars(at as int);
    assert forall|k: int| 0 <= k < a.len() implies a[k] != '.' by {
        assert(crate::text::is_digit(a[k]) || a[k] == '-');
    }
    assert(h =~= a + seq!['.'] + (nonce + seq!['.'] + m));
    lemma_first_dot_after(a, nonce + seq!['.'] + m);
    let rest = h.skip(a.len() as int + 1);
    assert(rest =~= nonce + seq!['.'] + m);
    lemma_first_dot_after(nonce, m);
    assert(h.take(a.len() as int) =~= a);
    assert(rest.take(nonce.len() as int) =~= nonce);
    assert(rest.skip(nonce.len() as int + 1) =~= m);
    lemma_signed_decimal_parses(at);
}

// ---------------------------------------------------------------------------
// Nonces seen
// ---------------------------------------------------------------------------

/// A nonce is kept this long after the signature that carried it was
/// accepted: twice the window in which that signature is valid.
pub open spec fn nonce_expired(at: int, now: int) -> bool {
    now - at > 2 * CALL_WINDOW_MS
}

/// The nonces kept at `now`: those of `s`, oldest first, less the expired
/// ones at the front.
pub open spec fn expire(s: Seq<(i64, Seq<char>)>, now: int) -> Seq<(i64, Seq<char>)>
    decreases s.len(),
{
    if s.len() > 0 && nonce_expired(s[0].0 as int, now) {
        expire(s.drop_first(), now)
    } else {
        s
    }
}

pub open spec fn holds_nonce(s: Seq<(i64, Seq<char>)>, n: Seq<char>) -> bool {
    exists|k: int| 0 <= k < s.len() && (#[trigger] s[k]).1 == n
}

/// Keeping nonce `n` at `now`: whether it is new, and the nonces kept
/// after.
pub open spec fn keep_step(s: Seq<(i64, Seq<char>)>, n: Seq<char>, now: int) -> (bool, Seq<
    (i64, Seq<char>),
>) {
    let e = expire(s, now);
    if holds_nonce(e, n) {
        (false, e)
    } else {
        (true, e.push((now as i64, n)))
    }
}

pub open spec fn distinct_nonces(s: Seq<(i64, Seq<char>)>) -> bool {
    forall|i: int, j: int| 0 <= i < j < s.len() ==> (#[trigger] s[i]).1 != (#[trigger] s[j]).1
}

proof fn lemma_expire_suffix(s: Seq<(i64, Seq<char>)>, now: int)
    ensures
        expire(s, now).len() <= s.len(),
        expire(s, now) =~= s.skip(s.len() - expire(s, now).len()),
        s.len() > 0 && !nonce_expired(s.last().0 as int, now) ==> expire(s, now).len() > 0,
    decreases s.len(),
{
    if s.len() > 0 && nonce_expired(s[0].0 as int, now) {
        let r = s.drop_first();
        lemma_expire_suffix(r, now);
        let e = expire(r, now);
        assert(r.skip(r.len() - e.len()) =~= s.skip(s.len() - e.len()));
        if r.len() > 0 {
            assert(r.last() == s.last());
        }
    } else {
        assert(s.skip(0) =~= s);
    }
}

/// The nonces of accepted signatures, oldest first, each once.
pub struct SeenNonces {
    order: VecDeque<(i64, String)>,
}

impl View for SeenNonces {
    type V = Seq<(i64, Seq<char>)>;

    closed spec fn view(&self) -> Seq<(i64, Seq<char>)> {
        self.order@.map_values(|e: (i64, String)| (e.0, e.1@))
    }
}

impl SeenNonces {
    /// Each nonce is held once.
    pub closed spec fn wf(&self) -> bool {
        distinct_nonces(self@)
    }

    /// No nonce seen yet.
    pub fn new() -> (s: SeenNonces)
        ensures
            s.wf(),
            s@ == Seq::<(i64, Seq<char>)>::empty(),
    {
        let s = SeenNonces { order: VecDeque::new() };
        proof {
            assert(s@ =~= Seq::<(i64, Seq<char>)>::empty());
        }
        s
    }

    /// Drop the expired nonces from the front, then keep `nonce` if it is
    /// new. True when it was new.
    pub fn keep(&mut self, nonce: &str, now: i64) -> (fresh: bool)
        requires
            old(self).wf(),
        ensures
            final(self).wf(),
            (fresh, final(self)@) == keep_step(old(self)@, nonce@, now as int),
    {
        broadcast use vstd::std_specs::vecdeque::group_vec_dequeue_axioms;

        let ghost start = self@;
        proof {
            assert(expire(start, now as int) == expire(self@, now as int));
        }
        loop
            invariant
                start == old(self)@,
                expire(start, now as int) == expire(self@, now as int),
                distinct_nonces(self@),
            ensures
                start == old(self)@,
                expire(start, now as int) == self@,
                distinct_nonces(self@),
            decreases self.order@.len(),
        {
            if self.order.len() == 0 {
                proof {
                    assert(self@.len() == 0);
                }
                break;
            }
            let at = self.order[0].0;
            let gap: i128 = now as i128 - at as i128;
            if gap <= 2 * CALL_WINDOW_MS as i128 {
                proof {
                    assert(self@[0].0 == at);
                    assert(!nonce_expired(self@[0].0 as int, now as int));
                }
                break;
            }
            let ghost before = self@;
            let _ = self.order.pop_front();
            proof {
                assert(self@ =~= before.drop_first());
                assert(distinct_nonces(self@)) by {
                    assert forall|i: int, j: int| 0 <= i < j < self@.len() implies (#[trigger] self@[i]).1
                        != (#[trigger] self@[j]).1 by {
                        assert(self@[i] == before[i + 1]);
                        assert(self@[j] == before[j + 1]);
                    }
                }
            }
        }
        let n = self.order.len();
        let mut k: usize = 0;
        while k < n
            invariant
                k <= n == self@.len() == self.order@.len(),
                forall|q: int| 0 <= q < k ==> (#[trigger] self@[q]).1 != nonce@,
                self@ == expire(start, now as int),
                start == old(self)@,
                distinct_nonces(self@),
            decreases n - k,
        {
            if str_eq(self.order[k].1.as_str(), nonce) {
                proof {
                    assert(self@[k as int].1 == nonce@);
                    assert(holds_nonce(self@, nonce@));
                    assert(start == old(self)@);
                    assert(keep_step(old(self)@, nonce@, now as int).0 == false);
                    assert(keep_step(old(self)@, nonce@, now as int).1 == self@);
                }
                return false;
            }
            k += 1;
        }
        let ghost before = self@;
        self.order.push_back((now, String::from_str(nonce)));
        proof {
            assert(self@ =~= before.push((now, nonce@)));
            assert(!holds_nonce(before, nonce@));
            assert(distinct_nonces(self@)) by {
                assert forall|i: int, j: int| 0 <= i < j < self@.len() implies (#[trigger] self@[i]).1
                    != (#[trigger] self@[j]).1 by {
                    if j == before.len() {
                        assert(self@[i] == before[i]);
                    } else {
                        assert(self@[i] == before[i]);
                        assert(self@[j] == before[j]);
                    }
                }
            }
        }
        true
    }
}

pub open spec fn opt_bytes(key: Option<&[u8]>) -> Option<Seq<u8>> {
    match key {
        Some(k) => Some(k@),
        None => None,
    }
}

/// Checking a call addressed to `me` at `now`, with the nonces kept so
/// far: the refusal or acceptance, and the nonces kept after. A call is
/// refused without a key, refused when its signature does not check, and
/// refused when its nonce was seen; an accepted call's nonce is kept.
pub open spec fn call_step(
    seen: Seq<(i64, Seq<char>)>,
    key: Option<Seq<u8>>,
    me: Seq<char>,
    header: Seq<char>,
    payload: Seq<u8>,
    now: i64,
) -> (Result<(), CallRefusal>, Seq<(i64, Seq<char>)>) {
    match key {
        None => (Err(CallRefusal::NoKey), seen),
        Some(k) => match check_signature(k, me, header, payload, now) {
            Err(e) => (Err(e), seen),
            Ok(()) => {
                let nonce = (header_parts(header)->0).1;
                let kept = keep_step(seen, nonce, now as int);
                if kept.0 {
                    (Ok(()), kept.1)
                } else {
                    (Err(CallRefusal::Replayed), kept.1)
                }
            },
        },
    }
}

/// Check a call addressed to machine `me` at time `now`: the key, the
/// signature, and that its nonce was not seen before.
pub fn verify_at(
    seen: &mut SeenNonces,
    key: Option<&[u8]>,
    me: &str,
    header: &str,
    payload: &[u8],
    now: i64,
) -> (r: Result<(), &'static str>)
    requires
        old(seen).wf(),
    ensures
        final(seen).wf(),
        as_reported(r) == reported(call_step(old(seen)@, opt_bytes(key), me@, header@, payload@, now).0),
        final(seen)@ == call_step(old(seen)@, opt_bytes(key), me@, header@, payload@, now).1,
{
    let k = match key {
        Some(k) => k,
        None => {
            return Err("this machine is not in the shard directory");
        },
    };
    match verify_with(k, me, header, payload, now) {
        Ok(()) => {},
        Err(e) => {
            return Err(e);
        },
    }
    let hc = chars_of(header);
    let nonce = match split_header(hc.as_slice()) {
        Some((_, n, _)) => string_from_chars(n.as_slice()),
        None => {
            return Err("malformed signature");
        },
    };
    if seen.keep(nonce.as_str(), now) {
        Ok(())
    } else {
        Err("signature already used")
    }
}

/// Milliseconds since the Unix epoch, or zero for a clock set before it;
/// `i64::MAX` past the range of `i64`. Never negative.
pub fn now_ms() -> (ms: i64)
    ensures
        ms >= 0,
{
    let ms = unix_time_ms();
    if ms > i64::MAX as u64 {
        i64::MAX
    } else {
        ms as i64
    }
}

/// A fresh nonce: twelve random bytes in hexadecimal.
pub fn nonce() -> (n: String)
    ensures
        exists|b: Seq<u8>| b.len() == 12 && n@ == hex(b),
{
    let mut b: Vec<u8> = Vec::new();
    let mut k: usize = 0;
    while k < 12
        invariant
            k <= 12,
            b@.len() == k,
        decreases 12 - k,
    {
        b.push(random_byte());
        k += 1;
    }
    hex_string(b.as_slice())
}

/// A signature of `payload` for machine `to`, made now with a fresh
/// nonce. None without a key.
pub fn sign(key: Option<&[u8]>, to: &str, payload: &[u8]) -> (r: Option<String>)
    ensures
        r is Some <==> key is Some,
        r matches Some(s) ==> exists|at: i64, b: Seq<u8>|
            b.len() == 12 && s@ == signature_text(key->0@, at, hex(b), to@, payload@),
{
    match key {
        Some(k) => {
            let n = nonce();
            let at = now_ms();
            let s = sign_with(k, at, n.as_str(), to, payload);
            Some(s)
        },
        None => None,
    }
}

/// Check a call addressed to machine `me` now: the key, the signature,
/// and that its nonce was not seen before.
pub fn verify(
    seen: &mut SeenNonces,
    key: Option<&[u8]>,
    me: &str,
    header: &str,
    payload: &[u8],
) -> (r: Result<(), &'static str>)
    requires
        old(seen).wf(),
    ensures
        final(seen).wf(),
        exists|now: i64|
            {
                &&& as_reported(r) == reported(
                    call_step(old(seen)@, opt_bytes(key), me@, header@, payload@, now).0,
                )
                &&& final(seen)@ == call_step(old(seen)@, opt_bytes(key), me@, header@, payload@, now).1
            },
{
    let now = now_ms();
    verify_at(seen, key, me, header, payload, now)
}

/// A signature is accepted once: after a call is accepted at `now`, the
/// same call is refused at any time up to twice [`CALL_WINDOW_MS`] later,
/// while its nonce is kept.
pub proof fn law_a_signature_is_accepted_once(
    seen: Seq<(i64, Seq<char>)>,
    key: Option<Seq<u8>>,
    me: Seq<char>,
    header: Seq<char>,
    payload: Seq<u8>,
    now: i64,
    later: i64,
)
    requires
        call_step(seen, key, me, header, payload, now).0 is Ok,
        later - now <= 2 * CALL_WINDOW_MS,
    ensures
        call_step(call_step(seen, key, me, header, payload, now).1, key, me, header, payload, later).0 is Err,
{
    let s1 = call_step(seen, key, me, header, payload, now).1;
    let nonce = (header_parts(header)->0).1;
    let e = expire(seen, now as int);
    assert(s1 == e.push((now, nonce)));
    if check_signature(key->0, me, header, payload, later) is Ok {
        lemma_expire_suffix(s1, later as int);
        let e2 = expire(s1, later as int);
        assert(s1.last() == (now, nonce));
        assert(e2.last() == s1.last());
        assert(e2[e2.len() - 1].1 == nonce);
        assert(holds_nonce(e2, nonce));
    }
}

/// The shard ticket key derived from the directory's call key: the
/// HMAC of `pylon-shard-ticket-v1` under it. None without a call key.
pub fn ticket_key(call_key: Option<&[u8]>) -> (r: Option<Vec<u8>>)
    ensures
        r is Some <==> call_key is Some,
        r matches Some(t) ==> t@ == hmac_sha256(call_key->0@, encode_utf8("pylon-shard-ticket-v1"@)),
{
    match call_key {
        Some(k) => {
            let label = "pylon-shard-ticket-v1";
            Some(hmac_sha256_tag(k, label.as_bytes()))
        },
        None => None,
    }
}

/// A new lease epoch: random, so a restarted machine never reuses one.
pub fn new_epoch() -> i64 {
    random_i64()
}

// ---------------------------------------------------------------------------
// Directory outcomes and timing
// ---------------------------------------------------------------------------

/// What settling a transfer row found.
#[derive(Debug, Clone, Copy, PartialEq, Eq)]
pub enum Settle {
    /// The row was `out` and is now this side's, with the state saved.
    Done,
    /// The row is no longer `out`: the other side settled it first.
    Taken,
    /// This machine no longer holds the shard. The row is unchanged.
    NotHeld,
}

/// What claiming a placement found.
#[derive(Debug, Clone, Copy, PartialEq, Eq)]
pub enum Claim {
    Claimed,
    /// The shard id is placed already (on any machine).
    Taken,
    /// The kind has its maximum of shards placed across the cluster.
    LimitReached,
}

/// The next step of a claim's transaction, from what it read.
#[derive(Debug, Clone, Copy, PartialEq, Eq)]
pub enum ClaimStep {
    /// The claim ends with this answer.
    Done(Claim),
    /// Insert the placement row.
    Insert,
}

/// What a claim does after reading whether the id is placed and how many
/// shards of the kind are placed across the cluster: an id placed already
/// is taken, whatever the kind's count; a kind with `max` shards (counted
/// up to `i64::MAX`) is full; otherwise the row is inserted.
pub fn claim_step(placed: bool, kind_count: i64, max: usize) -> (s: ClaimStep)
    ensures
        placed ==> s matches ClaimStep::Done(Claim::Taken),
        !placed && kind_count >= (if max > i64::MAX { i64::MAX as int } else { max as int })
            ==> s matches ClaimStep::Done(Claim::LimitReached),
        !placed && kind_count < (if max > i64::MAX { i64::MAX as int } else { max as int })
            ==> s matches ClaimStep::Insert,
{
    let limit: i64 = if max as u64 > i64::MAX as u64 {
        i64::MAX
    } else {
        max as i64
    };
    if placed {
        ClaimStep::Done(Claim::Taken)
    } else if kind_count >= limit {
        ClaimStep::Done(Claim::LimitReached)
    } else {
        ClaimStep::Insert
    }
}

/// The claim's answer after its insert, which ignores an id placed
/// meanwhile: claimed when it inserted the row, taken when it did not.
pub fn claim_after_insert(rows: u64) -> (c: Claim)
    ensures
        rows == 1 ==> c matches Claim::Claimed,
        rows != 1 ==> c matches Claim::Taken,
{
    if rows == 1 {
        Claim::Claimed
    } else {
        Claim::Taken
    }
}

/// What settling a transfer row finds: not held when this machine no
/// longer holds the shard; taken when the row was no longer `out` (no row
/// updated); done otherwise, the state then saved.
pub fn settle_step(holds: bool, updated: u64) -> (s: Settle)
    ensures
        !holds ==> s matches Settle::NotHeld,
        holds && updated != 1 ==> s matches Settle::Taken,
        holds && updated == 1 ==> s matches Settle::Done,
{
    if !holds {
        Settle::NotHeld
    } else if updated != 1 {
        Settle::Taken
    } else {
        Settle::Done
    }
}

/// How often a machine renews its heartbeat, in milliseconds.
pub const HEARTBEAT_MS: u64 = 2_000;
/// A machine silent this long is dead and its shards move.
pub const DEAD_AFTER_MS: u64 = 10_000;
/// A machine's lease: how long after it sent a heartbeat that reached the
/// directory it may run shards.
pub const FENCE_AFTER_MS: u64 = 5_000;

/// How often a machine renews its lease, how long a lease runs after the
/// heartbeat that renewed it was sent, and how long a silent machine counts
/// as live, in milliseconds.
#[derive(Debug, Clone, Copy, PartialEq, Eq)]
pub struct Timing {
    pub heartbeat_ms: u64,
    pub fence_after_ms: u64,
    pub dead_after_ms: u64,
}

/// Postgres: several machines, so a machine that cannot reach the database
/// must stop its shards soon. A cut-off machine stops its shards before
/// another may start them.
pub fn pg_timing() -> (t: Timing)
    ensures
        t.heartbeat_ms == HEARTBEAT_MS,
        t.fence_after_ms == FENCE_AFTER_MS,
        t.dead_after_ms == DEAD_AFTER_MS,
        t.heartbeat_ms < t.fence_after_ms < t.dead_after_ms,
{
    Timing { heartbeat_ms: HEARTBEAT_MS, fence_after_ms: FENCE_AFTER_MS, dead_after_ms: DEAD_AFTER_MS }
}

/// SQLite: one process holds the file's directory lock. The lease only has
/// to outlast a heartbeat that waits for the database's write lock.
pub fn sqlite_timing() -> (t: Timing)
    ensures
        t.heartbeat_ms == HEARTBEAT_MS,
        t.fence_after_ms == 30_000,
        t.dead_after_ms == 60_000,
        t.heartbeat_ms < t.fence_after_ms < t.dead_after_ms,
{
    Timing { heartbeat_ms: HEARTBEAT_MS, fence_after_ms: 30_000, dead_after_ms: 60_000 }
}

} // verus!
