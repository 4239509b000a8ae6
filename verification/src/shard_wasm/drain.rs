//! Where a draining machine sends its shards.

use vstd::prelude::*;

use crate::shard_cluster::Machine;
use crate::text::{
    chars_of, lemma_lex_asymmetric, lemma_lex_irreflexive, lemma_lex_total, lemma_lex_transitive,
    lex_less, lex_lt, parse_u64, parse_u64_spec, push_str, str_eq, trim_chars, trimmed,
};

verus! {

broadcast use {
    vstd::seq_lib::group_to_multiset_ensures,
    vstd::seq_lib::to_multiset_insert,
    vstd::seq_lib::lemma_multiset_commutative,
    vstd::multiset::group_multiset_axioms,
};

/// A machine may take a shard: not `me`, reachable, with room (a machine
/// shutting down reports none).
pub open spec fn may_take(m: Machine, me: Seq<char>) -> bool {
    m.id@ != me && m.address is Some && m.capacity > 0
}

/// The machines of `s` that may take a shard, in order.
pub open spec fn candidates(s: Seq<Machine>, me: Seq<char>) -> Seq<Machine>
    decreases s.len(),
{
    if s.len() == 0 {
        Seq::empty()
    } else if may_take(s[0], me) {
        seq![s[0]] + candidates(s.drop_first(), me)
    } else {
        candidates(s.drop_first(), me)
    }
}

/// A machine's load per thousand of its capacity.
pub open spec fn permille(m: Machine) -> int {
    (m.load * 1000) / (m.capacity as int)
}

pub open spec fn is_full(m: Machine) -> bool {
    m.load >= m.capacity
}

/// `a` comes before `b`: not full before full, then less loaded, then the
/// lower id.
pub open spec fn drains_before(a: Machine, b: Machine) -> bool {
    ||| !is_full(a) && is_full(b)
    ||| is_full(a) == is_full(b) && permille(a) < permille(b)
    ||| is_full(a) == is_full(b) && permille(a) == permille(b) && lex_lt(a.id@, b.id@)
}

pub open spec fn drain_sorted(s: Seq<Machine>) -> bool {
    forall|i: int, j: int| 0 <= i < j < s.len() ==> !drains_before(#[trigger] s[j], #[trigger] s[i])
}

proof fn lemma_drains_before_order(a: Machine, b: Machine, c: Machine)
    ensures
        !drains_before(a, a),
        drains_before(a, b) ==> !drains_before(b, a),
        !drains_before(a, b) && !drains_before(b, c) ==> !drains_before(a, c),
        drains_before(a, b) && drains_before(b, c) ==> drains_before(a, c),
{
    lemma_lex_irreflexive(a.id@);
    lemma_lex_asymmetric(a.id@, b.id@);
    lemma_lex_total(a.id@, b.id@);
    lemma_lex_total(b.id@, c.id@);
    lemma_lex_total(a.id@, c.id@);
    if lex_lt(a.id@, b.id@) && lex_lt(b.id@, c.id@) {
        lemma_lex_transitive(a.id@, b.id@, c.id@);
    }
    if lex_lt(c.id@, b.id@) && lex_lt(b.id@, a.id@) {
        lemma_lex_transitive(c.id@, b.id@, a.id@);
    }
    if lex_lt(b.id@, a.id@) && lex_lt(a.id@, c.id@) {
        lemma_lex_transitive(b.id@, a.id@, c.id@);
    }
    if lex_lt(a.id@, c.id@) && lex_lt(c.id@, b.id@) {
        lemma_lex_transitive(a.id@, c.id@, b.id@);
    }
    if lex_lt(c.id@, a.id@) && lex_lt(a.id@, b.id@) {
        lemma_lex_transitive(c.id@, a.id@, b.id@);
    }
    if lex_lt(b.id@, c.id@) && lex_lt(c.id@, a.id@) {
        lemma_lex_transitive(b.id@, c.id@, a.id@);
    }
}

fn machine_permille(m: &Machine) -> (p: u64)
    requires
        m.capacity > 0,
    ensures
        p == permille(*m),
{
    (m.load as u64 * 1000) / (m.capacity as u64)
}

fn is_drained_before(a: &Machine, b: &Machine) -> (r: bool)
    requires
        a.capacity > 0,
        b.capacity > 0,
    ensures
        r == drains_before(*a, *b),
{
    let fa = a.load >= a.capacity;
    let fb = b.load >= b.capacity;
    if fa != fb {
        return !fa;
    }
    let pa = machine_permille(a);
    let pb = machine_permille(b);
    if pa != pb {
        return pa < pb;
    }
    let ia = chars_of(a.id.as_str());
    let ib = chars_of(b.id.as_str());
    lex_less(ia.as_slice(), ib.as_slice())
}

/// Machines that may take a shard: live, reachable, not `me`, with room,
/// least loaded first.
pub fn targets(live: Vec<Machine>, me: &str) -> (r: Vec<Machine>)
    ensures
        drain_sorted(r@),
        r@.to_multiset() == candidates(live@, me@).to_multiset(),
        forall|i: int| 0 <= i < r@.len() ==> may_take(#[trigger] r@[i], me@),
{
    let mut live = live;
    let ghost all = live@;
    let mut out: Vec<Machine> = Vec::new();
    proof {
        assert(out@.to_multiset() =~= vstd::multiset::Multiset::empty());
        assert(candidates(all, me@).to_multiset() =~= out@.to_multiset().add(
            candidates(live@, me@).to_multiset(),
        ));
    }
    while live.len() > 0
        invariant
            drain_sorted(out@),
            forall|i: int| 0 <= i < out@.len() ==> may_take(#[trigger] out@[i], me@),
            candidates(all, me@).to_multiset() == out@.to_multiset().add(
                candidates(live@, me@).to_multiset(),
            ),
        decreases live@.len(),
    {
        let ghost rest = live@;
        let m = live.remove(0);
        proof {
            assert(live@ =~= rest.drop_first());
        }
        let keep = !str_eq(m.id.as_str(), me) && m.address.is_some() && m.capacity > 0;
        if keep {
            let mut p: usize = 0;
            while p < out.len() && !is_drained_before(&m, &out[p])
                invariant
                    p <= out@.len(),
                    m.capacity > 0,
                    forall|i: int| 0 <= i < out@.len() ==> may_take(#[trigger] out@[i], me@),
                    forall|i: int| 0 <= i < p ==> !drains_before(m, #[trigger] out@[i]),
                decreases out@.len() - p,
            {
                p += 1;
            }
            let ghost before = out@;
            out.insert(p, m);
            proof {
                assert(out@ =~= before.insert(p as int, m));
                assert(rest[0] == m);
                assert(may_take(m, me@));
                assert(candidates(rest, me@) =~= seq![m] + candidates(rest.drop_first(), me@));
                let c1 = candidates(rest.drop_first(), me@);
                assert(out@.to_multiset() =~= before.to_multiset().insert(m));
                assert((seq![m] + c1).to_multiset() =~= seq![m].to_multiset().add(c1.to_multiset()));
                assert(seq![m].to_multiset() =~= vstd::multiset::Multiset::empty().insert(m)) by {
                    assert(seq![m] =~= Seq::<Machine>::empty().push(m));
                    vstd::seq_lib::to_multiset_build(Seq::<Machine>::empty(), m);
                    assert(Seq::<Machine>::empty().to_multiset() =~= vstd::multiset::Multiset::empty());
                }
                assert(before.to_multiset().add(candidates(rest, me@).to_multiset()) =~= out@.to_multiset().add(c1.to_multiset()));
                assert(drain_sorted(out@)) by {
                    assert forall|i: int, j: int| 0 <= i < j < out@.len() implies !drains_before(
                        #[trigger] out@[j],
                        #[trigger] out@[i],
                    ) by {
                        if j < p {
                            assert(out@[i] == before[i] && out@[j] == before[j]);
                        } else if j == p {
                            assert(out@[i] == before[i]);
                            lemma_drains_before_order(m, before[i], m);
                        } else if i == p {
                            assert(out@[j] == before[j - 1]);
                            if p < before.len() {
                                lemma_drains_before_order(m, before[p as int], before[j - 1]);
                                if j - 1 > p {
                                    assert(!drains_before(before[j - 1], before[p as int]));
                                }
                                lemma_drains_before_order(before[j - 1], before[p as int], m);
                                lemma_drains_before_order(before[j - 1], m, before[p as int]);
                            }
                        } else if i < p {
                            assert(out@[i] == before[i] && out@[j] == before[j - 1]);
                        } else {
                            assert(out@[i] == before[i - 1] && out@[j] == before[j - 1]);
                        }
                    }
                }
            }
        } else {
            proof {
                assert(rest[0] == m);
                assert(!may_take(m, me@));
                assert(candidates(rest, me@) =~= candidates(rest.drop_first(), me@));
            }
        }
    }
    proof {
        assert(candidates(live@, me@) =~= Seq::<Machine>::empty());
        assert(out@.to_multiset().add(vstd::multiset::Multiset::empty()) =~= out@.to_multiset());
    }
    out
}

// ---------------------------------------------------------------------------
// Handing shards over
// ---------------------------------------------------------------------------

/// The drain time, in seconds, when `PYLON_SHARD_DRAIN_SECS` is unset.
pub const DRAIN_SECS: u64 = 20;

/// The drain time from the value of `PYLON_SHARD_DRAIN_SECS`: the number
/// it holds, trimmed, else [`DRAIN_SECS`].
pub fn drain_secs(v: Option<&str>) -> (n: u64)
    ensures
        n == match v {
            Some(s) => match parse_u64_spec(trimmed(s@)) {
                Some(k) => k,
                None => DRAIN_SECS,
            },
            None => DRAIN_SECS,
        },
{
    match v {
        Some(s) => {
            let t = trim_chars(chars_of(s).as_slice());
            match parse_u64(t.as_slice()) {
                Some(k) => k,
                None => DRAIN_SECS,
            }
        },
        None => DRAIN_SECS,
    }
}

/// A shard's placement moved away from this machine's hold under `epoch`:
/// it names another machine, or another epoch. Then a hand-over whose
/// answer was lost went through.
pub fn placement_moved(placement: Option<(&str, i64)>, me: &str, epoch: i64) -> (b: bool)
    ensures
        b == match placement {
            Some((m, e)) => m@ != me@ || e != epoch,
            None => false,
        },
{
    match placement {
        Some((m, e)) => !str_eq(m, me) || e != epoch,
        None => false,
    }
}

/// Why a machine refuses to take a shard another one hands over: a code
/// and a message.
pub type Refusal = (String, String);

/// The checks a machine makes before taking shard `id` from machine
/// `from`, which holds it under `epoch`: it has a directory and a lease
/// (`my_epoch`), the shard is not ending here, and the directory's
/// placement (`placement`: its machine and epoch, or the directory's
/// error) says `from` holds it under `epoch`. Its lease epoch when all
/// pass.
pub fn hand_over_check(
    id: &str,
    from: &str,
    epoch: i64,
    directory: bool,
    my_epoch: Option<i64>,
    ending: bool,
    placement: Result<Option<(&str, i64)>, &str>,
) -> (r: Result<i64, Refusal>)
    ensures
        !directory ==> (r matches Err((c, m)) && c@ == "SHARD_CLUSTER_ERROR"@ && m@ == "no shard directory"@),
        directory && my_epoch is None ==> (r matches Err((c, m)) && c@ == "SHARD_UNAVAILABLE"@ && m@
            == "this machine is not taking shards"@),
        directory && my_epoch is Some && ending ==> (r matches Err((c, m)) && c@ == "SHARD_UNAVAILABLE"@ && m@
            == "shard "@ + id@ + " is ending on this machine; try again shortly"@),
        directory && my_epoch is Some && !ending ==> match placement {
            Ok(Some((m, e))) => if m@ == from@ && e == epoch {
                r == Ok::<i64, Refusal>(my_epoch->0)
            } else {
                r matches Err((c, t)) && c@ == "SHARD_NOT_FOUND"@ && t@ == from@ + " does not hold "@ + id@
            },
            Ok(None) => r matches Err((c, t)) && c@ == "SHARD_NOT_FOUND"@ && t@ == from@ + " does not hold "@
                + id@,
            Err(e) => r matches Err((c, t)) && c@ == "SHARD_CLUSTER_ERROR"@ && t@ == e@,
        },
{
    if !directory {
        return Err((String::from_str("SHARD_CLUSTER_ERROR"), String::from_str("no shard directory")));
    }
    let mine = match my_epoch {
        Some(e) => e,
        None => {
            return Err(
                (String::from_str("SHARD_UNAVAILABLE"), String::from_str("this machine is not taking shards")),
            );
        },
    };
    if ending {
        let mut m = String::from_str("shard ");
        push_str(&mut m, id);
        push_str(&mut m, " is ending on this machine; try again shortly");
        return Err((String::from_str("SHARD_UNAVAILABLE"), m));
    }
    let not_held = || -> (t: String)
        ensures
            t@ == from@ + " does not hold "@ + id@,
    {
        let mut t = String::from_str(from);
        push_str(&mut t, " does not hold ");
        push_str(&mut t, id);
        t
    };
    match placement {
        Ok(Some((m, e))) => {
            if str_eq(m, from) && e == epoch {
                Ok(mine)
            } else {
                Err((String::from_str("SHARD_NOT_FOUND"), not_held()))
            }
        },
        Ok(None) => Err((String::from_str("SHARD_NOT_FOUND"), not_held())),
        Err(e) => Err((String::from_str("SHARD_CLUSTER_ERROR"), String::from_str(e))),
    }
}

/// The outcome of moving the placement of shard `id` from machine `from`
/// to this one: moved; `from` no longer holding it; or the directory's
/// error.
pub fn hand_over_moved(id: &str, from: &str, moved: Result<bool, &str>) -> (r: Result<(), Refusal>)
    ensures
        match moved {
            Ok(true) => r is Ok,
            Ok(false) => r matches Err((c, t)) && c@ == "SHARD_NOT_FOUND"@ && t@ == from@ + " no longer holds "@
                + id@,
            Err(e) => r matches Err((c, t)) && c@ == "SHARD_CLUSTER_ERROR"@ && t@ == e@,
        },
{
    match moved {
        Ok(true) => Ok(()),
        Ok(false) => {
            let mut t = String::from_str(from);
            push_str(&mut t, " no longer holds ");
            push_str(&mut t, id);
            Err((String::from_str("SHARD_NOT_FOUND"), t))
        },
        Err(e) => Err((String::from_str("SHARD_CLUSTER_ERROR"), String::from_str(e))),
    }
}

/// What a connection of a shard handed over is told.
#[derive(Debug, Clone, PartialEq, Eq)]
pub enum Notice {
    /// Nothing: its move to another shard is still open (the machine that
    /// takes the shard finishes it), or it is moving here.
    Nothing,
    /// Its move to shard `0` finished: go there.
    MovedTo(String),
    /// Reconnect to the same shard, with a new ticket.
    SameShard,
}

/// What a connection is told when its shard is handed over: nothing while
/// its move is open or under way here; where its finished move took it;
/// else to reconnect to the same shard.
pub fn notice_for(open: bool, moving_here: bool, finished_to: Option<&str>) -> (n: Notice)
    ensures
        open || moving_here ==> n == Notice::Nothing,
        !(open || moving_here) ==> match finished_to {
            Some(s) => n matches Notice::MovedTo(t) && t@ == s@,
            None => n == Notice::SameShard,
        },
{
    if open || moving_here {
        return Notice::Nothing;
    }
    match finished_to {
        Some(s) => Notice::MovedTo(String::from_str(s)),
        None => Notice::SameShard,
    }
}

/// The user a new ticket names: the one the subscriber's ticket named,
/// else its session's (a client with a ticket and no session has only
/// that).
pub fn ticket_user(from_ticket: Option<String>, from_session: Option<String>) -> (u: Option<String>)
    ensures
        u == if from_ticket is Some {
            from_ticket
        } else {
            from_session
        },
{
    match from_ticket {
        Some(t) => Some(t),
        None => from_session,
    }
}

} // verus!
