//! Messages between shards: where a message goes, and what a message may
//! hold.
//!
//! A message goes to one shard (`shard:<id>`), to the shards in a group
//! (`group:<name>`), or to every shard (`all`).

use vstd::prelude::*;

use crate::outbox::{MAX_DATA, MAX_GROUP, MAX_TOPIC};
use crate::shard_ids::{bad_id_message, shard_id_ok, validate_shard_id};
use crate::text::{
    chars_eq, chars_of, push_str, starts_with, str_eq, str_len, string_from_suffix, text_len,
};

verus! {

/// Where a message goes.
#[derive(Debug, Clone, PartialEq, Eq, Hash)]
pub enum Target {
    Shard(String),
    Group(String),
    All,
}

/// A target as a value.
pub ghost enum TargetView {
    Shard(Seq<char>),
    Group(Seq<char>),
    All,
}

impl View for Target {
    type V = TargetView;

    open spec fn view(&self) -> TargetView {
        match self {
            Target::Shard(id) => TargetView::Shard(id@),
            Target::Group(name) => TargetView::Group(name@),
            Target::All => TargetView::All,
        }
    }
}

/// The target a text names, when it names one.
pub open spec fn target_of(s: Seq<char>) -> Option<TargetView> {
    let shard = "shard:"@;
    let group = "group:"@;
    if s == "all"@ {
        Some(TargetView::All)
    } else if shard.len() <= s.len() && s.take(shard.len() as int) == shard {
        let id = s.skip(shard.len() as int);
        if shard_id_ok(id) {
            Some(TargetView::Shard(id))
        } else {
            None
        }
    } else if group.len() <= s.len() && s.take(group.len() as int) == group {
        let name = s.skip(group.len() as int);
        if 1 <= text_len(name) <= MAX_GROUP {
            Some(TargetView::Group(name))
        } else {
            None
        }
    } else {
        None
    }
}

/// The wire form of a target.
pub open spec fn wire_of(t: TargetView) -> Seq<char> {
    match t {
        TargetView::Shard(id) => "shard:"@ + id,
        TargetView::Group(name) => "group:"@ + name,
        TargetView::All => "all"@,
    }
}

/// A target that the wire form can carry and that reads back.
pub open spec fn target_ok(t: TargetView) -> bool {
    match t {
        TargetView::Shard(id) => shard_id_ok(id),
        TargetView::Group(name) => 1 <= text_len(name) <= MAX_GROUP,
        TargetView::All => true,
    }
}

/// A message that cannot be sent.
#[derive(Debug, Clone, PartialEq, Eq)]
pub struct MessageError(pub String);

impl MessageError {
    pub fn code(&self) -> (c: &'static str)
        ensures
            c@ == "SHARD_MESSAGE_INVALID"@,
    {
        "SHARD_MESSAGE_INVALID"
    }
}

/// Why a text names no target: a `shard:` target whose id is invalid (the
/// id check's own words), a
/// `group:` target whose name is out of bounds, or neither form.
pub open spec fn target_error(s: Seq<char>) -> Seq<char> {
    let shard = "shard:"@;
    let group = "group:"@;
    if shard.len() <= s.len() && s.take(shard.len() as int) == shard {
        bad_id_message(s.skip(shard.len() as int))
    } else if group.len() <= s.len() && s.take(group.len() as int) == group {
        "a group name is 1 to 128 bytes"@
    } else {
        "target \""@ + s + "\" is not \"shard:<id>\", \"group:<name>\", or \"all\""@
    }
}

/// Why a message with this topic and data cannot be sent, the topic
/// checked first.
pub open spec fn content_error(topic: Seq<char>, data: Seq<u8>) -> Seq<char> {
    if !(1 <= text_len(topic) <= MAX_TOPIC) {
        "a topic is 1 to 128 bytes"@
    } else {
        "a message is at most 65536 bytes"@
    }
}

fn plain_error(m: &str) -> (e: MessageError)
    ensures
        e.0@ == m@,
{
    let mut s = String::new();
    push_str(&mut s, m);
    proof {
        assert(s@ =~= m@);
    }
    MessageError(s)
}

fn quoted_error(target: &str, tail: &str) -> (e: MessageError)
    ensures
        e.0@ == "target \""@ + target@ + tail@,
{
    let mut s = String::new();
    push_str(&mut s, "target \"");
    push_str(&mut s, target);
    push_str(&mut s, tail);
    proof {
        assert(s@ =~= "target \""@ + target@ + tail@);
    }
    MessageError(s)
}

impl Target {
    /// Read a target: `all`, `shard:<id>` with a valid id, or
    /// `group:<name>` with a name of 1 to 128 bytes.
    pub fn parse(s: &str) -> (r: Result<Target, MessageError>)
        ensures
            r matches Ok(t) ==> target_of(s@) == Some(t@),
            r is Err ==> target_of(s@) is None,
            r matches Err(e) ==> e.0@ == target_error(s@),
    {
        let cs = chars_of(s);
        let all = chars_of("all");
        let shard = chars_of("shard:");
        let group = chars_of("group:");
        if chars_eq(cs.as_slice(), all.as_slice()) {
            return Ok(Target::All);
        }
        if starts_with(cs.as_slice(), shard.as_slice()) {
            let id = string_from_suffix(cs.as_slice(), shard.len());
            return match validate_shard_id(id.as_str()) {
                Ok(()) => Ok(Target::Shard(id)),
                Err(e) => Err(MessageError(e.message())),
            };
        }
        if starts_with(cs.as_slice(), group.as_slice()) {
            let name = string_from_suffix(cs.as_slice(), group.len());
            let len = str_len(name.as_str());
            if len == 0 || len > MAX_GROUP {
                return Err(plain_error("a group name is 1 to 128 bytes"));
            }
            return Ok(Target::Group(name));
        }
        Err(quoted_error(s, "\" is not \"shard:<id>\", \"group:<name>\", or \"all\""))
    }

    /// The wire form: `shard:<id>`, `group:<name>` or `all`.
    pub fn wire(&self) -> (s: String)
        ensures
            s@ == wire_of(self@),
    {
        let mut s = String::new();
        match self {
            Target::Shard(id) => {
                push_str(&mut s, "shard:");
                push_str(&mut s, id.as_str());
            },
            Target::Group(name) => {
                push_str(&mut s, "group:");
                push_str(&mut s, name.as_str());
            },
            Target::All => {
                push_str(&mut s, "all");
            },
        }
        s
    }
}

/// A target's wire form reads back as the target.
pub proof fn law_target_round_trip(t: TargetView)
    requires
        target_ok(t),
    ensures
        target_of(wire_of(t)) == Some(t),
{
    reveal_strlit("all");
    reveal_strlit("shard:");
    reveal_strlit("group:");
    let w = wire_of(t);
    match t {
        TargetView::Shard(id) => {
            assert(w.take(6) =~= "shard:"@);
            assert(w.skip(6) =~= id);
            assert(w != "all"@) by {
                assert(w[0] != "all"@[0]);
            }
        },
        TargetView::Group(name) => {
            assert(w.take(6) =~= "group:"@);
            assert(w.skip(6) =~= name);
            assert(w != "all"@) by {
                assert(w[0] != "all"@[0]);
            }
            assert(w.take(6) != "shard:"@) by {
                assert(w.take(6)[0] != "shard:"@[0]);
            }
        },
        TargetView::All => {},
    }
}

/// Check what a message holds: a topic of 1 to 128 bytes and data of at
/// most 64 KiB.
pub fn check(topic: &str, data: &[u8]) -> (r: Result<(), MessageError>)
    ensures
        r is Ok <==> (1 <= text_len(topic@) <= MAX_TOPIC && data@.len() <= MAX_DATA),
        r matches Err(e) ==> e.0@ == content_error(topic@, data@),
{
    let len = str_len(topic);
    if len == 0 || len > MAX_TOPIC {
        return Err(plain_error("a topic is 1 to 128 bytes"));
    }
    if data.len() > MAX_DATA {
        return Err(plain_error("a message is at most 65536 bytes"));
    }
    Ok(())
}

// ---------------------------------------------------------------------------
// Routing
// ---------------------------------------------------------------------------

/// A message on its way: the shard that sent it, where it goes, its topic
/// and its data.
pub struct Routed {
    pub from: String,
    pub to: Target,
    pub topic: String,
    pub data: Vec<u8>,
}

/// A message of an outbox as the model sees it: its target text, topic
/// and data.
pub open spec fn outgoing_view(ms: Seq<(String, String, Vec<u8>)>) -> Seq<(Seq<char>, Seq<char>, Seq<u8>)> {
    Seq::new(ms.len(), |i: int| (ms[i].0@, ms[i].1@, ms[i].2@))
}

/// A message is sent when its target reads and its topic and data are
/// within bounds.
pub open spec fn sendable(m: (Seq<char>, Seq<char>, Seq<u8>)) -> bool {
    target_of(m.0) is Some && 1 <= text_len(m.1) <= MAX_TOPIC && m.2.len() <= MAX_DATA
}

/// The messages of `ms` that are sent, in order, each with its target.
pub open spec fn sent(ms: Seq<(Seq<char>, Seq<char>, Seq<u8>)>) -> Seq<(TargetView, Seq<char>, Seq<u8>)>
    decreases ms.len(),
{
    if ms.len() == 0 {
        Seq::empty()
    } else {
        let m = ms.last();
        if sendable(m) {
            sent(ms.drop_last()).push((target_of(m.0)->0, m.1, m.2))
        } else {
            sent(ms.drop_last())
        }
    }
}

/// Why a message cannot be sent: its target, else its topic or data.
pub open spec fn why_dropped(m: (Seq<char>, Seq<char>, Seq<u8>)) -> Seq<char> {
    if target_of(m.0) is None {
        target_error(m.0)
    } else {
        content_error(m.1, m.2)
    }
}

/// Why each message of `ms` that is dropped is, in order.
pub open spec fn dropped(ms: Seq<(Seq<char>, Seq<char>, Seq<u8>)>) -> Seq<Seq<char>>
    decreases ms.len(),
{
    if ms.len() == 0 {
        Seq::empty()
    } else if sendable(ms.last()) {
        dropped(ms.drop_last())
    } else {
        dropped(ms.drop_last()).push(why_dropped(ms.last()))
    }
}

pub open spec fn errors_view(es: Seq<MessageError>) -> Seq<Seq<char>> {
    Seq::new(es.len(), |i: int| es[i].0@)
}

pub open spec fn routed_view(rs: Seq<Routed>) -> Seq<(TargetView, Seq<char>, Seq<u8>)> {
    Seq::new(rs.len(), |i: int| (rs[i].to@, rs[i].topic@, rs[i].data@))
}

/// The messages shard `from` sent in its outbox, on their way; and why
/// each of the others is dropped (a target that does not read, a topic or
/// data out of bounds).
pub fn route_outbox(from: &str, messages: Vec<(String, String, Vec<u8>)>) -> (r: (Vec<Routed>, Vec<MessageError>))
    ensures
        routed_view(r.0@) == sent(outgoing_view(messages@)),
        forall|i: int| 0 <= i < r.0@.len() ==> (#[trigger] r.0@[i]).from@ == from@,
        errors_view(r.1@) == dropped(outgoing_view(messages@)),
{
    let ghost all = outgoing_view(messages@);
    let mut ms = messages;
    let mut rest: Vec<(String, String, Vec<u8>)> = Vec::new();
    // Taken from the end, then handled from the start.
    while ms.len() > 0
        invariant
            outgoing_view(ms@) + outgoing_view(rest@).reverse() == all,
        decreases ms@.len(),
    {
        let ghost before_ms = outgoing_view(ms@);
        let ghost before_rest = outgoing_view(rest@);
        let m = ms.pop().unwrap();
        rest.push(m);
        proof {
            let a = outgoing_view(ms@);
            let b = outgoing_view(rest@);
            assert(before_ms =~= a.push(b.last()));
            assert(b =~= before_rest.push(b.last()));
            assert(b.reverse() =~= seq![b.last()] + before_rest.reverse());
            assert(a + b.reverse() =~= before_ms + before_rest.reverse());
        }
    }
    proof {
        assert(outgoing_view(ms@).len() == 0);
        assert(outgoing_view(rest@).reverse() =~= all);
    }
    let mut out: Vec<Routed> = Vec::new();
    let mut errors: Vec<MessageError> = Vec::new();
    let n = rest.len();
    let mut k: usize = 0;
    proof {
        assert(all.take(0) =~= Seq::<(Seq<char>, Seq<char>, Seq<u8>)>::empty());
        assert(routed_view(out@) =~= Seq::<(TargetView, Seq<char>, Seq<u8>)>::empty());
    }
    while rest.len() > 0
        invariant
            n == all.len(),
            k + rest@.len() == n,
            outgoing_view(rest@).reverse() == all.skip(k as int),
            routed_view(out@) == sent(all.take(k as int)),
            forall|i: int| 0 <= i < out@.len() ==> (#[trigger] out@[i]).from@ == from@,
            errors_view(errors@) == dropped(all.take(k as int)),
        decreases rest@.len(),
    {
        let ghost rv = outgoing_view(rest@);
        let (to, topic, data) = rest.pop().unwrap();
        let ghost m = (to@, topic@, data@);
        proof {
            assert(rv.last() == m);
            assert(rv.reverse()[0] == rv.last());
            assert(all.skip(k as int)[0] == all[k as int]);
            assert(all[k as int] == m);
            assert(outgoing_view(rest@) =~= rv.drop_last());
            assert(rv.drop_last().reverse() =~= rv.reverse().drop_first());
            assert(all.skip(k as int).drop_first() =~= all.skip(k + 1));
            assert(outgoing_view(rest@).reverse() =~= all.skip(k + 1));
            assert(all.take(k + 1).drop_last() =~= all.take(k as int));
            assert(all.take(k + 1).last() == m);
        }
        let ghost before = routed_view(out@);
        let ghost before_errors = errors_view(errors@);
        match Target::parse(to.as_str()) {
            Ok(t) => match check(topic.as_str(), data.as_slice()) {
                Ok(()) => {
                    out.push(Routed { from: String::from_str(from), to: t, topic, data });
                    proof {
                        assert(routed_view(out@) =~= before.push((target_of(m.0)->0, m.1, m.2)));
                    }
                },
                Err(e) => {
                    errors.push(e);
                    proof {
                        assert(errors_view(errors@) =~= before_errors.push(why_dropped(m)));
                    }
                },
            },
            Err(e) => {
                errors.push(e);
                proof {
                    assert(errors_view(errors@) =~= before_errors.push(why_dropped(m)));
                }
            },
        }
        k += 1;
    }
    proof {
        assert(all.take(n as int) =~= all);
    }
    (out, errors)
}

/// The shards of `ids` other than `from`, in order.
pub open spec fn others(ids: Seq<Seq<char>>, from: Seq<char>) -> Seq<Seq<char>>
    decreases ids.len(),
{
    if ids.len() == 0 {
        Seq::empty()
    } else if ids.last() == from {
        others(ids.drop_last(), from)
    } else {
        others(ids.drop_last(), from).push(ids.last())
    }
}

/// The shards of `groups` (each with the groups it is in) in group
/// `name`, other than `from`, in order.
pub open spec fn members(groups: Seq<(Seq<char>, Seq<Seq<char>>)>, name: Seq<char>, from: Seq<char>) -> Seq<Seq<char>>
    decreases groups.len(),
{
    if groups.len() == 0 {
        Seq::empty()
    } else {
        let g = groups.last();
        if g.1.contains(name) && g.0 != from {
            members(groups.drop_last(), name, from).push(g.0)
        } else {
            members(groups.drop_last(), name, from)
        }
    }
}

pub open spec fn ids_view(ids: Seq<String>) -> Seq<Seq<char>> {
    Seq::new(ids.len(), |i: int| ids[i]@)
}

pub open spec fn groups_view(gs: Seq<(String, Vec<String>)>) -> Seq<(Seq<char>, Seq<Seq<char>>)> {
    Seq::new(gs.len(), |i: int| (gs[i].0@, ids_view(gs[i].1@)))
}

/// The shards here a message from `from` to `to` is for, given the shards
/// that run here and the groups each is in: the shard it names, every
/// shard, or the group's members; never the sender.
pub open spec fn recipients_of(
    from: Seq<char>,
    to: TargetView,
    running: Seq<Seq<char>>,
    groups: Seq<(Seq<char>, Seq<Seq<char>>)>,
) -> Seq<Seq<char>> {
    match to {
        TargetView::Shard(id) => if id == from {
            Seq::empty()
        } else {
            seq![id]
        },
        TargetView::All => others(running, from),
        TargetView::Group(name) => members(groups, name, from),
    }
}

fn in_names(names: &[String], name: &str) -> (b: bool)
    ensures
        b == ids_view(names@).contains(name@),
{
    let ghost v = ids_view(names@);
    let n = names.len();
    let mut i: usize = 0;
    while i < n
        invariant
            n == names@.len(),
            v == ids_view(names@),
            i <= n,
            forall|j: int| 0 <= j < i ==> v[j] != name@,
        decreases n - i,
    {
        if str_eq(names[i].as_str(), name) {
            proof {
                assert(v[i as int] == name@);
            }
            return true;
        }
        i += 1;
    }
    false
}

/// See [`recipients_of`].
pub fn recipients(from: &str, to: &Target, running: &[String], groups: &[(String, Vec<String>)]) -> (ids: Vec<String>)
    ensures
        ids_view(ids@) == recipients_of(from@, to@, ids_view(running@), groups_view(groups@)),
{
    let mut ids: Vec<String> = Vec::new();
    match to {
        Target::Shard(id) => {
            if !str_eq(id.as_str(), from) {
                ids.push(String::from_str(id.as_str()));
            }
            proof {
                assert(ids_view(ids@) =~= recipients_of(from@, to@, ids_view(running@), groups_view(groups@)));
            }
        },
        Target::All => {
            let ghost rv = ids_view(running@);
            let n = running.len();
            let mut i: usize = 0;
            proof {
                assert(ids_view(ids@) =~= others(rv.take(0), from@));
            }
            while i < n
                invariant
                    n == running@.len(),
                    rv == ids_view(running@),
                    i <= n,
                    ids_view(ids@) == others(rv.take(i as int), from@),
                decreases n - i,
            {
                let ghost before = ids_view(ids@);
                proof {
                    assert(rv.take(i + 1).drop_last() =~= rv.take(i as int));
                    assert(rv.take(i + 1).last() == rv[i as int]);
                }
                if !str_eq(running[i].as_str(), from) {
                    ids.push(String::from_str(running[i].as_str()));
                    proof {
                        assert(ids_view(ids@) =~= before.push(rv[i as int]));
                    }
                }
                i += 1;
            }
            proof {
                assert(rv.take(n as int) =~= rv);
            }
        },
        Target::Group(name) => {
            let ghost gv = groups_view(groups@);
            let n = groups.len();
            let mut i: usize = 0;
            proof {
                assert(ids_view(ids@) =~= members(gv.take(0), name@, from@));
            }
            while i < n
                invariant
                    n == groups@.len(),
                    gv == groups_view(groups@),
                    i <= n,
                    ids_view(ids@) == members(gv.take(i as int), name@, from@),
                decreases n - i,
            {
                let ghost before = ids_view(ids@);
                proof {
                    assert(gv.take(i + 1).drop_last() =~= gv.take(i as int));
                    assert(gv.take(i + 1).last() == gv[i as int]);
                }
                if in_names(groups[i].1.as_slice(), name.as_str()) && !str_eq(groups[i].0.as_str(), from) {
                    ids.push(String::from_str(groups[i].0.as_str()));
                    proof {
                        assert(ids_view(ids@) =~= before.push(gv[i as int].0));
                    }
                }
                i += 1;
            }
            proof {
                assert(gv.take(n as int) =~= gv);
            }
        },
    }
    ids
}

} // verus!
