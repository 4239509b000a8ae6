//! How a player transfer between shards reports its outcome, and which
//! side of a transfer each of its steps belongs to.

use vstd::prelude::*;

use crate::digest::{hex, hex_string, random_byte};
use crate::shard_cluster::Settle;
use crate::shard_ids::{bad_id_message, shard_id_ok, validate_shard_id, CreateError};
use crate::text::{push_str, str_eq, str_len, text_len};

verus! {

/// A transfer that went through: the shard the player is in now, and the
/// ticket to connect to it with.
pub struct Transferred {
    pub shard: String,
    pub ticket: String,
}

/// Why a transfer did not go through.
#[derive(Debug, Clone, PartialEq, Eq)]
pub enum TransferError {
    /// A shard is not running (here or, in a cluster, anywhere).
    NotFound(String),
    InvalidId(String),
    /// The source has no entity for the subscriber.
    NoPlayer(String),
    /// A module does not transfer players.
    Unsupported(String),
    /// A module refused. The player is in the source.
    Refused(String),
    /// The subscriber is already being moved.
    Busy(String),
    Cluster(String),
}

/// The code each refusal travels under between machines.
pub open spec fn error_code(e: TransferError) -> Seq<char> {
    match e {
        TransferError::NotFound(_) => "SHARD_NOT_FOUND"@,
        TransferError::InvalidId(_) => "SHARD_ID_INVALID"@,
        TransferError::NoPlayer(_) => "SHARD_TRANSFER_NO_PLAYER"@,
        TransferError::Unsupported(_) => "SHARD_TRANSFER_UNSUPPORTED"@,
        TransferError::Refused(_) => "SHARD_TRANSFER_REFUSED"@,
        TransferError::Busy(_) => "SHARD_TRANSFER_BUSY"@,
        TransferError::Cluster(_) => "SHARD_CLUSTER_ERROR"@,
    }
}

/// What a refusal carries: an id, or a message.
pub open spec fn error_detail(e: TransferError) -> Seq<char> {
    match e {
        TransferError::NotFound(s) => s@,
        TransferError::InvalidId(s) => s@,
        TransferError::NoPlayer(s) => s@,
        TransferError::Unsupported(s) => s@,
        TransferError::Refused(s) => s@,
        TransferError::Busy(s) => s@,
        TransferError::Cluster(s) => s@,
    }
}

/// The codes a receiving machine knows; any other reads as a cluster
/// error.
pub open spec fn known_code(code: Seq<char>) -> bool {
    ||| code == "SHARD_NOT_FOUND"@
    ||| code == "SHARD_ID_INVALID"@
    ||| code == "SHARD_TRANSFER_NO_PLAYER"@
    ||| code == "SHARD_TRANSFER_UNSUPPORTED"@
    ||| code == "SHARD_TRANSFER_REFUSED"@
    ||| code == "SHARD_TRANSFER_BUSY"@
}

impl TransferError {
    pub fn code(&self) -> (c: &'static str)
        ensures
            c@ == error_code(*self),
    {
        match self {
            TransferError::NotFound(_) => "SHARD_NOT_FOUND",
            TransferError::InvalidId(_) => "SHARD_ID_INVALID",
            TransferError::NoPlayer(_) => "SHARD_TRANSFER_NO_PLAYER",
            TransferError::Unsupported(_) => "SHARD_TRANSFER_UNSUPPORTED",
            TransferError::Refused(_) => "SHARD_TRANSFER_REFUSED",
            TransferError::Busy(_) => "SHARD_TRANSFER_BUSY",
            TransferError::Cluster(_) => "SHARD_CLUSTER_ERROR",
        }
    }

    /// The refusal a code and message from another machine name.
    pub fn from_code(code: &str, message: String) -> (e: TransferError)
        ensures
            error_code(e) == (if known_code(code@) {
                code@
            } else {
                "SHARD_CLUSTER_ERROR"@
            }),
            error_detail(e) == message@,
    {
        if str_eq(code, "SHARD_NOT_FOUND") {
            TransferError::NotFound(message)
        } else if str_eq(code, "SHARD_ID_INVALID") {
            TransferError::InvalidId(message)
        } else if str_eq(code, "SHARD_TRANSFER_NO_PLAYER") {
            TransferError::NoPlayer(message)
        } else if str_eq(code, "SHARD_TRANSFER_UNSUPPORTED") {
            TransferError::Unsupported(message)
        } else if str_eq(code, "SHARD_TRANSFER_REFUSED") {
            TransferError::Refused(message)
        } else if str_eq(code, "SHARD_TRANSFER_BUSY") {
            TransferError::Busy(message)
        } else {
            TransferError::Cluster(message)
        }
    }

    /// The refusal as a sentence: a shard or subscriber named, or the
    /// message it carries.
    pub fn message(&self) -> (m: String)
        ensures
            m@ == (match *self {
                TransferError::NotFound(id) => "shard \""@ + id@ + "\" is not running"@,
                TransferError::NoPlayer(sid) => "subscriber \""@ + sid@
                    + "\" has no entity in the shard"@,
                _ => error_detail(*self),
            }),
    {
        match self {
            TransferError::NotFound(id) => {
                let mut m = String::from_str("shard \"");
                push_str(&mut m, id.as_str());
                push_str(&mut m, "\" is not running");
                m
            },
            TransferError::NoPlayer(sid) => {
                let mut m = String::from_str("subscriber \"");
                push_str(&mut m, sid.as_str());
                push_str(&mut m, "\" has no entity in the shard");
                m
            },
            TransferError::InvalidId(m) => m.clone(),
            TransferError::Unsupported(m) => m.clone(),
            TransferError::Refused(m) => m.clone(),
            TransferError::Busy(m) => m.clone(),
            TransferError::Cluster(m) => m.clone(),
        }
    }
}

/// A refusal survives the trip between machines: reading back its code,
/// with its message, gives a refusal of the same kind with that message.
pub proof fn law_transfer_error_round_trip(e: TransferError, back: TransferError)
    requires
        error_code(back) == (if known_code(error_code(e)) {
            error_code(e)
        } else {
            "SHARD_CLUSTER_ERROR"@
        }),
    ensures
        error_code(back) == error_code(e),
{
    reveal_strlit("SHARD_CLUSTER_ERROR");
    reveal_strlit("SHARD_NOT_FOUND");
    reveal_strlit("SHARD_ID_INVALID");
    reveal_strlit("SHARD_TRANSFER_NO_PLAYER");
    reveal_strlit("SHARD_TRANSFER_UNSUPPORTED");
    reveal_strlit("SHARD_TRANSFER_REFUSED");
    reveal_strlit("SHARD_TRANSFER_BUSY");
    if let TransferError::Cluster(_) = e {
        assert("SHARD_CLUSTER_ERROR"@[6] != "SHARD_NOT_FOUND"@[6]);
        assert("SHARD_CLUSTER_ERROR"@[6] != "SHARD_ID_INVALID"@[6]);
        assert("SHARD_CLUSTER_ERROR"@[6] != "SHARD_TRANSFER_NO_PLAYER"@[6]);
        assert("SHARD_CLUSTER_ERROR"@[6] != "SHARD_TRANSFER_UNSUPPORTED"@[6]);
        assert("SHARD_CLUSTER_ERROR"@[6] != "SHARD_TRANSFER_REFUSED"@[6]);
        assert("SHARD_CLUSTER_ERROR"@[6] != "SHARD_TRANSFER_BUSY"@[6]);
    }
}

/// A step of a transfer that may be left unsettled.
#[derive(Debug, Clone, Copy, PartialEq, Eq, Hash)]
pub enum Step {
    /// The source removed the player; the row may not exist.
    Begin,
    /// The target added the player; the row may not be `in`.
    Accept,
    /// The source took the player back; the row may not be `back`.
    Back,
}

/// Which shard an unsettled step is about.
#[derive(Debug, Clone, Copy, PartialEq, Eq, Hash)]
pub enum Role {
    Source,
    Target,
}

impl Step {
    /// The target accepts; the source begins and takes back.
    pub fn role(self) -> (r: Role)
        ensures
            r == (match self {
                Step::Accept => Role::Target,
                _ => Role::Source,
            }),
    {
        match self {
            Step::Accept => Role::Target,
            Step::Begin | Step::Back => Role::Source,
        }
    }
}

/// A refusal of kind `code` (see [`error_code`]) carrying `detail`.
pub open spec fn refusal_is(e: TransferError, code: Seq<char>, detail: Seq<char>) -> bool {
    error_code(e) == code && error_detail(e) == detail
}

// ---------------------------------------------------------------------------
// Starting a transfer
// ---------------------------------------------------------------------------

/// Why a transfer request is refused before anything moves, as a code and a
/// message: a shard id that is not valid, a subscriber id that is not 1 to
/// 256 bytes, or the same shard on both ends.
pub open spec fn request_refusal(from: Seq<char>, subscriber: Seq<char>, to: Seq<char>) -> Option<
    (Seq<char>, Seq<char>),
> {
    if !shard_id_ok(from) {
        Some(("SHARD_ID_INVALID"@, bad_id_message(from)))
    } else if !shard_id_ok(to) {
        Some(("SHARD_ID_INVALID"@, bad_id_message(to)))
    } else if !(1 <= text_len(subscriber) <= 256) {
        Some(("SHARD_ID_INVALID"@, "a subscriber id is 1 to 256 bytes"@))
    } else if from == to {
        Some(("SHARD_TRANSFER_REFUSED"@, "the source and the target are the same shard"@))
    } else {
        None
    }
}

/// Check a request to move `subscriber` from shard `from` to shard `to`
/// (see [`request_refusal`]).
pub fn check_request(from: &str, subscriber: &str, to: &str) -> (r: Result<(), TransferError>)
    ensures
        match request_refusal(from@, subscriber@, to@) {
            None => r is Ok,
            Some((code, detail)) => r matches Err(e) && refusal_is(e, code, detail),
        },
{
    match validate_shard_id(from) {
        Ok(()) => {},
        Err(CreateError::InvalidId(why)) => {
            return Err(TransferError::InvalidId(why));
        },
        Err(_) => {
            return Err(TransferError::InvalidId(String::new()));
        },
    }
    match validate_shard_id(to) {
        Ok(()) => {},
        Err(CreateError::InvalidId(why)) => {
            return Err(TransferError::InvalidId(why));
        },
        Err(_) => {
            return Err(TransferError::InvalidId(String::new()));
        },
    }
    let n = str_len(subscriber);
    if n == 0 || n > 256 {
        return Err(TransferError::InvalidId(String::from_str("a subscriber id is 1 to 256 bytes")));
    }
    if str_eq(from, to) {
        return Err(
            TransferError::Refused(
                String::from_str("the source and the target are the same shard"),
            ),
        );
    }
    Ok(())
}

/// A new transfer id: sixteen random bytes in hexadecimal.
pub fn new_transfer_id() -> (id: String)
    ensures
        exists|b: Seq<u8>| b.len() == 16 && id@ == hex(b),
{
    let mut b: Vec<u8> = Vec::new();
    let mut k: usize = 0;
    while k < 16
        invariant
            k <= 16,
            b@.len() == k,
        decreases 16 - k,
    {
        b.push(random_byte());
        k += 1;
    }
    hex_string(b.as_slice())
}

// ---------------------------------------------------------------------------
// The steps against the transfer row
// ---------------------------------------------------------------------------

/// One run of a shard on this machine: the lease epoch it runs under (0
/// without a directory) and a number unique to the run.
#[derive(Debug, Clone, Copy, PartialEq, Eq, Structural)]
pub struct Instance {
    pub epoch: i64,
    pub serial: u64,
}

/// What an unsettled step of a transfer says of the shard's run `at`.
#[derive(Debug, Clone, Copy, PartialEq, Eq, Structural)]
pub enum CopyCheck {
    /// The step left a copy of the player in this run.
    Copy,
    /// No copy is here.
    NoCopy,
    /// The step belongs to an earlier run, whose copy stopped with it:
    /// forget the step.
    Stale,
}

/// Whether run `at` holds a copy of the player an unsettled step left
/// (`entry`: the step and the run it was made in). Only accepting and
/// taking back add the player.
pub fn copy_check(entry: Option<(Step, Instance)>, at: Instance) -> (c: CopyCheck)
    ensures
        c == (match entry {
            Some((step, u)) => if u != at {
                CopyCheck::Stale
            } else if step != Step::Begin {
                CopyCheck::Copy
            } else {
                CopyCheck::NoCopy
            },
            None => CopyCheck::NoCopy,
        }),
{
    match entry {
        Some((step, u)) => {
            if u.epoch != at.epoch || u.serial != at.serial {
                CopyCheck::Stale
            } else {
                match step {
                    Step::Begin => CopyCheck::NoCopy,
                    _ => CopyCheck::Copy,
                }
            }
        },
        None => CopyCheck::NoCopy,
    }
}

/// How a step against the row ended: its result, whether the player copy
/// the step made must be removed again (or, for the source's first step,
/// the player put back), and whether the row could not be read, so that
/// the step stays unsettled for a later round.
pub struct StepEnd<T> {
    pub result: Result<T, TransferError>,
    pub undo: bool,
    pub unknown: bool,
}

/// The source's first step after writing the row: done when the row was
/// written; when the shard was not held, nothing was written and the
/// player goes back.
pub fn begin_recorded(from: &str, recorded: bool) -> (r: StepEnd<()>)
    ensures
        recorded ==> r.result is Ok && !r.undo,
        !recorded ==> r.undo && (r.result matches Err(e) && refusal_is(
            e,
            "SHARD_NOT_FOUND"@,
            from@,
        )),
        !r.unknown,
{
    if recorded {
        StepEnd { result: Ok(()), undo: false, unknown: false }
    } else {
        StepEnd {
            result: Err(TransferError::NotFound(String::from_str(from))),
            undo: true,
            unknown: false,
        }
    }
}

/// The source's first step after writing the row failed with `e`, and the
/// row then read `confirmed`: a row means the write landed; no row means
/// it did not, and the player goes back; an unreadable row leaves the step
/// unsettled.
pub fn begin_unconfirmed(e: TransferError, confirmed: Result<Option<&str>, &str>) -> (r: StepEnd<()>)
    ensures
        match confirmed {
            Ok(Some(_)) => r.result is Ok && !r.undo && !r.unknown,
            Ok(None) => r.result == Err::<(), TransferError>(e) && r.undo && !r.unknown,
            Err(_) => r.result == Err::<(), TransferError>(e) && !r.undo && r.unknown,
        },
{
    match confirmed {
        Ok(Some(_)) => StepEnd { result: Ok(()), undo: false, unknown: false },
        Ok(None) => StepEnd { result: Err(e), undo: true, unknown: false },
        Err(_) => StepEnd { result: Err(e), undo: false, unknown: true },
    }
}

/// What the target does once it read the transfer's row.
#[derive(Debug, Clone, PartialEq, Eq)]
pub enum AcceptPlan {
    /// The row is `out`: add the player, unless a copy is here, and settle
    /// the row.
    Settle { add_player: bool },
    /// The row is `in`: the player is here; it arrived when a copy is here.
    Done { arrived: bool },
    /// The row is settled otherwise, or missing: refuse, removing a copy
    /// that is here.
    Refuse { remove_copy: bool, error: TransferError },
}

/// The target's plan for transfer `id` when its row reads `status` and
/// a copy is here or not.
pub open spec fn accept_plan_is(id: Seq<char>, status: Option<Seq<char>>, has_copy: bool, p: AcceptPlan) -> bool {
    if status == Some("out"@) {
        p == (AcceptPlan::Settle { add_player: !has_copy })
    } else if status == Some("in"@) {
        p == (AcceptPlan::Done { arrived: has_copy })
    } else {
        p matches AcceptPlan::Refuse { remove_copy, error } && remove_copy == has_copy && refusal_is(
            error,
            "SHARD_TRANSFER_REFUSED"@,
            match status {
                Some(s) => "transfer "@ + id + " is already "@ + s,
                None => "no transfer "@ + id,
            },
        )
    }
}

pub open spec fn opt_str(o: Option<&str>) -> Option<Seq<char>> {
    match o {
        Some(s) => Some(s@),
        None => None,
    }
}

/// The target's plan (see [`accept_plan_is`]).
pub fn accept_plan(id: &str, status: Option<&str>, has_copy: bool) -> (p: AcceptPlan)
    ensures
        accept_plan_is(id@, opt_str(status), has_copy, p),
{
    match status {
        Some(s) => {
            if str_eq(s, "out") {
                AcceptPlan::Settle { add_player: !has_copy }
            } else if str_eq(s, "in") {
                AcceptPlan::Done { arrived: has_copy }
            } else {
                let mut m = String::from_str("transfer ");
                push_str(&mut m, id);
                push_str(&mut m, " is already ");
                push_str(&mut m, s);
                AcceptPlan::Refuse { remove_copy: has_copy, error: TransferError::Refused(m) }
            }
        },
        None => {
            let mut m = String::from_str("no transfer ");
            push_str(&mut m, id);
            AcceptPlan::Refuse { remove_copy: has_copy, error: TransferError::Refused(m) }
        },
    }
}

/// The target's settling of transfer `id` into shard `to` answered `s`:
/// done; taken by the source first (the player is removed again); or the
/// shard no longer held here (likewise).
pub fn accept_settled(id: &str, to: &str, s: Settle) -> (r: StepEnd<()>)
    ensures
        !r.unknown,
        match s {
            Settle::Done => r.result is Ok && !r.undo,
            Settle::Taken => r.undo && (r.result matches Err(e) && refusal_is(
                e,
                "SHARD_TRANSFER_REFUSED"@,
                "transfer "@ + id@ + " was settled by the source"@,
            )),
            Settle::NotHeld => r.undo && (r.result matches Err(e) && refusal_is(
                e,
                "SHARD_CLUSTER_ERROR"@,
                "this machine no longer holds shard \""@ + to@ + "\""@,
            )),
        },
{
    match s {
        Settle::Done => StepEnd { result: Ok(()), undo: false, unknown: false },
        Settle::Taken => {
            let mut m = String::from_str("transfer ");
            push_str(&mut m, id);
            push_str(&mut m, " was settled by the source");
            StepEnd { result: Err(TransferError::Refused(m)), undo: true, unknown: false }
        },
        Settle::NotHeld => {
            let mut m = String::from_str("this machine no longer holds shard \"");
            push_str(&mut m, to);
            push_str(&mut m, "\"");
            StepEnd { result: Err(TransferError::Cluster(m)), undo: true, unknown: false }
        },
    }
}

/// The target's settling failed with `e`, and the row then read
/// `confirmed`: `in` means the settling landed; any other status, or no
/// row, means it did not, and the player is removed again; an unreadable
/// row leaves the step unsettled, the copy kept.
pub fn accept_unconfirmed(e: TransferError, confirmed: Result<Option<&str>, &str>) -> (r: StepEnd<()>)
    ensures
        match confirmed {
            Ok(status) => if opt_str(status) == Some("in"@) {
                r.result is Ok && !r.undo && !r.unknown
            } else {
                r.result == Err::<(), TransferError>(e) && r.undo && !r.unknown
            },
            Err(_) => r.result == Err::<(), TransferError>(e) && !r.undo && r.unknown,
        },
{
    match confirmed {
        Ok(Some(s)) => {
            if str_eq(s, "in") {
                StepEnd { result: Ok(()), undo: false, unknown: false }
            } else {
                StepEnd { result: Err(e), undo: true, unknown: false }
            }
        },
        Ok(None) => StepEnd { result: Err(e), undo: true, unknown: false },
        Err(_) => StepEnd { result: Err(e), undo: false, unknown: true },
    }
}

/// How taking the player back ended.
#[derive(Debug, Clone, Copy, PartialEq, Eq, Structural)]
pub enum Back {
    /// The source has the player.
    Returned,
    /// The target took it first.
    TargetHas,
}

/// What the source does to take the player back, once it read the row.
#[derive(Debug, Clone, PartialEq, Eq)]
pub enum BackPlan {
    /// The row is `out`: add the player, unless a copy is here, and settle
    /// the row.
    Settle { add_player: bool },
    /// The row is settled: `back` for the source (the copy here is the
    /// player), `in` for the target (a copy here is removed).
    Done { back: Back, remove_copy: bool },
    /// There is no such transfer to settle.
    Fail(TransferError),
}

/// The source's plan for taking the player of transfer `id` back, when its
/// row reads `status` and a copy is here or not.
pub open spec fn back_plan_is(id: Seq<char>, status: Option<Seq<char>>, has_copy: bool, p: BackPlan) -> bool {
    if status == Some("out"@) {
        p == (BackPlan::Settle { add_player: !has_copy })
    } else if status == Some("back"@) {
        p == (BackPlan::Done { back: Back::Returned, remove_copy: false })
    } else if status == Some("in"@) {
        p == (BackPlan::Done { back: Back::TargetHas, remove_copy: has_copy })
    } else {
        p matches BackPlan::Fail(e) && refusal_is(e, "SHARD_CLUSTER_ERROR"@, "no transfer "@ + id)
    }
}

/// The source's plan (see [`back_plan_is`]).
pub fn back_plan(id: &str, status: Option<&str>, has_copy: bool) -> (p: BackPlan)
    ensures
        back_plan_is(id@, opt_str(status), has_copy, p),
{
    let fail = || -> (e: TransferError)
        ensures
            refusal_is(e, "SHARD_CLUSTER_ERROR"@, "no transfer "@ + id@),
    {
        let mut m = String::from_str("no transfer ");
        push_str(&mut m, id);
        TransferError::Cluster(m)
    };
    match status {
        Some(s) => {
            if str_eq(s, "out") {
                BackPlan::Settle { add_player: !has_copy }
            } else if str_eq(s, "back") {
                BackPlan::Done { back: Back::Returned, remove_copy: false }
            } else if str_eq(s, "in") {
                BackPlan::Done { back: Back::TargetHas, remove_copy: has_copy }
            } else {
                BackPlan::Fail(fail())
            }
        },
        None => BackPlan::Fail(fail()),
    }
}

/// The source's settling of the row back, for shard `from`, answered `s`:
/// returned; taken by the target since (the player is removed again); or
/// the shard no longer held here (likewise).
pub fn back_settled(from: &str, s: Settle) -> (r: StepEnd<Back>)
    ensures
        !r.unknown,
        match s {
            Settle::Done => r.result == Ok::<Back, TransferError>(Back::Returned) && !r.undo,
            Settle::Taken => r.result == Ok::<Back, TransferError>(Back::TargetHas) && r.undo,
            Settle::NotHeld => r.undo && (r.result matches Err(e) && refusal_is(
                e,
                "SHARD_CLUSTER_ERROR"@,
                "this machine no longer holds shard \""@ + from@ + "\""@,
            )),
        },
{
    match s {
        Settle::Done => StepEnd { result: Ok(Back::Returned), undo: false, unknown: false },
        Settle::Taken => StepEnd { result: Ok(Back::TargetHas), undo: true, unknown: false },
        Settle::NotHeld => {
            let mut m = String::from_str("this machine no longer holds shard \"");
            push_str(&mut m, from);
            push_str(&mut m, "\"");
            StepEnd { result: Err(TransferError::Cluster(m)), undo: true, unknown: false }
        },
    }
}

/// The source's settling back failed with `e`, and the row then read
/// `confirmed`: `back` means it landed; `in` means the target has the
/// player (removed here again); any other status, or no row, means it did
/// not land (removed again); an unreadable row leaves the step unsettled.
pub fn back_unconfirmed(e: TransferError, confirmed: Result<Option<&str>, &str>) -> (r: StepEnd<Back>)
    ensures
        match confirmed {
            Ok(status) => if opt_str(status) == Some("back"@) {
                r.result == Ok::<Back, TransferError>(Back::Returned) && !r.undo && !r.unknown
            } else if opt_str(status) == Some("in"@) {
                r.result == Ok::<Back, TransferError>(Back::TargetHas) && r.undo && !r.unknown
            } else {
                r.result == Err::<Back, TransferError>(e) && r.undo && !r.unknown
            },
            Err(_) => r.result == Err::<Back, TransferError>(e) && !r.undo && r.unknown,
        },
{
    match confirmed {
        Ok(Some(s)) => {
            if str_eq(s, "back") {
                StepEnd { result: Ok(Back::Returned), undo: false, unknown: false }
            } else if str_eq(s, "in") {
                StepEnd { result: Ok(Back::TargetHas), undo: true, unknown: false }
            } else {
                StepEnd { result: Err(e), undo: true, unknown: false }
            }
        },
        Ok(None) => StepEnd { result: Err(e), undo: true, unknown: false },
        Err(_) => StepEnd { result: Err(e), undo: false, unknown: true },
    }
}

/// The player stays on one side of a transfer: whatever the row reads, the
/// target keeps the player only when the row is `in`, and the source only
/// when it is `back`, both after reading the row and after a settling whose
/// reply was lost.
pub proof fn law_one_side_keeps_the_player(
    id: Seq<char>,
    status: Option<Seq<char>>,
    copy_here: bool,
    copy_there: bool,
    a: AcceptPlan,
    b: BackPlan,
)
    requires
        accept_plan_is(id, status, copy_here, a),
        back_plan_is(id, status, copy_there, b),
    ensures
        a is Done ==> status == Some("in"@) && b == (BackPlan::Done {
            back: Back::TargetHas,
            remove_copy: copy_there,
        }),
        b matches BackPlan::Done { back, .. } && back == Back::Returned ==> status == Some("back"@)
            && a is Refuse,
        !(a is Done && (b matches BackPlan::Done { back, .. } && back == Back::Returned)),
{
    reveal_strlit("in");
    reveal_strlit("out");
    reveal_strlit("back");
    assert("in"@.len() != "out"@.len() && "back"@.len() != "out"@.len() && "back"@.len()
        != "in"@.len());
}

// ---------------------------------------------------------------------------
// Finishing moves
// ---------------------------------------------------------------------------

/// How a move whose delivery failed ends, once the source tried to take the
/// player back.
#[derive(Debug, Clone, PartialEq, Eq)]
pub enum AfterDelivery {
    /// The target has the player after all (its reply was lost).
    Completed,
    /// The source has the player again; the delivery's error is reported.
    Returned(TransferError),
    /// Neither is sure: the move waits for a round, and this error is
    /// reported.
    Waiting(TransferError),
}

/// The end of a move whose delivery failed with `e`, when taking the
/// player back gave `back`.
pub fn after_delivery(e: TransferError, back: Result<Back, TransferError>) -> (r: AfterDelivery)
    ensures
        r == (match back {
            Ok(Back::Returned) => AfterDelivery::Returned(e),
            Ok(Back::TargetHas) => AfterDelivery::Completed,
            Err(x) => AfterDelivery::Waiting(x),
        }),
{
    match back {
        Ok(Back::Returned) => AfterDelivery::Returned(e),
        Ok(Back::TargetHas) => AfterDelivery::Completed,
        Err(x) => AfterDelivery::Waiting(x),
    }
}

/// What a round does with a move it found waiting or stale.
#[derive(Debug, Clone, Copy, PartialEq, Eq, Structural)]
pub enum RoundTurn {
    /// Leave it: seen already this round, or a live call or an unsettled
    /// step owns it.
    Skip,
    /// Forget the registration of the earlier run: the source stopped or
    /// moved, or a newer run registered the move itself.
    Forget(Instance),
    /// Finish it on the source's current run.
    Work(Instance),
}

/// A round's turn for a move: `seen` when the round met it already,
/// `owned` when a live call or an unsettled step has it, `current` the
/// source's run here (if it runs here), `registered` the run that
/// registered the move as waiting (for a stale row, none).
pub fn round_turn(seen: bool, owned: bool, current: Option<Instance>, registered: Option<Instance>) -> (t: RoundTurn)
    ensures
        t == (if seen || owned {
            RoundTurn::Skip
        } else {
            match current {
                None => match registered {
                    Some(old) => RoundTurn::Forget(old),
                    None => RoundTurn::Skip,
                },
                Some(at) => match registered {
                    Some(old) => if old != at {
                        RoundTurn::Forget(old)
                    } else {
                        RoundTurn::Work(at)
                    },
                    None => RoundTurn::Work(at),
                },
            }
        }),
{
    if seen || owned {
        return RoundTurn::Skip;
    }
    match current {
        None => match registered {
            Some(old) => RoundTurn::Forget(old),
            None => RoundTurn::Skip,
        },
        Some(at) => match registered {
            Some(old) => if old.epoch != at.epoch || old.serial != at.serial {
                RoundTurn::Forget(old)
            } else {
                RoundTurn::Work(at)
            },
            None => RoundTurn::Work(at),
        },
    }
}

/// How a round finishes a move, from its row.
#[derive(Debug, Clone, Copy, PartialEq, Eq, Structural)]
pub enum Finish {
    /// `in`: the target has the player; tell the source's connections.
    Complete,
    /// `back`, or no row: the source has the player.
    Return,
    /// Still `out`: deliver the player again, or take it back.
    Deliver,
    /// The row could not be read: try next round.
    Later,
}

/// How a round finishes a move whose row read `confirmed`.
pub fn round_finish(confirmed: Result<Option<&str>, &str>) -> (f: Finish)
    ensures
        f == (match confirmed {
            Ok(Some(s)) => if s@ == "in"@ {
                Finish::Complete
            } else if s@ == "back"@ {
                Finish::Return
            } else {
                Finish::Deliver
            },
            Ok(None) => Finish::Return,
            Err(_) => Finish::Later,
        }),
{
    match confirmed {
        Ok(Some(s)) => {
            if str_eq(s, "in") {
                Finish::Complete
            } else if str_eq(s, "back") {
                Finish::Return
            } else {
                Finish::Deliver
            }
        },
        Ok(None) => Finish::Return,
        Err(_) => Finish::Later,
    }
}

/// How old, in milliseconds, a row whose source was stopped gets before a
/// target that keeps refusing it abandons it.
pub const ABANDON_AFTER_MS: i64 = 1_800_000;

/// What a round does after offering a move from a stopped shard to its
/// target.
#[derive(Debug, Clone, Copy, PartialEq, Eq, Structural)]
pub enum Ownerless {
    /// The target took the player.
    Taken,
    /// The target kept refusing for too long: abandon the move, its state
    /// kept in the row.
    Abandon,
    /// Offer it again in a minute.
    RetryLater,
}

/// The next step for a move from a stopped shard, `age_ms` old, whose
/// target answered `accepted`: a refusal by the module, once older than
/// [`ABANDON_AFTER_MS`], abandons it; any other failure is retried.
pub fn ownerless_next(accepted: &Result<(), TransferError>, age_ms: i64) -> (o: Ownerless)
    ensures
        o == (match accepted {
            Ok(()) => Ownerless::Taken,
            Err(e) => if (e is Refused || e is Unsupported) && age_ms > ABANDON_AFTER_MS {
                Ownerless::Abandon
            } else {
                Ownerless::RetryLater
            },
        }),
{
    match accepted {
        Ok(()) => Ownerless::Taken,
        Err(TransferError::Refused(_)) | Err(TransferError::Unsupported(_)) => {
            if age_ms > ABANDON_AFTER_MS {
                Ownerless::Abandon
            } else {
                Ownerless::RetryLater
            }
        },
        Err(_) => Ownerless::RetryLater,
    }
}

/// How long a ticket for the target is valid, and how long the source
/// repeats the transfer notice, in seconds.
pub const TICKET_TTL_SECS: u64 = 600;

/// For a move that ended `age_ms` ago, when a source restarts: how many
/// seconds its notice is still repeated (none once [`TICKET_TTL_SECS`]
/// passed), and how many seconds ago it was issued.
pub fn recent_move_left(age_ms: i64) -> (r: (u64, u64))
    ensures
        r.1 == (if age_ms < 0 {
            0
        } else {
            age_ms / 1000
        }),
        r.0 == (if r.1 >= TICKET_TTL_SECS {
            0
        } else {
            TICKET_TTL_SECS - r.1
        }),
{
    let age: u64 = if age_ms < 0 {
        0
    } else {
        (age_ms as u64) / 1000
    };
    let left = if age >= TICKET_TTL_SECS {
        0
    } else {
        TICKET_TTL_SECS - age
    };
    (left, age)
}

/// How a round settles a step of the source whose commit was unknown.
#[derive(Debug, Clone, Copy, PartialEq, Eq, Structural)]
pub enum Resolution {
    /// The move waits for a round to finish it from its row.
    Wait,
    /// The row never landed: the player goes back into the source.
    PutBack,
    /// The target has the player: tell the source's connections.
    Complete,
    /// The source has the player again.
    Return,
    /// The row could not be read: try next round.
    Later,
}

/// The resolution of a first step whose row then read `confirmed`: a row
/// means the move goes on; none, that the player goes back.
pub fn begin_resolution(confirmed: Result<Option<&str>, &str>) -> (r: Resolution)
    ensures
        r == match confirmed {
            Ok(Some(_)) => Resolution::Wait,
            Ok(None) => Resolution::PutBack,
            Err(_) => Resolution::Later,
        },
{
    match confirmed {
        Ok(Some(_)) => Resolution::Wait,
        Ok(None) => Resolution::PutBack,
        Err(_) => Resolution::Later,
    }
}

/// The resolution of a take-back settled again, which gave `back`.
pub fn back_resolution(back: &Result<Back, TransferError>) -> (r: Resolution)
    ensures
        r == match back {
            Ok(Back::Returned) => Resolution::Return,
            Ok(Back::TargetHas) => Resolution::Complete,
            Err(_) => Resolution::Wait,
        },
{
    match back {
        Ok(Back::Returned) => Resolution::Return,
        Ok(Back::TargetHas) => Resolution::Complete,
        Err(_) => Resolution::Wait,
    }
}


// ---------------------------------------------------------------------------
// Moves that modules ask for
// ---------------------------------------------------------------------------

/// A move a module asked for that failed is not tried again for this long,
/// in milliseconds.
pub const REQUEST_BACKOFF_MS: u64 = 5_000;

/// A move a module asked for: its player's source shard, the player, and
/// the target shard.
#[derive(Debug, Clone, PartialEq, Eq)]
pub struct MoveRequest {
    pub from: String,
    pub subscriber: String,
    pub to: String,
}

impl MoveRequest {
    pub open spec fn key(&self) -> (Seq<char>, Seq<char>, Seq<char>) {
        (self.from@, self.subscriber@, self.to@)
    }
}

/// A failed request, as the model sees it: the request and until when it
/// is not tried again.
pub type Backoff = ((Seq<char>, Seq<char>, Seq<char>), u64);

/// The failures still in their backoff at `now`, in order.
pub open spec fn still_backing_off(s: Seq<Backoff>, now: u64) -> Seq<Backoff>
    decreases s.len(),
{
    if s.len() == 0 {
        s
    } else if s.last().1 > now {
        still_backing_off(s.drop_last(), now).push(s.last())
    } else {
        still_backing_off(s.drop_last(), now)
    }
}

/// `s` without the entries of `key`.
pub open spec fn without_key(
    s: Seq<Backoff>,
    key: (Seq<char>, Seq<char>, Seq<char>),
) -> Seq<Backoff>
    decreases s.len(),
{
    if s.len() == 0 {
        s
    } else if s.last().0 == key {
        without_key(s.drop_last(), key)
    } else {
        without_key(s.drop_last(), key).push(s.last())
    }
}

/// Whether `s` holds an entry for `key`.
pub open spec fn backs_off(s: Seq<Backoff>, key: (Seq<char>, Seq<char>, Seq<char>)) -> bool {
    exists|i: int| 0 <= i < s.len() && #[trigger] s[i].0 == key
}

proof fn lemma_still_backing_off(s: Seq<Backoff>, now: u64)
    ensures
        forall|e: Backoff| #[trigger]
            still_backing_off(s, now).contains(e) <==> (s.contains(e) && e.1 > now),
    decreases s.len(),
{
    if s.len() > 0 {
        let init = s.drop_last();
        let r = still_backing_off(init, now);
        let kept = still_backing_off(s, now);
        lemma_still_backing_off(init, now);
        assert forall|e: Backoff| #[trigger] kept.contains(e) <==> (s.contains(e) && e.1 > now) by {
            if s.contains(e) && e.1 > now {
                let i = choose|i: int| 0 <= i < s.len() && s[i] == e;
                if i < s.len() - 1 {
                    assert(init[i] == e);
                    assert(init.contains(e));
                    assert(r.contains(e));
                    let j = choose|j: int| 0 <= j < r.len() && r[j] == e;
                    assert(kept[j] == e);
                } else {
                    assert(kept == r.push(e));
                    assert(kept[r.len() as int] == e);
                }
            }
            if kept.contains(e) {
                let j = choose|j: int| 0 <= j < kept.len() && kept[j] == e;
                if j < r.len() {
                    assert(r[j] == e);
                    assert(r.contains(e));
                    assert(init.contains(e));
                    let i = choose|i: int| 0 <= i < init.len() && init[i] == e;
                    assert(s[i] == e);
                } else {
                    assert(s.last().1 > now);
                    assert(kept == r.push(s.last()));
                    assert(e == s.last());
                    assert(s[s.len() - 1] == e);
                }
            }
        }
    }
}

proof fn lemma_without_key(s: Seq<Backoff>, key: (Seq<char>, Seq<char>, Seq<char>))
    ensures
        forall|e: Backoff| #[trigger]
            without_key(s, key).contains(e) <==> (s.contains(e) && e.0 != key),
    decreases s.len(),
{
    if s.len() > 0 {
        let init = s.drop_last();
        let r = without_key(init, key);
        let kept = without_key(s, key);
        lemma_without_key(init, key);
        assert forall|e: Backoff| #[trigger] kept.contains(e) <==> (s.contains(e) && e.0 != key) by {
            if s.contains(e) && e.0 != key {
                let i = choose|i: int| 0 <= i < s.len() && s[i] == e;
                if i < s.len() - 1 {
                    assert(init[i] == e);
                    assert(init.contains(e));
                    assert(r.contains(e));
                    let j = choose|j: int| 0 <= j < r.len() && r[j] == e;
                    assert(kept[j] == e);
                } else {
                    assert(kept == r.push(e));
                    assert(kept[r.len() as int] == e);
                }
            }
            if kept.contains(e) {
                let j = choose|j: int| 0 <= j < kept.len() && kept[j] == e;
                if j < r.len() {
                    assert(r[j] == e);
                    assert(r.contains(e));
                    assert(init.contains(e));
                    let i = choose|i: int| 0 <= i < init.len() && init[i] == e;
                    assert(s[i] == e);
                } else {
                    assert(s.last().0 != key);
                    assert(kept == r.push(s.last()));
                    assert(e == s.last());
                    assert(s[s.len() - 1] == e);
                }
            }
        }
    }
}

proof fn lemma_backs_off_contains(s: Seq<Backoff>, key: (Seq<char>, Seq<char>, Seq<char>))
    ensures
        backs_off(s, key) <==> exists|e: Backoff| s.contains(e) && e.0 == key,
{
    if backs_off(s, key) {
        let i = choose|i: int| 0 <= i < s.len() && #[trigger] s[i].0 == key;
        assert(s.contains(s[i]));
    }
    if exists|e: Backoff| s.contains(e) && e.0 == key {
        let e = choose|e: Backoff| s.contains(e) && e.0 == key;
        let i = choose|i: int| 0 <= i < s.len() && s[i] == e;
        assert(s[i].0 == key);
    }
}

/// The moves modules asked for that failed recently, each with the time
/// until which it is not tried again.
pub struct RequestGate {
    failed: Vec<(MoveRequest, u64)>,
}

impl View for RequestGate {
    type V = Seq<Backoff>;

    closed spec fn view(&self) -> Seq<Backoff> {
        Seq::new(self.failed@.len(), |i: int| (self.failed@[i].0.key(), self.failed@[i].1))
    }
}

fn same_request(a: &MoveRequest, b: &MoveRequest) -> (r: bool)
    ensures
        r == (a.key() == b.key()),
{
    str_eq(a.from.as_str(), b.from.as_str()) && str_eq(a.subscriber.as_str(), b.subscriber.as_str())
        && str_eq(a.to.as_str(), b.to.as_str())
}

impl RequestGate {
    /// No failures yet.
    pub fn new() -> (g: RequestGate)
        ensures
            g@ == Seq::<Backoff>::empty(),
    {
        let g = RequestGate { failed: Vec::new() };
        proof {
            assert(g@ =~= Seq::<Backoff>::empty());
        }
        g
    }

    /// Whether to try `request` at `now` (milliseconds on a monotonic
    /// clock): failures whose backoff passed are forgotten first, then a
    /// request is refused while its player is `moving` or while its last
    /// failure is still backing off.
    pub fn should_try(&mut self, request: &MoveRequest, moving: bool, now: u64) -> (go: bool)
        ensures
            final(self)@ == still_backing_off(old(self)@, now),
            go == (!moving && !backs_off(final(self)@, request.key())),
    {
        let ghost before = self@;
        let mut kept: Vec<(MoveRequest, u64)> = Vec::new();
        let mut k: usize = 0;
        let mut found = false;
        while k < self.failed.len()
            invariant
                k <= self.failed@.len(),
                before == self@,
                Seq::new(kept@.len(), |i: int| (kept@[i].0.key(), kept@[i].1)) == still_backing_off(
                    before.take(k as int),
                    now,
                ),
                found == backs_off(still_backing_off(before.take(k as int), now), request.key()),
            decreases self.failed@.len() - k,
        {
            let ghost t = before.take(k + 1);
            proof {
                assert(t.drop_last() =~= before.take(k as int));
                assert(t.last() == before[k as int]);
            }
            let entry = &self.failed[k];
            if entry.1 > now {
                let hit = same_request(&entry.0, request);
                let ghost prev = Seq::new(kept@.len(), |i: int| (kept@[i].0.key(), kept@[i].1));
                kept.push((entry.0.clone_request(), entry.1));
                proof {
                    let cur = Seq::new(kept@.len(), |i: int| (kept@[i].0.key(), kept@[i].1));
                    assert(cur =~= prev.push(before[k as int]));
                    let r = still_backing_off(t, now);
                    assert(r == prev.push(before[k as int]));
                    if hit {
                        assert(r[r.len() - 1].0 == request.key());
                    }
                    if backs_off(r, request.key()) && !hit {
                        let i = choose|i: int| 0 <= i < r.len() && #[trigger] r[i].0 == request.key();
                        assert(prev[i].0 == request.key());
                    }
                    if backs_off(prev, request.key()) {
                        let i = choose|i: int|
                            0 <= i < prev.len() && #[trigger] prev[i].0 == request.key();
                        assert(r[i].0 == request.key());
                    }
                }
                found = found || hit;
            } else {
                proof {
                    assert(still_backing_off(t, now) == still_backing_off(before.take(k as int), now));
                }
            }
            k += 1;
        }
        proof {
            assert(before.take(self.failed@.len() as int) =~= before);
        }
        self.failed = kept;
        proof {
            assert(self@ =~= still_backing_off(before, now));
        }
        !moving && !found
    }

    /// Note that `request` failed at `now`: it is not tried again for
    /// [`REQUEST_BACKOFF_MS`], whatever an earlier failure of it said.
    pub fn failed(&mut self, request: &MoveRequest, now: u64)
        requires
            now + REQUEST_BACKOFF_MS <= u64::MAX,
        ensures
            final(self)@ == without_key(old(self)@, request.key()).push(
                (request.key(), (now + REQUEST_BACKOFF_MS) as u64),
            ),
    {
        let ghost before = self@;
        let mut kept: Vec<(MoveRequest, u64)> = Vec::new();
        let mut k: usize = 0;
        while k < self.failed.len()
            invariant
                k <= self.failed@.len(),
                before == self@,
                Seq::new(kept@.len(), |i: int| (kept@[i].0.key(), kept@[i].1)) == without_key(
                    before.take(k as int),
                    request.key(),
                ),
            decreases self.failed@.len() - k,
        {
            let ghost t = before.take(k + 1);
            proof {
                assert(t.drop_last() =~= before.take(k as int));
                assert(t.last() == before[k as int]);
            }
            let entry = &self.failed[k];
            if !same_request(&entry.0, request) {
                let ghost prev = Seq::new(kept@.len(), |i: int| (kept@[i].0.key(), kept@[i].1));
                kept.push((entry.0.clone_request(), entry.1));
                proof {
                    let cur = Seq::new(kept@.len(), |i: int| (kept@[i].0.key(), kept@[i].1));
                    assert(cur =~= prev.push(before[k as int]));
                }
            }
            k += 1;
        }
        proof {
            assert(before.take(self.failed@.len() as int) =~= before);
        }
        let ghost prev = Seq::new(kept@.len(), |i: int| (kept@[i].0.key(), kept@[i].1));
        kept.push((request.clone_request(), now + REQUEST_BACKOFF_MS));
        self.failed = kept;
        proof {
            assert(self@ =~= prev.push((request.key(), (now + REQUEST_BACKOFF_MS) as u64)));
        }
    }
}

impl MoveRequest {
    /// A copy of the request.
    pub fn clone_request(&self) -> (r: MoveRequest)
        ensures
            r.key() == self.key(),
    {
        MoveRequest {
            from: self.from.clone(),
            subscriber: self.subscriber.clone(),
            to: self.to.clone(),
        }
    }
}

/// A request that failed is refused until its backoff has passed, and
/// tried again (its player not moving) once it has.
pub proof fn law_request_backoff(
    failures: Seq<Backoff>,
    key: (Seq<char>, Seq<char>, Seq<char>),
    failed_at: u64,
    now: u64,
)
    requires
        failed_at + REQUEST_BACKOFF_MS <= u64::MAX,
    ensures
        ({
            let after = without_key(failures, key).push((key, (failed_at + REQUEST_BACKOFF_MS) as u64));
            backs_off(still_backing_off(after, now), key) <==> now < failed_at + REQUEST_BACKOFF_MS
        }),
{
    let u = (failed_at + REQUEST_BACKOFF_MS) as u64;
    let after = without_key(failures, key).push((key, u));
    let kept = still_backing_off(after, now);
    lemma_without_key(failures, key);
    lemma_still_backing_off(after, now);
    lemma_backs_off_contains(kept, key);
    if now < failed_at + REQUEST_BACKOFF_MS {
        assert(after.contains((key, u))) by {
            assert(after[after.len() - 1] == (key, u));
        }
        assert(kept.contains((key, u)));
    } else {
        assert forall|e: Backoff| kept.contains(e) implies e.0 != key by {
            assert(after.contains(e) && e.1 > now);
            let i = choose|i: int| 0 <= i < after.len() && after[i] == e;
            if i < after.len() - 1 {
                assert(without_key(failures, key)[i] == e);
                assert(without_key(failures, key).contains(e));
            } else {
                assert(e == (key, u));
            }
        }
    }
}

/// A transfer request goes ahead exactly when both shard ids are valid,
/// the subscriber id is 1 to 256 bytes and the two shards differ: a player
/// is never moved to the shard it is in. A bad id is refused as invalid,
/// a move to the same shard as refused.
pub proof fn law_requests_need_two_shards_and_a_subscriber(
    from: Seq<char>,
    subscriber: Seq<char>,
    to: Seq<char>,
)
    ensures
        request_refusal(from, subscriber, to) is None <==> shard_id_ok(from) && shard_id_ok(to) && 1
            <= text_len(subscriber) <= 256 && from != to,
        from == to ==> request_refusal(from, subscriber, to) is Some,
        request_refusal(from, subscriber, to) matches Some((code, _)) ==> (code
            == "SHARD_TRANSFER_REFUSED"@ <==> (shard_id_ok(from) && shard_id_ok(to) && 1 <= text_len(
            subscriber,
        ) <= 256 && from == to)),
{
    reveal_strlit("SHARD_TRANSFER_REFUSED");
    reveal_strlit("SHARD_ID_INVALID");
    assert("SHARD_TRANSFER_REFUSED"@.len() != "SHARD_ID_INVALID"@.len());
}

/// Whether the target holds a copy of the player after following `p`
/// with `has_copy` before.
pub open spec fn copy_after_accept(has_copy: bool, p: AcceptPlan) -> bool {
    match p {
        AcceptPlan::Settle { add_player } => has_copy || add_player,
        AcceptPlan::Done { .. } => has_copy,
        AcceptPlan::Refuse { remove_copy, .. } => has_copy && !remove_copy,
    }
}

/// Whether the source holds a copy of the player after following `p`
/// with `has_copy` before.
pub open spec fn copy_after_back(has_copy: bool, p: BackPlan) -> bool {
    match p {
        BackPlan::Settle { add_player } => has_copy || add_player,
        BackPlan::Done { remove_copy, .. } => has_copy && !remove_copy,
        BackPlan::Fail(_) => has_copy,
    }
}

/// The plans keep one player: a plan adds the player only where no copy
/// is, so it is never added twice. After the target's plan a copy is
/// there exactly when the row is `out` (it is settling in), or is `in`
/// and the copy already was; every other row leaves none. After the
/// source's plan to take it back, a copy is there when the row is `out`
/// or `back`, and none when the target has it (`in`).
pub proof fn law_plans_keep_one_player(
    id: Seq<char>,
    status: Option<Seq<char>>,
    has_copy: bool,
    a: AcceptPlan,
    b: BackPlan,
)
    requires
        accept_plan_is(id, status, has_copy, a),
        back_plan_is(id, status, has_copy, b),
    ensures
        a matches AcceptPlan::Settle { add_player } ==> !(add_player && has_copy),
        b matches BackPlan::Settle { add_player } ==> !(add_player && has_copy),
        copy_after_accept(has_copy, a) <==> (status == Some("out"@) || (status == Some("in"@)
            && has_copy)),
        status == Some("out"@) ==> copy_after_back(has_copy, b),
        status == Some("back"@) && has_copy ==> copy_after_back(has_copy, b),
        status == Some("in"@) ==> !copy_after_back(has_copy, b),
{
    reveal_strlit("in");
    reveal_strlit("out");
    reveal_strlit("back");
    assert("in"@.len() != "out"@.len() && "back"@.len() != "out"@.len() && "back"@.len()
        != "in"@.len());
}

} // verus!
