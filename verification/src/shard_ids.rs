//! Shard ids, the errors of creating a shard, and what a live shard reports.

use vstd::prelude::*;

use crate::text::{
    chars_of, decimal, decimal_string, lemma_text_len_empty, push_str, str_eq, str_len,
};

verus! {

/// A character a shard id may hold: an ASCII letter or digit, `-`, `_`,
/// `.` or `:`.
pub open spec fn is_id_char(c: char) -> bool {
    ('a' <= c <= 'z') || ('A' <= c <= 'Z') || ('0' <= c <= '9') || c == '-' || c == '_' || c
        == '.' || c == ':'
}

/// Shard ids go in URLs and logs: 1 to 128 characters of letters, digits,
/// `-`, `_`, `.`, and `:`.
pub open spec fn shard_id_ok(id: Seq<char>) -> bool {
    &&& 1 <= id.len() <= 128
    &&& forall|k: int| 0 <= k < id.len() ==> is_id_char(#[trigger] id[k])
}

/// Why `create` failed.
#[derive(Debug, Clone, PartialEq, Eq)]
pub enum CreateError {
    UnknownKind(String),
    InvalidId(String),
    Exists(String),
    LimitReached { kind: String, max: usize },
    Init(String),
}

impl CreateError {
    /// The error code a client sees.
    pub fn code(&self) -> (c: &'static str)
        ensures
            c@ == match self {
                CreateError::UnknownKind(_) => "SHARD_KIND_NOT_FOUND"@,
                CreateError::InvalidId(_) => "SHARD_ID_INVALID"@,
                CreateError::Exists(_) => "SHARD_EXISTS"@,
                CreateError::LimitReached { .. } => "SHARD_LIMIT_REACHED"@,
                CreateError::Init(_) => "SHARD_INIT_FAILED"@,
            },
    {
        match self {
            CreateError::UnknownKind(_) => "SHARD_KIND_NOT_FOUND",
            CreateError::InvalidId(_) => "SHARD_ID_INVALID",
            CreateError::Exists(_) => "SHARD_EXISTS",
            CreateError::LimitReached { .. } => "SHARD_LIMIT_REACHED",
            CreateError::Init(_) => "SHARD_INIT_FAILED",
        }
    }
}

fn id_char(c: char) -> (b: bool)
    ensures
        b == is_id_char(c),
{
    ('a' <= c && c <= 'z') || ('A' <= c && c <= 'Z') || ('0' <= c && c <= '9') || c == '-' || c
        == '_' || c == '.' || c == ':'
}

/// Why shard id `id` is refused.
pub open spec fn bad_id_message(id: Seq<char>) -> Seq<char> {
    "shard id \""@ + id + "\" must be 1 to 128 characters of letters, digits, '-', '_', '.', ':'"@
}

/// Check a shard id (see [`shard_id_ok`]).
pub fn validate_shard_id(id: &str) -> (r: Result<(), CreateError>)
    ensures
        r is Ok <==> shard_id_ok(id@),
        r matches Err(e) ==> (e matches CreateError::InvalidId(m) && m@ == bad_id_message(id@)),
{
    let cs = chars_of(id);
    let mut ok = cs.len() >= 1 && cs.len() <= 128;
    let mut k: usize = 0;
    while k < cs.len()
        invariant
            k <= cs@.len(),
            cs@ == id@,
            ok == (1 <= id@.len() <= 128 && forall|j: int| 0 <= j < k ==> is_id_char(#[trigger] id@[j])),
        decreases cs@.len() - k,
    {
        if !id_char(cs[k]) {
            ok = false;
        }
        k += 1;
    }
    if ok {
        Ok(())
    } else {
        let mut why = String::new();
        push_str(&mut why, "shard id \"");
        push_str(&mut why, id);
        push_str(
            &mut why,
            "\" must be 1 to 128 characters of letters, digits, '-', '_', '.', ':'",
        );
        Err(CreateError::InvalidId(why))
    }
}

/// A live shard, as `ctx.shards.get` reports it.
#[derive(Debug, Clone, PartialEq, Eq)]
pub struct ShardInfo {
    pub id: String,
    pub kind: String,
    pub tick: u64,
    pub subscribers: usize,
    pub running: bool,
    pub error: Option<String>,
}

/// What a failed `create` says: the kind, the id, the limit or the init
/// failure it is about.
pub open spec fn create_message(e: CreateError) -> Seq<char> {
    match e {
        CreateError::UnknownKind(k) => "no shard kind named \""@ + k@ + "\" in app.ts"@,
        CreateError::InvalidId(why) => why@,
        CreateError::Exists(id) => "shard \""@ + id@ + "\" is already running"@,
        CreateError::LimitReached { kind, max } => "shard kind \""@ + kind@ + "\" already has "@ + decimal(
            max as nat,
        ) + " running shards (its maxInstances)"@,
        CreateError::Init(why) => "shard init failed: "@ + why@,
    }
}

impl CreateError {
    /// See [`create_message`].
    pub fn message(&self) -> (m: String)
        ensures
            m@ == create_message(*self),
    {
        match self {
            CreateError::UnknownKind(k) => {
                let mut m = String::from_str("no shard kind named \"");
                push_str(&mut m, k.as_str());
                push_str(&mut m, "\" in app.ts");
                m
            },
            CreateError::InvalidId(why) => String::from_str(why.as_str()),
            CreateError::Exists(id) => {
                let mut m = String::from_str("shard \"");
                push_str(&mut m, id.as_str());
                push_str(&mut m, "\" is already running");
                m
            },
            CreateError::LimitReached { kind, max } => {
                let mut m = String::from_str("shard kind \"");
                push_str(&mut m, kind.as_str());
                push_str(&mut m, "\" already has ");
                let d = decimal_string(*max as u64);
                push_str(&mut m, d.as_str());
                push_str(&mut m, " running shards (its maxInstances)");
                m
            },
            CreateError::Init(why) => {
                let mut m = String::from_str("shard init failed: ");
                push_str(&mut m, why.as_str());
                m
            },
        }
    }
}

/// Check a request to start shard `id` of kind `kind`, before its module
/// runs: the kind is declared, the id is valid, no shard of that id runs
/// here, and fewer than `max_instances` shards of the kind run here (a
/// stopped one waiting for the sweep does not count). The checks run in
/// that order.
pub fn check_create(
    kind_known: bool,
    kind: &str,
    id: &str,
    running_here: bool,
    running_of_kind: usize,
    max_instances: usize,
) -> (r: Result<(), CreateError>)
    ensures
        !kind_known ==> (r matches Err(CreateError::UnknownKind(k)) && k@ == kind@),
        kind_known && !shard_id_ok(id@) ==> (r matches Err(CreateError::InvalidId(m)) && m@ == bad_id_message(
            id@,
        )),
        kind_known && shard_id_ok(id@) && running_here ==> (r matches Err(CreateError::Exists(i)) && i@
            == id@),
        kind_known && shard_id_ok(id@) && !running_here && running_of_kind >= max_instances ==> (r matches Err(
            CreateError::LimitReached { kind: k, max },
        ) && k@ == kind@ && max == max_instances),
        kind_known && shard_id_ok(id@) && !running_here && running_of_kind < max_instances ==> r is Ok,
{
    if !kind_known {
        return Err(CreateError::UnknownKind(String::from_str(kind)));
    }
    validate_shard_id(id)?;
    if running_here {
        return Err(CreateError::Exists(String::from_str(id)));
    }
    if running_of_kind >= max_instances {
        return Err(CreateError::LimitReached { kind: String::from_str(kind), max: max_instances });
    }
    Ok(())
}

/// One shard at a sweep at `now_ms`: a shard with subscribers, or of a kind
/// that never stops idle shards (`limit_ms` zero), is not idle; another is
/// idle since it was first seen so, and is stopped once idle for
/// `limit_ms`. Returns since when it is idle (if it is) and whether to stop
/// it.
pub fn idle_step(subscribers: usize, limit_ms: u64, idle_since: Option<u64>, now_ms: u64) -> (r: (Option<u64>, bool))
    ensures
        (subscribers > 0 || limit_ms == 0) ==> r == (None::<u64>, false),
        !(subscribers > 0 || limit_ms == 0) ==> ({
            let since = match idle_since {
                Some(t) => t,
                None => now_ms,
            };
            r == (Some(since), now_ms >= since + limit_ms)
        }),
{
    if subscribers > 0 || limit_ms == 0 {
        return (None, false);
    }
    let since = match idle_since {
        Some(t) => t,
        None => now_ms,
    };
    let stop = now_ms >= since && now_ms - since >= limit_ms;
    (Some(since), stop)
}

/// One `ctx.shards.*` call from a function.
#[derive(Debug, Clone, PartialEq, Eq)]
pub enum ShardOp {
    /// Start shard `id` of `kind`.
    Create { kind: String, id: String },
    Stop(String),
    Get(String),
    List,
}

/// The call a function made with op `op`, shard id `id` and kind `kind`:
/// `create`, `stop` and `get` need an id; any other op is refused.
pub fn shard_op(op: &str, id: Option<&str>, kind: Option<&str>) -> (r: Result<ShardOp, (String, String)>)
    ensures
        ({
            let has_id = id is Some && id->0@.len() > 0;
            let needs_id = op@ == "create"@ || op@ == "stop"@ || op@ == "get"@;
            &&& (needs_id && !has_id) ==> (r matches Err((c, m)) && c@ == "INVALID_SHARD"@ && m@
                == "shard id is required"@)
            &&& (op@ == "create"@ && has_id) ==> (r matches Ok(ShardOp::Create { kind: k, id: i }) && i@
                == id->0@ && k@ == match kind {
                Some(k) => k@,
                None => Seq::<char>::empty(),
            })
            &&& (op@ == "stop"@ && has_id) ==> (r matches Ok(ShardOp::Stop(i)) && i@ == id->0@)
            &&& (op@ == "get"@ && has_id) ==> (r matches Ok(ShardOp::Get(i)) && i@ == id->0@)
            &&& op@ == "list"@ ==> r == Ok::<ShardOp, (String, String)>(ShardOp::List)
            &&& !(needs_id || op@ == "list"@) ==> (r matches Err((c, m)) && c@ == "INVALID_SHARD_OP"@ && m@
                == "unknown shard op \""@ + op@ + "\""@)
        }),
{
    proof {
        reveal_strlit("create");
        reveal_strlit("stop");
        reveal_strlit("get");
        reveal_strlit("list");
        assert("list"@[0] != "stop"@[0]);
        assert("list"@.len() != "create"@.len() && "list"@.len() != "get"@.len());
        assert("stop"@.len() != "create"@.len() && "stop"@.len() != "get"@.len());
        assert("get"@.len() != "create"@.len());
    }
    let named = match id {
        Some(i) => {
            proof {
                lemma_text_len_empty(i@);
            }
            if str_len(i) > 0 {
                Some(i)
            } else {
                None
            }
        },
        None => None,
    };
    let missing = || -> (e: (String, String))
        ensures
            e.0@ == "INVALID_SHARD"@ && e.1@ == "shard id is required"@,
    { (String::from_str("INVALID_SHARD"), String::from_str("shard id is required")) };
    if str_eq(op, "create") {
        match named {
            Some(i) => Ok(
                ShardOp::Create {
                    kind: match kind {
                        Some(k) => String::from_str(k),
                        None => String::new(),
                    },
                    id: String::from_str(i),
                },
            ),
            None => Err(missing()),
        }
    } else if str_eq(op, "stop") {
        match named {
            Some(i) => Ok(ShardOp::Stop(String::from_str(i))),
            None => Err(missing()),
        }
    } else if str_eq(op, "get") {
        match named {
            Some(i) => Ok(ShardOp::Get(String::from_str(i))),
            None => Err(missing()),
        }
    } else if str_eq(op, "list") {
        Ok(ShardOp::List)
    } else {
        let mut m = String::from_str("unknown shard op \"");
        push_str(&mut m, op);
        push_str(&mut m, "\"");
        Err((String::from_str("INVALID_SHARD_OP"), m))
    }
}

// ---------------------------------------------------------------------------
// A kind's limits
// ---------------------------------------------------------------------------

/// Limits for one shard kind's instances.
#[derive(Debug, Clone, Copy, PartialEq, Eq)]
pub struct KindLimits {
    /// Linear memory cap per instance, in bytes.
    pub memory_bytes: u64,
    /// Time budget for one tick, one authorize call or init, in
    /// milliseconds. Past it the module traps.
    pub budget_ms: u64,
    /// Instances of the kind that may run at once.
    pub max_instances: usize,
    /// Stop a shard without subscribers for this long, in milliseconds.
    /// Zero never stops it.
    pub idle_shutdown_ms: u64,
}

/// Memory per instance when the kind sets none: 64 MiB.
pub const DEFAULT_MEMORY_BYTES: u64 = 67_108_864;
/// The time budget when the kind sets none.
pub const DEFAULT_BUDGET_MS: u64 = 100;
/// Instances of a kind when the kind sets no maximum.
pub const DEFAULT_MAX_INSTANCES: usize = 64;
/// Idle time before a shard without subscribers stops, when the kind sets
/// none.
pub const DEFAULT_IDLE_SHUTDOWN_MS: u64 = 90_000;

/// The limits of a kind that declares `memory_mb`, `tick_budget_ms`,
/// `max_instances` and `idle_shutdown_secs`, each defaulting when absent.
pub fn kind_limits(
    memory_mb: Option<u32>,
    tick_budget_ms: Option<u32>,
    max_instances: Option<u32>,
    idle_shutdown_secs: Option<u32>,
) -> (l: KindLimits)
    ensures
        l.memory_bytes == match memory_mb {
            Some(mb) => mb * 1_048_576,
            None => DEFAULT_MEMORY_BYTES as int,
        },
        l.budget_ms == match tick_budget_ms {
            Some(ms) => ms as int,
            None => DEFAULT_BUDGET_MS as int,
        },
        l.max_instances == match max_instances {
            Some(n) => n as int,
            None => DEFAULT_MAX_INSTANCES as int,
        },
        l.idle_shutdown_ms == match idle_shutdown_secs {
            Some(s) => s * 1000,
            None => DEFAULT_IDLE_SHUTDOWN_MS as int,
        },
{
    KindLimits {
        memory_bytes: match memory_mb {
            Some(mb) => mb as u64 * 1_048_576,
            None => DEFAULT_MEMORY_BYTES,
        },
        budget_ms: match tick_budget_ms {
            Some(ms) => ms as u64,
            None => DEFAULT_BUDGET_MS,
        },
        max_instances: match max_instances {
            Some(n) => n as usize,
            None => DEFAULT_MAX_INSTANCES,
        },
        idle_shutdown_ms: match idle_shutdown_secs {
            Some(s) => s as u64 * 1000,
            None => DEFAULT_IDLE_SHUTDOWN_MS,
        },
    }
}

/// Which ids are accepted: every run of 1 to 128 ASCII letters (either
/// case), digits, `-`, `_`, `.` and `:` is a valid id, and an id holding
/// any other character is not. So validity never depends on the case of a
/// letter.
pub proof fn law_shard_ids_take_letters_of_either_case(id: Seq<char>)
    ensures
        1 <= id.len() <= 128 && (forall|k: int|
            0 <= k < id.len() ==> {
                let c = #[trigger] id[k];
                ||| 'A' <= c <= 'Z'
                ||| 'a' <= c <= 'z'
                ||| '0' <= c <= '9'
                ||| c == '-' || c == '_' || c == '.' || c == ':'
            }) <==> shard_id_ok(id),
        forall|c: char| 'A' <= c <= 'Z' || 'a' <= c <= 'z' ==> #[trigger] is_id_char(c),
{
}

} // verus!
