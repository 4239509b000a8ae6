//! A shard's function calls: which failures are worth a retry, the delay
//! before it, and how many workers make the calls.

use vstd::prelude::*;

use crate::text::{chars_of, push_str, starts_with, str_eq, str_len, text_len};

verus! {

/// `p` begins `s`.
pub open spec fn has_prefix(s: Seq<char>, p: Seq<char>) -> bool {
    p.len() <= s.len() && s.take(p.len() as int) == p
}

/// Failure codes of the database or the functions runtime, not of the
/// function: the call is made again, with the same key, after a delay.
/// Postgres refusing the statement, or invalid data, is not retried.
pub open spec fn is_retryable(code: Seq<char>) -> bool {
    &&& code != "PG_REJECTED"@
    &&& !has_prefix(code, "PG_INVALID"@)
    &&& {
        ||| has_prefix(code, "PG_"@)
        ||| has_prefix(code, "SQLITE_"@)
        ||| has_prefix(code, "TX_"@)
        ||| has_prefix(code, "RUNNER_"@)
        ||| code == "FN_TIMEOUT"@
        ||| code == "IO_ERROR"@
        ||| code == "HANDLER_CRASH"@
        ||| code == "CALL_CANCELLED"@
        ||| code == "LOCK_FAILED"@
        ||| code == "BEGIN_FAILED"@
        ||| code == "COMMIT_FAILED"@
        ||| code == "ROLLBACK_FAILED"@
    }
}

fn begins(code: &[char], p: &str) -> (b: bool)
    ensures
        b == has_prefix(code@, p@),
{
    let pc = chars_of(p);
    starts_with(code, pc.as_slice())
}

/// True for an error of the database or the functions runtime, not of the
/// function.
pub fn retryable(code: &str) -> (b: bool)
    ensures
        b == is_retryable(code@),
{
    let c = chars_of(code);
    if str_eq(code, "PG_REJECTED") || begins(c.as_slice(), "PG_INVALID") {
        return false;
    }
    begins(c.as_slice(), "PG_") || begins(c.as_slice(), "SQLITE_") || begins(c.as_slice(), "TX_")
        || begins(c.as_slice(), "RUNNER_") || str_eq(code, "FN_TIMEOUT") || str_eq(code, "IO_ERROR")
        || str_eq(code, "HANDLER_CRASH") || str_eq(code, "CALL_CANCELLED") || str_eq(
        code,
        "LOCK_FAILED",
    ) || str_eq(code, "BEGIN_FAILED") || str_eq(code, "COMMIT_FAILED") || str_eq(
        code,
        "ROLLBACK_FAILED",
    )
}

/// The first retry waits this long, in milliseconds.
pub const RETRY_FIRST_MS: u64 = 250;
/// No retry waits longer, in milliseconds.
pub const RETRY_MAX_MS: u64 = 30_000;
/// The most call workers a machine runs.
pub const MAX_CALL_WORKERS: usize = 4;

pub open spec fn pow2(k: nat) -> nat
    decreases k,
{
    if k == 0 {
        1
    } else {
        2 * pow2((k - 1) as nat)
    }
}

/// The delay before retry `attempt`: doubling from the first, at most the
/// maximum.
pub open spec fn retry_delay_ms(attempt: u32) -> nat {
    let k: nat = if attempt < 16 {
        attempt as nat
    } else {
        16
    };
    if (RETRY_FIRST_MS as nat) * pow2(k) < RETRY_MAX_MS {
        (RETRY_FIRST_MS as nat) * pow2(k)
    } else {
        RETRY_MAX_MS as nat
    }
}

/// The delay before retry `attempt`, in milliseconds.
pub fn retry_delay(attempt: u32) -> (ms: u64)
    ensures
        ms == retry_delay_ms(attempt),
{
    let k: u32 = if attempt < 16 {
        attempt
    } else {
        16
    };
    let mut d: u64 = RETRY_FIRST_MS;
    let mut i: u32 = 0;
    while i < k
        invariant
            i <= k <= 16,
            d == RETRY_FIRST_MS * pow2(i as nat),
            d <= RETRY_FIRST_MS * 65536,
        decreases k - i,
    {
        proof {
            lemma_pow2_le(i as nat, 15);
            reveal_with_fuel(pow2, 17);
        }
        d = d * 2;
        i += 1;
    }
    if d < RETRY_MAX_MS {
        d
    } else {
        RETRY_MAX_MS
    }
}

proof fn lemma_pow2_le(a: nat, b: nat)
    requires
        a <= b,
    ensures
        pow2(a) <= pow2(b),
    decreases b,
{
    if a < b {
        lemma_pow2_le(a, (b - 1) as nat);
    }
}

/// Call workers when none is set: a quarter of the Postgres pool, 1 to
/// [`MAX_CALL_WORKERS`]; 1 on SQLite (no pool), which writes on one
/// connection.
pub fn default_workers(pool_max: Option<u32>) -> (n: usize)
    ensures
        n == (match pool_max {
            Some(m) => if m / 4 < 1 {
                1
            } else if m / 4 > MAX_CALL_WORKERS {
                MAX_CALL_WORKERS as int
            } else {
                (m / 4) as int
            },
            None => 1,
        }),
{
    match pool_max {
        Some(m) => {
            let q = m / 4;
            if q < 1 {
                1
            } else if q > 4 {
                MAX_CALL_WORKERS
            } else {
                q as usize
            }
        },
        None => 1,
    }
}

// ---------------------------------------------------------------------------
// Calls in flight
// ---------------------------------------------------------------------------

/// Calls one shard has in flight. Past this, the module sends the others
/// again on later ticks.
pub const MAX_CALLS_IN_FLIGHT: usize = 256;
/// The longest call key, in bytes.
pub const MAX_KEY: usize = 256;
/// The longest function name, in bytes.
pub const MAX_FN_NAME: usize = 128;
/// A call waiting to be made again that the module stopped sending for this
/// long, in milliseconds, is forgotten.
pub const FORGET_AFTER_MS: u64 = 60_000;

/// Where one call of a shard is.
#[derive(Debug, Clone, Copy, PartialEq, Eq, Structural)]
pub enum Flight {
    /// A worker has it or will; `attempt` counts earlier tries that failed
    /// in the infrastructure.
    Running { attempt: u32 },
    /// Its result reached the shard's queue by tick `tick`; the module has
    /// it once a later tick starts.
    Answered { tick: u64 },
    /// It failed in the infrastructure; the module's next send after
    /// `until_ms` makes it again.
    Waiting { until_ms: u64, attempt: u32 },
}

/// Whether a flight is kept when a tick `tick` starts at `now_ms`: a
/// running call is; an answer queued before this tick started reached the
/// module at its start; a call waiting to be made again is forgotten once
/// the module stopped sending it for [`FORGET_AFTER_MS`].
pub open spec fn flight_kept_spec(f: Flight, tick: u64, now_ms: u64) -> bool {
    match f {
        Flight::Running { .. } => true,
        Flight::Answered { tick: t } => t >= tick,
        Flight::Waiting { until_ms, .. } => now_ms < until_ms + FORGET_AFTER_MS,
    }
}

/// See [`flight_kept_spec`].
pub fn flight_kept(f: Flight, tick: u64, now_ms: u64) -> (b: bool)
    ensures
        b == flight_kept_spec(f, tick, now_ms),
{
    match f {
        Flight::Running { .. } => true,
        Flight::Answered { tick: t } => t >= tick,
        Flight::Waiting { until_ms, .. } => now_ms < until_ms || now_ms - until_ms < FORGET_AFTER_MS,
    }
}

/// The key a call is tracked under: its function, a NUL, and its key.
pub fn flight_key(function: &str, key: &str) -> (k: String)
    ensures
        k@ == function@ + seq!['\0'] + key@,
{
    let mut k = String::from_str(function);
    crate::text::push_char(&mut k, '\0');
    push_str(&mut k, key);
    k
}

/// What a tick does with one call its module asked for.
#[derive(Debug, Clone, PartialEq, Eq)]
pub enum Admission {
    /// Answer it at once with this error code and message.
    Refuse { code: String, message: String },
    /// Leave it: it is in flight, waits to be made again, or too many are
    /// in flight; the module sends it again.
    Skip,
    /// Queue it for a worker, after `attempt` failed tries.
    Queue { attempt: u32 },
}

/// The admission of a call with key `key` to function `function`, when
/// the app runs no functions or does, with `flight` its flight, at
/// `now_ms`, with `running` calls of the shard running. A key must be 1 to
/// [`MAX_KEY`] bytes and a function name 1 to [`MAX_FN_NAME`]; a call in
/// flight or answered is not sent twice, nor one waiting for its retry
/// time; past [`MAX_CALLS_IN_FLIGHT`] running calls, none is queued.
pub open spec fn admission_is(
    key: Seq<char>,
    function: Seq<char>,
    no_functions: bool,
    flight: Option<Flight>,
    now_ms: u64,
    running: usize,
    a: Admission,
) -> bool {
    if !(1 <= text_len(key) <= MAX_KEY) {
        a matches Admission::Refuse { code, message } && code@ == "INVALID_KEY"@ && message@
            == "a call key is 1 to 256 bytes"@
    } else if !(1 <= text_len(function) <= MAX_FN_NAME) {
        a matches Admission::Refuse { code, message } && code@ == "FN_NOT_FOUND"@ && message@
            == "a function name is 1 to 128 bytes"@
    } else if no_functions {
        a matches Admission::Refuse { code, message } && code@ == "NO_FUNCTIONS"@ && message@
            == "the app runs no functions"@
    } else {
        match flight {
            Some(Flight::Running { .. }) => a == Admission::Skip,
            Some(Flight::Answered { .. }) => a == Admission::Skip,
            Some(Flight::Waiting { until_ms, attempt }) => if now_ms < until_ms
                || running >= MAX_CALLS_IN_FLIGHT {
                a == Admission::Skip
            } else {
                a == (Admission::Queue { attempt })
            },
            None => if running >= MAX_CALLS_IN_FLIGHT {
                a == Admission::Skip
            } else {
                a == (Admission::Queue { attempt: 0 })
            },
        }
    }
}

/// See [`admission_is`].
pub fn call_admission(
    key: &str,
    function: &str,
    no_functions: bool,
    flight: Option<Flight>,
    now_ms: u64,
    running: usize,
) -> (a: Admission)
    ensures
        admission_is(key@, function@, no_functions, flight, now_ms, running, a),
{
    let kn = str_len(key);
    if kn == 0 || kn > MAX_KEY {
        return Admission::Refuse {
            code: String::from_str("INVALID_KEY"),
            message: String::from_str("a call key is 1 to 256 bytes"),
        };
    }
    let fnn = str_len(function);
    if fnn == 0 || fnn > MAX_FN_NAME {
        return Admission::Refuse {
            code: String::from_str("FN_NOT_FOUND"),
            message: String::from_str("a function name is 1 to 128 bytes"),
        };
    }
    if no_functions {
        return Admission::Refuse {
            code: String::from_str("NO_FUNCTIONS"),
            message: String::from_str("the app runs no functions"),
        };
    }
    let attempt = match flight {
        Some(Flight::Running { .. }) => {
            return Admission::Skip;
        },
        Some(Flight::Answered { .. }) => {
            return Admission::Skip;
        },
        Some(Flight::Waiting { until_ms, attempt }) => {
            if now_ms < until_ms {
                return Admission::Skip;
            }
            attempt
        },
        None => 0,
    };
    if running >= MAX_CALLS_IN_FLIGHT {
        return Admission::Skip;
    }
    Admission::Queue { attempt }
}

/// The data of an error answer: the code, a colon, and the message.
pub fn error_text(code: &str, message: &str) -> (t: String)
    ensures
        t@ == code@ + ": "@ + message@,
{
    let mut t = String::from_str(code);
    push_str(&mut t, ": ");
    push_str(&mut t, message);
    t
}

/// How a call came back from the functions runtime: a value (as JSON
/// text), or an error code and message.
pub enum CallOutcome {
    Value(String),
    Failed { code: String, message: String },
}

/// What is answered to the module: the call's key, whether it succeeded,
/// and its data (the value, or the error's code and message).
#[derive(Debug, Clone, PartialEq, Eq)]
pub struct CallAnswer {
    pub key: String,
    pub ok: bool,
    pub data: String,
}

/// The answer to a call with key `key` that came back with `outcome`; none
/// when it failed in the infrastructure (see [`is_retryable`]): it is made
/// again later, and the module never sees that failure.
pub fn call_answer(key: &str, outcome: CallOutcome) -> (r: Option<CallAnswer>)
    ensures
        match outcome {
            CallOutcome::Value(v) => r matches Some(a) && a.key@ == key@ && a.ok && a.data@ == v@,
            CallOutcome::Failed { code, message } => if is_retryable(code@) {
                r is None
            } else {
                r matches Some(a) && a.key@ == key@ && !a.ok && a.data@ == code@ + ": "@
                    + message@
            },
        },
{
    match outcome {
        CallOutcome::Value(v) => Some(CallAnswer { key: String::from_str(key), ok: true, data: v }),
        CallOutcome::Failed { code, message } => {
            if retryable(code.as_str()) {
                None
            } else {
                Some(
                    CallAnswer {
                        key: String::from_str(key),
                        ok: false,
                        data: error_text(code.as_str(), message.as_str()),
                    },
                )
            }
        },
    }
}

/// The flight of a call that failed in the infrastructure at `now_ms`,
/// from its flight `current`: it waits [`retry_delay`] of its attempts so
/// far, then counts one attempt more.
pub fn retry_flight(current: Flight, now_ms: u64) -> (f: Flight)
    requires
        now_ms <= u64::MAX - RETRY_MAX_MS,
        current matches Flight::Running { attempt } ==> attempt < u32::MAX,
    ensures
        ({
            let attempt: u32 = match current {
                Flight::Running { attempt } => attempt,
                _ => 0,
            };
            f == (Flight::Waiting {
                until_ms: (now_ms + retry_delay_ms(attempt)) as u64,
                attempt: (attempt + 1) as u32,
            })
        }),
{
    let attempt = match current {
        Flight::Running { attempt } => attempt,
        _ => 0,
    };
    let delay = retry_delay(attempt);
    Flight::Waiting { until_ms: now_ms + delay, attempt: attempt + 1 }
}

/// The flight of a call whose answer was handed to its shard (`pushed`,
/// at the shard's tick `tick`), or not: answered, kept until a later tick
/// starts; or forgotten, so that the module sends it again and gets the
/// same result.
pub fn answered_flight(pushed: bool, tick: u64) -> (f: Option<Flight>)
    ensures
        f == (if pushed {
            Some(Flight::Answered { tick })
        } else {
            None
        }),
{
    if pushed {
        Some(Flight::Answered { tick })
    } else {
        None
    }
}

// ---------------------------------------------------------------------------
// The call queue
// ---------------------------------------------------------------------------

/// Calls waiting for a worker, on all shards.
pub const CALL_QUEUE: usize = 4096;

/// One shard's waiting calls, oldest first, each with the run that sent it.
pub struct ShardCalls<T> {
    pub shard: String,
    pub calls: Vec<(u64, T)>,
}

/// Calls waiting for a worker: a queue per shard, the shards served in
/// turn, so that one busy shard does not hold up the others.
pub struct CallQueue<T> {
    /// The shards with calls waiting, in the order they are served.
    turns: Vec<ShardCalls<T>>,
    len: usize,
}

/// A queue's shards in turn, each with its calls.
pub type TurnsView<T> = Seq<(Seq<char>, Seq<(u64, T)>)>;

/// The number of calls waiting.
pub open spec fn total<T>(v: TurnsView<T>) -> nat
    decreases v.len(),
{
    if v.len() == 0 {
        0
    } else {
        total(v.drop_last()) + v.last().1.len()
    }
}

/// Each shard is in turn once, with at least one call.
pub open spec fn turns_wf<T>(v: TurnsView<T>) -> bool {
    &&& forall|i: int| 0 <= i < v.len() ==> (#[trigger] v[i]).1.len() > 0
    &&& forall|i: int, j: int| 0 <= i < j < v.len() ==> (#[trigger] v[i]).0 != (#[trigger] v[j]).0
}

/// Where shard `s` is in turn, or the number of shards when it has no
/// call waiting.
pub open spec fn turn_of<T>(v: TurnsView<T>, s: Seq<char>) -> int
    decreases v.len(),
{
    if v.len() == 0 {
        0
    } else if v[0].0 == s {
        0
    } else {
        1 + turn_of(v.drop_first(), s)
    }
}

/// The queue after shard `s` sent call `c`: at the end of its queue; a
/// shard with none waiting takes the last turn.
pub open spec fn pushed<T>(v: TurnsView<T>, s: Seq<char>, c: (u64, T)) -> TurnsView<T> {
    let i = turn_of(v, s);
    if i < v.len() {
        v.update(i, (s, v[i].1.push(c)))
    } else {
        v.push((s, seq![c]))
    }
}

/// The queue after the first shard in turn gave its oldest call to a
/// worker: that shard goes to the last turn, while it has calls left.
pub open spec fn rotated<T>(v: TurnsView<T>) -> TurnsView<T> {
    if v[0].1.len() > 1 {
        v.drop_first().push((v[0].0, v[0].1.drop_first()))
    } else {
        v.drop_first()
    }
}

pub proof fn lemma_turn_of<T>(v: TurnsView<T>, s: Seq<char>)
    ensures
        0 <= turn_of(v, s) <= v.len(),
        turn_of(v, s) < v.len() ==> v[turn_of(v, s)].0 == s,
        forall|j: int| 0 <= j < turn_of(v, s) ==> (#[trigger] v[j]).0 != s,
    decreases v.len(),
{
    if v.len() > 0 && v[0].0 != s {
        lemma_turn_of(v.drop_first(), s);
        assert forall|j: int| 0 <= j < turn_of(v, s) implies (#[trigger] v[j]).0 != s by {
            if j > 0 {
                assert(v[j] == v.drop_first()[j - 1]);
            }
        }
    }
}

proof fn lemma_total_update<T>(v: TurnsView<T>, i: int, e: (Seq<char>, Seq<(u64, T)>))
    requires
        0 <= i < v.len(),
    ensures
        total(v.update(i, e)) == total(v) - v[i].1.len() + e.1.len(),
    decreases v.len(),
{
    if i < v.len() - 1 {
        lemma_total_update(v.drop_last(), i, e);
        assert(v.update(i, e).drop_last() =~= v.drop_last().update(i, e));
    } else {
        assert(v.update(i, e).drop_last() =~= v.drop_last());
    }
}

proof fn lemma_total_drop_first<T>(v: TurnsView<T>)
    requires
        v.len() > 0,
    ensures
        total(v) == v[0].1.len() + total(v.drop_first()),
    decreases v.len(),
{
    if v.len() > 1 {
        lemma_total_drop_first(v.drop_last());
        assert(v.drop_last().drop_first() =~= v.drop_first().drop_last());
        assert(v.drop_first().last() == v.last());
        assert(v.drop_last()[0] == v[0]);
        assert(total(v.drop_first()) == total(v.drop_first().drop_last()) + v.drop_first().last().1.len());
    } else {
        assert(v.drop_first().len() == 0);
        assert(v.drop_last().len() == 0);
        assert(total(v.drop_last()) == 0);
        assert(total(v.drop_first()) == 0);
        assert(v.last() == v[0]);
    }
}

/// Queueing a call adds one to the count, and keeps each shard in turn
/// once.
pub proof fn law_push_counts<T>(v: TurnsView<T>, s: Seq<char>, c: (u64, T))
    requires
        turns_wf(v),
    ensures
        total(pushed(v, s, c)) == total(v) + 1,
        turns_wf(pushed(v, s, c)),
{
    lemma_turn_of(v, s);
    let i = turn_of(v, s);
    let p = pushed(v, s, c);
    if i < v.len() {
        lemma_total_update(v, i, (s, v[i].1.push(c)));
        assert forall|a: int, b: int| 0 <= a < b < p.len() implies (#[trigger] p[a]).0 != (
        #[trigger] p[b]).0 by {
            assert(p[a].0 == v[a].0 && p[b].0 == v[b].0);
        }
    } else {
        assert(p.drop_last() =~= v);
        assert forall|a: int, b: int| 0 <= a < b < p.len() implies (#[trigger] p[a]).0 != (
        #[trigger] p[b]).0 by {
            if b == v.len() {
                assert(p[a] == v[a]);
            } else {
                assert(p[a] == v[a] && p[b] == v[b]);
            }
        }
    }
}

/// Serving a call takes one from the count, and keeps each shard in turn
/// once.
pub proof fn law_serve_counts<T>(v: TurnsView<T>)
    requires
        turns_wf(v),
        v.len() > 0,
    ensures
        total(rotated(v)) + 1 == total(v),
        turns_wf(rotated(v)),
{
    lemma_total_drop_first(v);
    let r = rotated(v);
    if v[0].1.len() > 1 {
        assert(r.drop_last() =~= v.drop_first());
        assert forall|a: int, b: int| 0 <= a < b < r.len() implies (#[trigger] r[a]).0 != (
        #[trigger] r[b]).0 by {
            if b == r.len() - 1 {
                assert(r[a] == v[a + 1] && r[b].0 == v[0].0);
            } else {
                assert(r[a] == v[a + 1] && r[b] == v[b + 1]);
            }
        }
    } else {
        assert forall|a: int, b: int| 0 <= a < b < r.len() implies (#[trigger] r[a]).0 != (
        #[trigger] r[b]).0 by {
            assert(r[a] == v[a + 1] && r[b] == v[b + 1]);
        }
    }
}

/// Shards are served in turn: after the first shard in turn is served,
/// every other shard with calls waiting moves one turn closer, so a shard
/// `i` turns back is served within `i + 1` calls.
pub proof fn law_turns_advance<T>(v: TurnsView<T>, i: int)
    requires
        turns_wf(v),
        1 <= i < v.len(),
    ensures
        rotated(v)[i - 1] == v[i],
{
}

impl<T> View for CallQueue<T> {
    type V = TurnsView<T>;

    closed spec fn view(&self) -> TurnsView<T> {
        Seq::new(self.turns@.len(), |i: int| (self.turns@[i].shard@, self.turns@[i].calls@))
    }
}

impl<T> CallQueue<T> {
    /// The queue holds [`total`] calls, at most [`CALL_QUEUE`], and each
    /// shard is in turn once.
    pub closed spec fn wf(&self) -> bool {
        &&& turns_wf(self@)
        &&& self.len == total(self@)
        &&& self.len <= CALL_QUEUE
    }

    pub fn new() -> (q: CallQueue<T>)
        ensures
            q.wf(),
            q@.len() == 0,
    {
        let q = CallQueue { turns: Vec::new(), len: 0 };
        proof {
            assert(q@ =~= Seq::<(Seq<char>, Seq<(u64, T)>)>::empty());
        }
        q
    }

    /// The number of calls waiting.
    pub fn len(&self) -> (n: usize)
        requires
            self.wf(),
        ensures
            n == total(self@),
    {
        self.len
    }

    /// Queue call `call` of shard `shard`'s run `serial`; false, with
    /// nothing queued, when [`CALL_QUEUE`] calls wait already.
    pub fn push(&mut self, shard: &str, serial: u64, call: T) -> (queued: bool)
        requires
            old(self).wf(),
        ensures
            final(self).wf(),
            queued == (total(old(self)@) < CALL_QUEUE),
            queued ==> final(self)@ == pushed(old(self)@, shard@, (serial, call)),
            !queued ==> final(self)@ == old(self)@,
    {
        if self.len >= CALL_QUEUE {
            return false;
        }
        let ghost v = self@;
        proof {
            lemma_turn_of(v, shard@);
        }
        let n = self.turns.len();
        let mut i: usize = 0;
        while i < n
            invariant
                n == self.turns@.len(),
                v == self@,
                v == old(self)@,
                0 <= i <= n,
                forall|j: int| 0 <= j < i ==> (#[trigger] v[j]).0 != shard@,
                i <= turn_of(v, shard@),
                turn_of(v, shard@) <= n,
                turns_wf(v),
                self.len == total(v),
                self.len < CALL_QUEUE,
                turn_of(v, shard@) < n ==> v[turn_of(v, shard@)].0 == shard@,
                forall|j: int| 0 <= j < turn_of(v, shard@) ==> (#[trigger] v[j]).0 != shard@,
            decreases n - i,
        {
            if str_eq(self.turns[i].shard.as_str(), shard) {
                proof {
                    assert(v[i as int].0 == shard@);
                    assert(turn_of(v, shard@) == i);
                }
                proof {
                    law_push_counts(v, shard@, (serial, call));
                }
                let mut e = self.turns.remove(i);
                e.calls.push((serial, call));
                self.turns.insert(i, e);
                self.len = self.len + 1;
                proof {
                    assert(self@ =~= pushed(v, shard@, (serial, call)));
                }
                return true;
            }
            proof {
                assert(v[i as int].0 != shard@);
            }
            i += 1;
        }
        proof {
            assert(turn_of(v, shard@) == n);
            law_push_counts(v, shard@, (serial, call));
        }
        let mut calls: Vec<(u64, T)> = Vec::new();
        calls.push((serial, call));
        self.turns.push(ShardCalls { shard: String::from_str(shard), calls });
        self.len = self.len + 1;
        proof {
            assert(self@ =~= pushed(v, shard@, (serial, call)));
        }
        true
    }

    /// The oldest call of the first shard in turn, with that shard and the
    /// run that sent it; that shard then takes the last turn, while it has
    /// calls left. None when no call waits.
    pub fn pop(&mut self) -> (r: Option<(String, u64, T)>)
        requires
            old(self).wf(),
        ensures
            final(self).wf(),
            old(self)@.len() == 0 ==> r is None && final(self)@ == old(self)@,
            old(self)@.len() > 0 ==> final(self)@ == rotated(old(self)@) && (r matches Some(
                (s, serial, c),
            ) && s@ == old(self)@[0].0 && (serial, c) == old(self)@[0].1[0]),
    {
        if self.turns.len() == 0 {
            return None;
        }
        let ghost v = self@;
        proof {
            law_serve_counts(v);
            assert(v[0].1.len() > 0);
        }
        let mut e = self.turns.remove(0);
        proof {
            assert(e.calls@.len() > 0);
        }
        let (serial, call) = e.calls.remove(0);
        let shard = if e.calls.len() > 0 {
            let s = String::from_str(e.shard.as_str());
            self.turns.push(e);
            s
        } else {
            e.shard
        };
        self.len = self.len - 1;
        proof {
            assert(self@ =~= rotated(v));
        }
        Some((shard, serial, call))
    }
}

} // verus!
