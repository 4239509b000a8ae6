//! The SQL fragments the directory's statements differ by between Postgres
//! and SQLite.

use vstd::prelude::*;

use crate::text::{decimal, decimal_string, push_char, push_str};

verus! {

/// The database a directory lives in.
#[derive(Debug, Clone, Copy, PartialEq, Eq)]
pub enum Dialect {
    Pg,
    Sqlite,
}

/// Placeholder `i` (from 1): `$i` on Postgres, `?i` on SQLite. (SQLite
/// reads `$i` as a named parameter numbered by first appearance.)
pub open spec fn placeholder(d: Dialect, i: nat) -> Seq<char> {
    seq![if d == Dialect::Pg {
        '$'
    } else {
        '?'
    }] + decimal(i)
}

/// The database clock, in milliseconds since the Unix epoch, as SQL.
pub open spec fn now_ms_sql(d: Dialect) -> Seq<char> {
    match d {
        Dialect::Pg => "(extract(epoch from clock_timestamp()) * 1000)::bigint"@,
        Dialect::Sqlite => "CAST((julianday('now') - 2440587.5) * 86400000.0 AS INTEGER)"@,
    }
}

impl Dialect {
    /// Placeholders 1 to `n`.
    pub fn params(self, n: usize) -> (p: Vec<String>)
        requires
            n < u64::MAX,
        ensures
            p@.len() == n,
            forall|i: int| 0 <= i < n ==> (#[trigger] p@[i])@ == placeholder(self, (i + 1) as nat),
    {
        let mut p: Vec<String> = Vec::new();
        let mut i: usize = 0;
        while i < n
            invariant
                i <= n < u64::MAX,
                p@.len() == i,
                forall|k: int| 0 <= k < i ==> (#[trigger] p@[k])@ == placeholder(self, (k + 1) as nat),
            decreases n - i,
        {
            let mut s = String::new();
            match self {
                Dialect::Pg => push_char(&mut s, '$'),
                Dialect::Sqlite => push_char(&mut s, '?'),
            }
            let d = decimal_string(i as u64 + 1);
            push_str(&mut s, d.as_str());
            proof {
                assert(s@ =~= placeholder(self, (i + 1) as nat));
            }
            p.push(s);
            i += 1;
        }
        p
    }

    /// The database clock, in milliseconds since the Unix epoch.
    pub fn now_ms(self) -> (s: &'static str)
        ensures
            s@ == now_ms_sql(self),
    {
        match self {
            Dialect::Pg => "(extract(epoch from clock_timestamp()) * 1000)::bigint",
            Dialect::Sqlite => "CAST((julianday('now') - 2440587.5) * 86400000.0 AS INTEGER)",
        }
    }

    /// A row lock that a take-over waits for. SQLite takes the database's
    /// write lock at the start of each directory transaction instead.
    pub fn for_share(self) -> (s: &'static str)
        ensures
            s@ == (match self {
                Dialect::Pg => " FOR SHARE"@,
                Dialect::Sqlite => ""@,
            }),
    {
        match self {
            Dialect::Pg => " FOR SHARE",
            Dialect::Sqlite => "",
        }
    }

    /// The row lock an update takes.
    pub fn for_update(self) -> (s: &'static str)
        ensures
            s@ == (match self {
                Dialect::Pg => " FOR UPDATE"@,
                Dialect::Sqlite => ""@,
            }),
    {
        match self {
            Dialect::Pg => " FOR UPDATE",
            Dialect::Sqlite => "",
        }
    }
}

/// The `seq` column and value a transfer insert adds: Postgres numbers the
/// row from a sequence; SQLite takes the next number under its write lock.
pub fn next_seq(d: Dialect) -> (r: (&'static str, &'static str))
    ensures
        r.0@ == (match d {
            Dialect::Pg => ""@,
            Dialect::Sqlite => ", seq"@,
        }),
        r.1@ == (match d {
            Dialect::Pg => ""@,
            Dialect::Sqlite => ", (SELECT COALESCE(MAX(seq), 0) + 1 FROM _pylon_shard_transfers)"@,
        }),
{
    match d {
        Dialect::Pg => ("", ""),
        Dialect::Sqlite => (", seq", ", (SELECT COALESCE(MAX(seq), 0) + 1 FROM _pylon_shard_transfers)"),
    }
}

/// SQL that is true when machine `machine` is live under `epoch`, with the
/// liveness window in milliseconds at parameter `window`.
pub fn owner_live_sql(d: Dialect, machine: &str, epoch: &str, window: &str) -> (s: String)
    ensures
        s@ == "EXISTS (SELECT 1 FROM _pylon_shard_machines m\n                 WHERE m.machine_id = "@
            + machine@ + " AND m.epoch = "@ + epoch@
            + "\n                   AND m.heartbeat_at > "@ + now_ms_sql(d) + " - "@ + window@ + ")"@,
{
    let now = d.now_ms();
    let mut s = String::from_str("EXISTS (SELECT 1 FROM _pylon_shard_machines m\n                 WHERE m.machine_id = ");
    push_str(&mut s, machine);
    push_str(&mut s, " AND m.epoch = ");
    push_str(&mut s, epoch);
    push_str(&mut s, "\n                   AND m.heartbeat_at > ");
    push_str(&mut s, now);
    push_str(&mut s, " - ");
    push_str(&mut s, window);
    push_str(&mut s, ")");
    s
}

} // verus!
