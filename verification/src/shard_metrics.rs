//! The text pieces of the shard metrics in Prometheus format: label values
//! and metric family headers.

use vstd::prelude::*;

use crate::text::{chars_of, push_char, push_str, trim_chars, trimmed};

verus! {

/// A label value character as Prometheus reads it: backslash, quote and
/// newline escaped.
pub open spec fn escape_char(c: char) -> Seq<char> {
    if c == '\\' {
        seq!['\\', '\\']
    } else if c == '"' {
        seq!['\\', '"']
    } else if c == '\n' {
        seq!['\\', 'n']
    } else {
        seq![c]
    }
}

pub open spec fn escaped(s: Seq<char>) -> Seq<char>
    decreases s.len(),
{
    if s.len() == 0 {
        Seq::empty()
    } else {
        escaped(s.drop_last()) + escape_char(s.last())
    }
}

/// A Prometheus label value: backslash, quote, and newline escaped.
pub fn label(v: &str) -> (r: String)
    ensures
        r@ == escaped(v@),
{
    let cs = chars_of(v);
    let mut r = String::new();
    let mut k: usize = 0;
    while k < cs.len()
        invariant
            k <= cs@.len(),
            cs@ == v@,
            r@ == escaped(cs@.take(k as int)),
        decreases cs@.len() - k,
    {
        let c = cs[k];
        if c == '\\' {
            push_char(&mut r, '\\');
            push_char(&mut r, '\\');
        } else if c == '"' {
            push_char(&mut r, '\\');
            push_char(&mut r, '"');
        } else if c == '\n' {
            push_char(&mut r, '\\');
            push_char(&mut r, 'n');
        } else {
            push_char(&mut r, c);
        }
        proof {
            let t = cs@.take(k + 1);
            assert(t.drop_last() =~= cs@.take(k as int));
            assert(r@ =~= escaped(t));
        }
        k += 1;
    }
    proof {
        assert(cs@.take(cs@.len() as int) =~= cs@);
    }
    r
}

/// A metric family of the exposition: its name.
pub struct Family {
    pub name: String,
}

impl Family {
    /// Start family `name`: its `# HELP` and `# TYPE` lines.
    pub fn new(out: &mut String, name: &str, kind: &str, help: &str) -> (f: Family)
        ensures
            f.name@ == name@,
            final(out)@ == old(out)@ + "# HELP "@ + name@ + " "@ + help@ + "\n"@ + "# TYPE "@
                + name@ + " "@ + kind@ + "\n"@,
    {
        push_str(out, "# HELP ");
        push_str(out, name);
        push_str(out, " ");
        push_str(out, help);
        push_str(out, "\n");
        push_str(out, "# TYPE ");
        push_str(out, name);
        push_str(out, " ");
        push_str(out, kind);
        push_str(out, "\n");
        Family { name: String::from_str(name) }
    }
}

/// One series per kind instead of per shard: `PYLON_SHARD_METRICS_LABELS`
/// is `kind`, trimmed.
pub fn per_kind(v: Option<&str>) -> (b: bool)
    ensures
        b == (match v {
            Some(s) => trimmed(s@) == "kind"@,
            None => false,
        }),
{
    match v {
        Some(s) => {
            let cs = chars_of(s);
            let t = trim_chars(cs.as_slice());
            let k = chars_of("kind");
            crate::text::chars_eq(t.as_slice(), k.as_slice())
        },
        None => false,
    }
}

} // verus!
