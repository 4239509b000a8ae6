//! The entity fields shards write after their ticks, buffered until a
//! flush: each field keeps its latest value with the run of the shard that
//! wrote it, and a field whose write failed in the store is kept for a few
//! flushes.

use vstd::prelude::*;

use vstd::hash_map::StringHashMap;

use crate::text::{
    all_digits, chars_of, decimal, decimal_string, is_digit, lemma_decimal_digits,
    lemma_text_len_empty, push_str, str_eq, str_len,
};

verus! {

/// Rows waiting to be written, on all shards. Past this, new rows are
/// dropped.
pub const MAX_DIRTY_ROWS: usize = 100_000;

/// Flushes a field whose write fails with a store error is tried in.
pub const WRITE_ATTEMPTS: u32 = 5;

/// A buffered field value, with the shard that wrote it, the lease epoch
/// that shard was held under here (none without a directory), and the
/// flushes that failed on it.
pub struct Pending<V> {
    pub value: V,
    pub shard: String,
    pub epoch: Option<i64>,
    pub failures: u32,
}

/// A buffered field value, as the model sees it.
pub ghost struct PendingView<V> {
    pub value: V,
    pub shard: Seq<char>,
    pub epoch: Option<i64>,
    pub failures: u32,
}

impl<V> Pending<V> {
    pub open spec fn view(&self) -> PendingView<V> {
        PendingView {
            value: self.value,
            shard: self.shard@,
            epoch: self.epoch,
            failures: self.failures,
        }
    }
}

/// The fields waiting to be written to one row (`entity`, `id`).
pub struct DirtyRow<V> {
    pub entity: String,
    pub id: String,
    pub fields: Vec<(String, Pending<V>)>,
}

/// A row: its key (entity, id), and its fields by name.
pub type RowView<V> = ((Seq<char>, Seq<char>), Seq<(Seq<char>, PendingView<V>)>);

pub open spec fn row_view<V>(r: DirtyRow<V>) -> RowView<V> {
    (
        (r.entity@, r.id@),
        Seq::new(r.fields@.len(), |j: int| (r.fields@[j].0@, r.fields@[j].1.view())),
    )
}

/// The index of field `f` in `fs`, or its length.
pub open spec fn field_index<V>(fs: Seq<(Seq<char>, PendingView<V>)>, f: Seq<char>) -> int
    decreases fs.len(),
{
    if fs.len() == 0 {
        0
    } else if fs[0].0 == f {
        0
    } else {
        1 + field_index(fs.drop_first(), f)
    }
}

/// The index of row `k` in `v`, or its length.
pub open spec fn row_index<V>(v: Seq<RowView<V>>, k: (Seq<char>, Seq<char>)) -> int
    decreases v.len(),
{
    if v.len() == 0 {
        0
    } else if v[0].0 == k {
        0
    } else {
        1 + row_index(v.drop_first(), k)
    }
}

/// The value waiting for field `f` among fields `fs`, if any.
pub open spec fn lookup<V>(fs: Seq<(Seq<char>, PendingView<V>)>, f: Seq<char>) -> Option<PendingView<V>> {
    let j = field_index(fs, f);
    if j < fs.len() {
        Some(fs[j].1)
    } else {
        None
    }
}

/// The value waiting for field `f` of row `k`, if any.
pub open spec fn pending<V>(v: Seq<RowView<V>>, k: (Seq<char>, Seq<char>), f: Seq<char>) -> Option<
    PendingView<V>,
> {
    let i = row_index(v, k);
    if i < v.len() {
        lookup(v[i].1, f)
    } else {
        None
    }
}

/// Each field is among `fs` once.
pub open spec fn names_distinct<V>(fs: Seq<(Seq<char>, PendingView<V>)>) -> bool {
    forall|a: int, b: int| 0 <= a < b < fs.len() ==> (#[trigger] fs[a]).0 != (#[trigger] fs[b]).0
}

/// Row `k` has fields waiting.
pub open spec fn has_row<V>(v: Seq<RowView<V>>, k: (Seq<char>, Seq<char>)) -> bool {
    row_index(v, k) < v.len()
}

/// Each row is in the buffer once, with at least one field, each field
/// once.
pub open spec fn rows_wf<V>(v: Seq<RowView<V>>) -> bool {
    &&& forall|i: int, j: int| 0 <= i < j < v.len() ==> (#[trigger] v[i]).0 != (#[trigger] v[j]).0
    &&& forall|i: int| 0 <= i < v.len() ==> (#[trigger] v[i]).1.len() > 0
    &&& forall|i: int| 0 <= i < v.len() ==> names_distinct(#[trigger] v[i].1)
}

pub proof fn lemma_field_index<V>(fs: Seq<(Seq<char>, PendingView<V>)>, f: Seq<char>)
    ensures
        0 <= field_index(fs, f) <= fs.len(),
        field_index(fs, f) < fs.len() ==> fs[field_index(fs, f)].0 == f,
        forall|j: int| 0 <= j < field_index(fs, f) ==> (#[trigger] fs[j]).0 != f,
    decreases fs.len(),
{
    if fs.len() > 0 && fs[0].0 != f {
        lemma_field_index(fs.drop_first(), f);
        assert forall|j: int| 0 <= j < field_index(fs, f) implies (#[trigger] fs[j]).0 != f by {
            if j > 0 {
                assert(fs[j] == fs.drop_first()[j - 1]);
            }
        }
    }
}

pub proof fn lemma_row_index<V>(v: Seq<RowView<V>>, k: (Seq<char>, Seq<char>))
    ensures
        0 <= row_index(v, k) <= v.len(),
        row_index(v, k) < v.len() ==> v[row_index(v, k)].0 == k,
        forall|j: int| 0 <= j < row_index(v, k) ==> (#[trigger] v[j]).0 != k,
    decreases v.len(),
{
    if v.len() > 0 && v[0].0 != k {
        lemma_row_index(v.drop_first(), k);
        assert forall|j: int| 0 <= j < row_index(v, k) implies (#[trigger] v[j]).0 != k by {
            if j > 0 {
                assert(v[j] == v.drop_first()[j - 1]);
            }
        }
    }
}

/// The fields of the row at `i` are what the buffer holds for that row.
pub proof fn lemma_pending_at<V>(v: Seq<RowView<V>>, i: int, f: Seq<char>)
    requires
        rows_wf(v),
        0 <= i < v.len(),
    ensures
        pending(v, v[i].0, f) == lookup(v[i].1, f),
{
    lemma_row_index(v, v[i].0);
    let r = row_index(v, v[i].0);
    assert(!(i < r));
    if r != i {
        assert(v[r].0 == v[i].0);
    }
}

/// Nothing waits for a row the buffer does not hold.
pub proof fn lemma_pending_absent<V>(v: Seq<RowView<V>>, k: (Seq<char>, Seq<char>), f: Seq<char>)
    requires
        forall|i: int| 0 <= i < v.len() ==> (#[trigger] v[i]).0 != k,
    ensures
        pending(v, k, f) is None,
{
    lemma_row_index(v, k);
}

/// A field found at `a` is the one looked up.
pub proof fn lemma_lookup_at<V>(fs: Seq<(Seq<char>, PendingView<V>)>, a: int)
    requires
        names_distinct(fs),
        0 <= a < fs.len(),
    ensures
        lookup(fs, fs[a].0) == Some(fs[a].1),
{
    lemma_field_index(fs, fs[a].0);
    let r = field_index(fs, fs[a].0);
    assert(!(a < r));
    if r != a {
        assert(fs[r].0 == fs[a].0);
    }
}

/// Nothing waits for a field not among `fs`.
pub proof fn lemma_lookup_absent<V>(fs: Seq<(Seq<char>, PendingView<V>)>, f: Seq<char>)
    requires
        forall|a: int| 0 <= a < fs.len() ==> (#[trigger] fs[a]).0 != f,
    ensures
        lookup(fs, f) is None,
{
    lemma_field_index(fs, f);
}

/// The failure count a new value of a field takes from the value `p` it
/// replaces: the count of a value from the same shard run, else none.
pub open spec fn carried<V>(p: Option<PendingView<V>>, shard: Seq<char>, epoch: Option<i64>) -> u32 {
    match p {
        Some(q) => if q.shard == shard && q.epoch == epoch {
            q.failures
        } else {
            0
        },
        None => 0,
    }
}

pub open spec fn fields_view<V>(fs: Seq<(String, Pending<V>)>) -> Seq<(Seq<char>, PendingView<V>)> {
    Seq::new(fs.len(), |j: int| (fs[j].0@, fs[j].1.view()))
}

/// Set field `name` to `value`, written by `shard` under `epoch`.
fn set_field<V>(fields: &mut Vec<(String, Pending<V>)>, name: String, value: V, shard: &str, epoch: Option<i64>)
    requires
        names_distinct(fields_view(old(fields)@)),
    ensures
        names_distinct(fields_view(final(fields)@)),
        final(fields)@.len() > 0,
        final(fields)@.len() >= old(fields)@.len(),
        forall|f: Seq<char>|
            lookup(fields_view(final(fields)@), f) == if f == name@ {
                Some(
                    PendingView {
                        value,
                        shard: shard@,
                        epoch,
                        failures: carried(lookup(fields_view(old(fields)@), f), shard@, epoch),
                    },
                )
            } else {
                lookup(fields_view(old(fields)@), f)
            },
{
    let ghost before = fields_view(fields@);
    let ghost nm = name@;
    let n = fields.len();
    let mut j: usize = 0;
    while j < n
        invariant
            n == fields@.len(),
            before == fields_view(fields@),
            before == fields_view(old(fields)@),
            names_distinct(before),
            nm == name@,
            j <= n,
            forall|a: int| 0 <= a < j ==> (#[trigger] before[a]).0 != nm,
        decreases n - j,
    {
        if str_eq(fields[j].0.as_str(), name.as_str()) {
            proof {
                assert(before[j as int].0 == nm);
                lemma_lookup_at(before, j as int);
            }
            let (_, old_p) = fields.remove(j);
            let failures = if str_eq(old_p.shard.as_str(), shard) && old_p.epoch == epoch {
                old_p.failures
            } else {
                0
            };
            let p = Pending { value, shard: String::from_str(shard), epoch, failures };
            fields.insert(j, (name, p));
            proof {
                let after = fields_view(fields@);
                assert(after =~= before.update(j as int, (nm, after[j as int].1)));
                assert forall|a: int, b: int| 0 <= a < b < after.len() implies (#[trigger] after[a]).0
                    != (#[trigger] after[b]).0 by {
                    assert(after[a].0 == before[a].0 && after[b].0 == before[b].0);
                }
                assert forall|f: Seq<char>| lookup(after, f) == if f == nm {
                    Some(
                        PendingView {
                            value,
                            shard: shard@,
                            epoch,
                            failures: carried(lookup(before, f), shard@, epoch),
                        },
                    )
                } else {
                    lookup(before, f)
                } by {
                    if f == nm {
                        lemma_lookup_at(after, j as int);
                    } else {
                        lemma_field_index(before, f);
                        let r = field_index(before, f);
                        if r < before.len() {
                            lemma_lookup_at(before, r);
                            lemma_lookup_at(after, r);
                            assert(after[r] == before[r]);
                        } else {
                            assert forall|a: int| 0 <= a < after.len() implies (#[trigger] after[a]).0
                                != f by {
                                if a != j {
                                    assert(after[a] == before[a]);
                                    if before[a].0 == f {
                                        lemma_lookup_at(before, a);
                                    }
                                }
                            }
                            lemma_lookup_absent(after, f);
                        }
                    }
                }
            }
            return;
        }
        proof {
            assert(before[j as int].0 != nm);
        }
        j += 1;
    }
    proof {
        lemma_lookup_absent(before, nm);
    }
    let p = Pending { value, shard: String::from_str(shard), epoch, failures: 0 };
    fields.push((name, p));
    proof {
        let after = fields_view(fields@);
        assert(after =~= before.push((nm, after[n as int].1)));
        assert forall|a: int, b: int| 0 <= a < b < after.len() implies (#[trigger] after[a]).0 != (
        #[trigger] after[b]).0 by {
            if b == n {
                assert(after[a] == before[a]);
            } else {
                assert(after[a] == before[a] && after[b] == before[b]);
            }
        }
        assert forall|f: Seq<char>| lookup(after, f) == if f == nm {
            Some(
                PendingView {
                    value,
                    shard: shard@,
                    epoch,
                    failures: carried(lookup(before, f), shard@, epoch),
                },
            )
        } else {
            lookup(before, f)
        } by {
            if f == nm {
                lemma_lookup_at(after, n as int);
            } else {
                lemma_field_index(before, f);
                let r = field_index(before, f);
                if r < before.len() {
                    lemma_lookup_at(before, r);
                    lemma_lookup_at(after, r);
                    assert(after[r] == before[r]);
                } else {
                    assert forall|a: int| 0 <= a < after.len() implies (#[trigger] after[a]).0 != f by {
                        if a < n {
                            assert(after[a] == before[a]);
                            if before[a].0 == f {
                                lemma_lookup_at(before, a);
                            }
                        }
                    }
                    lemma_lookup_absent(after, f);
                }
            }
        }
    }
}

/// The last value `set` gives field `f`, if any.
pub open spec fn last_value<V>(set: Seq<(Seq<char>, V)>, f: Seq<char>) -> Option<V>
    decreases set.len(),
{
    if set.len() == 0 {
        None
    } else if set.last().0 == f {
        Some(set.last().1)
    } else {
        last_value(set.drop_last(), f)
    }
}

pub open spec fn set_view<V>(set: Seq<(String, V)>) -> Seq<(Seq<char>, V)> {
    Seq::new(set.len(), |i: int| (set[i].0@, set[i].1))
}

/// What waits for field `f` of row `rk` after shard `shard`, held under
/// `epoch`, wrote the fields `set` of row `k` into buffer `v`: each field
/// it set takes its last value, with the failure count of the value it
/// replaces when that came from the same run (see [`carried`]); any other
/// field is unchanged.
pub open spec fn written<V>(
    v: Seq<RowView<V>>,
    k: (Seq<char>, Seq<char>),
    set: Seq<(Seq<char>, V)>,
    shard: Seq<char>,
    epoch: Option<i64>,
    rk: (Seq<char>, Seq<char>),
    f: Seq<char>,
) -> Option<PendingView<V>> {
    if rk == k && last_value(set, f) is Some {
        Some(
            PendingView {
                value: last_value(set, f)->0,
                shard,
                epoch,
                failures: carried(pending(v, rk, f), shard, epoch),
            },
        )
    } else {
        pending(v, rk, f)
    }
}

/// Where a shard is held, as its writes see it.
#[derive(Debug, Clone, Copy, PartialEq, Eq, Structural)]
pub enum Holding {
    /// No directory places shards: every running shard's writes count.
    Unplaced,
    /// This machine holds the shard under this epoch.
    Held(i64),
    /// A directory places shards and this machine does not hold it (fenced,
    /// or placed elsewhere).
    NotHeld,
}

/// The epoch a held shard's writes carry.
pub open spec fn holding_epoch(h: Holding) -> Option<i64> {
    match h {
        Holding::Held(e) => Some(e),
        _ => None,
    }
}

/// What became of one write a module asked for.
#[derive(Debug, Clone, Copy, PartialEq, Eq, Structural)]
pub enum WriteFate {
    /// Its entity, id or fields were empty: nothing to write.
    Skipped,
    /// It named a new row while [`MAX_DIRTY_ROWS`] rows wait already.
    Dropped,
    /// Its fields wait for the next flush.
    Buffered,
}

pub open spec fn rows_view<V>(rs: Seq<DirtyRow<V>>) -> Seq<RowView<V>> {
    Seq::new(rs.len(), |i: int| row_view(rs[i]))
}

/// Fields waiting to be written, by row, on all shards.
pub struct WriteBuffer<V> {
    rows: Vec<DirtyRow<V>>,
    /// Where each row is, by its key text.
    index: StringHashMap<usize>,
}

impl<V> View for WriteBuffer<V> {
    type V = Seq<RowView<V>>;

    closed spec fn view(&self) -> Seq<RowView<V>> {
        rows_view(self.rows@)
    }
}

proof fn lemma_row_view_fields<V>(r: DirtyRow<V>)
    ensures
        row_view(r).1 == fields_view(r.fields@),
{
    assert(row_view(r).1 =~= fields_view(r.fields@));
}

impl<V> WriteBuffer<V> {
    /// Each row is in the buffer once, with at least one field, each field
    /// once.
    pub closed spec fn wf(&self) -> bool {
        &&& rows_wf(self@)
        &&& index_ok(self.index@, self@)
    }

    pub fn new() -> (b: WriteBuffer<V>)
        ensures
            b.wf(),
            b@.len() == 0,
    {
        let b = WriteBuffer { rows: Vec::new(), index: StringHashMap::new() };
        proof {
            assert(b@ =~= Seq::<RowView<V>>::empty());
        }
        b
    }

    /// The number of rows with fields waiting.
    pub fn rows(&self) -> (n: usize)
        ensures
            n == self@.len(),
    {
        self.rows.len()
    }

    /// The index of row (`entity`, `id`), or the number of rows; and the
    /// row's key text.
    fn find_row(&self, entity: &str, id: &str) -> (r: (usize, String))
        requires
            self.wf(),
        ensures
            r.0 == row_index(self@, (entity@, id@)),
            r.0 <= self@.len(),
            r.1@ == key_text((entity@, id@)),
    {
        let ghost k = (entity@, id@);
        let t = row_key_text(entity, id);
        proof {
            lemma_row_index(self@, k);
        }
        match self.index.get(t.as_str()) {
            Some(i) => {
                let i = *i;
                proof {
                    assert(key_text(self@[i as int].0) == key_text(k));
                    lemma_key_text_injective(self@[i as int].0, k);
                    let r = row_index(self@, k);
                    assert(!(i < r));
                    if r != i {
                        assert(self@[r].0 == self@[i as int].0);
                    }
                }
                (i, t)
            },
            None => {
                proof {
                    let r = row_index(self@, k);
                    if r < self@.len() {
                        assert(self.index@.contains_key(key_text(self@[r].0)));
                    }
                }
                (self.rows.len(), t)
            },
        }
    }

    /// Rebuild the index of rows that are each there once.
    fn rebuild_index(&mut self)
        requires
            rows_wf(old(self)@),
        ensures
            final(self).wf(),
            final(self)@ == old(self)@,
    {
        let ghost v = self@;
        let mut idx: StringHashMap<usize> = StringHashMap::new();
        let n = self.rows.len();
        let mut i: usize = 0;
        while i < n
            invariant
                n == v.len(),
                v == self@,
                rows_wf(v),
                i <= n,
                forall|j: int| 0 <= j < i ==> idx@.contains_key(key_text(#[trigger] v[j].0)) && idx@[key_text(v[j].0)] == j,
                forall|t: Seq<char>| #[trigger] idx@.contains_key(t) ==> idx@[t] < i && key_text(v[idx@[t] as int].0) == t,
            decreases n - i,
        {
            let t = row_key_text(self.rows[i].entity.as_str(), self.rows[i].id.as_str());
            let ghost before = idx@;
            proof {
                assert(v[i as int].0 == (self.rows@[i as int].entity@, self.rows@[i as int].id@));
                if before.contains_key(t@) {
                    let j = before[t@] as int;
                    lemma_key_text_injective(v[j].0, v[i as int].0);
                }
            }
            idx.insert(t, i);
            proof {
                assert forall|j: int| 0 <= j < i + 1 implies idx@.contains_key(key_text(#[trigger] v[j].0)) && idx@[key_text(v[j].0)] == j by {
                    if j < i {
                        if key_text(v[j].0) == key_text(v[i as int].0) {
                            lemma_key_text_injective(v[j].0, v[i as int].0);
                        }
                    }
                }
            }
            i += 1;
        }
        self.index = idx;
    }

    /// Take one write of a tick of shard `shard`: ignored (`None`, nothing
    /// changed) when the shard no longer runs here, or when a directory
    /// places shards and this machine does not hold it; else buffered as
    /// [`WriteBuffer::add_write`] does, with the epoch it is held under
    /// (none without a directory).
    pub fn take_write(
        &mut self,
        shard: &str,
        running: bool,
        holding: Holding,
        entity: String,
        id: String,
        set: Vec<(String, V)>,
    ) -> (r: Option<WriteFate>)
        requires
            old(self).wf(),
        ensures
            final(self).wf(),
            r is None <==> (!running || holding is NotHeld),
            r is None ==> final(self)@ == old(self)@,
            r matches Some(fate) ==> {
                &&& (entity@.len() == 0 || id@.len() == 0 || set@.len() == 0) <==> fate
                    == WriteFate::Skipped
                &&& fate == WriteFate::Dropped <==> (fate != WriteFate::Skipped && !has_row(
                    old(self)@,
                    (entity@, id@),
                ) && old(self)@.len() >= MAX_DIRTY_ROWS)
                &&& fate != WriteFate::Buffered ==> final(self)@ == old(self)@
                &&& fate == WriteFate::Buffered ==> forall|rk: (Seq<char>, Seq<char>), f: Seq<char>|
                    #[trigger] pending(final(self)@, rk, f) == written(
                        old(self)@,
                        (entity@, id@),
                        set_view(set@),
                        shard@,
                        holding_epoch(holding),
                        rk,
                        f,
                    )
            },
    {
        if !running {
            return None;
        }
        let epoch = match holding {
            Holding::Unplaced => None,
            Holding::Held(e) => Some(e),
            Holding::NotHeld => {
                return None;
            },
        };
        Some(self.add_write(shard, epoch, entity, id, set))
    }

    /// Buffer the fields `set` that shard `shard`, held here under `epoch`,
    /// wrote to row (`entity`, `id`) (see [`written`]). Nothing is buffered
    /// for an empty entity, id or set, nor for a new row once
    /// [`MAX_DIRTY_ROWS`] rows wait.
    pub fn add_write(
        &mut self,
        shard: &str,
        epoch: Option<i64>,
        entity: String,
        id: String,
        set: Vec<(String, V)>,
    ) -> (fate: WriteFate)
        requires
            old(self).wf(),
        ensures
            final(self).wf(),
            (entity@.len() == 0 || id@.len() == 0 || set@.len() == 0) ==> fate == WriteFate::Skipped,
            fate == WriteFate::Skipped ==> (entity@.len() == 0 || id@.len() == 0 || set@.len() == 0),
            fate == WriteFate::Dropped <==> (fate != WriteFate::Skipped && !has_row(
                old(self)@,
                (entity@, id@),
            ) && old(self)@.len() >= MAX_DIRTY_ROWS),
            fate != WriteFate::Buffered ==> final(self)@ == old(self)@,
            fate == WriteFate::Buffered ==> final(self)@.len() == old(self)@.len() + (if has_row(
                old(self)@,
                (entity@, id@),
            ) {
                0int
            } else {
                1int
            }),
            fate == WriteFate::Buffered ==> forall|rk: (Seq<char>, Seq<char>), f: Seq<char>|
                #[trigger] pending(final(self)@, rk, f) == written(
                    old(self)@,
                    (entity@, id@),
                    set_view(set@),
                    shard@,
                    epoch,
                    rk,
                    f,
                ),
    {
        proof {
            lemma_text_len_empty(entity@);
            lemma_text_len_empty(id@);
        }
        if str_len(entity.as_str()) == 0 || str_len(id.as_str()) == 0 || set.len() == 0 {
            return WriteFate::Skipped;
        }
        let ghost v = self@;
        let ghost k = (entity@, id@);
        let ghost sv = set_view(set@);
        let ghost idx0 = self.index@;
        let (i, kt) = self.find_row(entity.as_str(), id.as_str());
        let found = i < self.rows.len();
        if !found && self.rows.len() >= MAX_DIRTY_ROWS {
            return WriteFate::Dropped;
        }
        let mut row = if found {
            let mut r = DirtyRow { entity: String::new(), id: String::new(), fields: Vec::new() };
            std::mem::swap(&mut self.rows[i], &mut r);
            r
        } else {
            DirtyRow { entity, id, fields: Vec::new() }
        };
        proof {
            if found {
                lemma_row_index(v, k);
                lemma_row_view_fields(row);
                assert(row_view(row) == v[i as int]);
                assert(v[i as int].0 == k);
            } else {
                assert forall|j: int| 0 <= j < v.len() implies (#[trigger] v[j]).0 != k by {
                    lemma_row_index(v, k);
                }
            }
        }
        let ghost start = fields_view(row.fields@);
        proof {
            assert(start =~= if found { v[i as int].1 } else { Seq::empty() });
            assert forall|f: Seq<char>| #[trigger] lookup(start, f) == pending(v, k, f) by {
                if found {
                    lemma_pending_at(v, i as int, f);
                } else {
                    lemma_pending_absent(v, k, f);
                    lemma_lookup_absent(start, f);
                }
            }
            assert(names_distinct(start));
        }
        let mut set = set;
        let ghost all = set@;
        let n = set.len();
        let mut m: usize = 0;
        proof {
            assert(all.skip(0) =~= all);
            assert(set_view(all.take(0)) =~= Seq::<(Seq<char>, V)>::empty());
        }
        while set.len() > 0
            invariant
                n == all.len(),
                set@.len() + m == n,
                set@ == all.skip(m as int),
                names_distinct(fields_view(row.fields@)),
                m > 0 ==> row.fields@.len() > 0,
                row.entity@ == k.0,
                row.id@ == k.1,
                forall|f: Seq<char>|
                    #[trigger] lookup(fields_view(row.fields@), f) == if last_value(
                        set_view(all.take(m as int)),
                        f,
                    ) is Some {
                        Some(
                            PendingView {
                                value: last_value(set_view(all.take(m as int)), f)->0,
                                shard: shard@,
                                epoch,
                                failures: carried(pending(v, k, f), shard@, epoch),
                            },
                        )
                    } else {
                        pending(v, k, f)
                    },
            decreases set@.len(),
        {
            let (name, value) = set.remove(0);
            let ghost before = fields_view(row.fields@);
            let ghost nm = name@;
            let ghost val = value;
            proof {
                assert(all[m as int] == (name, value));
            }
            set_field(&mut row.fields, name, value, shard, epoch);
            proof {
                let t0 = set_view(all.take(m as int));
                let t1 = set_view(all.take(m + 1));
                assert(t1 =~= t0.push((nm, val)));
                assert(t1.drop_last() =~= t0);
                assert(set@ =~= all.skip(m + 1));
                assert forall|f: Seq<char>| #[trigger] lookup(fields_view(row.fields@), f) == if last_value(
                    t1,
                    f,
                ) is Some {
                    Some(
                        PendingView {
                            value: last_value(t1, f)->0,
                            shard: shard@,
                            epoch,
                            failures: carried(pending(v, k, f), shard@, epoch),
                        },
                    )
                } else {
                    pending(v, k, f)
                } by {
                    if f == nm {
                        assert(last_value(t1, f) == Some(val));
                    } else {
                        assert(last_value(t1, f) == last_value(t0, f));
                    }
                }
            }
            m += 1;
        }
        proof {
            assert(all.take(n as int) =~= all);
            assert(n > 0);
        }
        let ghost fresh = row_view(row);
        proof {
            lemma_row_view_fields(row);
        }
        let n0 = self.rows.len();
        if found {
            self.rows[i] = row;
        } else {
            self.rows.push(row);
            self.index.insert(kt, n0);
        }
        proof {
            let w = self@;
            assert(w.len() == v.len() + if found { 0int } else { 1int });
            assert(index_ok(self.index@, w)) by {
                if found {
                    assert(w =~= v.update(i as int, fresh));
                    assert forall|j: int| 0 <= j < w.len() implies (#[trigger] w[j]).0 == v[j].0 by {
                        if j != i {
                            assert(w[j] == v[j]);
                        }
                    }
                } else {
                    assert(w =~= v.push(fresh));
                    assert(n0 == v.len());
                    assert forall|j: int| 0 <= j < w.len() implies self.index@.contains_key(key_text(#[trigger] w[j].0))
                        && self.index@[key_text(w[j].0)] == j by {
                        if j < v.len() {
                            assert(w[j] == v[j]);
                            if key_text(v[j].0) == key_text(k) {
                                lemma_key_text_injective(v[j].0, k);
                            }
                        }
                    }
                    assert forall|t: Seq<char>| #[trigger] self.index@.contains_key(t) implies self.index@[t] < w.len()
                        && key_text(w[self.index@[t] as int].0) == t by {
                        if t != key_text(k) {
                            assert(idx0.contains_key(t));
                            assert(w[idx0[t] as int] == v[idx0[t] as int]);
                        }
                    }
                }
            }
            let f0 = fresh.1;
            if found {
                assert(w =~= v.update(i as int, fresh));
            } else {
                assert(w =~= v.push(fresh));
            }
            assert(names_distinct(f0));
            assert forall|a: int, b: int| 0 <= a < b < w.len() implies (#[trigger] w[a]).0 != (
            #[trigger] w[b]).0 by {
                if found {
                    assert(w[a].0 == v[a].0 && w[b].0 == v[b].0);
                } else if b == v.len() {
                    assert(w[a] == v[a]);
                } else {
                    assert(w[a] == v[a] && w[b] == v[b]);
                }
            }
            assert forall|a: int| 0 <= a < w.len() implies (#[trigger] w[a]).1.len() > 0 && names_distinct(
                w[a].1,
            ) by {
                if (found && a == i) || (!found && a == v.len()) {
                    assert(w[a] == fresh);
                } else {
                    assert(w[a] == v[a]);
                }
            }
            assert(rows_wf(w));
            assert forall|rk: (Seq<char>, Seq<char>), f: Seq<char>| #[trigger] pending(w, rk, f) == written(
                v,
                k,
                sv,
                shard@,
                epoch,
                rk,
                f,
            ) by {
                assert(set_view(all) =~= sv);
                let at: int = if found { i as int } else { v.len() as int };
                assert(w[at] == fresh);
                if rk == k {
                    lemma_pending_at(w, at, f);
                } else {
                    lemma_row_index(v, rk);
                    let r = row_index(v, rk);
                    if r < v.len() {
                        lemma_pending_at(v, r, f);
                        assert(w[r] == v[r]);
                        lemma_pending_at(w, r, f);
                    } else {
                        assert forall|j: int| 0 <= j < w.len() implies (#[trigger] w[j]).0 != rk by {
                            if j != at {
                                assert(w[j] == v[j]);
                                if v[j].0 == rk {
                                    lemma_pending_at(v, j, f);
                                }
                            }
                        }
                        lemma_pending_absent(w, rk, f);
                    }
                }
            }
        }
        WriteFate::Buffered
    }
}

/// What waits for a field after the fields of shard `shard` were dropped.
pub open spec fn discarded<V>(p: Option<PendingView<V>>, shard: Seq<char>) -> Option<PendingView<V>> {
    match p {
        Some(q) => if q.shard == shard {
            None
        } else {
            Some(q)
        },
        None => None,
    }
}

/// The fields of `fs` not written by `shard`.
fn fields_without<V>(fs: Vec<(String, Pending<V>)>, shard: &str) -> (r: Vec<(String, Pending<V>)>)
    requires
        names_distinct(fields_view(fs@)),
    ensures
        names_distinct(fields_view(r@)),
        forall|f: Seq<char>| #[trigger] lookup(fields_view(r@), f) == discarded(lookup(fields_view(fs@), f), shard@),
{
    let ghost all = fields_view(fs@);
    let mut fs = fs;
    let mut r: Vec<(String, Pending<V>)> = Vec::new();
    while fs.len() > 0
        invariant
            all.len() >= fs@.len(),
            forall|j: int| 0 <= j < fs@.len() ==> (#[trigger] fields_view(fs@)[j]) == all[j],
            names_distinct(all),
            names_distinct(fields_view(r@)),
            forall|a: int| 0 <= a < r@.len() ==> exists|j: int| fs@.len() <= j < all.len() && (#[trigger] fields_view(r@)[a]) == all[j],
            forall|f: Seq<char>| #[trigger] lookup(fields_view(r@), f) == if field_index(all, f) >= fs@.len() {
                discarded(lookup(all, f), shard@)
            } else {
                None
            },
        decreases fs@.len(),
    {
        let ghost m = fs@.len() - 1;
        let ghost pre = fs@;
        let e = fs.pop().unwrap();
        proof {
            assert(pre == fs@.push(e));
            assert(fields_view(pre)[m] == all[m]);
            assert(pre[m] == e);
            assert((e.0@, e.1.view()) == all[m]);
            lemma_lookup_at(all, m);
            assert forall|j: int| 0 <= j < fs@.len() implies (#[trigger] fields_view(fs@)[j]) == all[j] by {
                assert(fields_view(pre)[j] == all[j]);
                assert(pre[j] == fs@[j]);
            }
        }
        if str_eq(e.1.shard.as_str(), shard) {
            proof {
                assert forall|f: Seq<char>| #[trigger] lookup(fields_view(r@), f) == if field_index(all, f) >= fs@.len() {
                    discarded(lookup(all, f), shard@)
                } else {
                    None
                } by {
                    lemma_field_index(all, f);
                    if f == all[m].0 {
                        assert(field_index(all, f) == m);
                    }
                }
            }
        } else {
            let ghost before = fields_view(r@);
            r.push(e);
            proof {
                let after = fields_view(r@);
                assert(after =~= before.push(all[m]));
                assert forall|a: int| 0 <= a < after.len() implies exists|j: int| fs@.len() <= j < all.len() && (#[trigger] after[a]) == all[j] by {
                    if a == before.len() {
                        assert(after[a] == all[m]);
                    } else {
                        assert(after[a] == before[a]);
                    }
                }
                assert forall|a: int, b: int| 0 <= a < b < after.len() implies (#[trigger] after[a]).0 != (#[trigger] after[b]).0 by {
                    if b == before.len() {
                        assert(after[a] == before[a]);
                        let j = choose|j: int| fs@.len() + 1 <= j < all.len() && before[a] == all[j];
                        assert(j != m);
                    } else {
                        assert(after[a] == before[a] && after[b] == before[b]);
                    }
                }
                assert forall|f: Seq<char>| #[trigger] lookup(after, f) == if field_index(all, f) >= fs@.len() {
                    discarded(lookup(all, f), shard@)
                } else {
                    None
                } by {
                    lemma_field_index(all, f);
                    assert(lookup(before, f) == if field_index(all, f) >= m + 1 {
                        discarded(lookup(all, f), shard@)
                    } else {
                        None
                    });
                    if f == all[m].0 {
                        assert(field_index(all, f) == m);
                        lemma_lookup_at(after, before.len() as int);
                        assert(after[before.len() as int] == all[m]);
                        assert(lookup(all, f) == Some(all[m].1));
                    } else {
                        lemma_field_index(before, f);
                        let q = field_index(before, f);
                        if q < before.len() {
                            lemma_lookup_at(before, q);
                            lemma_lookup_at(after, q);
                            assert(after[q] == before[q]);
                        } else {
                            assert forall|a: int| 0 <= a < after.len() implies (#[trigger] after[a]).0 != f by {
                                if a < before.len() {
                                    assert(after[a] == before[a]);
                                    if before[a].0 == f {
                                        lemma_lookup_at(before, a);
                                    }
                                }
                            }
                            lemma_lookup_absent(after, f);
                        }
                    }
                }
            }
        }
    }
    proof {
        assert forall|f: Seq<char>| #[trigger] lookup(fields_view(r@), f) == discarded(lookup(all, f), shard@) by {
            lemma_field_index(all, f);
        }
    }
    r
}

impl<V> WriteBuffer<V> {
    /// Drop the fields shard `shard` wrote (a copy that lost its place),
    /// and the rows left with none.
    pub fn discard(&mut self, shard: &str)
        requires
            old(self).wf(),
        ensures
            final(self).wf(),
            final(self)@.len() <= old(self)@.len(),
            forall|rk: (Seq<char>, Seq<char>), f: Seq<char>|
                #[trigger] pending(final(self)@, rk, f) == discarded(pending(old(self)@, rk, f), shard@),
    {
        let ghost all = self@;
        let mut rows: Vec<DirtyRow<V>> = Vec::new();
        std::mem::swap(&mut rows, &mut self.rows);
        proof {
            assert(rows_view(rows@) == all);
        }
        let mut out: Vec<DirtyRow<V>> = Vec::new();
        proof {
            assert(rows_view(out@) =~= Seq::<RowView<V>>::empty());
        }
        while rows.len() > 0
            invariant
                all.len() >= rows@.len(),
                rows_wf(all),
                forall|j: int| 0 <= j < rows@.len() ==> (#[trigger] rows_view(rows@)[j]) == all[j],
                rows_wf(rows_view(out@)),
                out@.len() + rows@.len() <= all.len(),
                forall|a: int| 0 <= a < out@.len() ==> exists|j: int| rows@.len() <= j < all.len() && (#[trigger] rows_view(out@)[a]).0 == all[j].0,
                forall|rk: (Seq<char>, Seq<char>), f: Seq<char>| #[trigger] pending(rows_view(out@), rk, f) == if row_index(all, rk) >= rows@.len() {
                    discarded(pending(all, rk, f), shard@)
                } else {
                    None
                },
            decreases rows@.len(),
        {
            let ghost m = rows@.len() - 1;
            let ghost pre = rows@;
            let ghost before = rows_view(out@);
            let r = rows.pop().unwrap();
            proof {
                assert(pre == rows@.push(r));
                assert(rows_view(pre)[m] == all[m]);
                assert(pre[m] == r);
                assert(row_view(r) == all[m]);
                lemma_row_view_fields(r);
                assert forall|j: int| 0 <= j < rows@.len() implies (#[trigger] rows_view(rows@)[j]) == all[j] by {
                    assert(rows_view(pre)[j] == all[j]);
                    assert(pre[j] == rows@[j]);
                }
                lemma_row_index(all, all[m].0);
                assert(row_index(all, all[m].0) == m) by {
                    let q = row_index(all, all[m].0);
                    assert(!(m < q));
                    if q != m {
                        assert(all[q].0 == all[m].0);
                    }
                }
            }
            let key = (r.entity, r.id);
            let fs = fields_without(r.fields, shard);
            let ghost fv = fields_view(fs@);
            proof {
                assert forall|f: Seq<char>| #[trigger] lookup(fv, f) == discarded(pending(all, all[m].0, f), shard@) by {
                    lemma_pending_at(all, m, f);
                }
            }
            if fs.len() > 0 {
                let (entity, id) = key;
                let row = DirtyRow { entity, id, fields: fs };
                out.push(row);
                proof {
                    let after = rows_view(out@);
                    lemma_row_view_fields(row);
                    assert(after =~= before.push(row_view(row)));
                    assert(row_view(row).0 == all[m].0);
                    assert(row_view(row).1 == fv);
                    assert forall|a: int| 0 <= a < after.len() implies exists|j: int| rows@.len() <= j < all.len() && (#[trigger] after[a]).0 == all[j].0 by {
                        if a == before.len() {
                            assert(after[a].0 == all[m].0);
                        } else {
                            assert(after[a] == before[a]);
                        }
                    }
                    assert forall|a: int, b: int| 0 <= a < b < after.len() implies (#[trigger] after[a]).0 != (#[trigger] after[b]).0 by {
                        if b == before.len() {
                            assert(after[a] == before[a]);
                            let j = choose|j: int| rows@.len() + 1 <= j < all.len() && before[a].0 == all[j].0;
                            assert(j != m);
                        } else {
                            assert(after[a] == before[a] && after[b] == before[b]);
                        }
                    }
                    assert forall|a: int| 0 <= a < after.len() implies (#[trigger] after[a]).1.len() > 0 && names_distinct(after[a].1) by {
                        if a != before.len() {
                            assert(after[a] == before[a]);
                        }
                    }
                    assert forall|rk: (Seq<char>, Seq<char>), f: Seq<char>| #[trigger] pending(after, rk, f) == if row_index(all, rk) >= rows@.len() {
                        discarded(pending(all, rk, f), shard@)
                    } else {
                        None
                    } by {
                        assert(pending(before, rk, f) == if row_index(all, rk) >= m + 1 {
                            discarded(pending(all, rk, f), shard@)
                        } else {
                            None
                        });
                        if rk == all[m].0 {
                            lemma_pending_at(after, before.len() as int, f);
                            assert(after[before.len() as int] == row_view(row));
                            assert forall|a: int| 0 <= a < before.len() implies (#[trigger] before[a]).0 != rk by {
                                let j = choose|j: int| rows@.len() + 1 <= j < all.len() && before[a].0 == all[j].0;
                                assert(j != m);
                            }
                            lemma_pending_absent(before, rk, f);
                        } else {
                            lemma_row_index(all, rk);
                            lemma_row_index(before, rk);
                            let q = row_index(before, rk);
                            if q < before.len() {
                                lemma_pending_at(before, q, f);
                                assert(after[q] == before[q]);
                                lemma_pending_at(after, q, f);
                            } else {
                                assert forall|a: int| 0 <= a < after.len() implies (#[trigger] after[a]).0 != rk by {
                                    if a < before.len() {
                                        assert(after[a] == before[a]);
                                    }
                                }
                                lemma_pending_absent(after, rk, f);
                                lemma_pending_absent(before, rk, f);
                            }
                        }
                    }
                }
            } else {
                proof {
                    assert forall|f: Seq<char>| #[trigger] lookup(fv, f) is None by {
                        lemma_lookup_absent(fv, f);
                    }
                    assert forall|rk: (Seq<char>, Seq<char>), f: Seq<char>| #[trigger] pending(before, rk, f) == if row_index(all, rk) >= rows@.len() {
                        discarded(pending(all, rk, f), shard@)
                    } else {
                        None
                    } by {
                        assert(pending(before, rk, f) == if row_index(all, rk) >= m + 1 {
                            discarded(pending(all, rk, f), shard@)
                        } else {
                            None
                        });
                        if rk == all[m].0 {
                            assert(lookup(fv, f) is None);
                            assert forall|a: int| 0 <= a < before.len() implies (#[trigger] before[a]).0 != rk by {
                                let j = choose|j: int| rows@.len() + 1 <= j < all.len() && before[a].0 == all[j].0;
                                assert(j != m);
                            }
                            lemma_pending_absent(before, rk, f);
                        } else {
                            lemma_row_index(all, rk);
                        }
                    }
                    assert forall|a: int| 0 <= a < out@.len() implies exists|j: int| rows@.len() <= j < all.len() && (#[trigger] rows_view(out@)[a]).0 == all[j].0 by {
                        let j = choose|j: int| rows@.len() + 1 <= j < all.len() && before[a].0 == all[j].0;
                    }
                }
            }
        }
        self.rows = out;
        self.rebuild_index();
        proof {
            assert forall|rk: (Seq<char>, Seq<char>), f: Seq<char>| #[trigger] pending(self@, rk, f) == discarded(pending(all, rk, f), shard@) by {
                lemma_row_index(all, rk);
                if row_index(all, rk) >= all.len() {
                    lemma_pending_absent(all, rk, f);
                }
            }
        }
    }
}

// ---------------------------------------------------------------------------
// Flushing
// ---------------------------------------------------------------------------

/// Which buffered fields a flush writes.
pub enum FlushScope {
    /// The fields shard `0` wrote (it is stopping here).
    Shard(String),
    /// The fields of the shards this machine holds, each with the epoch it
    /// holds it under, and the fields written without a directory.
    Held(Vec<(String, i64)>),
    /// Every field (the machine is leaving, or has no directory).
    All,
}

/// The epoch shard `s` is held under, per `held`.
pub open spec fn held_epoch(held: Seq<(String, i64)>, s: Seq<char>) -> Option<i64>
    decreases held.len(),
{
    if held.len() == 0 {
        None
    } else if held[0].0@ == s {
        Some(held[0].1)
    } else {
        held_epoch(held.drop_first(), s)
    }
}

/// A flush of `scope` writes the buffered value `p`: one of the stopping
/// shard; one written without a directory or under the epoch its shard is
/// held under here now; or any.
pub open spec fn wanted<V>(scope: FlushScope, p: PendingView<V>) -> bool {
    match scope {
        FlushScope::Shard(id) => p.shard == id@,
        FlushScope::Held(h) => p.epoch is None || held_epoch(h@, p.shard) == p.epoch,
        FlushScope::All => true,
    }
}

fn is_wanted<V>(scope: &FlushScope, p: &Pending<V>) -> (b: bool)
    ensures
        b == wanted(*scope, p.view()),
{
    match scope {
        FlushScope::Shard(id) => str_eq(p.shard.as_str(), id.as_str()),
        FlushScope::Held(h) => {
            match p.epoch {
                None => true,
                Some(e) => {
                    let n = h.len();
                    let mut i: usize = 0;
                    proof {
                        assert(h@.skip(0) =~= h@);
                    }
                    while i < n
                        invariant
                            n == h@.len(),
                            i <= n,
                            p.epoch == Some(e),
                            *scope == FlushScope::Held(*h),
                            held_epoch(h@, p.shard@) == held_epoch(h@.skip(i as int), p.shard@),
                        decreases n - i,
                    {
                        proof {
                            assert(h@.skip(i as int)[0] == h@[i as int]);
                            assert(h@.skip(i as int).drop_first() =~= h@.skip(i + 1));
                        }
                        if str_eq(h[i].0.as_str(), p.shard.as_str()) {
                            return h[i].1 == e;
                        }
                        i += 1;
                    }
                    false
                },
            }
        },
        FlushScope::All => true,
    }
}

/// Fields taken out of the buffer to be written in one row update: the
/// row, the shard run that wrote them, and the fields.
pub struct Group<V> {
    pub entity: String,
    pub id: String,
    pub shard: String,
    pub epoch: Option<i64>,
    pub fields: Vec<(String, Pending<V>)>,
}

/// A group: its row, shard, epoch, and fields.
pub type GroupView<V> = ((Seq<char>, Seq<char>), Seq<char>, Option<i64>, Seq<(Seq<char>, PendingView<V>)>);

pub open spec fn group_view<V>(g: Group<V>) -> GroupView<V> {
    ((g.entity@, g.id@), g.shard@, g.epoch, fields_view(g.fields@))
}

pub open spec fn groups_view<V>(gs: Seq<Group<V>>) -> Seq<GroupView<V>> {
    Seq::new(gs.len(), |i: int| group_view(gs[i]))
}

/// Each group has fields, each once, all of the group's run; two groups of
/// a row are of different runs, and no field is in both.
pub open spec fn groups_wf<V>(gs: Seq<GroupView<V>>) -> bool {
    &&& forall|a: int| 0 <= a < gs.len() ==> (#[trigger] gs[a]).3.len() > 0 && names_distinct(gs[a].3)
    &&& forall|a: int, j: int| 0 <= a < gs.len() && 0 <= j < gs[a].3.len() ==> (#[trigger] gs[a].3[j]).1.shard
        == gs[a].1 && gs[a].3[j].1.epoch == gs[a].2
    &&& forall|a: int, b: int| 0 <= a < b < gs.len() && (#[trigger] gs[a]).0 == (#[trigger] gs[b]).0 ==> (gs[a].1
        != gs[b].1 || gs[a].2 != gs[b].2)
    &&& forall|a: int, b: int, f: Seq<char>| 0 <= a < b < gs.len() && gs[a].0 == gs[b].0
        ==> !(#[trigger] lookup(gs[a].3, f) is Some && #[trigger] lookup(gs[b].3, f) is Some)
}

/// The value of field `f` of row `rk` that groups `gs` hold, if any.
pub open spec fn taken<V>(gs: Seq<GroupView<V>>, rk: (Seq<char>, Seq<char>), f: Seq<char>) -> Option<PendingView<V>>
    decreases gs.len(),
{
    if gs.len() == 0 {
        None
    } else if gs[0].0 == rk && lookup(gs[0].3, f) is Some {
        lookup(gs[0].3, f)
    } else {
        taken(gs.drop_first(), rk, f)
    }
}

pub proof fn lemma_taken_at<V>(gs: Seq<GroupView<V>>, a: int, f: Seq<char>)
    requires
        groups_wf(gs),
        0 <= a < gs.len(),
        lookup(gs[a].3, f) is Some,
    ensures
        taken(gs, gs[a].0, f) == lookup(gs[a].3, f),
    decreases gs.len(),
{
    if a > 0 {
        if gs[0].0 == gs[a].0 {
            assert(!(lookup(gs[0].3, f) is Some && lookup(gs[a].3, f) is Some));
        }
        let t = gs.drop_first();
        assert(groups_wf(t)) by {
            assert forall|x: int| 0 <= x < t.len() implies (#[trigger] t[x]).3.len() > 0 && names_distinct(t[x].3) by {
                assert(t[x] == gs[x + 1]);
            }
            assert forall|x: int, j: int| 0 <= x < t.len() && 0 <= j < t[x].3.len() implies (#[trigger] t[x].3[j]).1.shard
                == t[x].1 && t[x].3[j].1.epoch == t[x].2 by {
                assert(t[x] == gs[x + 1]);
            }
            assert forall|x: int, y: int| 0 <= x < y < t.len() && (#[trigger] t[x]).0 == (#[trigger] t[y]).0 implies (t[x].1
                != t[y].1 || t[x].2 != t[y].2) by {
                assert(t[x] == gs[x + 1] && t[y] == gs[y + 1]);
            }
            assert forall|x: int, y: int, g: Seq<char>| 0 <= x < y < t.len() && t[x].0 == t[y].0
                implies !(#[trigger] lookup(t[x].3, g) is Some && #[trigger] lookup(t[y].3, g) is Some) by {
                assert(t[x] == gs[x + 1] && t[y] == gs[y + 1]);
            }
        }
        assert(t[a - 1] == gs[a]);
        lemma_taken_at(t, a - 1, f);
    }
}

pub proof fn lemma_taken_absent<V>(gs: Seq<GroupView<V>>, rk: (Seq<char>, Seq<char>), f: Seq<char>)
    requires
        forall|a: int| 0 <= a < gs.len() && (#[trigger] gs[a]).0 == rk ==> lookup(gs[a].3, f) is None,
    ensures
        taken(gs, rk, f) is None,
    decreases gs.len(),
{
    if gs.len() > 0 {
        let t = gs.drop_first();
        assert forall|a: int| 0 <= a < t.len() && (#[trigger] t[a]).0 == rk implies lookup(t[a].3, f) is None by {
            assert(t[a] == gs[a + 1]);
        }
        lemma_taken_absent(t, rk, f);
    }
}

/// Adding a field not among `fs` keeps the names distinct, and finds it.
pub proof fn lemma_lookup_push<V>(fs: Seq<(Seq<char>, PendingView<V>)>, e: (Seq<char>, PendingView<V>))
    requires
        names_distinct(fs),
        forall|a: int| 0 <= a < fs.len() ==> (#[trigger] fs[a]).0 != e.0,
    ensures
        names_distinct(fs.push(e)),
        forall|f: Seq<char>| #[trigger] lookup(fs.push(e), f) == if f == e.0 {
            Some(e.1)
        } else {
            lookup(fs, f)
        },
{
    let p = fs.push(e);
    assert forall|a: int, b: int| 0 <= a < b < p.len() implies (#[trigger] p[a]).0 != (#[trigger] p[b]).0 by {
        if b == fs.len() {
            assert(p[a] == fs[a]);
        } else {
            assert(p[a] == fs[a] && p[b] == fs[b]);
        }
    }
    assert forall|f: Seq<char>| #[trigger] lookup(p, f) == if f == e.0 {
        Some(e.1)
    } else {
        lookup(fs, f)
    } by {
        if f == e.0 {
            lemma_lookup_at(p, fs.len() as int);
        } else {
            lemma_field_index(fs, f);
            let q = field_index(fs, f);
            if q < fs.len() {
                lemma_lookup_at(fs, q);
                assert(p[q] == fs[q]);
                lemma_lookup_at(p, q);
            } else {
                assert forall|a: int| 0 <= a < p.len() implies (#[trigger] p[a]).0 != f by {
                    if a < fs.len() {
                        assert(p[a] == fs[a]);
                    }
                }
                lemma_lookup_absent(p, f);
            }
        }
    }
}

/// The groups hold field `f` of row `rk` exactly when one of them does.
pub proof fn lemma_taken_char<V>(gs: Seq<GroupView<V>>, rk: (Seq<char>, Seq<char>), f: Seq<char>)
    requires
        groups_wf(gs),
    ensures
        (forall|a: int| 0 <= a < gs.len() && (#[trigger] gs[a]).0 == rk ==> lookup(gs[a].3, f) is None)
            ==> taken(gs, rk, f) is None,
        forall|a: int| 0 <= a < gs.len() && (#[trigger] gs[a]).0 == rk && lookup(gs[a].3, f) is Some
            ==> taken(gs, rk, f) == lookup(gs[a].3, f),
{
    if forall|a: int| 0 <= a < gs.len() && (#[trigger] gs[a]).0 == rk ==> lookup(gs[a].3, f) is None {
        lemma_taken_absent(gs, rk, f);
    }
    assert forall|a: int| 0 <= a < gs.len() && (#[trigger] gs[a]).0 == rk && lookup(gs[a].3, f) is Some
        implies taken(gs, rk, f) == lookup(gs[a].3, f) by {
        lemma_taken_at(gs, a, f);
    }
}

/// What stays in the buffer of a value `p` after a flush of `scope` took
/// the ones it writes.
pub open spec fn stays<V>(scope: FlushScope, p: Option<PendingView<V>>) -> Option<PendingView<V>> {
    match p {
        Some(q) => if wanted(scope, q) {
            None
        } else {
            Some(q)
        },
        None => None,
    }
}

/// What a flush of `scope` takes of a value `p`.
pub open spec fn goes<V>(scope: FlushScope, p: Option<PendingView<V>>) -> Option<PendingView<V>> {
    match p {
        Some(q) => if wanted(scope, q) {
            Some(q)
        } else {
            None
        },
        None => None,
    }
}

/// The group of shard `shard`'s run `epoch` among `gs`, or their number.
fn find_group<V>(gs: &Vec<Group<V>>, shard: &str, epoch: Option<i64>) -> (g: usize)
    ensures
        g <= gs@.len(),
        g < gs@.len() ==> groups_view(gs@)[g as int].1 == shard@ && groups_view(gs@)[g as int].2 == epoch,
        forall|a: int| 0 <= a < g ==> !((#[trigger] groups_view(gs@)[a]).1 == shard@ && groups_view(gs@)[a].2 == epoch),
{
    let n = gs.len();
    let mut g: usize = 0;
    while g < n
        invariant
            n == gs@.len(),
            g <= n,
            forall|a: int| 0 <= a < g ==> !((#[trigger] groups_view(gs@)[a]).1 == shard@ && groups_view(gs@)[a].2 == epoch),
        decreases n - g,
    {
        if str_eq(gs[g].shard.as_str(), shard) && gs[g].epoch == epoch {
            return g;
        }
        g += 1;
    }
    g
}

/// Split the fields of row (`entity`, `id`) for a flush of `scope`: the
/// fields it does not write stay, and the ones it writes are grouped by
/// the shard run that wrote them.
fn split_row<V>(entity: &str, id: &str, fields: Vec<(String, Pending<V>)>, scope: &FlushScope) -> (r: (
    Vec<(String, Pending<V>)>,
    Vec<Group<V>>,
))
    requires
        names_distinct(fields_view(fields@)),
    ensures
        names_distinct(fields_view(r.0@)),
        forall|f: Seq<char>| #[trigger] lookup(fields_view(r.0@), f) == stays(*scope, lookup(fields_view(fields@), f)),
        groups_wf(groups_view(r.1@)),
        forall|a: int| 0 <= a < r.1@.len() ==> (#[trigger] groups_view(r.1@)[a]).0 == (entity@, id@),
        forall|f: Seq<char>| #[trigger] taken(groups_view(r.1@), (entity@, id@), f) == goes(*scope, lookup(fields_view(fields@), f)),
{
    let ghost all = fields_view(fields@);
    let ghost key = (entity@, id@);
    let mut fs = fields;
    let mut kept: Vec<(String, Pending<V>)> = Vec::new();
    let mut gs: Vec<Group<V>> = Vec::new();
    proof {
        assert(fields_view(kept@) =~= Seq::<(Seq<char>, PendingView<V>)>::empty());
        assert(groups_view(gs@) =~= Seq::<GroupView<V>>::empty());
        assert forall|f: Seq<char>| #[trigger] taken(groups_view(gs@), key, f) is None by {
            lemma_taken_absent(groups_view(gs@), key, f);
        }
        assert forall|f: Seq<char>| #[trigger] lookup(fields_view(kept@), f) is None by {
            lemma_lookup_absent(fields_view(kept@), f);
        }
    }
    while fs.len() > 0
        invariant
            all.len() >= fs@.len(),
            key == (entity@, id@),
            forall|j: int| 0 <= j < fs@.len() ==> (#[trigger] fields_view(fs@)[j]) == all[j],
            names_distinct(all),
            names_distinct(fields_view(kept@)),
            forall|a: int| 0 <= a < kept@.len() ==> exists|j: int| fs@.len() <= j < all.len() && (#[trigger] fields_view(kept@)[a]) == all[j],
            forall|f: Seq<char>| #[trigger] lookup(fields_view(kept@), f) == if field_index(all, f) >= fs@.len() {
                stays(*scope, lookup(all, f))
            } else {
                None
            },
            groups_wf(groups_view(gs@)),
            forall|a: int| 0 <= a < gs@.len() ==> (#[trigger] groups_view(gs@)[a]).0 == key,
            forall|a: int, i: int| 0 <= a < gs@.len() && 0 <= i < groups_view(gs@)[a].3.len() ==> exists|j: int| fs@.len() <= j < all.len() && (#[trigger] groups_view(gs@)[a].3[i]) == all[j],
            forall|f: Seq<char>| #[trigger] taken(groups_view(gs@), key, f) == if field_index(all, f) >= fs@.len() {
                goes(*scope, lookup(all, f))
            } else {
                None
            },
        decreases fs@.len(),
    {
        let ghost m = fs@.len() - 1;
        let ghost pre = fs@;
        let ghost kv = fields_view(kept@);
        let ghost gv = groups_view(gs@);
        let e = fs.pop().unwrap();
        let ghost x = (e.0@, e.1.view());
        proof {
            assert(pre == fs@.push(e));
            assert(fields_view(pre)[m] == all[m]);
            assert(pre[m] == e);
            assert(x == all[m]);
            lemma_lookup_at(all, m);
            assert forall|j: int| 0 <= j < fs@.len() implies (#[trigger] fields_view(fs@)[j]) == all[j] by {
                assert(fields_view(pre)[j] == all[j]);
                assert(pre[j] == fs@[j]);
            }
            lemma_field_index(all, x.0);
            assert(field_index(all, x.0) == m) by {
                let q = field_index(all, x.0);
                assert(!(m < q));
                if q != m {
                    assert(all[q].0 == all[m].0);
                }
            }
            // No field already placed has this name.
            assert forall|a: int| 0 <= a < kv.len() implies (#[trigger] kv[a]).0 != x.0 by {
                let j = choose|j: int| m + 1 <= j < all.len() && kv[a] == all[j];
            }
            assert forall|a: int, i: int| 0 <= a < gv.len() && 0 <= i < gv[a].3.len() implies (#[trigger] gv[a].3[i]).0 != x.0 by {
                let j = choose|j: int| m + 1 <= j < all.len() && gv[a].3[i] == all[j];
            }
            assert forall|a: int| 0 <= a < gv.len() implies lookup((#[trigger] gv[a]).3, x.0) is None by {
                assert forall|i: int| 0 <= i < gv[a].3.len() implies (#[trigger] gv[a].3[i]).0 != x.0 by {
                    let j = choose|j: int| m + 1 <= j < all.len() && gv[a].3[i] == all[j];
                }
                lemma_lookup_absent(gv[a].3, x.0);
            }
        }
        if is_wanted(scope, &e.1) {
            let g = find_group(&gs, e.1.shard.as_str(), e.1.epoch);
            if g < gs.len() {
                let mut grp = gs.remove(g);
                proof {
                    assert(group_view(grp) == gv[g as int]);
                    assert(fields_view(grp.fields@) == gv[g as int].3);
                }
                let ghost old_fields = fields_view(grp.fields@);
                grp.fields.push(e);
                proof {
                    assert(fields_view(grp.fields@) =~= old_fields.push(x));
                    lemma_lookup_push(old_fields, x);
                }
                gs.insert(g, grp);
                proof {
                    let nv = groups_view(gs@);
                    assert(nv =~= gv.update(g as int, (gv[g as int].0, gv[g as int].1, gv[g as int].2, old_fields.push(x))));
                    assert forall|a: int, f: Seq<char>| 0 <= a < nv.len() && f != x.0 implies #[trigger] lookup(nv[a].3, f) == lookup(gv[a].3, f) by {
                        if a != g {
                            assert(nv[a] == gv[a]);
                        }
                    }
                    assert(groups_wf(nv)) by {
                        assert forall|a: int| 0 <= a < nv.len() implies (#[trigger] nv[a]).3.len() > 0 && names_distinct(nv[a].3) by {
                            if a != g {
                                assert(nv[a] == gv[a]);
                            }
                        }
                        assert forall|a: int, j: int| 0 <= a < nv.len() && 0 <= j < nv[a].3.len() implies (#[trigger] nv[a].3[j]).1.shard
                            == nv[a].1 && nv[a].3[j].1.epoch == nv[a].2 by {
                            if a != g {
                                assert(nv[a] == gv[a]);
                            } else if j < old_fields.len() {
                                assert(nv[a].3[j] == gv[a].3[j]);
                            }
                        }
                        assert forall|a: int, b: int| 0 <= a < b < nv.len() && (#[trigger] nv[a]).0 == (#[trigger] nv[b]).0 implies (nv[a].1
                            != nv[b].1 || nv[a].2 != nv[b].2) by {
                            assert(nv[a].1 == gv[a].1 && nv[a].2 == gv[a].2 && nv[b].1 == gv[b].1 && nv[b].2 == gv[b].2);
                            assert(nv[a].0 == gv[a].0 && nv[b].0 == gv[b].0);
                        }
                        assert forall|a: int, b: int, f: Seq<char>| 0 <= a < b < nv.len() && nv[a].0 == nv[b].0
                            implies !(#[trigger] lookup(nv[a].3, f) is Some && #[trigger] lookup(nv[b].3, f) is Some) by {
                            assert(nv[a].0 == gv[a].0 && nv[b].0 == gv[b].0);
                            if f == x.0 {
                                if a != g {
                                    assert(nv[a] == gv[a]);
                                }
                                if b != g {
                                    assert(nv[b] == gv[b]);
                                }
                            } else {
                                assert(lookup(nv[a].3, f) == lookup(gv[a].3, f));
                                assert(lookup(nv[b].3, f) == lookup(gv[b].3, f));
                            }
                        }
                    }
                    assert forall|a: int, i: int| 0 <= a < gs@.len() && 0 <= i < nv[a].3.len() implies exists|j: int| fs@.len() <= j < all.len() && (#[trigger] nv[a].3[i]) == all[j] by {
                        if a != g {
                            assert(nv[a] == gv[a]);
                            let j = choose|j: int| m + 1 <= j < all.len() && gv[a].3[i] == all[j];
                        } else if i < old_fields.len() {
                            assert(nv[a].3[i] == gv[a].3[i]);
                            let j = choose|j: int| m + 1 <= j < all.len() && gv[a].3[i] == all[j];
                        } else {
                            assert(nv[a].3[i] == all[m]);
                        }
                    }
                    assert forall|a: int| 0 <= a < gs@.len() implies (#[trigger] nv[a]).0 == key by {
                        assert(nv[a].0 == gv[a].0);
                    }
                    assert forall|f: Seq<char>| #[trigger] taken(nv, key, f) == if field_index(all, f) >= fs@.len() {
                        goes(*scope, lookup(all, f))
                    } else {
                        None
                    } by {
                        lemma_taken_char(nv, key, f);
                        lemma_taken_char(gv, key, f);
                        assert(taken(gv, key, f) == if field_index(all, f) >= m + 1 {
                            goes(*scope, lookup(all, f))
                        } else {
                            None
                        });
                        if f == x.0 {
                            assert(lookup(nv[g as int].3, f) == Some(x.1));
                        } else {
                            lemma_field_index(all, f);
                            if exists|a: int| 0 <= a < gv.len() && gv[a].0 == key && #[trigger] lookup(gv[a].3, f) is Some {
                                let a = choose|a: int| 0 <= a < gv.len() && gv[a].0 == key && #[trigger] lookup(gv[a].3, f) is Some;
                                assert(lookup(nv[a].3, f) == lookup(gv[a].3, f));
                                assert(nv[a].0 == key);
                            } else {
                                assert forall|a: int| 0 <= a < nv.len() && (#[trigger] nv[a]).0 == key implies lookup(nv[a].3, f) is None by {
                                    assert(lookup(nv[a].3, f) == lookup(gv[a].3, f));
                                }
                            }
                        }
                    }
                }
            } else {
                let grp = Group {
                    entity: String::from_str(entity),
                    id: String::from_str(id),
                    shard: String::from_str(e.1.shard.as_str()),
                    epoch: e.1.epoch,
                    fields: vec![e],
                };
                proof {
                    assert(fields_view(grp.fields@) =~= seq![x]);
                    lemma_lookup_at(seq![x], 0);
                    assert forall|f: Seq<char>| f != x.0 implies #[trigger] lookup(fields_view(grp.fields@), f) is None by {
                        lemma_lookup_absent(fields_view(grp.fields@), f);
                    }
                }
                gs.push(grp);
                proof {
                    let nv = groups_view(gs@);
                    let ng = group_view(grp);
                    assert(nv =~= gv.push(ng));
                    assert(groups_wf(nv)) by {
                        assert forall|a: int| 0 <= a < nv.len() implies (#[trigger] nv[a]).3.len() > 0 && names_distinct(nv[a].3) by {
                            if a < gv.len() {
                                assert(nv[a] == gv[a]);
                            }
                        }
                        assert forall|a: int, j: int| 0 <= a < nv.len() && 0 <= j < nv[a].3.len() implies (#[trigger] nv[a].3[j]).1.shard
                            == nv[a].1 && nv[a].3[j].1.epoch == nv[a].2 by {
                            if a < gv.len() {
                                assert(nv[a] == gv[a]);
                            }
                        }
                        assert forall|a: int, b: int| 0 <= a < b < nv.len() && (#[trigger] nv[a]).0 == (#[trigger] nv[b]).0 implies (nv[a].1
                            != nv[b].1 || nv[a].2 != nv[b].2) by {
                            assert(nv[a] == gv[a]);
                            if b < gv.len() {
                                assert(nv[b] == gv[b]);
                            }
                        }
                        assert forall|a: int, b: int, f: Seq<char>| 0 <= a < b < nv.len() && nv[a].0 == nv[b].0
                            implies !(#[trigger] lookup(nv[a].3, f) is Some && #[trigger] lookup(nv[b].3, f) is Some) by {
                            assert(nv[a] == gv[a]);
                            if b < gv.len() {
                                assert(nv[b] == gv[b]);
                            }
                        }
                    }
                    assert forall|a: int, i: int| 0 <= a < gs@.len() && 0 <= i < nv[a].3.len() implies exists|j: int| fs@.len() <= j < all.len() && (#[trigger] nv[a].3[i]) == all[j] by {
                        if a < gv.len() {
                            assert(nv[a] == gv[a]);
                            let j = choose|j: int| m + 1 <= j < all.len() && gv[a].3[i] == all[j];
                        } else {
                            assert(nv[a].3[i] == all[m]);
                        }
                    }
                    assert forall|a: int| 0 <= a < gs@.len() implies (#[trigger] nv[a]).0 == key by {
                        if a < gv.len() {
                            assert(nv[a] == gv[a]);
                        }
                    }
                    assert forall|f: Seq<char>| #[trigger] taken(nv, key, f) == if field_index(all, f) >= fs@.len() {
                        goes(*scope, lookup(all, f))
                    } else {
                        None
                    } by {
                        lemma_taken_char(nv, key, f);
                        lemma_taken_char(gv, key, f);
                        assert(taken(gv, key, f) == if field_index(all, f) >= m + 1 {
                            goes(*scope, lookup(all, f))
                        } else {
                            None
                        });
                        if f == x.0 {
                            assert(nv[gv.len() as int] == ng);
                        } else {
                            lemma_field_index(all, f);
                            if exists|a: int| 0 <= a < gv.len() && gv[a].0 == key && #[trigger] lookup(gv[a].3, f) is Some {
                                let a = choose|a: int| 0 <= a < gv.len() && gv[a].0 == key && #[trigger] lookup(gv[a].3, f) is Some;
                                assert(nv[a] == gv[a]);
                            } else {
                                assert forall|a: int| 0 <= a < nv.len() && (#[trigger] nv[a]).0 == key implies lookup(nv[a].3, f) is None by {
                                    if a < gv.len() {
                                        assert(nv[a] == gv[a]);
                                    }
                                }
                            }
                        }
                    }
                }
            }
            proof {
                assert forall|f: Seq<char>| #[trigger] lookup(fields_view(kept@), f) == if field_index(all, f) >= fs@.len() {
                    stays(*scope, lookup(all, f))
                } else {
                    None
                } by {
                    assert(lookup(kv, f) == if field_index(all, f) >= m + 1 {
                        stays(*scope, lookup(all, f))
                    } else {
                        None
                    });
                    lemma_field_index(all, f);
                }
                assert forall|a: int| 0 <= a < kept@.len() implies exists|j: int| fs@.len() <= j < all.len() && (#[trigger] fields_view(kept@)[a]) == all[j] by {
                    let j = choose|j: int| m + 1 <= j < all.len() && kv[a] == all[j];
                }
            }
        } else {
            kept.push(e);
            proof {
                let nk = fields_view(kept@);
                assert(nk =~= kv.push(x));
                lemma_lookup_push(kv, x);
                assert forall|a: int| 0 <= a < kept@.len() implies exists|j: int| fs@.len() <= j < all.len() && (#[trigger] nk[a]) == all[j] by {
                    if a < kv.len() {
                        assert(nk[a] == kv[a]);
                        let j = choose|j: int| m + 1 <= j < all.len() && kv[a] == all[j];
                    } else {
                        assert(nk[a] == all[m]);
                    }
                }
                assert forall|f: Seq<char>| #[trigger] lookup(nk, f) == if field_index(all, f) >= fs@.len() {
                    stays(*scope, lookup(all, f))
                } else {
                    None
                } by {
                    assert(lookup(kv, f) == if field_index(all, f) >= m + 1 {
                        stays(*scope, lookup(all, f))
                    } else {
                        None
                    });
                    lemma_field_index(all, f);
                }
                assert forall|f: Seq<char>| #[trigger] taken(groups_view(gs@), key, f) == if field_index(all, f) >= fs@.len() {
                    goes(*scope, lookup(all, f))
                } else {
                    None
                } by {
                    assert(taken(gv, key, f) == if field_index(all, f) >= m + 1 {
                        goes(*scope, lookup(all, f))
                    } else {
                        None
                    });
                    lemma_field_index(all, f);
                }
                assert forall|a: int, i: int| 0 <= a < gs@.len() && 0 <= i < groups_view(gs@)[a].3.len() implies exists|j: int| fs@.len() <= j < all.len() && (#[trigger] groups_view(gs@)[a].3[i]) == all[j] by {
                    let j = choose|j: int| m + 1 <= j < all.len() && gv[a].3[i] == all[j];
                }
            }
        }
    }
    proof {
        assert forall|f: Seq<char>| #[trigger] lookup(fields_view(kept@), f) == stays(*scope, lookup(all, f)) by {
            lemma_field_index(all, f);
        }
        assert forall|f: Seq<char>| #[trigger] taken(groups_view(gs@), key, f) == goes(*scope, lookup(all, f)) by {
            lemma_field_index(all, f);
        }
    }
    (kept, gs)
}

pub proof fn lemma_taken_append<V>(g1: Seq<GroupView<V>>, g2: Seq<GroupView<V>>, rk: (Seq<char>, Seq<char>), f: Seq<char>)
    ensures
        taken(g1 + g2, rk, f) == if taken(g1, rk, f) is Some {
            taken(g1, rk, f)
        } else {
            taken(g2, rk, f)
        },
    decreases g1.len(),
{
    if g1.len() == 0 {
        assert(g1 + g2 =~= g2);
    } else {
        assert((g1 + g2)[0] == g1[0]);
        assert((g1 + g2).drop_first() =~= g1.drop_first() + g2);
        lemma_taken_append(g1.drop_first(), g2, rk, f);
    }
}

pub proof fn lemma_groups_wf_append<V>(g1: Seq<GroupView<V>>, g2: Seq<GroupView<V>>)
    requires
        groups_wf(g1),
        groups_wf(g2),
        forall|a: int, b: int| 0 <= a < g1.len() && 0 <= b < g2.len() ==> (#[trigger] g1[a]).0 != (#[trigger] g2[b]).0,
    ensures
        groups_wf(g1 + g2),
{
    let g = g1 + g2;
    let n = g1.len();
    assert forall|a: int| 0 <= a < g.len() implies (#[trigger] g[a]).3.len() > 0 && names_distinct(g[a].3) by {
        if a < n {
            assert(g[a] == g1[a]);
        } else {
            assert(g[a] == g2[a - n]);
        }
    }
    assert forall|a: int, j: int| 0 <= a < g.len() && 0 <= j < g[a].3.len() implies (#[trigger] g[a].3[j]).1.shard
        == g[a].1 && g[a].3[j].1.epoch == g[a].2 by {
        if a < n {
            assert(g[a] == g1[a]);
        } else {
            assert(g[a] == g2[a - n]);
        }
    }
    assert forall|a: int, b: int| 0 <= a < b < g.len() && (#[trigger] g[a]).0 == (#[trigger] g[b]).0 implies (g[a].1
        != g[b].1 || g[a].2 != g[b].2) by {
        if b < n {
            assert(g[a] == g1[a] && g[b] == g1[b]);
        } else if a >= n {
            assert(g[a] == g2[a - n] && g[b] == g2[b - n]);
        } else {
            assert(g[a] == g1[a] && g[b] == g2[b - n]);
        }
    }
    assert forall|a: int, b: int, h: Seq<char>| 0 <= a < b < g.len() && g[a].0 == g[b].0
        implies !(#[trigger] lookup(g[a].3, h) is Some && #[trigger] lookup(g[b].3, h) is Some) by {
        if b < n {
            assert(g[a] == g1[a] && g[b] == g1[b]);
        } else if a >= n {
            assert(g[a] == g2[a - n] && g[b] == g2[b - n]);
        } else {
            assert(g[a] == g1[a] && g[b] == g2[b - n]);
        }
    }
}

impl<V> WriteBuffer<V> {
    /// Take out the fields a flush of `scope` writes, grouped by row and
    /// by the shard run that wrote them: one row update each. The fields it
    /// does not write stay.
    pub fn take(&mut self, scope: &FlushScope) -> (gs: Vec<Group<V>>)
        requires
            old(self).wf(),
        ensures
            final(self).wf(),
            final(self)@.len() <= old(self)@.len(),
            groups_wf(groups_view(gs@)),
            forall|rk: (Seq<char>, Seq<char>), f: Seq<char>|
                #[trigger] pending(final(self)@, rk, f) == stays(*scope, pending(old(self)@, rk, f)),
            forall|rk: (Seq<char>, Seq<char>), f: Seq<char>|
                #[trigger] taken(groups_view(gs@), rk, f) == goes(*scope, pending(old(self)@, rk, f)),
    {
        let ghost all = self@;
        let mut rows: Vec<DirtyRow<V>> = Vec::new();
        std::mem::swap(&mut rows, &mut self.rows);
        proof {
            assert(rows_view(rows@) == all);
        }
        let mut out: Vec<DirtyRow<V>> = Vec::new();
        let mut taken_gs: Vec<Group<V>> = Vec::new();
        proof {
            assert(rows_view(out@) =~= Seq::<RowView<V>>::empty());
            assert(groups_view(taken_gs@) =~= Seq::<GroupView<V>>::empty());
            assert forall|rk: (Seq<char>, Seq<char>), f: Seq<char>| #[trigger] taken(groups_view(taken_gs@), rk, f) is None by {
                lemma_taken_absent(groups_view(taken_gs@), rk, f);
            }
        }
        while rows.len() > 0
            invariant
                all.len() >= rows@.len(),
                rows_wf(all),
                forall|j: int| 0 <= j < rows@.len() ==> (#[trigger] rows_view(rows@)[j]) == all[j],
                rows_wf(rows_view(out@)),
                out@.len() + rows@.len() <= all.len(),
                forall|a: int| 0 <= a < out@.len() ==> exists|j: int| rows@.len() <= j < all.len() && (#[trigger] rows_view(out@)[a]).0 == all[j].0,
                forall|rk: (Seq<char>, Seq<char>), f: Seq<char>| #[trigger] pending(rows_view(out@), rk, f) == if row_index(all, rk) >= rows@.len() {
                    stays(*scope, pending(all, rk, f))
                } else {
                    None
                },
                groups_wf(groups_view(taken_gs@)),
                forall|a: int| 0 <= a < taken_gs@.len() ==> exists|j: int| rows@.len() <= j < all.len() && (#[trigger] groups_view(taken_gs@)[a]).0 == all[j].0,
                forall|rk: (Seq<char>, Seq<char>), f: Seq<char>| #[trigger] taken(groups_view(taken_gs@), rk, f) == if row_index(all, rk) >= rows@.len() {
                    goes(*scope, pending(all, rk, f))
                } else {
                    None
                },
            decreases rows@.len(),
        {
            let ghost m = rows@.len() - 1;
            let ghost pre = rows@;
            let ghost before = rows_view(out@);
            let ghost gbefore = groups_view(taken_gs@);
            let r = rows.pop().unwrap();
            proof {
                assert(pre == rows@.push(r));
                assert(rows_view(pre)[m] == all[m]);
                assert(pre[m] == r);
                assert(row_view(r) == all[m]);
                lemma_row_view_fields(r);
                assert forall|j: int| 0 <= j < rows@.len() implies (#[trigger] rows_view(rows@)[j]) == all[j] by {
                    assert(rows_view(pre)[j] == all[j]);
                    assert(pre[j] == rows@[j]);
                }
                lemma_row_index(all, all[m].0);
                assert(row_index(all, all[m].0) == m) by {
                    let q = row_index(all, all[m].0);
                    assert(!(m < q));
                    if q != m {
                        assert(all[q].0 == all[m].0);
                    }
                }
                assert forall|a: int| 0 <= a < before.len() implies (#[trigger] before[a]).0 != all[m].0 by {
                    let j = choose|j: int| rows@.len() + 1 <= j < all.len() && before[a].0 == all[j].0;
                    assert(j != m);
                }
                assert forall|a: int| 0 <= a < gbefore.len() implies (#[trigger] gbefore[a]).0 != all[m].0 by {
                    let j = choose|j: int| rows@.len() + 1 <= j < all.len() && gbefore[a].0 == all[j].0;
                    assert(j != m);
                }
            }
            let DirtyRow { entity, id, fields } = r;
            let (kept, mut gs) = split_row(entity.as_str(), id.as_str(), fields, scope);
            let ghost key = all[m].0;
            let ghost kv = fields_view(kept@);
            let ghost nv = groups_view(gs@);
            proof {
                assert(key == (entity@, id@));
                assert forall|f: Seq<char>| #[trigger] lookup(kv, f) == stays(*scope, pending(all, key, f)) by {
                    lemma_pending_at(all, m, f);
                }
                assert forall|f: Seq<char>| #[trigger] taken(nv, key, f) == goes(*scope, pending(all, key, f)) by {
                    lemma_pending_at(all, m, f);
                }
                lemma_groups_wf_append(gbefore, nv);
            }
            taken_gs.append(&mut gs);
            proof {
                let tv = groups_view(taken_gs@);
                assert(tv =~= gbefore + nv);
                assert forall|a: int| 0 <= a < taken_gs@.len() implies exists|j: int| rows@.len() <= j < all.len() && (#[trigger] tv[a]).0 == all[j].0 by {
                    if a < gbefore.len() {
                        assert(tv[a] == gbefore[a]);
                        let j = choose|j: int| rows@.len() + 1 <= j < all.len() && gbefore[a].0 == all[j].0;
                    } else {
                        assert(tv[a] == nv[a - gbefore.len()]);
                    }
                }
                assert forall|rk: (Seq<char>, Seq<char>), f: Seq<char>| #[trigger] taken(tv, rk, f) == if row_index(all, rk) >= rows@.len() {
                    goes(*scope, pending(all, rk, f))
                } else {
                    None
                } by {
                    lemma_taken_append(gbefore, nv, rk, f);
                    assert(taken(gbefore, rk, f) == if row_index(all, rk) >= m + 1 {
                        goes(*scope, pending(all, rk, f))
                    } else {
                        None
                    });
                    if rk == key {
                        lemma_taken_absent(gbefore, rk, f);
                    } else {
                        lemma_row_index(all, rk);
                        lemma_taken_absent(nv, rk, f);
                    }
                }
            }
            if kept.len() > 0 {
                let row = DirtyRow { entity, id, fields: kept };
                out.push(row);
                proof {
                    let after = rows_view(out@);
                    lemma_row_view_fields(row);
                    assert(after =~= before.push(row_view(row)));
                    assert(row_view(row) == (key, kv));
                    assert forall|a: int| 0 <= a < after.len() implies exists|j: int| rows@.len() <= j < all.len() && (#[trigger] after[a]).0 == all[j].0 by {
                        if a == before.len() {
                            assert(after[a].0 == all[m].0);
                        } else {
                            assert(after[a] == before[a]);
                            let j = choose|j: int| rows@.len() + 1 <= j < all.len() && before[a].0 == all[j].0;
                        }
                    }
                    assert forall|a: int, b: int| 0 <= a < b < after.len() implies (#[trigger] after[a]).0 != (#[trigger] after[b]).0 by {
                        if b == before.len() {
                            assert(after[a] == before[a]);
                        } else {
                            assert(after[a] == before[a] && after[b] == before[b]);
                        }
                    }
                    assert forall|a: int| 0 <= a < after.len() implies (#[trigger] after[a]).1.len() > 0 && names_distinct(after[a].1) by {
                        if a != before.len() {
                            assert(after[a] == before[a]);
                        }
                    }
                    assert forall|rk: (Seq<char>, Seq<char>), f: Seq<char>| #[trigger] pending(after, rk, f) == if row_index(all, rk) >= rows@.len() {
                        stays(*scope, pending(all, rk, f))
                    } else {
                        None
                    } by {
                        assert(pending(before, rk, f) == if row_index(all, rk) >= m + 1 {
                            stays(*scope, pending(all, rk, f))
                        } else {
                            None
                        });
                        if rk == key {
                            lemma_pending_at(after, before.len() as int, f);
                            lemma_pending_absent(before, rk, f);
                        } else {
                            lemma_row_index(all, rk);
                            lemma_row_index(before, rk);
                            let q = row_index(before, rk);
                            if q < before.len() {
                                lemma_pending_at(before, q, f);
                                assert(after[q] == before[q]);
                                lemma_pending_at(after, q, f);
                            } else {
                                assert forall|a: int| 0 <= a < after.len() implies (#[trigger] after[a]).0 != rk by {
                                    if a < before.len() {
                                        assert(after[a] == before[a]);
                                    }
                                }
                                lemma_pending_absent(after, rk, f);
                                lemma_pending_absent(before, rk, f);
                            }
                        }
                    }
                }
            } else {
                proof {
                    assert forall|f: Seq<char>| #[trigger] lookup(kv, f) is None by {
                        lemma_lookup_absent(kv, f);
                    }
                    assert forall|rk: (Seq<char>, Seq<char>), f: Seq<char>| #[trigger] pending(before, rk, f) == if row_index(all, rk) >= rows@.len() {
                        stays(*scope, pending(all, rk, f))
                    } else {
                        None
                    } by {
                        assert(pending(before, rk, f) == if row_index(all, rk) >= m + 1 {
                            stays(*scope, pending(all, rk, f))
                        } else {
                            None
                        });
                        if rk == key {
                            assert(lookup(kv, f) is None);
                            lemma_pending_absent(before, rk, f);
                        } else {
                            lemma_row_index(all, rk);
                        }
                    }
                    assert forall|a: int| 0 <= a < out@.len() implies exists|j: int| rows@.len() <= j < all.len() && (#[trigger] rows_view(out@)[a]).0 == all[j].0 by {
                        let j = choose|j: int| rows@.len() + 1 <= j < all.len() && before[a].0 == all[j].0;
                    }
                }
            }
        }
        self.rows = out;
        self.rebuild_index();
        proof {
            assert forall|rk: (Seq<char>, Seq<char>), f: Seq<char>| #[trigger] pending(self@, rk, f) == stays(*scope, pending(all, rk, f)) by {
                lemma_row_index(all, rk);
                if row_index(all, rk) >= all.len() {
                    lemma_pending_absent(all, rk, f);
                }
            }
            assert forall|rk: (Seq<char>, Seq<char>), f: Seq<char>| #[trigger] taken(groups_view(taken_gs@), rk, f) == goes(*scope, pending(all, rk, f)) by {
                lemma_row_index(all, rk);
                if row_index(all, rk) >= all.len() {
                    lemma_pending_absent(all, rk, f);
                }
            }
        }
        taken_gs
    }
}

/// A failed value `t` put back where the buffer holds `cur`: a value
/// buffered since is newer and stays, taking the failure count when it is
/// of the same run; with none, `t` is put back.
pub open spec fn merged<V>(cur: Option<PendingView<V>>, t: PendingView<V>) -> Option<PendingView<V>> {
    match cur {
        Some(q) => if q.shard == t.shard && q.epoch == t.epoch {
            Some(
                PendingView {
                    failures: if q.failures >= t.failures {
                        q.failures
                    } else {
                        t.failures
                    },
                    ..q
                },
            )
        } else {
            Some(q)
        },
        None => Some(t),
    }
}

/// Merge field `name` of a failed write into `fields` (see [`merged`]).
fn merge_into<V>(fields: &mut Vec<(String, Pending<V>)>, name: String, t: Pending<V>)
    requires
        names_distinct(fields_view(old(fields)@)),
    ensures
        names_distinct(fields_view(final(fields)@)),
        final(fields)@.len() > 0,
        forall|f: Seq<char>| #[trigger] lookup(fields_view(final(fields)@), f) == if f == name@ {
            merged(lookup(fields_view(old(fields)@), f), t.view())
        } else {
            lookup(fields_view(old(fields)@), f)
        },
{
    let ghost before = fields_view(fields@);
    let ghost nm = name@;
    let ghost tv = t.view();
    let n = fields.len();
    let mut j: usize = 0;
    while j < n
        invariant
            n == fields@.len(),
            before == fields_view(fields@),
            before == fields_view(old(fields)@),
            names_distinct(before),
            nm == name@,
            tv == t.view(),
            j <= n,
            forall|a: int| 0 <= a < j ==> (#[trigger] before[a]).0 != nm,
        decreases n - j,
    {
        if str_eq(fields[j].0.as_str(), name.as_str()) {
            proof {
                assert(before[j as int].0 == nm);
                lemma_lookup_at(before, j as int);
            }
            let (fname, mut q) = fields.remove(j);
            if str_eq(q.shard.as_str(), t.shard.as_str()) && q.epoch == t.epoch {
                if q.failures < t.failures {
                    q.failures = t.failures;
                }
            }
            fields.insert(j, (fname, q));
            proof {
                let after = fields_view(fields@);
                assert(after =~= before.update(j as int, (nm, after[j as int].1)));
                assert(after[j as int].0 == nm);
                assert forall|a: int, b: int| 0 <= a < b < after.len() implies (#[trigger] after[a]).0
                    != (#[trigger] after[b]).0 by {
                    assert(after[a].0 == before[a].0 && after[b].0 == before[b].0);
                }
                assert forall|f: Seq<char>| #[trigger] lookup(after, f) == if f == nm {
                    merged(lookup(before, f), tv)
                } else {
                    lookup(before, f)
                } by {
                    if f == nm {
                        lemma_lookup_at(after, j as int);
                    } else {
                        lemma_field_index(before, f);
                        let r = field_index(before, f);
                        if r < before.len() {
                            lemma_lookup_at(before, r);
                            lemma_lookup_at(after, r);
                            assert(after[r] == before[r]);
                        } else {
                            assert forall|a: int| 0 <= a < after.len() implies (#[trigger] after[a]).0 != f by {
                                if a != j {
                                    assert(after[a] == before[a]);
                                }
                            }
                            lemma_lookup_absent(after, f);
                        }
                    }
                }
            }
            return;
        }
        proof {
            assert(before[j as int].0 != nm);
        }
        j += 1;
    }
    proof {
        lemma_lookup_absent(before, nm);
        assert forall|a: int| 0 <= a < before.len() implies (#[trigger] before[a]).0 != nm by {}
        lemma_lookup_push(before, (nm, tv));
    }
    fields.push((name, t));
    proof {
        assert(fields_view(fields@) =~= before.push((nm, tv)));
    }
}

/// A failure count one higher, at most `u32::MAX`.
pub open spec fn bumped(x: u32) -> u32 {
    if x < u32::MAX {
        (x + 1) as u32
    } else {
        u32::MAX
    }
}

/// A value whose write failed with a store error, with one failure more;
/// none once it failed [`WRITE_ATTEMPTS`] times, unless `keep_all` (a
/// stopping shard's flush, whose caller decides).
pub open spec fn after_failure<V>(p: PendingView<V>, keep_all: bool) -> Option<PendingView<V>> {
    if keep_all || p.failures + 1 < WRITE_ATTEMPTS {
        Some(PendingView { failures: bumped(p.failures), ..p })
    } else {
        None
    }
}

/// Shard `s` is among `shards`.
pub open spec fn in_list(shards: Seq<String>, s: Seq<char>) -> bool {
    exists|i: int| 0 <= i < shards.len() && (#[trigger] shards[i])@ == s
}

/// What waits for a field, holding `cur`, once the failed value `failed`
/// of it (if any) was put back: nothing changes for a shard discarded
/// meanwhile or a value out of attempts; else see [`merged`].
pub open spec fn returned<V>(
    cur: Option<PendingView<V>>,
    failed: Option<PendingView<V>>,
    keep_all: bool,
    discarded: Seq<String>,
) -> Option<PendingView<V>> {
    match failed {
        Some(t) => if in_list(discarded, t.shard) {
            cur
        } else {
            match after_failure(t, keep_all) {
                Some(t1) => merged(cur, t1),
                None => cur,
            }
        },
        None => cur,
    }
}

/// Whether a failed group is put back: its shard was not discarded and
/// one of its fields has attempts left.
pub open spec fn group_kept<V>(g: GroupView<V>, keep_all: bool, discarded: Seq<String>) -> bool {
    !in_list(discarded, g.1) && exists|j: int| 0 <= j < g.3.len() && (#[trigger] after_failure(g.3[j].1, keep_all)) is Some
}

/// The number of failed groups put back.
pub open spec fn kept_count<V>(gs: Seq<GroupView<V>>, keep_all: bool, discarded: Seq<String>) -> nat
    decreases gs.len(),
{
    if gs.len() == 0 {
        0
    } else {
        (if group_kept(gs[0], keep_all, discarded) {
            1nat
        } else {
            0nat
        }) + kept_count(gs.drop_first(), keep_all, discarded)
    }
}

fn is_listed(shards: &[String], s: &str) -> (b: bool)
    ensures
        b == in_list(shards@, s@),
{
    let n = shards.len();
    let mut i: usize = 0;
    while i < n
        invariant
            n == shards@.len(),
            i <= n,
            forall|j: int| 0 <= j < i ==> (#[trigger] shards@[j])@ != s@,
        decreases n - i,
    {
        if str_eq(shards[i].as_str(), s) {
            return true;
        }
        i += 1;
    }
    false
}

impl<V> WriteBuffer<V> {
    /// Merge the failed value `t` of field `name` of row (`entity`, `id`)
    /// back (see [`merged`]).
    fn merge_field(&mut self, entity: &str, id: &str, name: String, t: Pending<V>)
        requires
            old(self).wf(),
        ensures
            final(self).wf(),
            forall|rk: (Seq<char>, Seq<char>), f: Seq<char>| #[trigger] pending(final(self)@, rk, f) == if rk == (entity@, id@)
                && f == name@ {
                merged(pending(old(self)@, rk, f), t.view())
            } else {
                pending(old(self)@, rk, f)
            },
    {
        let ghost v = self@;
        let ghost k = (entity@, id@);
        let ghost nm = name@;
        let ghost tv = t.view();
        let ghost idx0 = self.index@;
        let (i, kt) = self.find_row(entity, id);
        let found = i < self.rows.len();
        let mut row = if found {
            let mut r = DirtyRow { entity: String::new(), id: String::new(), fields: Vec::new() };
            std::mem::swap(&mut self.rows[i], &mut r);
            r
        } else {
            DirtyRow { entity: String::from_str(entity), id: String::from_str(id), fields: Vec::new() }
        };
        proof {
            if found {
                lemma_row_index(v, k);
                lemma_row_view_fields(row);
                assert(row_view(row) == v[i as int]);
            } else {
                assert forall|j: int| 0 <= j < v.len() implies (#[trigger] v[j]).0 != k by {
                    lemma_row_index(v, k);
                }
            }
        }
        let ghost start = fields_view(row.fields@);
        proof {
            assert(start =~= if found { v[i as int].1 } else { Seq::empty() });
            assert forall|f: Seq<char>| #[trigger] lookup(start, f) == pending(v, k, f) by {
                if found {
                    lemma_pending_at(v, i as int, f);
                } else {
                    lemma_pending_absent(v, k, f);
                    lemma_lookup_absent(start, f);
                }
            }
        }
        merge_into(&mut row.fields, name, t);
        let ghost fresh = row_view(row);
        proof {
            lemma_row_view_fields(row);
        }
        let n0 = self.rows.len();
        if found {
            self.rows[i] = row;
        } else {
            self.rows.push(row);
            self.index.insert(kt, n0);
        }
        proof {
            let w = self@;
            assert(w.len() == v.len() + if found { 0int } else { 1int });
            assert(index_ok(self.index@, w)) by {
                if found {
                    assert(w =~= v.update(i as int, fresh));
                    assert forall|j: int| 0 <= j < w.len() implies (#[trigger] w[j]).0 == v[j].0 by {
                        if j != i {
                            assert(w[j] == v[j]);
                        }
                    }
                } else {
                    assert(w =~= v.push(fresh));
                    assert(n0 == v.len());
                    assert forall|j: int| 0 <= j < w.len() implies self.index@.contains_key(key_text(#[trigger] w[j].0))
                        && self.index@[key_text(w[j].0)] == j by {
                        if j < v.len() {
                            assert(w[j] == v[j]);
                            if key_text(v[j].0) == key_text(k) {
                                lemma_key_text_injective(v[j].0, k);
                            }
                        }
                    }
                    assert forall|t: Seq<char>| #[trigger] self.index@.contains_key(t) implies self.index@[t] < w.len()
                        && key_text(w[self.index@[t] as int].0) == t by {
                        if t != key_text(k) {
                            assert(idx0.contains_key(t));
                            assert(w[idx0[t] as int] == v[idx0[t] as int]);
                        }
                    }
                }
            }
            let at: int = if found { i as int } else { v.len() as int };
            if found {
                assert(w =~= v.update(i as int, fresh));
            } else {
                assert(w =~= v.push(fresh));
            }
            assert(w[at] == fresh);
            assert(fresh.0 == k);
            assert forall|a: int, b: int| 0 <= a < b < w.len() implies (#[trigger] w[a]).0 != (
            #[trigger] w[b]).0 by {
                if found {
                    assert(w[a].0 == v[a].0 && w[b].0 == v[b].0);
                } else if b == v.len() {
                    assert(w[a] == v[a]);
                } else {
                    assert(w[a] == v[a] && w[b] == v[b]);
                }
            }
            assert forall|a: int| 0 <= a < w.len() implies (#[trigger] w[a]).1.len() > 0 && names_distinct(
                w[a].1,
            ) by {
                if a != at {
                    assert(w[a] == v[a]);
                }
            }
            assert forall|rk: (Seq<char>, Seq<char>), f: Seq<char>| #[trigger] pending(w, rk, f) == if rk == k && f == nm {
                merged(pending(v, rk, f), tv)
            } else {
                pending(v, rk, f)
            } by {
                if rk == k {
                    lemma_pending_at(w, at, f);
                } else {
                    lemma_row_index(v, rk);
                    let r = row_index(v, rk);
                    if r < v.len() {
                        lemma_pending_at(v, r, f);
                        assert(w[r] == v[r]);
                        lemma_pending_at(w, r, f);
                    } else {
                        assert forall|j: int| 0 <= j < w.len() implies (#[trigger] w[j]).0 != rk by {
                            if j != at {
                                assert(w[j] == v[j]);
                            }
                        }
                        lemma_pending_absent(w, rk, f);
                    }
                }
            }
        }
    }
}

/// The groups before group `m` hold field `f` of row `rk` as the groups up
/// to `m` do, unless group `m` holds it: then only it does.
pub proof fn lemma_taken_prefix<V>(gs: Seq<GroupView<V>>, m: int, rk: (Seq<char>, Seq<char>), f: Seq<char>)
    requires
        groups_wf(gs),
        0 <= m < gs.len(),
    ensures
        (rk == gs[m].0 && lookup(gs[m].3, f) is Some) ==> taken(gs.take(m + 1), rk, f) == lookup(gs[m].3, f)
            && taken(gs.take(m), rk, f) is None && taken(gs, rk, f) == lookup(gs[m].3, f),
        !(rk == gs[m].0 && lookup(gs[m].3, f) is Some) ==> taken(gs.take(m + 1), rk, f) == taken(gs.take(m), rk, f),
{
    let one = seq![gs[m]];
    assert(gs.take(m + 1) =~= gs.take(m) + one);
    lemma_taken_append(gs.take(m), one, rk, f);
    assert(one.drop_first().len() == 0);
    assert(taken(one.drop_first(), rk, f) is None);
    if rk == gs[m].0 && lookup(gs[m].3, f) is Some {
        assert forall|a: int| 0 <= a < gs.take(m).len() && (#[trigger] gs.take(m)[a]).0 == rk implies lookup(gs.take(m)[a].3, f) is None by {
            assert(gs.take(m)[a] == gs[a]);
            assert(!(lookup(gs[a].3, f) is Some && lookup(gs[m].3, f) is Some));
        }
        lemma_taken_absent(gs.take(m), rk, f);
        lemma_taken_at(gs, m, f);
    }
}

proof fn lemma_kept_count_step<V>(gs: Seq<GroupView<V>>, m: int, keep_all: bool, discarded: Seq<String>)
    requires
        0 <= m < gs.len(),
    ensures
        kept_count(gs.skip(m), keep_all, discarded) == (if group_kept(gs[m], keep_all, discarded) {
            1nat
        } else {
            0nat
        }) + kept_count(gs.skip(m + 1), keep_all, discarded),
{
    assert(gs.skip(m)[0] == gs[m]);
    assert(gs.skip(m).drop_first() =~= gs.skip(m + 1));
}

impl<V> WriteBuffer<V> {
    /// Put back the groups whose row update failed with a store error:
    /// each field with one failure more, dropped once out of attempts
    /// unless `keep_all`; nothing of a shard in `discarded` (dropped while
    /// the flush ran). A value buffered since is newer and stays (see
    /// [`returned`]). Returns the number of groups put back.
    pub fn put_back(&mut self, failed: Vec<Group<V>>, keep_all: bool, discarded: &[String]) -> (kept: usize)
        requires
            old(self).wf(),
            groups_wf(groups_view(failed@)),
        ensures
            final(self).wf(),
            kept == kept_count(groups_view(failed@), keep_all, discarded@),
            forall|rk: (Seq<char>, Seq<char>), f: Seq<char>| #[trigger] pending(final(self)@, rk, f) == returned(
                pending(old(self)@, rk, f),
                taken(groups_view(failed@), rk, f),
                keep_all,
                discarded@,
            ),
    {
        let ghost v0 = self@;
        let ghost all = groups_view(failed@);
        let mut gs = failed;
        let mut kept: usize = 0;
        let total = gs.len();
        proof {
            assert(all.len() == total);
            assert(all.take(all.len() as int) =~= all);
            assert(all.skip(all.len() as int).len() == 0);
        }
        while gs.len() > 0
            invariant
                self.wf(),
                all.len() >= gs@.len(),
                all.len() <= usize::MAX,
                groups_wf(all),
                forall|j: int| 0 <= j < gs@.len() ==> (#[trigger] groups_view(gs@)[j]) == all[j],
                kept == kept_count(all.skip(gs@.len() as int), keep_all, discarded@),
                kept <= all.len() - gs@.len(),
                forall|rk: (Seq<char>, Seq<char>), f: Seq<char>| #[trigger] pending(self@, rk, f) == if taken(all.take(gs@.len() as int), rk, f) is Some {
                    pending(v0, rk, f)
                } else {
                    returned(pending(v0, rk, f), taken(all, rk, f), keep_all, discarded@)
                },
            decreases gs@.len(),
        {
            let ghost m = gs@.len() - 1;
            let ghost pre = gs@;
            let g = gs.pop().unwrap();
            let ghost gk = all[m].0;
            let ghost gf = all[m].3;
            proof {
                assert(pre == gs@.push(g));
                assert(groups_view(pre)[m] == all[m]);
                assert(pre[m] == g);
                assert(group_view(g) == all[m]);
                assert forall|j: int| 0 <= j < gs@.len() implies (#[trigger] groups_view(gs@)[j]) == all[j] by {
                    assert(groups_view(pre)[j] == all[j]);
                    assert(pre[j] == gs@[j]);
                }
                lemma_kept_count_step(all, m, keep_all, discarded@);
                assert forall|rk: (Seq<char>, Seq<char>), f: Seq<char>| #[trigger] taken(all.take(m + 1), rk, f) == if rk == gk && lookup(gf, f) is Some {
                    lookup(gf, f)
                } else {
                    taken(all.take(m), rk, f)
                } by {
                    lemma_taken_prefix(all, m, rk, f);
                }
            }
            let Group { entity, id, shard, epoch, fields } = g;
            if is_listed(discarded, shard.as_str()) {
                proof {
                    assert(!group_kept(all[m], keep_all, discarded@));
                    assert forall|rk: (Seq<char>, Seq<char>), f: Seq<char>| #[trigger] pending(self@, rk, f) == if taken(all.take(gs@.len() as int), rk, f) is Some {
                        pending(v0, rk, f)
                    } else {
                        returned(pending(v0, rk, f), taken(all, rk, f), keep_all, discarded@)
                    } by {
                        lemma_taken_prefix(all, m, rk, f);
                        assert(pending(self@, rk, f) == if taken(all.take(m + 1), rk, f) is Some {
                            pending(v0, rk, f)
                        } else {
                            returned(pending(v0, rk, f), taken(all, rk, f), keep_all, discarded@)
                        });
                        if rk == gk && lookup(gf, f) is Some {
                            let j = field_index(gf, f);
                            lemma_field_index(gf, f);
                            assert(gf[j].1.shard == all[m].1);
                        }
                    }
                }
            } else {
                let ghost gv = fields_view(fields@);
                let mut fs = fields;
                let mut any = false;
                proof {
                    assert(gv == gf);
                }
                while fs.len() > 0
                    invariant
                        self.wf(),
                        m == gs@.len(),
                        0 <= m < all.len(),
                        all.len() <= usize::MAX,
                        kept + m + 1 <= all.len(),
                        groups_wf(all),
                        gk == all[m].0,
                        gf == all[m].3,
                        gk == (entity@, id@),
                        !in_list(discarded@, all[m].1),
                        gf.len() >= fs@.len(),
                        names_distinct(gf),
                        forall|j: int| 0 <= j < fs@.len() ==> (#[trigger] fields_view(fs@)[j]) == gf[j],
                        any == exists|j: int| fs@.len() <= j < gf.len() && (#[trigger] after_failure(gf[j].1, keep_all)) is Some,
                        forall|rk: (Seq<char>, Seq<char>), f: Seq<char>| #[trigger] pending(self@, rk, f) == if taken(all.take(m), rk, f) is Some || (rk == gk
                            && lookup(gf, f) is Some && field_index(gf, f) < fs@.len()) {
                            pending(v0, rk, f)
                        } else {
                            returned(pending(v0, rk, f), taken(all, rk, f), keep_all, discarded@)
                        },
                    decreases fs@.len(),
                {
                    let ghost j = fs@.len() - 1;
                    let ghost fpre = fs@;
                    let (name, p) = fs.pop().unwrap();
                    let ghost x = gf[j];
                    proof {
                        assert(fpre == fs@.push((name, p)));
                        assert(fields_view(fpre)[j] == gf[j]);
                        assert(fpre[j] == (name, p));
                        assert(x == (name@, p.view()));
                        assert forall|i: int| 0 <= i < fs@.len() implies (#[trigger] fields_view(fs@)[i]) == gf[i] by {
                            assert(fields_view(fpre)[i] == gf[i]);
                            assert(fpre[i] == fs@[i]);
                        }
                        lemma_lookup_at(gf, j);
                        lemma_field_index(gf, x.0);
                        assert(field_index(gf, x.0) == j) by {
                            let q = field_index(gf, x.0);
                            assert(!(j < q));
                            if q != j {
                                assert(gf[q].0 == gf[j].0);
                            }
                        }
                        lemma_taken_prefix(all, m, gk, x.0);
                        assert(taken(all, gk, x.0) == Some(x.1));
                        assert(x.1.shard == all[m].1);
                    }
                    let keep = keep_all || p.failures < WRITE_ATTEMPTS - 1;
                    let ghost cur = self@;
                    if keep {
                        let failures = if p.failures < u32::MAX {
                            p.failures + 1
                        } else {
                            u32::MAX
                        };
                        let Pending { value, shard: ps, epoch: pe, failures: _ } = p;
                        let t = Pending { value, shard: ps, epoch: pe, failures };
                        proof {
                            assert(after_failure(x.1, keep_all) == Some(t.view()));
                        }
                        self.merge_field(entity.as_str(), id.as_str(), name, t);
                        any = true;
                    } else {
                        proof {
                            assert(after_failure(x.1, keep_all) is None);
                        }
                    }
                    proof {
                        assert forall|rk: (Seq<char>, Seq<char>), f: Seq<char>| #[trigger] pending(self@, rk, f) == if taken(all.take(m), rk, f) is Some || (rk == gk
                            && lookup(gf, f) is Some && field_index(gf, f) < fs@.len()) {
                            pending(v0, rk, f)
                        } else {
                            returned(pending(v0, rk, f), taken(all, rk, f), keep_all, discarded@)
                        } by {
                            assert(pending(cur, rk, f) == if taken(all.take(m), rk, f) is Some || (rk == gk
                                && lookup(gf, f) is Some && field_index(gf, f) < j + 1) {
                                pending(v0, rk, f)
                            } else {
                                returned(pending(v0, rk, f), taken(all, rk, f), keep_all, discarded@)
                            });
                            if rk == gk && f == x.0 {
                                assert(taken(all.take(m), rk, f) is None);
                            } else {
                                lemma_field_index(gf, f);
                            }
                        }
                        assert(any == exists|i: int| fs@.len() <= i < gf.len() && (#[trigger] after_failure(gf[i].1, keep_all)) is Some) by {
                            if after_failure(gf[j].1, keep_all) is Some {
                                assert(after_failure(gf[j].1, keep_all) is Some);
                            }
                        }
                    }
                }
                proof {
                    assert(group_kept(all[m], keep_all, discarded@) == any);
                    assert forall|rk: (Seq<char>, Seq<char>), f: Seq<char>| #[trigger] pending(self@, rk, f) == if taken(all.take(gs@.len() as int), rk, f) is Some {
                        pending(v0, rk, f)
                    } else {
                        returned(pending(v0, rk, f), taken(all, rk, f), keep_all, discarded@)
                    } by {
                        lemma_field_index(gf, f);
                    }
                }
                if any {
                    kept = kept + 1;
                }
            }
        }
        proof {
            assert(all.skip(0) =~= all);
            assert forall|rk: (Seq<char>, Seq<char>), f: Seq<char>| #[trigger] pending(self@, rk, f) == returned(
                pending(v0, rk, f),
                taken(all, rk, f),
                keep_all,
                discarded@,
            ) by {
                assert(all.take(0).len() == 0);
                assert(taken(all.take(0), rk, f) is None);
            }
        }
        kept
    }
}

impl<V> WriteBuffer<V> {
    /// The value waiting for field `field` of row (`entity`, `id`).
    pub fn get(&self, entity: &str, id: &str, field: &str) -> (r: Option<&Pending<V>>)
        requires
            self.wf(),
        ensures
            match r {
                Some(p) => pending(self@, (entity@, id@), field@) == Some(p.view()),
                None => pending(self@, (entity@, id@), field@) is None,
            },
    {
        let (i, _) = self.find_row(entity, id);
        if i >= self.rows.len() {
            return None;
        }
        let row = &self.rows[i];
        let ghost fs = fields_view(row.fields@);
        proof {
            lemma_row_view_fields(*row);
            assert(self@[i as int].1 == fs);
            lemma_field_index(fs, field@);
            assert(pending(self@, (entity@, id@), field@) == lookup(fs, field@));
        }
        let n = row.fields.len();
        let mut j: usize = 0;
        while j < n
            invariant
                n == row.fields@.len(),
                fs == fields_view(row.fields@),
                pending(self@, (entity@, id@), field@) == lookup(fs, field@),
                j <= field_index(fs, field@) <= n,
                field_index(fs, field@) < n ==> fs[field_index(fs, field@)].0 == field@,
                forall|a: int| 0 <= a < field_index(fs, field@) ==> (#[trigger] fs[a]).0 != field@,
            decreases n - j,
        {
            if str_eq(row.fields[j].0.as_str(), field) {
                proof {
                    assert(fs[j as int].0 == field@);
                    assert(field_index(fs, field@) == j);
                    assert(fs[j as int].1 == row.fields@[j as int].1.view());
                }
                return Some(&row.fields[j].1);
            }
            proof {
                assert(fs[j as int].0 != field@);
            }
            j += 1;
        }
        None
    }
}

/// A flush that fails leaves each field as it was, with one failure more:
/// taking the fields a flush writes and putting them back after a store
/// error, with nothing written or dropped between, gives each field it
/// took back with one failure more (dropped once out of attempts, unless
/// `keep_all`), and leaves the others as they were.
pub proof fn law_failed_flush_keeps_the_field<V>(p: Option<PendingView<V>>, scope: FlushScope, keep_all: bool)
    ensures
        returned(stays(scope, p), goes(scope, p), keep_all, Seq::empty()) == match p {
            Some(q) => if wanted(scope, q) {
                after_failure(q, keep_all)
            } else {
                Some(q)
            },
            None => None,
        },
{
    if let Some(q) = p {
        if wanted(scope, q) {
            assert(!in_list(Seq::<String>::empty(), q.shard));
        }
    }
}

/// A value written since a flush took a field is never overwritten by
/// the flush's failed value: putting that back keeps the newer value, its
/// shard and its run.
pub proof fn law_newer_value_wins<V>(q: PendingView<V>, t: PendingView<V>, keep_all: bool, discarded: Seq<String>)
    ensures
        returned(Some(q), Some(t), keep_all, discarded) matches Some(r) && r.value == q.value && r.shard
            == q.shard && r.epoch == q.epoch,
{
}

// ---------------------------------------------------------------------------
// The row index
// ---------------------------------------------------------------------------

/// The text a row is found by: the length of its entity in decimal, a
/// colon, the entity, and the id. Two rows have the same text only when
/// they are the same row.
pub open spec fn key_text(k: (Seq<char>, Seq<char>)) -> Seq<char> {
    decimal(k.0.len()) + seq![':'] + k.0 + k.1
}

pub proof fn lemma_key_text_injective(a: (Seq<char>, Seq<char>), b: (Seq<char>, Seq<char>))
    requires
        key_text(a) == key_text(b),
    ensures
        a == b,
{
    let da = decimal(a.0.len());
    let db = decimal(b.0.len());
    lemma_decimal_digits(a.0.len());
    lemma_decimal_digits(b.0.len());
    let t = key_text(a);
    assert(t == key_text(b));
    if da.len() < db.len() {
        assert(t[da.len() as int] == ':');
        assert(t[da.len() as int] == db[da.len() as int]);
        assert(is_digit(db[da.len() as int]));
    } else if db.len() < da.len() {
        assert(t[db.len() as int] == ':');
        assert(t[db.len() as int] == da[db.len() as int]);
        assert(is_digit(da[db.len() as int]));
    }
    assert(da.len() == db.len());
    assert(da =~= t.take(da.len() as int));
    assert(db =~= t.take(db.len() as int));
    assert(a.0.len() == b.0.len());
    let s: int = da.len() as int + 1;
    let n: int = a.0.len() as int;
    assert(a.0 =~= t.subrange(s, s + n));
    assert(b.0 =~= t.subrange(s, s + n));
    assert(a.1 =~= t.skip(s + n));
    assert(b.1 =~= t.skip(s + n));
}

/// The key text of row (`entity`, `id`).
fn row_key_text(entity: &str, id: &str) -> (t: String)
    ensures
        t@ == key_text((entity@, id@)),
{
    let n = chars_of(entity).len();
    let mut t = decimal_string(n as u64);
    crate::text::push_char(&mut t, ':');
    push_str(&mut t, entity);
    push_str(&mut t, id);
    t
}

/// The index finds each row of `v` at its place, and holds nothing else.
pub open spec fn index_ok<V>(idx: Map<Seq<char>, usize>, v: Seq<RowView<V>>) -> bool {
    &&& forall|i: int| 0 <= i < v.len() ==> idx.contains_key(key_text(#[trigger] v[i].0)) && idx[key_text(v[i].0)] == i
    &&& forall|t: Seq<char>| #[trigger] idx.contains_key(t) ==> idx[t] < v.len() && key_text(v[idx[t] as int].0) == t
}

} // verus!
