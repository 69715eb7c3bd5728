//! The versioned entity table: a per-key chain of historical versions.
//!
//! Every row of a versioned family (asset metadata, asset tickers) carries a
//! globally monotonic `uid`, the `block_uid` of the ledger row that produced
//! it, its natural `key`, and a `superseded_by` pointer holding either the
//! uid of the next version of the same key or the `OPEN_UID` sentinel that
//! marks the current version.

use vstd::prelude::*;

verus! {

/// Sentinel `superseded_by` value marking the current (not yet superseded)
/// version of a key.  Real uids never reach it.
pub const OPEN_UID: i64 = 0x7fff_ffff_ffff_fffe;

/// The sentinel as a mathematical integer.
pub open spec fn open_uid() -> int {
    OPEN_UID as int
}

/// One row of a versioned family, reduced to the fields the chain
/// algorithm reads and writes.  Payload columns ride along outside.
pub struct VersionedRow {
    pub uid: i64,
    pub superseded_by: i64,
    pub block_uid: i64,
    pub key: String,
}

/// Mathematical model of a row.
pub ghost struct RowM {
    pub uid: int,
    pub superseded_by: int,
    pub block_uid: int,
    pub key: Seq<char>,
}

impl View for VersionedRow {
    type V = RowM;

    open spec fn view(&self) -> RowM {
        RowM {
            uid: self.uid as int,
            superseded_by: self.superseded_by as int,
            block_uid: self.block_uid as int,
            key: self.key@,
        }
    }
}

impl Clone for VersionedRow {
    fn clone(&self) -> (r: Self)
        ensures
            r == *self,
    {
        VersionedRow {
            uid: self.uid,
            superseded_by: self.superseded_by,
            block_uid: self.block_uid,
            key: self.key.clone(),
        }
    }
}

/// The model of a sequence of rows.
pub open spec fn rows_view(v: Seq<VersionedRow>) -> Seq<RowM> {
    v.map_values(|r: VersionedRow| r@)
}

/// A hand-off record: the pre-existing current row of `key` must get its
/// `superseded_by` set to this batch's first uid for that key.
pub struct ChainOverride {
    pub superseded_by: i64,
    pub key: String,
}

/// Mathematical model of a hand-off record.
pub ghost struct OverrideM {
    pub superseded_by: int,
    pub key: Seq<char>,
}

impl View for ChainOverride {
    type V = OverrideM;

    open spec fn view(&self) -> OverrideM {
        OverrideM { superseded_by: self.superseded_by as int, key: self.key@ }
    }
}

pub open spec fn overrides_view(v: Seq<ChainOverride>) -> Seq<OverrideM> {
    v.map_values(|o: ChainOverride| o@)
}

/// One update of a batch before uid assignment: the ledger row that
/// produced it and the natural key it touches.
pub ghost struct EntryM {
    pub block_uid: int,
    pub key: Seq<char>,
}

/// The model of a batch handed to the upsert algorithm.
pub open spec fn entries_view(v: Seq<(i64, String)>) -> Seq<EntryM> {
    v.map_values(|p: (i64, String)| EntryM { block_uid: p.0 as int, key: p.1@ })
}

/// Index of the first row at or after `from` whose key is `k`.
pub open spec fn find_row_key(t: Seq<RowM>, k: Seq<char>, from: int) -> Option<int>
    decreases t.len() - from when 0 <= from
{
    if from >= t.len() {
        None::<int>
    } else if t[from].key == k {
        Some(from)
    } else {
        find_row_key(t, k, from + 1)
    }
}

/// Index of the first batch entry at or after `from` whose key is `k`.
pub open spec fn find_entry_key(b: Seq<EntryM>, k: Seq<char>, from: int) -> Option<int>
    decreases b.len() - from when 0 <= from
{
    if from >= b.len() {
        None::<int>
    } else if b[from].key == k {
        Some(from)
    } else {
        find_entry_key(b, k, from + 1)
    }
}

/// Index of the first hand-off record whose key is `k`.
pub open spec fn find_override(ovs: Seq<OverrideM>, k: Seq<char>, from: int) -> Option<int>
    decreases ovs.len() - from when 0 <= from
{
    if from >= ovs.len() {
        None::<int>
    } else if ovs[from].key == k {
        Some(from)
    } else {
        find_override(ovs, k, from + 1)
    }
}

/// What `find_row_key` returns: the first match at or after `from`,
/// or nothing when no row at or after `from` has key `k`.
pub proof fn lemma_find_row_key(t: Seq<RowM>, k: Seq<char>, from: int)
    requires
        0 <= from <= t.len(),
    ensures
        match find_row_key(t, k, from) {
            Some(j) => from <= j < t.len() && t[j].key == k && (forall|m: int|
                from <= m < j ==> (#[trigger] t[m]).key != k),
            None => forall|m: int| from <= m < t.len() ==> (#[trigger] t[m]).key != k,
        },
    decreases t.len() - from,
{
    if from < t.len() && t[from].key != k {
        lemma_find_row_key(t, k, from + 1);
    }
}

/// What `find_entry_key` returns, in the same shape.
pub proof fn lemma_find_entry_key(b: Seq<EntryM>, k: Seq<char>, from: int)
    requires
        0 <= from <= b.len(),
    ensures
        match find_entry_key(b, k, from) {
            Some(j) => from <= j < b.len() && b[j].key == k && (forall|m: int|
                from <= m < j ==> (#[trigger] b[m]).key != k),
            None => forall|m: int| from <= m < b.len() ==> (#[trigger] b[m]).key != k,
        },
    decreases b.len() - from,
{
    if from < b.len() && b[from].key != k {
        lemma_find_entry_key(b, k, from + 1);
    }
}

/// What `find_override` returns, in the same shape.
pub proof fn lemma_find_override(ovs: Seq<OverrideM>, k: Seq<char>, from: int)
    requires
        0 <= from <= ovs.len(),
    ensures
        match find_override(ovs, k, from) {
            Some(j) => from <= j < ovs.len() && ovs[j].key == k && (forall|m: int|
                from <= m < j ==> (#[trigger] ovs[m]).key != k),
            None => forall|m: int| from <= m < ovs.len() ==> (#[trigger] ovs[m]).key != k,
        },
    decreases ovs.len() - from,
{
    if from < ovs.len() && ovs[from].key != k {
        lemma_find_override(ovs, k, from + 1);
    }
}

/// Row uids grow strictly with position: insertion order is uid order.
pub open spec fn uids_increasing(t: Seq<RowM>) -> bool {
    forall|i: int, j: int| 0 <= i < j < t.len() ==> #[trigger] t[i].uid < #[trigger] t[j].uid
}

/// Block references never decrease along uid order.
pub open spec fn block_uids_monotone(t: Seq<RowM>) -> bool {
    forall|i: int, j: int| 0 <= i <= j < t.len() ==> #[trigger] t[i].block_uid <= #[trigger] t[j].block_uid
}

/// Every uid is non-negative and below the family's counter.
pub open spec fn uids_below(t: Seq<RowM>, next: int) -> bool {
    forall|i: int| 0 <= i < t.len() ==> 0 <= (#[trigger] t[i]).uid < next
}

/// The chain condition: each row's `superseded_by` is the uid of the next
/// row of the same key, or `OPEN_UID` when no such row exists.
pub open spec fn chain_wf(t: Seq<RowM>) -> bool {
    forall|i: int| 0 <= i < t.len() ==> (#[trigger] t[i]).superseded_by == (
        match find_row_key(t, t[i].key, i + 1) {
            Some(j) => t[j].uid,
            None => open_uid(),
        })
}

/// Well-formedness of a versioned table with counter `next`.
pub open spec fn wf_rows(t: Seq<RowM>, next: int) -> bool {
    &&& uids_increasing(t)
    &&& block_uids_monotone(t)
    &&& uids_below(t, next)
    &&& 0 <= next <= open_uid()
    &&& chain_wf(t)
}

/// A versioned family held in memory: the reference store the engine is
/// verified against, and the state the library's laws speak of.
pub struct VersionedTable {
    pub rows: Vec<VersionedRow>,
    pub next_uid: i64,
}

impl View for VersionedTable {
    type V = Seq<RowM>;

    open spec fn view(&self) -> Seq<RowM> {
        rows_view(self.rows@)
    }
}

impl VersionedTable {
    pub open spec fn wf(&self) -> bool {
        wf_rows(self@, self.next_uid as int)
    }

    /// An empty family; counters start at one, as a fresh sequence does.
    pub fn new() -> (t: Self)
        ensures
            t@ == Seq::<RowM>::empty(),
            t.next_uid == 1,
            t.wf(),
    {
        let t = VersionedTable { rows: Vec::new(), next_uid: 1 };
        proof {
            assert(t@ =~= Seq::<RowM>::empty());
        }
        t
    }

    /// Reads the family's uid counter.
    pub fn get_next_uid(&self) -> (r: i64)
        ensures
            r == self.next_uid,
    {
        self.next_uid
    }

    /// Advances the family's uid counter.
    pub fn set_next_uid(&mut self, v: i64)
        ensures
            final(self).next_uid == v,
            final(self)@ == old(self)@,
            final(self).rows == old(self).rows,
    {
        self.next_uid = v;
    }

    /// Sets `superseded_by` of every row that currently holds `OPEN_UID`
    /// and whose key appears among the hand-off records, to the recorded
    /// hand-off uid: the bulk close that absorbs the old current row of
    /// each key into the new batch's chain.
    pub fn close_superseded_by(&mut self, overrides: &Vec<ChainOverride>)
        ensures
            final(self)@ == spec_close(old(self)@, overrides_view(overrides@)),
            final(self).next_uid == old(self).next_uid,
    {
        let ghost t0 = self@;
        let ghost ovm = overrides_view(overrides@);
        let n = self.rows.len();
        let mut out: Vec<VersionedRow> = Vec::new();
        let mut i: usize = 0;
        while i < n
            invariant
                n == self.rows.len(),
                0 <= i <= n,
                t0 == self@,
                ovm == overrides_view(overrides@),
                out@.len() == i,
                forall|q: int| 0 <= q < i ==> rows_view(out@)[q] == close_row(t0[q], ovm),
            decreases n - i,
        {
            let row = &self.rows[i];
            let ghost orig = t0[i as int];
            proof {
                assert(orig == (*row)@);
            }
            let new_sb: i64 = if row.superseded_by == OPEN_UID {
                match find_override_exec(overrides, &row.key) {
                    Some(sb) => sb,
                    None => row.superseded_by,
                }
            } else {
                row.superseded_by
            };
            proof {
                lemma_find_override(ovm, orig.key, 0);
                assert(new_sb as int == close_row(orig, ovm).superseded_by);
            }
            let r = VersionedRow {
                uid: row.uid,
                superseded_by: new_sb,
                block_uid: row.block_uid,
                key: row.key.clone(),
            };
            proof {
                assert(r@ == close_row(orig, ovm));
            }
            let ghost out_pre = out@;
            out.push(r);
            proof {
                assert forall|q: int| 0 <= q < i + 1 implies rows_view(out@)[q] == close_row(
                    t0[q],
                    ovm,
                ) by {
                    assert(out@ == out_pre.push(r));
                    if q < i {
                        assert(rows_view(out@)[q] == rows_view(out_pre)[q]);
                    } else {
                        assert(rows_view(out@)[q] == r@);
                    }
                }
            }
            i += 1;
        }
        self.rows = out;
        proof {
            assert(self@ =~= spec_close(t0, ovm));
        }
    }

    /// Appends freshly built rows; they come uid-ordered behind the
    /// existing rows, as the bulk insert does.
    pub fn insert_rows(&mut self, mut rows: Vec<VersionedRow>)
        ensures
            final(self)@ == old(self)@ + rows_view(rows@),
            final(self).next_uid == old(self).next_uid,
    {
        let ghost t0 = self@;
        let ghost rv = rows_view(rows@);
        self.rows.append(&mut rows);
        proof {
            assert(self@ =~= t0 + rv);
        }
    }

    /// Sets `superseded_by` back to `OPEN_UID` on every row whose pointer
    /// equals one of the given uids: the bulk reopen used by rollback.
    pub fn reopen_superseded_by(&mut self, uids: &Vec<i64>)
        ensures
            final(self)@ == spec_reopen(old(self)@, uids@),
            final(self).next_uid == old(self).next_uid,
    {
        let ghost t0 = self@;
        let n = self.rows.len();
        let mut out: Vec<VersionedRow> = Vec::new();
        let mut i: usize = 0;
        while i < n
            invariant
                n == self.rows.len(),
                0 <= i <= n,
                t0 == self@,
                out@.len() == i,
                forall|q: int| 0 <= q < i ==> rows_view(out@)[q] == reopen_row(t0[q], uids@),
            decreases n - i,
        {
            let row = &self.rows[i];
            let ghost orig = t0[i as int];
            proof {
                assert(orig == (*row)@);
            }
            let new_sb: i64 = if contains_uid(uids, row.superseded_by) {
                OPEN_UID
            } else {
                row.superseded_by
            };
            proof {
                assert((orig.superseded_by as i64) == row.superseded_by);
                assert(new_sb as int == reopen_row(orig, uids@).superseded_by);
            }
            let r = VersionedRow {
                uid: row.uid,
                superseded_by: new_sb,
                block_uid: row.block_uid,
                key: row.key.clone(),
            };
            proof {
                assert(r@ == reopen_row(orig, uids@));
            }
            let ghost out_pre = out@;
            out.push(r);
            proof {
                assert forall|q: int| 0 <= q < i + 1 implies rows_view(out@)[q] == reopen_row(
                    t0[q],
                    uids@,
                ) by {
                    assert(out@ == out_pre.push(r));
                    if q < i {
                        assert(rows_view(out@)[q] == rows_view(out_pre)[q]);
                    } else {
                        assert(rows_view(out@)[q] == r@);
                    }
                }
            }
            i += 1;
        }
        self.rows = out;
        proof {
            assert(self@ =~= spec_reopen(t0, uids@));
        }
    }

    /// Deletes every row whose `block_uid` is strictly greater than
    /// `target` and returns the deleted rows; the surviving rows keep
    /// their order.
    pub fn rollback(&mut self, target: i64) -> (deleted: Vec<VersionedRow>)
        ensures
            final(self)@ == surviving(old(self)@, target as int),
            rows_view(deleted@) == deleted_rows(old(self)@, target as int),
            final(self).next_uid == old(self).next_uid,
    {
        let ghost t0 = self@;
        let n = self.rows.len();
        let mut kept: Vec<VersionedRow> = Vec::new();
        let mut deleted: Vec<VersionedRow> = Vec::new();
        let mut i: usize = 0;
        while i < n
            invariant
                n == self.rows.len(),
                0 <= i <= n,
                t0 == self@,
                rows_view(kept@) == surviving(t0.take(i as int), target as int),
                rows_view(deleted@) == deleted_rows(t0.take(i as int), target as int),
            decreases n - i,
        {
            let ghost pre = t0.take(i as int);
            proof {
                assert(t0.take(i + 1).drop_last() =~= pre);
                assert(t0.take(i + 1).last() == t0[i as int]);
            }
            let row = &self.rows[i];
            let r = row.clone();
            if r.block_uid <= target {
                proof {
                    assert(rows_view(kept@.push(r)) =~= rows_view(kept@).push(r@));
                }
                kept.push(r);
            } else {
                proof {
                    assert(rows_view(deleted@.push(r)) =~= rows_view(deleted@).push(r@));
                }
                deleted.push(r);
            }
            i += 1;
        }
        proof {
            assert(t0.take(n as int) =~= t0);
        }
        self.rows = kept;
        deleted
    }

    /// Re-points every row whose `block_uid` lies beyond `block_uid` to
    /// `block_uid` itself: the squash step that keeps references stable
    /// when the microblock tail collapses into the key block.
    pub fn update_block_references(&mut self, block_uid: i64)
        ensures
            final(self)@ == spec_repoint(old(self)@, block_uid as int),
            final(self).next_uid == old(self).next_uid,
    {
        let ghost t0 = self@;
        let n = self.rows.len();
        let mut out: Vec<VersionedRow> = Vec::new();
        let mut i: usize = 0;
        while i < n
            invariant
                n == self.rows.len(),
                0 <= i <= n,
                t0 == self@,
                out@.len() == i,
                forall|q: int| 0 <= q < i ==> rows_view(out@)[q] == repoint_row(t0[q], block_uid as int),
            decreases n - i,
        {
            let row = &self.rows[i];
            let ghost orig = t0[i as int];
            proof {
                assert(orig == (*row)@);
            }
            let new_buid: i64 = if row.block_uid > block_uid {
                block_uid
            } else {
                row.block_uid
            };
            let r = VersionedRow {
                uid: row.uid,
                superseded_by: row.superseded_by,
                block_uid: new_buid,
                key: row.key.clone(),
            };
            proof {
                assert(r@ == repoint_row(orig, block_uid as int));
            }
            let ghost out_pre = out@;
            out.push(r);
            proof {
                assert forall|q: int| 0 <= q < i + 1 implies rows_view(out@)[q] == repoint_row(
                    t0[q],
                    block_uid as int,
                ) by {
                    assert(out@ == out_pre.push(r));
                    if q < i {
                        assert(rows_view(out@)[q] == rows_view(out_pre)[q]);
                    } else {
                        assert(rows_view(out@)[q] == r@);
                    }
                }
            }
            i += 1;
        }
        self.rows = out;
        proof {
            assert(self@ =~= spec_repoint(t0, block_uid as int));
        }
    }
}

/// A row after the squash re-point: references to rows newer than the
/// key block now name the key block.
pub open spec fn repoint_row(r: RowM, block_uid: int) -> RowM {
    if r.block_uid > block_uid {
        RowM { block_uid: block_uid, ..r }
    } else {
        r
    }
}

/// The whole table after the squash re-point.
pub open spec fn spec_repoint(t: Seq<RowM>, block_uid: int) -> Seq<RowM> {
    Seq::new(t.len(), |i: int| repoint_row(t[i], block_uid))
}

/// Re-pointing block references keeps the table well formed: the map is
/// monotone and touches nothing the chain condition reads.
pub proof fn lemma_repoint_wf(t: Seq<RowM>, block_uid: int, next: int)
    requires
        wf_rows(t, next),
    ensures
        wf_rows(spec_repoint(t, block_uid), next),
{
    let u = spec_repoint(t, block_uid);
    assert(forall|i: int| 0 <= i < u.len() ==> (#[trigger] u[i]).uid == t[i].uid);
    assert(forall|i: int| 0 <= i < u.len() ==> (#[trigger] u[i]).key == t[i].key);
    assert(forall|i: int| 0 <= i < u.len() ==> (#[trigger] u[i]).superseded_by == t[i].superseded_by);
    assert forall|p: int| 0 <= p < u.len() implies (#[trigger] u[p]).superseded_by == (
    match find_row_key(u, u[p].key, p + 1) {
        Some(j) => u[j].uid,
        None => open_uid(),
    }) by {
        crate::laws::lemma_find_same_keys(u, t, u[p].key, p + 1);
        lemma_find_row_key(t, t[p].key, p + 1);
    }
}

/// A row after the bulk close: rows holding `OPEN_UID` whose key has a
/// hand-off record point at that record's uid; all others are unchanged.
pub open spec fn close_row(r: RowM, ovs: Seq<OverrideM>) -> RowM {
    if r.superseded_by == open_uid() {
        match find_override(ovs, r.key, 0) {
            Some(j) => RowM { superseded_by: ovs[j].superseded_by, ..r },
            None => r,
        }
    } else {
        r
    }
}

/// The whole table after the bulk close.
pub open spec fn spec_close(t: Seq<RowM>, ovs: Seq<OverrideM>) -> Seq<RowM> {
    Seq::new(t.len(), |i: int| close_row(t[i], ovs))
}

/// A row after the bulk reopen: pointers that equal one of the given uids
/// go back to `OPEN_UID`.
pub open spec fn reopen_row(r: RowM, uids: Seq<i64>) -> RowM {
    if uids.contains(r.superseded_by as i64) && -0x8000_0000_0000_0000 <= r.superseded_by
        < 0x8000_0000_0000_0000 {
        RowM { superseded_by: open_uid(), ..r }
    } else {
        r
    }
}

/// The whole table after the bulk reopen.
pub open spec fn spec_reopen(t: Seq<RowM>, uids: Seq<i64>) -> Seq<RowM> {
    Seq::new(t.len(), |i: int| reopen_row(t[i], uids))
}

/// The rows that survive a rollback to `target`, in their original order.
pub open spec fn surviving(t: Seq<RowM>, target: int) -> Seq<RowM>
    decreases t.len(),
{
    if t.len() == 0 {
        Seq::<RowM>::empty()
    } else if t.last().block_uid <= target {
        surviving(t.drop_last(), target).push(t.last())
    } else {
        surviving(t.drop_last(), target)
    }
}

/// The rows a rollback to `target` deletes, in their original order.
pub open spec fn deleted_rows(t: Seq<RowM>, target: int) -> Seq<RowM>
    decreases t.len(),
{
    if t.len() == 0 {
        Seq::<RowM>::empty()
    } else if t.last().block_uid > target {
        deleted_rows(t.drop_last(), target).push(t.last())
    } else {
        deleted_rows(t.drop_last(), target)
    }
}

/// First hand-off record for `key`, as the bulk close reads it.
fn find_override_exec(overrides: &Vec<ChainOverride>, key: &String) -> (r: Option<i64>)
    ensures
        r == (match find_override(overrides_view(overrides@), key@, 0) {
            Some(j) => Some(overrides@[j].superseded_by),
            None => None::<i64>,
        }),
{
    let ghost ovm = overrides_view(overrides@);
    let n = overrides.len();
    let mut i: usize = 0;
    while i < n
        invariant
            n == overrides.len(),
            0 <= i <= n,
            ovm == overrides_view(overrides@),
            find_override(ovm, key@, 0) == find_override(ovm, key@, i as int),
        decreases n - i,
    {
        if overrides[i].key == *key {
            return Some(overrides[i].superseded_by);
        }
        i += 1;
    }
    None
}

/// The `superseded_by` value of the batch row at `i` once the batch is
/// chain-linked: the uid of the next batch entry with the same key, or
/// `OPEN_UID` for the last entry of its key.
pub open spec fn linked_superseded_by(next: int, b: Seq<EntryM>, i: int) -> int {
    match find_entry_key(b, b[i].key, i + 1) {
        Some(j) => next + j,
        None => open_uid(),
    }
}

/// The rows a batch inserts: uids assigned in input order from `next`,
/// pointers linked per key.
pub open spec fn new_rows(next: int, b: Seq<EntryM>) -> Seq<RowM> {
    Seq::new(
        b.len(),
        |i: int|
            RowM {
                uid: next + i,
                superseded_by: linked_superseded_by(next, b, i),
                block_uid: b[i].block_uid,
                key: b[i].key,
            },
    )
}

/// Whether some batch entry has key `k`.
pub open spec fn batch_has_key(b: Seq<EntryM>, k: Seq<char>) -> bool {
    find_entry_key(b, k, 0) is Some
}

/// The uid of the first batch entry with key `k`: the hand-off point the
/// pre-existing current row of `k` must point at.
pub open spec fn handoff_uid(next: int, b: Seq<EntryM>, k: Seq<char>) -> int {
    match find_entry_key(b, k, 0) {
        Some(f) => next + f,
        None => open_uid(),
    }
}

/// An existing row after the batch's close step: the current row of a key
/// the batch touches is handed off to the batch's first uid for that key.
pub open spec fn close_row_batch(r: RowM, next: int, b: Seq<EntryM>) -> RowM {
    if r.superseded_by == open_uid() && batch_has_key(b, r.key) {
        RowM { superseded_by: handoff_uid(next, b, r.key), ..r }
    } else {
        r
    }
}

/// The whole table after one batch upsert: existing rows closed where the
/// batch touches their key, the linked batch rows appended in uid order.
pub open spec fn spec_upsert(t: Seq<RowM>, next: int, b: Seq<EntryM>) -> Seq<RowM> {
    Seq::new(t.len(), |i: int| close_row_batch(t[i], next, b)) + new_rows(next, b)
}

/// What a hand-off list says about key `k`: the recorded uid, if any.
pub open spec fn ov_lookup(ovs: Seq<OverrideM>, k: Seq<char>) -> Option<int> {
    match find_override(ovs, k, 0) {
        Some(j) => Some(ovs[j].superseded_by),
        None => None::<int>,
    }
}

/// Appending a hand-off record does not disturb earlier lookups; a key
/// found nowhere before is found at the appended position.
proof fn lemma_find_override_push(ovs: Seq<OverrideM>, ov: OverrideM, k: Seq<char>, from: int)
    requires
        0 <= from <= ovs.len(),
    ensures
        find_override(ovs.push(ov), k, from) == (match find_override(ovs, k, from) {
            Some(j) => Some(j),
            None => if ov.key == k {
                Some(ovs.len() as int)
            } else {
                None::<int>
            },
        }),
    decreases ovs.len() - from,
{
    assert(ovs.push(ov).len() == ovs.len() + 1);
    if from < ovs.len() {
        assert(ovs.push(ov)[from] == ovs[from]);
        if ovs[from].key != k {
            lemma_find_override_push(ovs, ov, k, from + 1);
        }
    } else {
        assert(ovs.push(ov)[from] == ov);
    }
}

/// Index of the next batch entry after `i` with the same key, if any.
fn find_next_same_key(batch: &Vec<(i64, String)>, i: usize) -> (r: Option<usize>)
    requires
        i < batch@.len(),
    ensures
        match r {
            Some(j) => i < j < batch@.len() && find_entry_key(
                entries_view(batch@),
                entries_view(batch@)[i as int].key,
                i + 1,
            ) == Some(j as int),
            None => find_entry_key(entries_view(batch@), entries_view(batch@)[i as int].key, i + 1)
                is None,
        },
{
    let ghost b = entries_view(batch@);
    let n = batch.len();
    let mut j: usize = i + 1;
    while j < n
        invariant
            n == batch@.len(),
            b == entries_view(batch@),
            i < j <= n,
            find_entry_key(b, b[i as int].key, i + 1) == find_entry_key(b, b[i as int].key, j as int),
        decreases n - j,
    {
        if batch[j].1 == batch[i].1 {
            proof {
                assert(find_entry_key(b, b[i as int].key, j as int) == Some(j as int));
            }
            return Some(j);
        }
        j += 1;
    }
    None
}

/// Chain-links a batch: the `superseded_by` of each entry, per the walk of
/// each key group from its highest uid down.
pub fn chain_superseded_by(next_uid: i64, batch: &Vec<(i64, String)>) -> (sb: Vec<i64>)
    requires
        0 <= next_uid,
        next_uid + batch@.len() <= OPEN_UID,
    ensures
        sb@.len() == batch@.len(),
        forall|q: int|
            0 <= q < sb@.len() ==> #[trigger] sb@[q] as int == linked_superseded_by(
                next_uid as int,
                entries_view(batch@),
                q,
            ),
{
    let ghost b = entries_view(batch@);
    let n = batch.len();
    let mut sb: Vec<i64> = Vec::new();
    let mut i: usize = 0;
    while i < n
        invariant
            n == batch@.len(),
            b == entries_view(batch@),
            0 <= next_uid,
            next_uid + n <= OPEN_UID,
            0 <= i <= n,
            sb@.len() == i,
            forall|q: int|
                0 <= q < i ==> #[trigger] sb@[q] as int == linked_superseded_by(
                    next_uid as int,
                    b,
                    q,
                ),
        decreases n - i,
    {
        let v: i64 = match find_next_same_key(batch, i) {
            Some(j) => next_uid + j as i64,
            None => OPEN_UID,
        };
        proof {
            assert(v as int == linked_superseded_by(next_uid as int, b, i as int));
        }
        sb.push(v);
        i += 1;
    }
    sb
}

/// The hand-off list of a batch: for each distinct key, in order of first
/// appearance, the uid its pre-existing current row must point at.
pub fn chain_overrides(next_uid: i64, batch: &Vec<(i64, String)>) -> (ovs: Vec<ChainOverride>)
    requires
        0 <= next_uid,
        next_uid + batch@.len() <= OPEN_UID,
    ensures
        forall|k: Seq<char>| #[trigger] ov_lookup(overrides_view(ovs@), k) == (
        match find_entry_key(entries_view(batch@), k, 0) {
            Some(f) => Some(next_uid + f),
            None => None::<int>,
        }),
        forall|p: int, q: int|
            0 <= p < q < ovs@.len() ==> (#[trigger] overrides_view(ovs@)[p]).key != (
            #[trigger] overrides_view(ovs@)[q]).key,
{
    let ghost b = entries_view(batch@);
    let n = batch.len();
    let mut ovs: Vec<ChainOverride> = Vec::new();
    let mut i: usize = 0;
    proof {
        assert forall|k: Seq<char>| #[trigger] ov_lookup(overrides_view(ovs@), k) == (
        match find_entry_key(b, k, 0) {
            Some(f) => if f < 0 {
                Some(next_uid + f)
            } else {
                None::<int>
            },
            None => None::<int>,
        }) by {
            lemma_find_entry_key(b, k, 0);
            assert(overrides_view(ovs@).len() == 0);
        }
    }
    while i < n
        invariant
            n == batch@.len(),
            b == entries_view(batch@),
            0 <= next_uid,
            next_uid + n <= OPEN_UID,
            0 <= i <= n,
            forall|k: Seq<char>| #[trigger] ov_lookup(overrides_view(ovs@), k) == (
            match find_entry_key(b, k, 0) {
                Some(f) => if f < i {
                    Some(next_uid + f)
                } else {
                    None::<int>
                },
                None => None::<int>,
            }),
            forall|p: int, q: int|
                0 <= p < q < ovs@.len() ==> (#[trigger] overrides_view(ovs@)[p]).key != (
                #[trigger] overrides_view(ovs@)[q]).key,
        decreases n - i,
    {
        let ghost ovm0 = overrides_view(ovs@);
        let first = match find_override_exec(&ovs, &batch[i].1) {
            Some(_) => false,
            None => true,
        };
        if first {
            let ov = ChainOverride { superseded_by: next_uid + i as i64, key: batch[i].1.clone() };
            proof {
                assert(overrides_view(ovs@.push(ov)) =~= ovm0.push(ov@));
            }
            ovs.push(ov);
            proof {
                let ghost ovm1 = overrides_view(ovs@);
                assert(ovm1 == ovm0.push(ov@));
                assert(ov_lookup(ovm0, b[i as int].key) is None);
                assert(find_override(ovm0, b[i as int].key, 0) is None);
                assert forall|p: int, q: int| 0 <= p < q < ovm1.len() implies (
                #[trigger] ovm1[p]).key != (#[trigger] ovm1[q]).key by {
                    if q == ovm0.len() {
                        lemma_find_override(ovm0, ov@.key, 0);
                        assert(ovm1[p] == ovm0[p]);
                    } else {
                        assert(ovm1[p] == ovm0[p] && ovm1[q] == ovm0[q]);
                    }
                }
                assert forall|k: Seq<char>| #[trigger] ov_lookup(ovm1, k) == (
                match find_entry_key(b, k, 0) {
                    Some(f) => if f < i + 1 {
                        Some(next_uid + f)
                    } else {
                        None::<int>
                    },
                    None => None::<int>,
                }) by {
                    lemma_find_override_push(ovm0, ov@, k, 0);
                    lemma_find_override(ovm0, k, 0);
                    lemma_find_entry_key(b, k, 0);
                    if k == b[i as int].key {
                        assert(find_override(ovm1, k, 0) == Some(ovm0.len() as int));
                        assert(ovm1[ovm0.len() as int] == ov@);
                        match find_entry_key(b, k, 0) {
                            Some(f) => {
                                assert(b[i as int].key == k);
                                assert(f <= i);
                                assert(f < i ==> ov_lookup(ovm0, k) is Some);
                                assert(f == i);
                                assert(ov_lookup(ovm1, k) == Some(next_uid + f));
                            },
                            None => {
                                assert(b[i as int].key != k);
                                assert(false);
                            },
                        }
                    } else {
                        assert(ov@.key == b[i as int].key);
                        assert(find_override(ovm1, k, 0) == find_override(ovm0, k, 0));
                        match find_override(ovm0, k, 0) {
                            Some(j) => {
                                assert(0 <= j < ovm0.len());
                                assert(ovm1[j] == ovm0[j]);
                                assert(ov_lookup(ovm1, k) == ov_lookup(ovm0, k));
                            },
                            None => {
                                assert(ov_lookup(ovm1, k) is None);
                            },
                        }
                        match find_entry_key(b, k, 0) {
                            Some(f) => {
                                assert(0 <= f < b.len());
                                assert(f != i);
                            },
                            None => {},
                        }
                    }
                }
            }
        } else {
            proof {
                assert(ov_lookup(ovm0, b[i as int].key) is Some);
                assert forall|k: Seq<char>| #[trigger] ov_lookup(ovm0, k) == (
                match find_entry_key(b, k, 0) {
                    Some(f) => if f < i + 1 {
                        Some(next_uid + f)
                    } else {
                        None::<int>
                    },
                    None => None::<int>,
                }) by {
                    lemma_find_entry_key(b, k, 0);
                    if k == b[i as int].key {
                        match find_entry_key(b, k, 0) {
                            Some(f) => {
                                assert(f <= i);
                                assert(ov_lookup(ovm0, k) is Some);
                                assert(f < i);
                            },
                            None => {
                                assert(false);
                            },
                        }
                    } else {
                        match find_entry_key(b, k, 0) {
                            Some(f) => {
                                assert(f != i);
                            },
                            None => {},
                        }
                    }
                }
            }
        }
        i += 1;
    }
    proof {
        assert forall|k: Seq<char>| #[trigger] ov_lookup(overrides_view(ovs@), k) == (
        match find_entry_key(b, k, 0) {
            Some(f) => Some(next_uid + f),
            None => None::<int>,
        }) by {
            lemma_find_entry_key(b, k, 0);
        }
    }
    ovs
}

/// Whether the uid list contains `x`.
pub fn contains_uid(uids: &Vec<i64>, x: i64) -> (r: bool)
    ensures
        r == uids@.contains(x),
{
    let n = uids.len();
    let mut i: usize = 0;
    while i < n
        invariant
            n == uids.len(),
            0 <= i <= n,
            forall|q: int| 0 <= q < i ==> uids@[q] != x,
        decreases n - i,
    {
        if uids[i] == x {
            return true;
        }
        i += 1;
    }
    false
}


/// Whether row `i` holds the smallest uid among rows of its key.
pub open spec fn min_at(d: Seq<RowM>, i: int) -> bool {
    forall|j: int| 0 <= j < d.len() && (#[trigger] d[j]).key == d[i].key ==> d[j].uid >= d[i].uid
}

/// Whether `u` is the smallest uid some key reaches in `d`.
pub open spec fn is_min_of_key(d: Seq<RowM>, u: int) -> bool {
    exists|i: int| 0 <= i < d.len() && #[trigger] d[i].uid == u && min_at(d, i)
}

/// A surviving row after a rollback to `target`: if its pointer equals the
/// lowest deleted uid of some key, the chain reopens there.
pub open spec fn rollback_row(r: RowM, d: Seq<RowM>) -> RowM {
    if is_min_of_key(d, r.superseded_by) {
        RowM { superseded_by: open_uid(), ..r }
    } else {
        r
    }
}

/// The whole table after a rollback to `target`: rows created after
/// `target` are gone; the chains they had extended are reopened.
pub open spec fn spec_rollback(t: Seq<RowM>, target: int) -> Seq<RowM> {
    Seq::new(
        surviving(t, target).len(),
        |i: int| rollback_row(surviving(t, target)[i], deleted_rows(t, target)),
    )
}

/// Whether the row at `i` has the smallest uid of its key.
fn is_min_exec(deleted: &Vec<VersionedRow>, i: usize) -> (r: bool)
    requires
        i < deleted@.len(),
    ensures
        r == min_at(rows_view(deleted@), i as int),
{
    let ghost d = rows_view(deleted@);
    let n = deleted.len();
    let mut j: usize = 0;
    while j < n
        invariant
            n == deleted@.len(),
            d == rows_view(deleted@),
            i < n,
            0 <= j <= n,
            forall|q: int| 0 <= q < j && (#[trigger] d[q]).key == d[i as int].key ==> d[q].uid
                >= d[i as int].uid,
        decreases n - j,
    {
        if deleted[j].key == deleted[i].key && deleted[j].uid < deleted[i].uid {
            proof {
                assert(d[j as int].key == d[i as int].key && d[j as int].uid < d[i as int].uid);
            }
            return false;
        }
        j += 1;
    }
    true
}

/// For each key among the deleted rows, its lowest deleted uid: exactly
/// the uids that surviving `superseded_by` pointers may still name.
pub fn lowest_uids_by_key(deleted: &Vec<VersionedRow>) -> (mins: Vec<i64>)
    ensures
        forall|x: i64| #[trigger] mins@.contains(x) <==> is_min_of_key(rows_view(deleted@), x as int),
{
    let ghost d = rows_view(deleted@);
    let n = deleted.len();
    let mut mins: Vec<i64> = Vec::new();
    let mut i: usize = 0;
    while i < n
        invariant
            n == deleted@.len(),
            d == rows_view(deleted@),
            0 <= i <= n,
            forall|x: i64| #[trigger] mins@.contains(x) <==> (exists|q: int|
                0 <= q < i && #[trigger] d[q].uid == x as int && min_at(d, q)),
        decreases n - i,
    {
        let ghost mins0 = mins@;
        if is_min_exec(deleted, i) {
            let u = deleted[i].uid;
            proof {
                assert(d[i as int].uid == u as int && min_at(d, i as int));
            }
            mins.push(u);
            proof {
                assert(mins@ == mins0.push(u));
                assert forall|x: i64| #[trigger] mins@.contains(x) <==> (exists|q: int|
                    0 <= q < i + 1 && #[trigger] d[q].uid == x as int && min_at(d, q)) by {
                    if mins@.contains(x) {
                        let w = choose|w: int| 0 <= w < mins@.len() && mins@[w] == x;
                        if w < mins0.len() {
                            assert(mins0.contains(x));
                        } else {
                            assert(x == u);
                        }
                    }
                    if exists|q: int|
                        0 <= q < i + 1 && #[trigger] d[q].uid == x as int && min_at(d, q) {
                        let q = choose|q: int|
                            0 <= q < i + 1 && #[trigger] d[q].uid == x as int && min_at(d, q);
                        if q < i {
                            assert(mins0.contains(x));
                            let w = choose|w: int| 0 <= w < mins0.len() && mins0[w] == x;
                            assert(mins@[w] == x);
                            assert(mins@.contains(x));
                        } else {
                            assert(mins@[mins0.len() as int] == u);
                            assert(mins@.contains(x));
                        }
                    }
                }
            }
        } else {
            proof {
                assert forall|x: i64| #[trigger] mins@.contains(x) <==> (exists|q: int|
                    0 <= q < i + 1 && #[trigger] d[q].uid == x as int && min_at(d, q)) by {
                    if exists|q: int|
                        0 <= q < i + 1 && #[trigger] d[q].uid == x as int && min_at(d, q) {
                        let q = choose|q: int|
                            0 <= q < i + 1 && #[trigger] d[q].uid == x as int && min_at(d, q);
                        assert(q != i);
                    }
                }
            }
        }
        i += 1;
    }
    mins
}

/// One batch of the versioned upsert, end to end: reads the counter,
/// chain-links the batch, closes the superseded chains, inserts the new
/// rows in uid order and advances the counter.  An empty batch changes
/// nothing, the counter included.  Returns the uids the batch occupied.
pub fn upsert_versioned(table: &mut VersionedTable, batch: &Vec<(i64, String)>) -> (inserted: Option<
    Vec<i64>>)
    requires
        0 <= old(table).next_uid,
        old(table).next_uid + batch@.len() <= OPEN_UID,
    ensures
        batch@.len() == 0 ==> final(table)@ == old(table)@ && final(table).next_uid == old(
            table,
        ).next_uid && inserted is None,
        batch@.len() > 0 ==> final(table)@ == spec_upsert(
            old(table)@,
            old(table).next_uid as int,
            entries_view(batch@),
        ) && final(table).next_uid == old(table).next_uid + batch@.len(),
        batch@.len() > 0 ==> match inserted {
            Some(uids) => uids@.len() == batch@.len() && forall|q: int|
                0 <= q < uids@.len() ==> #[trigger] uids@[q] == old(table).next_uid + q,
            None => false,
        },
        (old(table).wf() && crate::laws::batch_extends(old(table)@, entries_view(batch@)))
            ==> final(table).wf(),
{
    let ghost t0 = table@;
    let ghost b = entries_view(batch@);
    let n = batch.len();
    if n == 0 {
        return None;
    }
    let next = table.get_next_uid();
    let sb = chain_superseded_by(next, batch);
    let ovs = chain_overrides(next, batch);
    let mut rows: Vec<VersionedRow> = Vec::new();
    let mut uids: Vec<i64> = Vec::new();
    let mut i: usize = 0;
    while i < n
        invariant
            n == batch@.len(),
            b == entries_view(batch@),
            0 <= next,
            next + n <= OPEN_UID,
            sb@.len() == n,
            forall|q: int|
                0 <= q < n ==> #[trigger] sb@[q] as int == linked_superseded_by(next as int, b, q),
            0 <= i <= n,
            rows@.len() == i,
            uids@.len() == i,
            forall|q: int| 0 <= q < i ==> #[trigger] rows_view(rows@)[q] == new_rows(next as int, b)[q],
            forall|q: int| 0 <= q < i ==> #[trigger] uids@[q] == next + q,
        decreases n - i,
    {
        let ghost rows_pre = rows@;
        let row = VersionedRow {
            uid: next + i as i64,
            superseded_by: sb[i],
            block_uid: batch[i].0,
            key: batch[i].1.clone(),
        };
        proof {
            assert(row@ == new_rows(next as int, b)[i as int]);
        }
        rows.push(row);
        uids.push(next + i as i64);
        proof {
            assert forall|q: int| 0 <= q < i + 1 implies #[trigger] rows_view(rows@)[q] == new_rows(
                next as int,
                b,
            )[q] by {
                assert(rows@ == rows_pre.push(row));
                if q < i {
                    assert(rows_view(rows@)[q] == rows_view(rows_pre)[q]);
                } else {
                    assert(rows_view(rows@)[q] == row@);
                }
            }
        }
        i += 1;
    }
    proof {
        assert(rows_view(rows@) =~= new_rows(next as int, b));
    }
    table.close_superseded_by(&ovs);
    proof {
        let ovm = overrides_view(ovs@);
        assert forall|q: int| 0 <= q < t0.len() implies spec_close(t0, ovm)[q] == close_row_batch(
            t0[q],
            next as int,
            b,
        ) by {
            let r = t0[q];
            lemma_find_override(ovm, r.key, 0);
            lemma_find_entry_key(b, r.key, 0);
            assert(ov_lookup(ovm, r.key) == (match find_entry_key(b, r.key, 0) {
                Some(f) => Some(next + f),
                None => None::<int>,
            }));
        }
        assert(spec_close(t0, ovm) =~= Seq::new(
            t0.len(),
            |q: int| close_row_batch(t0[q], next as int, b),
        ));
    }
    table.insert_rows(rows);
    proof {
        assert(table@ =~= spec_upsert(t0, next as int, b));
    }
    table.set_next_uid(next + n as i64);
    proof {
        if wf_rows(t0, next as int) && crate::laws::batch_extends(t0, b) {
            crate::laws::lemma_upsert_preserves_wf(t0, next as int, b);
        }
    }
    Some(uids)
}

/// One rollback of a versioned family, end to end: deletes every row made
/// after `target`, finds for each touched key the lowest deleted uid, and
/// reopens the chains that pointed there.  Returns the deleted rows.
pub fn rollback_versioned(table: &mut VersionedTable, target: i64) -> (deleted: Vec<VersionedRow>)
    ensures
        final(table)@ == spec_rollback(old(table)@, target as int),
        rows_view(deleted@) == deleted_rows(old(table)@, target as int),
        final(table).next_uid == old(table).next_uid,
{
    let ghost t0 = table@;
    let deleted = table.rollback(target);
    let ghost d = rows_view(deleted@);
    let ghost s = surviving(t0, target as int);
    let mins = lowest_uids_by_key(&deleted);
    table.reopen_superseded_by(&mins);
    proof {
        assert forall|q: int| 0 <= q < s.len() implies spec_reopen(s, mins@)[q] == rollback_row(
            s[q],
            d,
        ) by {
            let r = s[q];
            lemma_surviving_in_range(t0, target as int);
            assert(-0x8000_0000_0000_0000 <= r.superseded_by < 0x8000_0000_0000_0000);
            assert(mins@.contains(r.superseded_by as i64) <==> is_min_of_key(
                d,
                (r.superseded_by as i64) as int,
            ));
            assert((r.superseded_by as i64) as int == r.superseded_by);
        }
        assert(table@ =~= spec_rollback(t0, target as int));
    }
    deleted
}

/// Every row model that comes from a real table has machine-sized fields.
pub proof fn lemma_surviving_in_range(t: Seq<RowM>, target: int)
    requires
        forall|i: int| 0 <= i < t.len() ==> -0x8000_0000_0000_0000 <= (#[trigger] t[i]).superseded_by
            < 0x8000_0000_0000_0000,
    ensures
        forall|i: int|
            0 <= i < surviving(t, target).len() ==> -0x8000_0000_0000_0000 <= (#[trigger] surviving(
                t,
                target,
            )[i]).superseded_by < 0x8000_0000_0000_0000,
    decreases t.len(),
{
    if t.len() > 0 {
        assert(forall|i: int| 0 <= i < t.drop_last().len() ==> t.drop_last()[i] == t[i]);
        lemma_surviving_in_range(t.drop_last(), target);
        assert(surviving(t, target).len() <= t.len()) by {
            lemma_surviving_len(t, target);
        }
        if t.last().block_uid <= target {
            assert(surviving(t, target) == surviving(t.drop_last(), target).push(t.last()));
        }
    }
}

/// A rollback never grows the table.
pub proof fn lemma_surviving_len(t: Seq<RowM>, target: int)
    ensures
        surviving(t, target).len() <= t.len(),
        deleted_rows(t, target).len() <= t.len(),
        surviving(t, target).len() + deleted_rows(t, target).len() == t.len(),
    decreases t.len(),
{
    if t.len() > 0 {
        lemma_surviving_len(t.drop_last(), target);
    }
}

} // verus!
