//! The block ledger: one row per appended block or microblock, uids in
//! insertion order.  A row without a timestamp is an unconfirmed
//! microblock; such rows only ever form the ledger's tail, until a
//! squash folds them into the last confirmed block.

use vstd::prelude::*;

use crate::models::{BlockMicroblockAppend, PrevHandledHeight};

verus! {

/// What an append inserts into the ledger.
pub struct BlockMicroblock {
    pub id: String,
    pub time_stamp: Option<i64>,
    pub height: i32,
}

impl BlockMicroblock {
    /// The ledger insert an append stands for.
    pub fn from_append(bma: &BlockMicroblockAppend) -> (r: Self)
        ensures
            r.id@ == bma.id@,
            r.time_stamp == bma.time_stamp,
            r.height == bma.height,
    {
        BlockMicroblock { id: bma.id.clone(), time_stamp: bma.time_stamp, height: bma.height }
    }
}

/// One stored ledger row.
pub struct LedgerRow {
    pub uid: i64,
    pub id: String,
    pub time_stamp: Option<i64>,
    pub height: i32,
}

/// Mathematical model of a ledger row.
pub ghost struct LedgerRowM {
    pub uid: int,
    pub id: Seq<char>,
    pub time_stamp: Option<i64>,
    pub height: int,
}

impl View for LedgerRow {
    type V = LedgerRowM;

    open spec fn view(&self) -> LedgerRowM {
        LedgerRowM {
            uid: self.uid as int,
            id: self.id@,
            time_stamp: self.time_stamp,
            height: self.height as int,
        }
    }
}

impl Clone for LedgerRow {
    fn clone(&self) -> (r: Self)
        ensures
            r == *self,
    {
        LedgerRow {
            uid: self.uid,
            id: self.id.clone(),
            time_stamp: self.time_stamp,
            height: self.height,
        }
    }
}

/// The model of a row sequence.
pub open spec fn ledger_view(v: Seq<LedgerRow>) -> Seq<LedgerRowM> {
    v.map_values(|r: LedgerRow| r@)
}

/// Unconfirmed rows only stand at the tail.
pub open spec fn nulls_at_tail(t: Seq<LedgerRowM>) -> bool {
    forall|i: int, j: int|
        0 <= i <= j < t.len() && (#[trigger] t[i]).time_stamp is None ==> (
        #[trigger] t[j]).time_stamp is None
}

/// Well-formedness of the ledger with counter `next`.
pub open spec fn wf_ledger(t: Seq<LedgerRowM>, next: int) -> bool {
    &&& forall|i: int, j: int| 0 <= i < j < t.len() ==> (#[trigger] t[i]).uid < (#[trigger] t[j]).uid
    &&& forall|i: int| 0 <= i < t.len() ==> 0 <= (#[trigger] t[i]).uid < next
    &&& 0 <= next
    &&& nulls_at_tail(t)
}

/// The ledger held in memory.
pub struct Ledger {
    pub rows: Vec<LedgerRow>,
    pub next_uid: i64,
}

impl View for Ledger {
    type V = Seq<LedgerRowM>;

    open spec fn view(&self) -> Seq<LedgerRowM> {
        ledger_view(self.rows@)
    }
}

/// The rows that survive a ledger rollback: those at or before `target`.
pub open spec fn ledger_keep(t: Seq<LedgerRowM>, target: int) -> Seq<LedgerRowM>
    decreases t.len(),
{
    if t.len() == 0 {
        Seq::<LedgerRowM>::empty()
    } else if t.last().uid <= target {
        ledger_keep(t.drop_last(), target).push(t.last())
    } else {
        ledger_keep(t.drop_last(), target)
    }
}

/// The confirmed rows, in order: what deleting the microblock tail keeps.
pub open spec fn confirmed_rows(t: Seq<LedgerRowM>) -> Seq<LedgerRowM>
    decreases t.len(),
{
    if t.len() == 0 {
        Seq::<LedgerRowM>::empty()
    } else if t.last().time_stamp is Some {
        confirmed_rows(t.drop_last()).push(t.last())
    } else {
        confirmed_rows(t.drop_last())
    }
}

/// The greatest height any row reaches; meaningful only for a non-empty
/// ledger.
pub open spec fn max_height(t: Seq<LedgerRowM>) -> int
    decreases t.len(),
{
    if t.len() == 0 {
        0
    } else if t.len() == 1 {
        t[0].height
    } else if t.last().height >= max_height(t.drop_last()) {
        t.last().height
    } else {
        max_height(t.drop_last())
    }
}

/// The position of the first row at height `h` at or after `from`, if
/// any; under increasing uids this is the row with the smallest uid at
/// that height.
pub open spec fn first_at_height(t: Seq<LedgerRowM>, h: int, from: int) -> Option<int>
    decreases t.len() - from when 0 <= from
{
    if from >= t.len() {
        None::<int>
    } else if t[from].height == h {
        Some(from)
    } else {
        first_at_height(t, h, from + 1)
    }
}

/// The position of the first row whose id is `idv`, if any.
pub open spec fn find_ledger_id(t: Seq<LedgerRowM>, idv: Seq<char>, from: int) -> Option<int>
    decreases t.len() - from when 0 <= from
{
    if from >= t.len() {
        None::<int>
    } else if t[from].id == idv {
        Some(from)
    } else {
        find_ledger_id(t, idv, from + 1)
    }
}

/// Every height lies at or below the maximum, and some row reaches it.
pub proof fn lemma_max_height(t: Seq<LedgerRowM>)
    requires
        t.len() > 0,
    ensures
        forall|i: int| 0 <= i < t.len() ==> (#[trigger] t[i]).height <= max_height(t),
        exists|i: int| 0 <= i < t.len() && (#[trigger] t[i]).height == max_height(t),
    decreases t.len(),
{
    if t.len() > 1 {
        lemma_max_height(t.drop_last());
        assert forall|i: int| 0 <= i < t.len() implies (#[trigger] t[i]).height <= max_height(
            t,
        ) by {
            if i < t.len() - 1 {
                assert(t.drop_last()[i] == t[i]);
            }
        }
        if t.last().height >= max_height(t.drop_last()) {
            assert(t[t.len() - 1].height == max_height(t));
        } else {
            let w = choose|i: int|
                0 <= i < t.drop_last().len() && (#[trigger] t.drop_last()[i]).height == max_height(
                    t.drop_last(),
                );
            assert(t[w].height == max_height(t));
        }
    }
}

/// What `first_at_height` returns: the first row at that height, if any.
pub proof fn lemma_first_at_height(t: Seq<LedgerRowM>, h: int, from: int)
    requires
        0 <= from <= t.len(),
    ensures
        match first_at_height(t, h, from) {
            Some(i) => from <= i < t.len() && t[i].height == h && (forall|j: int|
                from <= j < i ==> (#[trigger] t[j]).height != h),
            None => forall|j: int| from <= j < t.len() ==> (#[trigger] t[j]).height != h,
        },
    decreases t.len() - from,
{
    if from < t.len() && t[from].height != h {
        lemma_first_at_height(t, h, from + 1);
    }
}

impl Ledger {
    pub open spec fn wf(&self) -> bool {
        wf_ledger(self@, self.next_uid as int)
    }

    /// An empty ledger; uids start at one.
    pub fn new() -> (l: Self)
        ensures
            l@ == Seq::<LedgerRowM>::empty(),
            l.next_uid == 1,
            l.wf(),
    {
        let l = Ledger { rows: Vec::new(), next_uid: 1 };
        proof {
            assert(l@ =~= Seq::<LedgerRowM>::empty());
        }
        l
    }

    /// Inserts the rows of one run, assigning uids in input order, and
    /// returns those uids.  Confirmed rows may only go where no
    /// unconfirmed tail stands; unconfirmed rows must stay a tail.
    pub fn insert_blocks_or_microblocks(&mut self, blocks: &Vec<BlockMicroblock>) -> (uids: Vec<
        i64>)
        requires
            old(self).wf(),
            old(self).next_uid + blocks@.len() < 0x7fff_ffff_ffff_ffff,
            forall|p: int, q: int|
                0 <= p <= q < blocks@.len() && (#[trigger] blocks@[p]).time_stamp is None ==> (
                #[trigger] blocks@[q]).time_stamp is None,
            (exists|i: int| 0 <= i < old(self)@.len() && (#[trigger] old(self)@[i]).time_stamp
                is None) ==> forall|q: int|
                0 <= q < blocks@.len() ==> (#[trigger] blocks@[q]).time_stamp is None,
        ensures
            final(self).wf(),
            final(self)@.len() == old(self)@.len() + blocks@.len(),
            forall|i: int|
                0 <= i < old(self)@.len() ==> final(self)@[i] == old(self)@[i],
            forall|q: int|
                0 <= q < blocks@.len() ==> (#[trigger] final(self)@[old(self)@.len() + q])
                    == (LedgerRowM {
                    uid: old(self).next_uid + q,
                    id: blocks@[q].id@,
                    time_stamp: blocks@[q].time_stamp,
                    height: blocks@[q].height as int,
                }),
            final(self).next_uid == old(self).next_uid + blocks@.len(),
            uids@.len() == blocks@.len(),
            forall|q: int| 0 <= q < uids@.len() ==> #[trigger] uids@[q] == old(self).next_uid + q,
    {
        let ghost t0 = self@;
        let next = self.next_uid;
        let n = blocks.len();
        let mut uids: Vec<i64> = Vec::new();
        let mut i: usize = 0;
        while i < n
            invariant
                n == blocks@.len(),
                next == old(self).next_uid,
                t0 == old(self)@,
                0 <= next,
                next + n < 0x7fff_ffff_ffff_ffff,
                0 <= i <= n,
                self.next_uid == next,
                self@.len() == t0.len() + i,
                forall|p: int| 0 <= p < t0.len() ==> self@[p] == t0[p],
                forall|q: int|
                    0 <= q < i ==> (#[trigger] self@[t0.len() + q]) == (LedgerRowM {
                        uid: next + q,
                        id: blocks@[q].id@,
                        time_stamp: blocks@[q].time_stamp,
                        height: blocks@[q].height as int,
                    }),
                uids@.len() == i,
                forall|q: int| 0 <= q < uids@.len() ==> #[trigger] uids@[q] == next + q,
            decreases n - i,
        {
            let ghost rows0 = self.rows@;
            let b = &blocks[i];
            let row = LedgerRow {
                uid: next + i as i64,
                id: b.id.clone(),
                time_stamp: b.time_stamp,
                height: b.height,
            };
            let ghost rowv = row@;
            self.rows.push(row);
            uids.push(next + i as i64);
            proof {
                assert forall|p: int| 0 <= p < t0.len() implies self@[p] == t0[p] by {
                    assert(self.rows@[p] == rows0[p]);
                    assert(ledger_view(rows0)[p] == t0[p]);
                }
                assert forall|q: int| 0 <= q < i + 1 implies (#[trigger] self@[t0.len() + q])
                    == (LedgerRowM {
                    uid: next + q,
                    id: blocks@[q].id@,
                    time_stamp: blocks@[q].time_stamp,
                    height: blocks@[q].height as int,
                }) by {
                    if q < i {
                        assert(self.rows@[t0.len() + q] == rows0[t0.len() + q]);
                        assert(ledger_view(rows0)[t0.len() + q] == (LedgerRowM {
                            uid: next + q,
                            id: blocks@[q].id@,
                            time_stamp: blocks@[q].time_stamp,
                            height: blocks@[q].height as int,
                        }));
                    } else {
                        assert(self@[t0.len() + q] == rowv);
                    }
                }
            }
            i += 1;
        }
        self.next_uid = next + n as i64;
        proof {
            let t1 = self@;
            assert forall|p: int, q: int|
                0 <= p <= q < t1.len() && (#[trigger] t1[p]).time_stamp is None implies (
            #[trigger] t1[q]).time_stamp is None by {
                if p < t0.len() {
                    assert(t1[p] == t0[p]);
                    if q < t0.len() {
                        assert(t1[q] == t0[q]);
                    } else {
                        assert(exists|w: int|
                            0 <= w < t0.len() && (#[trigger] t0[w]).time_stamp is None);
                        let wq = q - t0.len();
                        assert(blocks@[wq].time_stamp is None);
                        assert(t1[t0.len() + wq].time_stamp == blocks@[wq].time_stamp);
                        assert(t1[q].time_stamp is None);
                    }
                } else {
                    let wp = p - t0.len();
                    let wq = q - t0.len();
                    assert(t1[t0.len() + wp].time_stamp == blocks@[wp].time_stamp);
                    assert(blocks@[wp].time_stamp is None);
                    assert(blocks@[wq].time_stamp is None);
                    assert(t1[t0.len() + wq].time_stamp == blocks@[wq].time_stamp);
                    assert(t1[q].time_stamp is None);
                }
            }
            assert forall|p: int, q: int| 0 <= p < q < t1.len() implies (#[trigger] t1[p]).uid < (
            #[trigger] t1[q]).uid by {
                if p < t0.len() {
                    assert(t1[p] == t0[p]);
                    if q >= t0.len() {
                        let wq = q - t0.len();
                        assert(t1[t0.len() + wq].uid == next + wq);
                        assert(t0[p].uid < next);
                    } else {
                        assert(t1[q] == t0[q]);
                    }
                } else {
                    let wp = p - t0.len();
                    let wq = q - t0.len();
                    assert(t1[t0.len() + wp].uid == next + wp);
                    assert(t1[t0.len() + wq].uid == next + wq);
                }
            }
            assert forall|p: int| 0 <= p < t1.len() implies 0 <= (#[trigger] t1[p]).uid < self
                .next_uid as int by {
                if p < t0.len() {
                    assert(t1[p] == t0[p]);
                } else {
                    let wp = p - t0.len();
                    assert(t1[t0.len() + wp].uid == next + wp);
                }
            }
        }
        uids
    }

    /// The uid of the last confirmed row: where a squash folds the
    /// microblock tail.  Nothing when no confirmed row exists.
    pub fn get_key_block_uid(&self) -> (r: Option<i64>)
        requires
            self.wf(),
        ensures
            match r {
                Some(u) => confirmed_rows(self@).len() > 0 && u as int == confirmed_rows(
                    self@,
                ).last().uid && (forall|j: int|
                    0 <= j < self@.len() && (#[trigger] self@[j]).time_stamp is Some ==> self@[
                    j].uid <= u as int),
                None => confirmed_rows(self@) == Seq::<LedgerRowM>::empty(),
            },
    {
        let ghost t = self@;
        proof {
            lemma_confirmed_prefix(t);
        }
        let ghost m = confirmed_rows(t).len() as int;
        let n = self.rows.len();
        let mut i: usize = n;
        while i > 0
            invariant
                n == t.len(),
                t == self@,
                wf_ledger(t, self.next_uid as int),
                m == confirmed_rows(t).len() as int,
                confirmed_rows(t) == t.take(m),
                forall|q: int| 0 <= q < m ==> (#[trigger] t[q]).time_stamp is Some,
                forall|q: int| m <= q < t.len() ==> (#[trigger] t[q]).time_stamp is None,
                0 <= i <= n,
                m <= i,
            decreases i,
        {
            let row = &self.rows[i - 1];
            if row.time_stamp.is_some() {
                proof {
                    assert(t[i - 1].time_stamp is Some);
                    assert(m == i);
                    assert(confirmed_rows(t).last() == t.take(m)[m - 1]);
                }
                return Some(row.uid);
            }
            proof {
                assert(t[i - 1].time_stamp is None);
                assert(m <= i - 1) by {
                    if m > i - 1 {
                        assert(t[i - 1].time_stamp is Some);
                    }
                }
            }
            i -= 1;
        }
        proof {
            assert(m == 0);
            assert(confirmed_rows(t) =~= Seq::<LedgerRowM>::empty());
        }
        None
    }

    /// The id of the newest unconfirmed row: the total block id a squash
    /// renames the key block to.  Nothing when no microblock tail stands.
    pub fn get_total_block_id(&self) -> (r: Option<String>)
        requires
            self.wf(),
        ensures
            match r {
                Some(id) => self@.len() > 0 && self@.last().time_stamp is None && id@ == self@
                    .last().id,
                None => forall|i: int| 0 <= i < self@.len() ==> (#[trigger] self@[i]).time_stamp
                    is Some,
            },
    {
        let n = self.rows.len();
        if n == 0 {
            return None;
        }
        let row = &self.rows[n - 1];
        match &row.time_stamp {
            Some(_) => {
                proof {
                    assert forall|i: int| 0 <= i < self@.len() implies (
                    #[trigger] self@[i]).time_stamp is Some by {
                        if self@[i].time_stamp is None {
                            assert(self@[self@.len() - 1].time_stamp is None);
                        }
                    }
                }
                None
            },
            None => Some(row.id.clone()),
        }
    }

    /// Deletes the unconfirmed tail.
    pub fn delete_microblocks(&mut self)
        requires
            old(self).wf(),
        ensures
            final(self).wf(),
            final(self)@ == confirmed_rows(old(self)@),
            final(self).next_uid == old(self).next_uid,
    {
        let ghost t0 = self@;
        let n = self.rows.len();
        let mut out: Vec<LedgerRow> = Vec::new();
        let mut i: usize = 0;
        while i < n
            invariant
                n == t0.len(),
                t0 == self@,
                0 <= i <= n,
                ledger_view(out@) == confirmed_rows(t0.take(i as int)),
            decreases n - i,
        {
            proof {
                assert(t0.take(i + 1).drop_last() =~= t0.take(i as int));
                assert(t0.take(i + 1).last() == t0[i as int]);
            }
            let row = &self.rows[i];
            if row.time_stamp.is_some() {
                let r = row.clone();
                proof {
                    assert(ledger_view(out@.push(r)) =~= ledger_view(out@).push(r@));
                }
                out.push(r);
            }
            i += 1;
        }
        self.rows = out;
        proof {
            assert(t0.take(n as int) =~= t0);
            lemma_confirmed_wf(t0, self.next_uid as int);
        }
    }

    /// Renames the row at `block_uid`.
    pub fn change_block_id(&mut self, block_uid: i64, new_block_id: &str)
        requires
            old(self).wf(),
        ensures
            final(self).wf(),
            final(self)@.len() == old(self)@.len(),
            forall|i: int|
                0 <= i < old(self)@.len() ==> (#[trigger] final(self)@[i]) == (
                if old(self)@[i].uid == block_uid as int {
                    LedgerRowM { id: new_block_id@, ..old(self)@[i] }
                } else {
                    old(self)@[i]
                }),
            final(self).next_uid == old(self).next_uid,
    {
        let ghost t0 = self@;
        let n = self.rows.len();
        let mut out: Vec<LedgerRow> = Vec::new();
        let mut i: usize = 0;
        while i < n
            invariant
                n == t0.len(),
                t0 == self@,
                0 <= i <= n,
                out@.len() == i,
                forall|q: int|
                    0 <= q < i ==> (#[trigger] ledger_view(out@)[q]) == (
                    if t0[q].uid == block_uid as int {
                        LedgerRowM { id: new_block_id@, ..t0[q] }
                    } else {
                        t0[q]
                    }),
            decreases n - i,
        {
            let row = &self.rows[i];
            let r = if row.uid == block_uid {
                LedgerRow {
                    uid: row.uid,
                    id: String::from_str(new_block_id),
                    time_stamp: row.time_stamp,
                    height: row.height,
                }
            } else {
                row.clone()
            };
            let ghost out_pre = out@;
            out.push(r);
            proof {
                assert forall|q: int| 0 <= q < i + 1 implies (#[trigger] ledger_view(out@)[q]) == (
                if t0[q].uid == block_uid as int {
                    LedgerRowM { id: new_block_id@, ..t0[q] }
                } else {
                    t0[q]
                }) by {
                    assert(out@ == out_pre.push(r));
                    if q < i {
                        assert(ledger_view(out@)[q] == ledger_view(out_pre)[q]);
                    } else {
                        assert(ledger_view(out@)[q] == r@);
                    }
                }
            }
            i += 1;
        }
        self.rows = out;
        proof {
            assert(self@.len() == t0.len());
        }
    }

    /// Deletes every row after `block_uid`.
    pub fn rollback_blocks_microblocks(&mut self, block_uid: i64)
        requires
            old(self).wf(),
        ensures
            final(self).wf(),
            final(self)@ == ledger_keep(old(self)@, block_uid as int),
            final(self).next_uid == old(self).next_uid,
    {
        let ghost t0 = self@;
        let n = self.rows.len();
        let mut out: Vec<LedgerRow> = Vec::new();
        let mut i: usize = 0;
        while i < n
            invariant
                n == t0.len(),
                t0 == self@,
                0 <= i <= n,
                ledger_view(out@) == ledger_keep(t0.take(i as int), block_uid as int),
            decreases n - i,
        {
            proof {
                assert(t0.take(i + 1).drop_last() =~= t0.take(i as int));
                assert(t0.take(i + 1).last() == t0[i as int]);
            }
            let row = &self.rows[i];
            if row.uid <= block_uid {
                let r = row.clone();
                proof {
                    assert(ledger_view(out@.push(r)) =~= ledger_view(out@).push(r@));
                }
                out.push(r);
            }
            i += 1;
        }
        self.rows = out;
        proof {
            assert(t0.take(n as int) =~= t0);
            lemma_ledger_keep_wf(t0, block_uid as int, self.next_uid as int);
        }
    }

    /// The uid of the first row carrying the given block id.
    pub fn get_block_uid(&self, block_id: &str) -> (r: Option<i64>)
        ensures
            match r {
                Some(u) => (match find_ledger_id(self@, block_id@, 0) {
                    Some(i) => u as int == self@[i].uid,
                    None => false,
                }),
                None => find_ledger_id(self@, block_id@, 0) is None,
            },
    {
        let ghost t = self@;
        let n = self.rows.len();
        let mut i: usize = 0;
        while i < n
            invariant
                n == t.len(),
                t == self@,
                0 <= i <= n,
                find_ledger_id(t, block_id@, 0) == find_ledger_id(t, block_id@, i as int),
            decreases n - i,
        {
            if crate::extract::str_eq(self.rows[i].id.as_str(), block_id) {
                proof {
                    assert(find_ledger_id(t, block_id@, i as int) == Some(i as int));
                }
                return Some(self.rows[i].uid);
            }
            i += 1;
        }
        None
    }

    /// Where processing stood before the latest height: the oldest row
    /// one below the top height, used on startup to undo a possibly
    /// half-ingested block.
    pub fn get_prev_handled_height(&self) -> (r: Option<PrevHandledHeight>)
        requires
            self.wf(),
        ensures
            match r {
                Some(p) => (match first_at_height(self@, max_height(self@) - 1, 0) {
                    Some(i) => p.uid as int == self@[i].uid && p.height as int == self@[i].height,
                    None => false,
                }),
                None => first_at_height(self@, max_height(self@) - 1, 0) is None,
            },
    {
        let ghost t = self@;
        let n = self.rows.len();
        if n == 0 {
            return None;
        }
        let maxh = self.max_height_exec();
        if maxh == i32::MIN {
            proof {
                lemma_max_height(t);
                lemma_first_at_height(t, max_height(t) - 1, 0);
                if first_at_height(t, max_height(t) - 1, 0) is Some {
                    let w = first_at_height(t, max_height(t) - 1, 0)->Some_0;
                    assert(t[w].height == max_height(t) - 1);
                    assert(t[w].height >= -0x8000_0000);
                }
            }
            return None;
        }
        let target = maxh - 1;
        let mut i: usize = 0;
        while i < n
            invariant
                n == t.len(),
                t == self@,
                maxh as int == max_height(t),
                target as int == max_height(t) - 1,
                0 <= i <= n,
                first_at_height(t, target as int, 0) == first_at_height(t, target as int, i as int),
            decreases n - i,
        {
            let row = &self.rows[i];
            if row.height == target {
                proof {
                    assert(first_at_height(t, target as int, i as int) == Some(i as int));
                }
                return Some(PrevHandledHeight { uid: row.uid, height: row.height });
            }
            i += 1;
        }
        None
    }

    /// The greatest height in the ledger; the smallest value when empty.
    fn max_height_exec(&self) -> (r: i32)
        requires
            self@.len() > 0,
        ensures
            r as int == max_height(self@),
    {
        let ghost t = self@;
        let n = self.rows.len();
        let mut best = self.rows[0].height;
        proof {
            assert(t.take(1).len() == 1);
            assert(t.take(1)[0] == t[0]);
            assert(max_height(t.take(1)) == t[0].height);
        }
        let mut i: usize = 1;
        while i < n
            invariant
                n == t.len(),
                t == self@,
                1 <= i <= n,
                best as int == max_height(t.take(i as int)),
            decreases n - i,
        {
            proof {
                assert(t.take(i + 1).drop_last() =~= t.take(i as int));
                assert(t.take(i + 1).last() == t[i as int]);
                assert(t.take(i + 1).len() == i + 1 >= 2);
            }
            let h = self.rows[i].height;
            if h >= best {
                best = h;
            }
            i += 1;
        }
        proof {
            assert(t.take(n as int) =~= t);
        }
        best
    }
}

/// A ledger whose rows are all confirmed survives the tail deletion
/// whole.
proof fn lemma_all_confirmed(t: Seq<LedgerRowM>)
    requires
        forall|j: int| 0 <= j < t.len() ==> (#[trigger] t[j]).time_stamp is Some,
    ensures
        confirmed_rows(t) == t,
    decreases t.len(),
{
    if t.len() > 0 {
        assert(forall|j: int|
            0 <= j < t.drop_last().len() ==> (#[trigger] t.drop_last()[j]).time_stamp is Some);
        lemma_all_confirmed(t.drop_last());
        assert(confirmed_rows(t) =~= t);
    }
}

/// With unconfirmed rows only at the tail, the confirmed rows are a
/// prefix.
pub proof fn lemma_confirmed_prefix(t: Seq<LedgerRowM>)
    requires
        nulls_at_tail(t),
    ensures
        confirmed_rows(t).len() <= t.len(),
        confirmed_rows(t) == t.take(confirmed_rows(t).len() as int),
        forall|q: int|
            0 <= q < confirmed_rows(t).len() ==> (#[trigger] t[q]).time_stamp is Some,
        forall|q: int|
            confirmed_rows(t).len() <= q < t.len() ==> (#[trigger] t[q]).time_stamp is None,
    decreases t.len(),
{
    if t.len() > 0 {
        if t.last().time_stamp is Some {
            assert forall|j: int| 0 <= j < t.len() implies (#[trigger] t[j]).time_stamp
                is Some by {
                if t[j].time_stamp is None {
                    assert(t[t.len() - 1].time_stamp is None);
                }
            }
            lemma_all_confirmed(t);
            assert(confirmed_rows(t) == t);
            assert(t.take(t.len() as int) =~= t);
        } else {
            assert(forall|i: int, j: int|
                0 <= i <= j < t.drop_last().len() && (#[trigger] t.drop_last()[i]).time_stamp
                    is None ==> (#[trigger] t.drop_last()[j]).time_stamp is None);
            lemma_confirmed_prefix(t.drop_last());
            let m = confirmed_rows(t).len() as int;
            assert(confirmed_rows(t) == confirmed_rows(t.drop_last()));
            assert(t.drop_last().take(m) =~= t.take(m));
            assert forall|q: int| 0 <= q < m implies (#[trigger] t[q]).time_stamp is Some by {
                assert(t.drop_last()[q] == t[q]);
            }
            assert forall|q: int| m <= q < t.len() implies (#[trigger] t[q]).time_stamp
                is None by {
                if q < t.len() - 1 {
                    assert(t.drop_last()[q] == t[q]);
                }
            }
        }
    }
}

/// Keeping only confirmed rows keeps the ledger well formed.
proof fn lemma_confirmed_wf(t: Seq<LedgerRowM>, next: int)
    requires
        wf_ledger(t, next),
    ensures
        wf_ledger(confirmed_rows(t), next),
{
    lemma_confirmed_prefix(t);
    let c = confirmed_rows(t);
    assert(forall|i: int| 0 <= i < c.len() ==> (#[trigger] c[i]) == t[i]);
}

/// A ledger whose rows all lie at or before `target` survives a rollback
/// whole.
pub proof fn lemma_all_kept(t: Seq<LedgerRowM>, target: int)
    requires
        forall|j: int| 0 <= j < t.len() ==> (#[trigger] t[j]).uid <= target,
    ensures
        ledger_keep(t, target) == t,
    decreases t.len(),
{
    if t.len() > 0 {
        assert(forall|j: int|
            0 <= j < t.drop_last().len() ==> (#[trigger] t.drop_last()[j]).uid <= target);
        lemma_all_kept(t.drop_last(), target);
        assert(ledger_keep(t, target) =~= t);
    }
}

/// Ledger survivors distribute over concatenation.
pub proof fn lemma_ledger_keep_concat(a: Seq<LedgerRowM>, c: Seq<LedgerRowM>, target: int)
    ensures
        ledger_keep(a + c, target) == ledger_keep(a, target) + ledger_keep(c, target),
    decreases c.len(),
{
    if c.len() == 0 {
        assert(a + c =~= a);
        assert(ledger_keep(a, target) + ledger_keep(c, target) =~= ledger_keep(a, target));
    } else {
        assert((a + c).drop_last() =~= a + c.drop_last());
        assert((a + c).last() == c.last());
        lemma_ledger_keep_concat(a, c.drop_last(), target);
        if c.last().uid <= target {
            assert(ledger_keep(a + c, target) =~= ledger_keep(a, target) + ledger_keep(c, target));
        } else {
            assert(ledger_keep(a + c, target) =~= ledger_keep(a, target) + ledger_keep(c, target));
        }
    }
}

/// A ledger whose rows all lie past `target` is deleted whole.
pub proof fn lemma_all_dropped(t: Seq<LedgerRowM>, target: int)
    requires
        forall|j: int| 0 <= j < t.len() ==> (#[trigger] t[j]).uid > target,
    ensures
        ledger_keep(t, target) == Seq::<LedgerRowM>::empty(),
    decreases t.len(),
{
    if t.len() > 0 {
        assert(forall|j: int|
            0 <= j < t.drop_last().len() ==> (#[trigger] t.drop_last()[j]).uid > target);
        lemma_all_dropped(t.drop_last(), target);
    }
}

/// With increasing uids, a rollback keeps a prefix.
proof fn lemma_keep_prefix(t: Seq<LedgerRowM>, target: int)
    requires
        forall|i: int, j: int|
            0 <= i < j < t.len() ==> (#[trigger] t[i]).uid < (#[trigger] t[j]).uid,
    ensures
        ledger_keep(t, target).len() <= t.len(),
        ledger_keep(t, target) == t.take(ledger_keep(t, target).len() as int),
    decreases t.len(),
{
    if t.len() > 0 {
        if t.last().uid <= target {
            assert forall|j: int| 0 <= j < t.len() implies (#[trigger] t[j]).uid <= target by {
                if j < t.len() - 1 {
                    assert(t[j].uid < t[t.len() - 1].uid);
                }
            }
            lemma_all_kept(t, target);
            assert(t.take(t.len() as int) =~= t);
        } else {
            assert(forall|i: int, j: int|
                0 <= i < j < t.drop_last().len() ==> (#[trigger] t.drop_last()[i]).uid < (
                #[trigger] t.drop_last()[j]).uid);
            lemma_keep_prefix(t.drop_last(), target);
            let m = ledger_keep(t, target).len() as int;
            assert(ledger_keep(t, target) == ledger_keep(t.drop_last(), target));
            assert(t.drop_last().take(m) =~= t.take(m));
        }
    }
}

/// A ledger rollback keeps well-formedness.
proof fn lemma_ledger_keep_wf(t: Seq<LedgerRowM>, target: int, next: int)
    requires
        wf_ledger(t, next),
    ensures
        wf_ledger(ledger_keep(t, target), next),
{
    lemma_keep_prefix(t, target);
    let c = ledger_keep(t, target);
    assert(forall|i: int| 0 <= i < c.len() ==> (#[trigger] c[i]) == t[i]);
}

} // verus!
