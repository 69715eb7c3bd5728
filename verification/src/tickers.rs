//! The asset-ticker family: its row type, the batch build, and the
//! family's upsert and rollback.

use vstd::prelude::*;

use crate::models::AssetTickerUpdate;
use crate::versioned::{
    entries_view, linked_superseded_by, rollback_versioned, rows_view, spec_rollback, spec_upsert,
    upsert_versioned, EntryM, VersionedTable, OPEN_UID,
};

verus! {

/// One persisted version of an asset's ticker.
pub struct InsertableAssetTicker {
    pub uid: i64,
    pub superseded_by: i64,
    pub block_uid: i64,
    pub asset_id: String,
    pub ticker: String,
}

/// Mathematical model of a ticker row.
pub ghost struct InsertableAssetTickerM {
    pub uid: int,
    pub superseded_by: int,
    pub block_uid: int,
    pub asset_id: Seq<char>,
    pub ticker: Seq<char>,
}

impl View for InsertableAssetTicker {
    type V = InsertableAssetTickerM;

    open spec fn view(&self) -> InsertableAssetTickerM {
        InsertableAssetTickerM {
            uid: self.uid as int,
            superseded_by: self.superseded_by as int,
            block_uid: self.block_uid as int,
            asset_id: self.asset_id@,
            ticker: self.ticker@,
        }
    }
}

/// The hand-off row of one asset key in the ticker family.
pub struct AssetTickerOverride {
    pub superseded_by: i64,
    pub asset_id: String,
}

/// A deleted ticker row, as a rollback reports it.
pub struct DeletedAssetTicker {
    pub uid: i64,
    pub asset_id: String,
}

/// A plain current-ticker record.
pub struct Ticker {
    pub asset_id: String,
    pub ticker: String,
}

/// The chain batch a ticker-update list stands for.
pub open spec fn ticker_entries(us: Seq<(i64, AssetTickerUpdate)>) -> Seq<EntryM> {
    us.map_values(
        |p: (i64, AssetTickerUpdate)| EntryM { block_uid: p.0 as int, key: p.1.asset_id@ },
    )
}

/// The ticker row a batch produces at position `q`.
pub open spec fn spec_ticker_row(
    next: int,
    us: Seq<(i64, AssetTickerUpdate)>,
    q: int,
) -> InsertableAssetTickerM {
    InsertableAssetTickerM {
        uid: next + q,
        superseded_by: linked_superseded_by(next, ticker_entries(us), q),
        block_uid: us[q].0 as int,
        asset_id: us[q].1.asset_id@,
        ticker: us[q].1.ticker@,
    }
}

/// The chain batch of a ticker-update list, as concrete key pairs.
pub fn ticker_batch_keys(updates: &Vec<(i64, AssetTickerUpdate)>) -> (r: Vec<(i64, String)>)
    ensures
        entries_view(r@) == ticker_entries(updates@),
{
    let n = updates.len();
    let mut r: Vec<(i64, String)> = Vec::new();
    let mut i: usize = 0;
    while i < n
        invariant
            n == updates@.len(),
            0 <= i <= n,
            r@.len() == i,
            forall|q: int|
                0 <= q < i ==> #[trigger] entries_view(r@)[q] == ticker_entries(updates@)[q],
        decreases n - i,
    {
        let ghost r0 = r@;
        let pair = (updates[i].0, updates[i].1.asset_id.clone());
        r.push(pair);
        proof {
            assert(r@ == r0.push(pair));
            assert forall|q: int| 0 <= q < i + 1 implies #[trigger] entries_view(r@)[q]
                == ticker_entries(updates@)[q] by {
                if q < i {
                    assert(entries_view(r@)[q] == entries_view(r0)[q]);
                } else {
                    assert(entries_view(r@)[q] == EntryM {
                        block_uid: pair.0 as int,
                        key: pair.1@,
                    });
                }
            }
        }
        i += 1;
    }
    proof {
        assert(entries_view(r@) =~= ticker_entries(updates@));
    }
    r
}

/// Builds the ticker rows of one batch: uid assignment in input order,
/// chain links per key.
pub fn build_asset_ticker_rows(next_uid: i64, updates: &Vec<(i64, AssetTickerUpdate)>) -> (rows:
    Vec<InsertableAssetTicker>)
    requires
        0 <= next_uid,
        next_uid + updates@.len() <= OPEN_UID,
    ensures
        rows@.len() == updates@.len(),
        forall|q: int|
            0 <= q < rows@.len() ==> (#[trigger] rows@[q])@ == spec_ticker_row(
                next_uid as int,
                updates@,
                q,
            ),
{
    let batch = ticker_batch_keys(updates);
    proof {
        assert(batch@.len() == entries_view(batch@).len());
        assert(ticker_entries(updates@).len() == updates@.len());
    }
    let sb = crate::versioned::chain_superseded_by(next_uid, &batch);
    let n = updates.len();
    let mut rows: Vec<InsertableAssetTicker> = Vec::new();
    let mut i: usize = 0;
    while i < n
        invariant
            n == updates@.len(),
            0 <= next_uid,
            next_uid + n <= OPEN_UID,
            sb@.len() == n,
            forall|q: int|
                0 <= q < n ==> #[trigger] sb@[q] as int == linked_superseded_by(
                    next_uid as int,
                    ticker_entries(updates@),
                    q,
                ),
            0 <= i <= n,
            rows@.len() == i,
            forall|q: int|
                0 <= q < i ==> (#[trigger] rows@[q])@ == spec_ticker_row(
                    next_uid as int,
                    updates@,
                    q,
                ),
        decreases n - i,
    {
        let ghost rows0 = rows@;
        let row = InsertableAssetTicker {
            uid: next_uid + i as i64,
            superseded_by: sb[i],
            block_uid: updates[i].0,
            asset_id: updates[i].1.asset_id.clone(),
            ticker: updates[i].1.ticker.clone(),
        };
        proof {
            assert(row@ == spec_ticker_row(next_uid as int, updates@, i as int));
        }
        rows.push(row);
        proof {
            assert(rows@ == rows0.push(row));
        }
        i += 1;
    }
    rows
}

/// One batch of ticker updates against the in-memory store: the whole
/// versioned upsert of the family.  An empty batch changes nothing.
pub fn handle_asset_tickers_updates(
    table: &mut VersionedTable,
    updates: &Vec<(i64, AssetTickerUpdate)>,
) -> (inserted: Option<Vec<i64>>)
    requires
        0 <= old(table).next_uid,
        old(table).next_uid + updates@.len() <= OPEN_UID,
    ensures
        updates@.len() == 0 ==> final(table)@ == old(table)@ && final(table).next_uid == old(
            table,
        ).next_uid && inserted is None,
        updates@.len() > 0 ==> final(table)@ == spec_upsert(
            old(table)@,
            old(table).next_uid as int,
            ticker_entries(updates@),
        ) && final(table).next_uid == old(table).next_uid + updates@.len(),
        updates@.len() > 0 ==> match inserted {
            Some(uids) => uids@.len() == updates@.len() && forall|q: int|
                0 <= q < uids@.len() ==> #[trigger] uids@[q] == old(table).next_uid + q,
            None => false,
        },
        (old(table).wf() && crate::laws::batch_extends(old(table)@, ticker_entries(updates@)))
            ==> final(table).wf(),
{
    let batch = ticker_batch_keys(updates);
    proof {
        assert(batch@.len() == entries_view(batch@).len());
        assert(ticker_entries(updates@).len() == updates@.len());
    }
    upsert_versioned(table, &batch)
}

/// Rolls the family back to `block_uid` and reports what was deleted.
pub fn rollback_asset_tickers(table: &mut VersionedTable, block_uid: i64) -> (deleted: Vec<
    DeletedAssetTicker>)
    ensures
        final(table)@ == spec_rollback(old(table)@, block_uid as int),
        final(table).next_uid == old(table).next_uid,
        deleted@.len() == crate::versioned::deleted_rows(old(table)@, block_uid as int).len(),
        forall|q: int|
            0 <= q < deleted@.len() ==> (#[trigger] deleted@[q]).uid as int
                == crate::versioned::deleted_rows(old(table)@, block_uid as int)[q].uid && deleted@[
                q].asset_id@ == crate::versioned::deleted_rows(old(table)@, block_uid as int)[q].key,
{
    let ghost t0 = table@;
    let rows = rollback_versioned(table, block_uid);
    let n = rows.len();
    let mut deleted: Vec<DeletedAssetTicker> = Vec::new();
    let mut i: usize = 0;
    while i < n
        invariant
            n == rows@.len(),
            rows_view(rows@) == crate::versioned::deleted_rows(t0, block_uid as int),
            0 <= i <= n,
            deleted@.len() == i,
            forall|q: int|
                0 <= q < i ==> (#[trigger] deleted@[q]).uid as int == rows_view(rows@)[q].uid
                    && deleted@[q].asset_id@ == rows_view(rows@)[q].key,
        decreases n - i,
    {
        let ghost d0 = deleted@;
        let d = DeletedAssetTicker { uid: rows[i].uid, asset_id: rows[i].key.clone() };
        deleted.push(d);
        proof {
            assert(deleted@ == d0.push(d));
            assert(rows_view(rows@)[i as int] == rows@[i as int]@);
        }
        i += 1;
    }
    deleted
}

} // verus!
