//! The asset-metadata family: its row type, the batch build that assigns
//! uids and chain links, and the family's upsert and rollback.

use vstd::prelude::*;

use crate::models::BaseAssetInfoUpdate;
use crate::utils::base64_of;
use crate::versioned::{
    entries_view, linked_superseded_by, rollback_versioned, rows_view, spec_rollback, spec_upsert,
    upsert_versioned, ChainOverride, EntryM, VersionedRow, VersionedTable, OPEN_UID,
};

verus! {

/// One persisted version of an asset's metadata.
pub struct AssetUpdate {
    pub block_uid: i64,
    pub uid: i64,
    pub superseded_by: i64,
    pub asset_id: String,
    pub decimals: i16,
    pub name: String,
    pub description: String,
    pub reissuable: bool,
    pub volume: i64,
    pub script: Option<String>,
    pub sponsorship: Option<i64>,
    pub nft: bool,
}

/// Mathematical model of an asset row.
pub ghost struct AssetUpdateM {
    pub block_uid: int,
    pub uid: int,
    pub superseded_by: int,
    pub asset_id: Seq<char>,
    pub decimals: int,
    pub name: Seq<char>,
    pub description: Seq<char>,
    pub reissuable: bool,
    pub volume: int,
    pub script: Option<Seq<char>>,
    pub sponsorship: Option<i64>,
    pub nft: bool,
}

impl View for AssetUpdate {
    type V = AssetUpdateM;

    open spec fn view(&self) -> AssetUpdateM {
        AssetUpdateM {
            block_uid: self.block_uid as int,
            uid: self.uid as int,
            superseded_by: self.superseded_by as int,
            asset_id: self.asset_id@,
            decimals: self.decimals as int,
            name: self.name@,
            description: self.description@,
            reissuable: self.reissuable,
            volume: self.volume as int,
            script: match self.script {
                Some(s) => Some(s@),
                None => None,
            },
            sponsorship: self.sponsorship,
            nft: self.nft,
        }
    }
}

/// The hand-off row of one asset key: the batch uid its previous current
/// row must point at.
pub struct AssetOverride {
    pub superseded_by: i64,
    pub id: String,
}

/// A deleted asset row, as a rollback reports it.
pub struct DeletedAsset {
    pub uid: i64,
    pub id: String,
}

/// The immutable origin record of an asset, written at its first update.
pub struct AssetOrigin {
    pub asset_id: String,
    pub first_asset_update_uid: i64,
    pub origin_transaction_id: String,
    pub issuer: String,
    pub issue_height: i32,
    pub issue_time_stamp: i64,
}

/// Mathematical model of an origin record.
pub ghost struct AssetOriginM {
    pub asset_id: Seq<char>,
    pub first_asset_update_uid: int,
    pub origin_transaction_id: Seq<char>,
    pub issuer: Seq<char>,
    pub issue_height: int,
    pub issue_time_stamp: i64,
}

impl View for AssetOrigin {
    type V = AssetOriginM;

    open spec fn view(&self) -> AssetOriginM {
        AssetOriginM {
            asset_id: self.asset_id@,
            first_asset_update_uid: self.first_asset_update_uid as int,
            origin_transaction_id: self.origin_transaction_id@,
            issuer: self.issuer@,
            issue_height: self.issue_height as int,
            issue_time_stamp: self.issue_time_stamp,
        }
    }
}

impl Clone for AssetOrigin {
    fn clone(&self) -> (r: Self)
        ensures
            r == *self,
    {
        AssetOrigin {
            asset_id: self.asset_id.clone(),
            first_asset_update_uid: self.first_asset_update_uid,
            origin_transaction_id: self.origin_transaction_id.clone(),
            issuer: self.issuer.clone(),
            issue_height: self.issue_height,
            issue_time_stamp: self.issue_time_stamp,
        }
    }
}

/// The model of an origin sequence.
pub open spec fn origins_view(v: Seq<AssetOrigin>) -> Seq<AssetOriginM> {
    v.map_values(|o: AssetOrigin| o@)
}

/// Whether some origin record already claims the key.
pub open spec fn has_origin_key(t: Seq<AssetOriginM>, k: Seq<char>) -> bool {
    exists|i: int| 0 <= i < t.len() && (#[trigger] t[i]).asset_id == k
}

/// Origin keys are written once: no two records share an asset id.
pub open spec fn unique_origin_keys(t: Seq<AssetOriginM>) -> bool {
    forall|i: int, j: int|
        0 <= i < j < t.len() ==> (#[trigger] t[i]).asset_id != (#[trigger] t[j]).asset_id
}

/// The origin store after one conflict-skipping bulk insert: records are
/// taken in order, and one whose key is already present — in the store or
/// earlier in the same batch — is dropped.
pub open spec fn spec_insert_origins(t: Seq<AssetOriginM>, new: Seq<AssetOriginM>) -> Seq<
    AssetOriginM>
    decreases new.len(),
{
    if new.len() == 0 {
        t
    } else {
        let t1 = if has_origin_key(t, new[0].asset_id) {
            t
        } else {
            t.push(new[0])
        };
        spec_insert_origins(t1, new.skip(1))
    }
}

/// A key present before an insert is present after it.
pub proof fn lemma_insert_origins_mono(t: Seq<AssetOriginM>, new: Seq<AssetOriginM>, k: Seq<char>)
    requires
        has_origin_key(t, k),
    ensures
        has_origin_key(spec_insert_origins(t, new), k),
    decreases new.len(),
{
    if new.len() > 0 {
        let t1 = if has_origin_key(t, new[0].asset_id) {
            t
        } else {
            t.push(new[0])
        };
        assert(has_origin_key(t1, k)) by {
            let w = choose|i: int| 0 <= i < t.len() && (#[trigger] t[i]).asset_id == k;
            assert(t1[w].asset_id == k);
        }
        lemma_insert_origins_mono(t1, new.skip(1), k);
    }
}

/// After an insert, every inserted record's key is present.
pub proof fn lemma_insert_origins_has(t: Seq<AssetOriginM>, new: Seq<AssetOriginM>)
    ensures
        forall|q: int|
            0 <= q < new.len() ==> has_origin_key(spec_insert_origins(t, new), (
            #[trigger] new[q]).asset_id),
    decreases new.len(),
{
    if new.len() > 0 {
        let t1 = if has_origin_key(t, new[0].asset_id) {
            t
        } else {
            t.push(new[0])
        };
        assert(has_origin_key(t1, new[0].asset_id)) by {
            if !has_origin_key(t, new[0].asset_id) {
                assert(t1[t.len() as int].asset_id == new[0].asset_id);
            } else {
                let w = choose|i: int|
                    0 <= i < t.len() && (#[trigger] t[i]).asset_id == new[0].asset_id;
                assert(t1[w].asset_id == new[0].asset_id);
            }
        }
        lemma_insert_origins_has(t1, new.skip(1));
        assert forall|q: int| 0 <= q < new.len() implies has_origin_key(
            spec_insert_origins(t, new),
            (#[trigger] new[q]).asset_id,
        ) by {
            if q == 0 {
                lemma_insert_origins_mono(t1, new.skip(1), new[0].asset_id);
            } else {
                assert(new.skip(1)[q - 1] == new[q]);
            }
        }
    }
}

/// Inserting records whose keys are all present changes nothing: the
/// conflict-skipping insert is idempotent.
pub proof fn lemma_insert_origins_skip_all(t: Seq<AssetOriginM>, new: Seq<AssetOriginM>)
    requires
        forall|q: int| 0 <= q < new.len() ==> has_origin_key(t, (#[trigger] new[q]).asset_id),
    ensures
        spec_insert_origins(t, new) == t,
    decreases new.len(),
{
    if new.len() > 0 {
        assert(forall|q: int|
            0 <= q < new.skip(1).len() ==> has_origin_key(t, (#[trigger] new.skip(1)[q]).asset_id));
        lemma_insert_origins_skip_all(t, new.skip(1));
    }
}

/// Whether the store already holds an origin for `key`.
fn origin_key_present(table: &Vec<AssetOrigin>, key: &String) -> (r: bool)
    ensures
        r == has_origin_key(origins_view(table@), key@),
{
    let ghost tv = origins_view(table@);
    let n = table.len();
    let mut i: usize = 0;
    while i < n
        invariant
            n == table@.len(),
            tv == origins_view(table@),
            0 <= i <= n,
            forall|q: int| 0 <= q < i ==> (#[trigger] tv[q]).asset_id != key@,
        decreases n - i,
    {
        if crate::extract::str_eq(table[i].asset_id.as_str(), key.as_str()) {
            proof {
                assert(tv[i as int].asset_id == key@);
            }
            return true;
        }
        i += 1;
    }
    false
}

/// Inserts origin records, dropping any whose asset already has one: the
/// record written at an asset's first update is never overwritten.
pub fn insert_asset_origins(table: &mut Vec<AssetOrigin>, origins: &Vec<AssetOrigin>)
    ensures
        origins_view(final(table)@) == spec_insert_origins(
            origins_view(old(table)@),
            origins_view(origins@),
        ),
        unique_origin_keys(origins_view(old(table)@)) ==> unique_origin_keys(
            origins_view(final(table)@),
        ),
{
    let ghost t0 = origins_view(table@);
    let ghost newv = origins_view(origins@);
    let n = origins.len();
    let mut i: usize = 0;
    proof {
        assert(newv.skip(0) =~= newv);
    }
    while i < n
        invariant
            n == origins@.len(),
            newv == origins_view(origins@),
            0 <= i <= n,
            spec_insert_origins(t0, newv) == spec_insert_origins(
                origins_view(table@),
                newv.skip(i as int),
            ),
            unique_origin_keys(t0) ==> unique_origin_keys(origins_view(table@)),
        decreases n - i,
    {
        let ghost cur = origins_view(table@);
        let ghost rem = newv.skip(i as int);
        proof {
            assert(rem[0] == newv[i as int]);
            assert(rem.skip(1) =~= newv.skip(i + 1));
        }
        let o = &origins[i];
        proof {
            assert(o@ == newv[i as int]);
        }
        if !origin_key_present(table, &o.asset_id) {
            let ghost pre = origins_view(table@);
            table.push(o.clone());
            proof {
                assert(origins_view(table@) =~= pre.push(o@));
                if unique_origin_keys(t0) {
                    assert forall|a: int, b: int|
                        0 <= a < b < origins_view(table@).len() implies (#[trigger] origins_view(
                        table@,
                    )[a]).asset_id != (#[trigger] origins_view(table@)[b]).asset_id by {
                        if b == pre.len() {
                            assert(origins_view(table@)[a] == pre[a]);
                            assert(!has_origin_key(pre, o@.asset_id));
                        } else {
                            assert(origins_view(table@)[a] == pre[a]);
                            assert(origins_view(table@)[b] == pre[b]);
                        }
                    }
                }
            }
        }
        proof {
            assert(spec_insert_origins(cur, rem) == spec_insert_origins(
                origins_view(table@),
                newv.skip(i + 1),
            ));
        }
        i += 1;
    }
    proof {
        assert(newv.skip(n as int) =~= Seq::<AssetOriginM>::empty());
    }
}

/// The chain batch an update list stands for: each update's producing
/// ledger row and its asset id as the natural key.
pub open spec fn asset_entries(us: Seq<(i64, BaseAssetInfoUpdate)>) -> Seq<EntryM> {
    us.map_values(|p: (i64, BaseAssetInfoUpdate)| EntryM { block_uid: p.0 as int, key: p.1.id@ })
}

/// The asset row a batch produces at position `q`, fields included.
pub open spec fn spec_asset_row(next: int, us: Seq<(i64, BaseAssetInfoUpdate)>, q: int) -> AssetUpdateM {
    AssetUpdateM {
        block_uid: us[q].0 as int,
        uid: next + q,
        superseded_by: linked_superseded_by(next, asset_entries(us), q),
        asset_id: us[q].1.id@,
        decimals: us[q].1.precision as int,
        name: us[q].1.name@,
        description: us[q].1.description@,
        reissuable: us[q].1.reissuable,
        volume: us[q].1.quantity as int,
        script: match us[q].1.script {
            Some(s) => Some(base64_of(s@)),
            None => None,
        },
        sponsorship: us[q].1.min_sponsored_fee,
        nft: us[q].1.nft,
    }
}

/// The chain batch of an update list, as concrete key pairs.
pub fn asset_batch_keys(updates: &Vec<(i64, BaseAssetInfoUpdate)>) -> (r: Vec<(i64, String)>)
    ensures
        entries_view(r@) == asset_entries(updates@),
{
    let n = updates.len();
    let mut r: Vec<(i64, String)> = Vec::new();
    let mut i: usize = 0;
    while i < n
        invariant
            n == updates@.len(),
            0 <= i <= n,
            r@.len() == i,
            forall|q: int|
                0 <= q < i ==> #[trigger] entries_view(r@)[q] == asset_entries(updates@)[q],
        decreases n - i,
    {
        let ghost r0 = r@;
        let pair = (updates[i].0, updates[i].1.id.clone());
        r.push(pair);
        proof {
            assert(r@ == r0.push(pair));
            assert forall|q: int| 0 <= q < i + 1 implies #[trigger] entries_view(r@)[q]
                == asset_entries(updates@)[q] by {
                if q < i {
                    assert(entries_view(r@)[q] == entries_view(r0)[q]);
                } else {
                    assert(entries_view(r@)[q] == EntryM {
                        block_uid: pair.0 as int,
                        key: pair.1@,
                    });
                }
            }
        }
        i += 1;
    }
    proof {
        assert(entries_view(r@) =~= asset_entries(updates@));
    }
    r
}


/// Builds the asset rows of one batch: uid assignment in input order,
/// chain links per key, payload fields carried over, scripts encoded to
/// base64 text.
pub fn build_asset_updates(next_uid: i64, updates: &Vec<(i64, BaseAssetInfoUpdate)>) -> (rows: Vec<
    AssetUpdate>)
    requires
        0 <= next_uid,
        next_uid + updates@.len() <= OPEN_UID,
        forall|q: int|
            0 <= q < updates@.len() ==> -0x8000 <= (#[trigger] updates@[q].1).precision < 0x8000,
    ensures
        rows@.len() == updates@.len(),
        forall|q: int|
            0 <= q < rows@.len() ==> (#[trigger] rows@[q])@ == spec_asset_row(
                next_uid as int,
                updates@,
                q,
            ),
{
    let batch = asset_batch_keys(updates);
    proof {
        assert(batch@.len() == entries_view(batch@).len());
        assert(asset_entries(updates@).len() == updates@.len());
    }
    let sb = crate::versioned::chain_superseded_by(next_uid, &batch);
    let n = updates.len();
    let mut rows: Vec<AssetUpdate> = Vec::new();
    let mut i: usize = 0;
    while i < n
        invariant
            n == updates@.len(),
            0 <= next_uid,
            next_uid + n <= OPEN_UID,
            forall|q: int|
                0 <= q < updates@.len() ==> -0x8000 <= (#[trigger] updates@[q].1).precision
                    < 0x8000,
            sb@.len() == n,
            forall|q: int|
                0 <= q < n ==> #[trigger] sb@[q] as int == linked_superseded_by(
                    next_uid as int,
                    asset_entries(updates@),
                    q,
                ),
            0 <= i <= n,
            rows@.len() == i,
            forall|q: int|
                0 <= q < i ==> (#[trigger] rows@[q])@ == spec_asset_row(
                    next_uid as int,
                    updates@,
                    q,
                ),
        decreases n - i,
    {
        let ghost rows0 = rows@;
        let u = &updates[i].1;
        let row = AssetUpdate {
            block_uid: updates[i].0,
            uid: next_uid + i as i64,
            superseded_by: sb[i],
            asset_id: u.id.clone(),
            decimals: u.precision as i16,
            name: u.name.clone(),
            description: u.description.clone(),
            reissuable: u.reissuable,
            volume: u.quantity,
            script: match &u.script {
                Some(sc) => Some(crate::utils::encode_base64(sc.as_slice())),
                None => None,
            },
            sponsorship: u.min_sponsored_fee,
            nft: u.nft,
        };
        proof {
            assert(row@ == spec_asset_row(next_uid as int, updates@, i as int));
        }
        rows.push(row);
        proof {
            assert(rows@ == rows0.push(row));
        }
        i += 1;
    }
    rows
}

/// Builds the family's hand-off list for one batch, typed for the asset
/// store.
pub fn build_asset_overrides(next_uid: i64, updates: &Vec<(i64, BaseAssetInfoUpdate)>) -> (ovs: Vec<
    AssetOverride>)
    requires
        0 <= next_uid,
        next_uid + updates@.len() <= OPEN_UID,
    ensures
        forall|q: int|
            0 <= q < ovs@.len() ==> crate::versioned::batch_has_key(
                asset_entries(updates@),
                (#[trigger] ovs@[q]).id@,
            ) && ovs@[q].superseded_by as int == crate::versioned::handoff_uid(
                next_uid as int,
                asset_entries(updates@),
                ovs@[q].id@,
            ),
{
    let batch = asset_batch_keys(updates);
    proof {
        assert(batch@.len() == entries_view(batch@).len());
        assert(asset_entries(updates@).len() == updates@.len());
    }
    let chain_ovs = crate::versioned::chain_overrides(next_uid, &batch);
    let ghost ovm = crate::versioned::overrides_view(chain_ovs@);
    proof {
        assert(ovm.len() == chain_ovs@.len());
    }
    let n = chain_ovs.len();
    let mut ovs: Vec<AssetOverride> = Vec::new();
    let mut i: usize = 0;
    while i < n
        invariant
            n == chain_ovs@.len(),
            ovm == crate::versioned::overrides_view(chain_ovs@),
            forall|k: Seq<char>| #[trigger] crate::versioned::ov_lookup(ovm, k) == (
            match crate::versioned::find_entry_key(asset_entries(updates@), k, 0) {
                Some(f) => Some(next_uid + f),
                None => None::<int>,
            }),
            forall|p: int, q: int|
                0 <= p < q < ovm.len() ==> (#[trigger] ovm[p]).key != (#[trigger] ovm[q]).key,
            0 <= i <= n,
            ovs@.len() == i,
            forall|q: int|
                0 <= q < i ==> (#[trigger] ovs@[q]).id@ == ovm[q].key && ovs@[q].superseded_by
                    as int == ovm[q].superseded_by,
        decreases n - i,
    {
        let ghost ovs0 = ovs@;
        let o = AssetOverride {
            superseded_by: chain_ovs[i].superseded_by,
            id: chain_ovs[i].key.clone(),
        };
        ovs.push(o);
        proof {
            assert(ovs@ == ovs0.push(o));
            assert(ovm[i as int] == chain_ovs@[i as int]@);
        }
        i += 1;
    }
    proof {
        assert forall|q: int| 0 <= q < ovs@.len() implies crate::versioned::batch_has_key(
            asset_entries(updates@),
            (#[trigger] ovs@[q]).id@,
        ) && ovs@[q].superseded_by as int == crate::versioned::handoff_uid(
            next_uid as int,
            asset_entries(updates@),
            ovs@[q].id@,
        ) by {
            crate::versioned::lemma_find_override(ovm, ovm[q].key, 0);
            match crate::versioned::find_override(ovm, ovm[q].key, 0) {
                Some(j) => {
                    assert(ovm[j].key == ovm[q].key);
                    assert(j == q);
                    assert(crate::versioned::ov_lookup(ovm, ovm[q].key) == Some(
                        ovm[q].superseded_by,
                    ));
                },
                None => {
                    assert(ovm[q].key != ovm[q].key);
                },
            }
        }
    }
    ovs
}

/// One batch of asset-metadata updates against the in-memory store: the
/// whole versioned upsert of the family.  Returns the uids the batch's
/// rows received, or nothing for an empty batch, which changes nothing.
pub fn handle_base_asset_info_updates(
    table: &mut VersionedTable,
    updates: &Vec<(i64, BaseAssetInfoUpdate)>,
) -> (inserted: Option<Vec<i64>>)
    requires
        0 <= old(table).next_uid,
        old(table).next_uid + updates@.len() <= OPEN_UID,
    ensures
        updates@.len() == 0 ==> final(table)@ == old(table)@ && final(table).next_uid == old(
            table,
        ).next_uid && inserted is None,
        updates@.len() > 0 ==> final(table)@ == spec_upsert(
            old(table)@,
            old(table).next_uid as int,
            asset_entries(updates@),
        ) && final(table).next_uid == old(table).next_uid + updates@.len(),
        updates@.len() > 0 ==> match inserted {
            Some(uids) => uids@.len() == updates@.len() && forall|q: int|
                0 <= q < uids@.len() ==> #[trigger] uids@[q] == old(table).next_uid + q,
            None => false,
        },
        (old(table).wf() && crate::laws::batch_extends(old(table)@, asset_entries(updates@)))
            ==> final(table).wf(),
{
    let batch = asset_batch_keys(updates);
    proof {
        assert(batch@.len() == entries_view(batch@).len());
        assert(asset_entries(updates@).len() == updates@.len());
    }
    upsert_versioned(table, &batch)
}

/// Rolls the family back to `block_uid`: deletes the rows of later
/// blocks and reopens the chains they had extended.  Returns what was
/// deleted, keyed for the caller.
pub fn rollback_assets(table: &mut VersionedTable, block_uid: i64) -> (deleted: Vec<DeletedAsset>)
    ensures
        final(table)@ == spec_rollback(old(table)@, block_uid as int),
        final(table).next_uid == old(table).next_uid,
        deleted@.len() == crate::versioned::deleted_rows(old(table)@, block_uid as int).len(),
        forall|q: int|
            0 <= q < deleted@.len() ==> (#[trigger] deleted@[q]).uid as int
                == crate::versioned::deleted_rows(old(table)@, block_uid as int)[q].uid && deleted@[
                q].id@ == crate::versioned::deleted_rows(old(table)@, block_uid as int)[q].key,
{
    let ghost t0 = table@;
    let rows = rollback_versioned(table, block_uid);
    let n = rows.len();
    let mut deleted: Vec<DeletedAsset> = Vec::new();
    let mut i: usize = 0;
    while i < n
        invariant
            n == rows@.len(),
            rows_view(rows@) == crate::versioned::deleted_rows(t0, block_uid as int),
            0 <= i <= n,
            deleted@.len() == i,
            forall|q: int|
                0 <= q < i ==> (#[trigger] deleted@[q]).uid as int == rows_view(rows@)[q].uid
                    && deleted@[q].id@ == rows_view(rows@)[q].key,
        decreases n - i,
    {
        let ghost d0 = deleted@;
        let d = DeletedAsset { uid: rows[i].uid, id: rows[i].key.clone() };
        deleted.push(d);
        proof {
            assert(deleted@ == d0.push(d));
            assert(rows_view(rows@)[i as int] == rows@[i as int]@);
        }
        i += 1;
    }
    deleted
}


/// Builds the origin records of one batch: each update paired with the
/// uid its row received; the store keeps only the first per asset.
pub fn build_asset_origins(uids: &Vec<i64>, updates: &Vec<(i64, BaseAssetInfoUpdate)>) -> (origins:
    Vec<AssetOrigin>)
    requires
        uids@.len() == updates@.len(),
    ensures
        origins@.len() == updates@.len(),
        forall|q: int|
            0 <= q < origins@.len() ==> (#[trigger] origins@[q]).first_asset_update_uid == uids@[q]
                && origins@[q].asset_id@ == updates@[q].1.id@ && origins@[q].origin_transaction_id@
                == updates@[q].1.tx_id@ && origins@[q].issuer@ == updates@[q].1.issuer@
                && origins@[q].issue_height == updates@[q].1.update_height && origins@[
                q].issue_time_stamp == updates@[q].1.updated_at,
{
    let n = updates.len();
    let mut origins: Vec<AssetOrigin> = Vec::new();
    let mut i: usize = 0;
    while i < n
        invariant
            n == updates@.len(),
            uids@.len() == n,
            0 <= i <= n,
            origins@.len() == i,
            forall|q: int|
                0 <= q < i ==> (#[trigger] origins@[q]).first_asset_update_uid == uids@[q]
                    && origins@[q].asset_id@ == updates@[q].1.id@ && origins@[
                    q].origin_transaction_id@ == updates@[q].1.tx_id@ && origins@[q].issuer@
                    == updates@[q].1.issuer@ && origins@[q].issue_height == updates@[
                    q].1.update_height && origins@[q].issue_time_stamp == updates@[q].1.updated_at,
        decreases n - i,
    {
        let u = &updates[i].1;
        let o = AssetOrigin {
            asset_id: u.id.clone(),
            first_asset_update_uid: uids[i],
            origin_transaction_id: u.tx_id.clone(),
            issuer: u.issuer.clone(),
            issue_height: u.update_height,
            issue_time_stamp: u.updated_at,
        };
        let ghost o0 = origins@;
        origins.push(o);
        proof {
            assert(origins@ == o0.push(o));
        }
        i += 1;
    }
    origins
}

} // verus!
