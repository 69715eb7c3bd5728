//! The ingestion pipeline: one in-memory store holding the ledger and
//! both versioned families, and the per-batch processing — squash,
//! append, versioned upsert, rollback — in classifier order.

use vstd::prelude::*;

use crate::assets::{
    asset_entries, build_asset_origins, handle_base_asset_info_updates, insert_asset_origins,
    origins_view, spec_insert_origins, unique_origin_keys, AssetOrigin, AssetOriginM,
};
use crate::classifier::{classify, flatten_runs, runs_shape, UpdatesItem};
use crate::error::Error;
use crate::extract::{
    base_updates_from, base_views, extract_asset_tickers_updates, extract_base_asset_info_updates,
    tickers_from,
};
use crate::ledger::{
    confirmed_rows, find_ledger_id, first_at_height, ledger_keep, max_height, wf_ledger,
    BlockMicroblock, Ledger, LedgerRowM,
};
use crate::models::{
    AssetTickerUpdate, AssetTickerUpdateM, BaseAssetInfoUpdate, BaseAssetInfoUpdateM,
    BlockMicroblockAppend, BlockchainUpdate, PrevHandledHeight, TxData,
};
use crate::tickers::{handle_asset_tickers_updates, ticker_entries};
use crate::versioned::{
    spec_repoint, spec_rollback, spec_upsert, wf_rows, EntryM, RowM, VersionedTable, OPEN_UID,
};

verus! {

/// The engine's whole state: the ledger and one table per versioned
/// family.
pub struct Store {
    pub ledger: Ledger,
    pub assets: VersionedTable,
    pub tickers: VersionedTable,
    pub asset_origins: Vec<AssetOrigin>,
}

/// Mathematical model of the store.
pub ghost struct StoreM {
    pub ledger: Seq<LedgerRowM>,
    pub ledger_next: int,
    pub assets: Seq<RowM>,
    pub assets_next: int,
    pub tickers: Seq<RowM>,
    pub tickers_next: int,
    pub origins: Seq<AssetOriginM>,
}

impl View for Store {
    type V = StoreM;

    open spec fn view(&self) -> StoreM {
        StoreM {
            ledger: self.ledger@,
            ledger_next: self.ledger.next_uid as int,
            assets: self.assets@,
            assets_next: self.assets.next_uid as int,
            tickers: self.tickers@,
            tickers_next: self.tickers.next_uid as int,
            origins: origins_view(self.asset_origins@),
        }
    }
}

/// Store well-formedness: each part well formed, and every versioned
/// row's block reference names a uid the ledger has already spent.
pub open spec fn store_wf(s: StoreM) -> bool {
    &&& wf_ledger(s.ledger, s.ledger_next)
    &&& wf_rows(s.assets, s.assets_next)
    &&& wf_rows(s.tickers, s.tickers_next)
    &&& forall|i: int|
        0 <= i < s.assets.len() ==> (#[trigger] s.assets[i]).block_uid < s.ledger_next
    &&& forall|i: int|
        0 <= i < s.tickers.len() ==> (#[trigger] s.tickers[i]).block_uid < s.ledger_next
    &&& unique_origin_keys(s.origins)
}

impl Store {
    pub open spec fn wf(&self) -> bool {
        store_wf(self@)
    }

    /// An empty store.
    pub fn new() -> (s: Self)
        ensures
            s.wf(),
            s@.ledger == Seq::<LedgerRowM>::empty(),
            s@.assets == Seq::<RowM>::empty(),
            s@.tickers == Seq::<RowM>::empty(),
            s@.ledger_next == 1,
            s@.assets_next == 1,
            s@.tickers_next == 1,
            s@.origins == Seq::<AssetOriginM>::empty(),
    {
        let s = Store {
            ledger: Ledger::new(),
            assets: VersionedTable::new(),
            tickers: VersionedTable::new(),
            asset_origins: Vec::new(),
        };
        proof {
            assert(s@.origins =~= Seq::<AssetOriginM>::empty());
        }
        s
    }
}

/// A ledger row with a new id where the uid matches: the squash's rename
/// of the key block to the just-closed total block id.
pub open spec fn relabel(t: Seq<LedgerRowM>, uid: int, id: Seq<char>) -> Seq<LedgerRowM> {
    Seq::new(
        t.len(),
        |i: int|
            if t[i].uid == uid {
                LedgerRowM { id: id, ..t[i] }
            } else {
                t[i]
            },
    )
}

/// The squash: when a microblock tail stands, fold it into the last
/// confirmed block — re-point both families' block references, drop the
/// tail rows, and rename the key block to the tail's total id.  With no
/// confirmed block under the tail the state is inconsistent.
pub open spec fn spec_squash(s: StoreM) -> Option<StoreM> {
    if s.ledger.len() == 0 || s.ledger.last().time_stamp is Some {
        Some(s)
    } else if confirmed_rows(s.ledger).len() == 0 {
        None
    } else {
        let key = confirmed_rows(s.ledger).last().uid;
        Some(
            StoreM {
                ledger: relabel(confirmed_rows(s.ledger), key, s.ledger.last().id),
                ledger_next: s.ledger_next,
                assets: spec_repoint(s.assets, key),
                assets_next: s.assets_next,
                tickers: spec_repoint(s.tickers, key),
                tickers_next: s.tickers_next,
                origins: s.origins,
            },
        )
    }
}

/// Folds the microblock tail into the key block, if a tail stands.
pub fn squash_microblocks(store: &mut Store) -> (r: Result<(), Error>)
    requires
        old(store).wf(),
    ensures
        final(store).wf(),
        match r {
            Ok(_) => Some(final(store)@) == spec_squash(old(store)@),
            Err(_) => spec_squash(old(store)@) is None && final(store)@ == old(store)@,
        },
{
    let ghost s0 = store@;
    let total = store.ledger.get_total_block_id();
    match total {
        None => {
            proof {
                if s0.ledger.len() > 0 {
                    assert(s0.ledger[s0.ledger.len() - 1].time_stamp is Some);
                }
            }
            Ok(())
        },
        Some(lmid) => {
            let key = store.ledger.get_key_block_uid();
            match key {
                None => Err(
                    Error::InconsistDataError(
                        String::from_str("no confirmed block under the microblock tail"),
                    ),
                ),
                Some(key_uid) => {
                    store.assets.update_block_references(key_uid);
                    store.tickers.update_block_references(key_uid);
                    store.ledger.delete_microblocks();
                    store.ledger.change_block_id(key_uid, lmid.as_str());
                    proof {
                        crate::versioned::lemma_repoint_wf(s0.assets, key_uid as int, s0.assets_next);
                        crate::versioned::lemma_repoint_wf(
                            s0.tickers,
                            key_uid as int,
                            s0.tickers_next,
                        );
                        assert(store@.ledger =~= relabel(
                            confirmed_rows(s0.ledger),
                            key_uid as int,
                            s0.ledger.last().id,
                        ));
                        assert(Some(store@) == spec_squash(s0));
                        assert forall|i: int| 0 <= i < store@.assets.len() implies (
                        #[trigger] store@.assets[i]).block_uid < store@.ledger_next by {
                            assert(store@.assets[i] == crate::versioned::repoint_row(
                                s0.assets[i],
                                key_uid as int,
                            ));
                        }
                        assert forall|i: int| 0 <= i < store@.tickers.len() implies (
                        #[trigger] store@.tickers[i]).block_uid < store@.ledger_next by {
                            assert(store@.tickers[i] == crate::versioned::repoint_row(
                                s0.tickers[i],
                                key_uid as int,
                            ));
                        }
                    }
                    Ok(())
                },
            }
        },
    }
}

/// The ledger rows a run of appends inserts, uids from `first` on.
pub open spec fn block_rows_of(appends: Seq<BlockMicroblockAppend>, first: int) -> Seq<LedgerRowM> {
    Seq::new(
        appends.len(),
        |q: int|
            LedgerRowM {
                uid: first + q,
                id: appends[q].id@,
                time_stamp: appends[q].time_stamp,
                height: appends[q].height as int,
            },
    )
}

/// The chain entries of extracted asset updates, all referencing one
/// ledger row.
pub open spec fn eob_from(us: Seq<BaseAssetInfoUpdateM>, buid: int, j: int) -> Seq<EntryM>
    decreases us.len() - j when 0 <= j
{
    if j >= us.len() {
        Seq::<EntryM>::empty()
    } else {
        seq![EntryM { block_uid: buid, key: us[j].id }] + eob_from(us, buid, j + 1)
    }
}

/// The asset chain entries of a whole run, in append order.
pub open spec fn abe_from(
    appends: Seq<BlockMicroblockAppend>,
    first: int,
    chain_id: u8,
    now: i64,
    t: int,
) -> Seq<EntryM>
    decreases appends.len() - t when 0 <= t
{
    if t >= appends.len() {
        Seq::<EntryM>::empty()
    } else {
        eob_from(base_updates_from(appends[t].txs@, 0, appends[t].height, chain_id, now), first + t, 0)
            + abe_from(appends, first, chain_id, now, t + 1)
    }
}

/// The chain entries of extracted ticker updates, all referencing one
/// ledger row.
pub open spec fn eot_from(us: Seq<AssetTickerUpdateM>, buid: int, j: int) -> Seq<EntryM>
    decreases us.len() - j when 0 <= j
{
    if j >= us.len() {
        Seq::<EntryM>::empty()
    } else {
        seq![EntryM { block_uid: buid, key: us[j].asset_id }] + eot_from(us, buid, j + 1)
    }
}

/// The ticker updates of one append's transactions, from `t` on.
pub open spec fn append_ticks_from(txs: Seq<TxData>, t: int, storage: Seq<char>) -> Seq<
    AssetTickerUpdateM>
    decreases txs.len() - t when 0 <= t
{
    if t >= txs.len() {
        Seq::<AssetTickerUpdateM>::empty()
    } else {
        tickers_from(txs[t].data_entries@, 0, storage) + append_ticks_from(txs, t + 1, storage)
    }
}

/// The ticker chain entries of a whole run, in append order.
pub open spec fn ate_from(
    appends: Seq<BlockMicroblockAppend>,
    first: int,
    storage: Seq<char>,
    t: int,
) -> Seq<EntryM>
    decreases appends.len() - t when 0 <= t
{
    if t >= appends.len() {
        Seq::<EntryM>::empty()
    } else {
        eot_from(append_ticks_from(appends[t].txs@, 0, storage), first + t, 0) + ate_from(
            appends,
            first,
            storage,
            t + 1,
        )
    }
}

/// A table after one optional upsert: untouched by an empty batch.
pub open spec fn upsert_or_skip(t: Seq<RowM>, next: int, b: Seq<EntryM>) -> Seq<RowM> {
    if b.len() == 0 {
        t
    } else {
        spec_upsert(t, next, b)
    }
}

/// The counter after one optional upsert.
pub open spec fn next_or_skip(next: int, b: Seq<EntryM>) -> int {
    if b.len() == 0 {
        next
    } else {
        next + b.len()
    }
}

/// One run of appends against the whole store: ledger rows inserted in
/// order, the extracted asset updates upserted as one batch, and — when
/// a storage address is watched — the extracted ticker updates likewise.
/// Nothing when a uid counter would leave its space.
/// All asset-metadata updates a run extracts, flattened in append and
/// transaction order: position `q` receives uid `assets_next + q`.
pub open spec fn flat_base_updates(
    appends: Seq<BlockMicroblockAppend>,
    chain_id: u8,
    now: i64,
    t: int,
) -> Seq<BaseAssetInfoUpdateM>
    decreases appends.len() - t when 0 <= t
{
    if t >= appends.len() {
        Seq::<BaseAssetInfoUpdateM>::empty()
    } else {
        base_updates_from(appends[t].txs@, 0, appends[t].height, chain_id, now)
            + flat_base_updates(appends, chain_id, now, t + 1)
    }
}

/// The origin record one extracted update yields, given the uid its row
/// received.
pub open spec fn origin_of(u: BaseAssetInfoUpdateM, uid: int) -> AssetOriginM {
    AssetOriginM {
        asset_id: u.id,
        first_asset_update_uid: uid,
        origin_transaction_id: u.tx_id,
        issuer: u.issuer,
        issue_height: u.update_height,
        issue_time_stamp: u.updated_at as i64,
    }
}

/// The origin records of a whole batch, uids in assignment order.
pub open spec fn origin_records(flat: Seq<BaseAssetInfoUpdateM>, next: int) -> Seq<AssetOriginM> {
    Seq::new(flat.len(), |q: int| origin_of(flat[q], next + q))
}

/// The extracted updates a pairing list carries.
pub open spec fn flat_updates(v: Seq<(i64, BaseAssetInfoUpdate)>) -> Seq<BaseAssetInfoUpdateM> {
    v.map_values(|p: (i64, BaseAssetInfoUpdate)| p.1@)
}

pub open spec fn spec_handle_appends(
    s: StoreM,
    appends: Seq<BlockMicroblockAppend>,
    chain_id: u8,
    storage: Option<Seq<char>>,
    now: i64,
) -> Option<StoreM> {
    let ab = abe_from(appends, s.ledger_next, chain_id, now, 0);
    let tb = match storage {
        Some(st) => ate_from(appends, s.ledger_next, st, 0),
        None => Seq::<EntryM>::empty(),
    };
    let flat = flat_base_updates(appends, chain_id, now, 0);
    if s.ledger_next + appends.len() >= 0x7fff_ffff_ffff_ffff || s.assets_next + ab.len()
        > OPEN_UID as int || s.tickers_next + tb.len() > OPEN_UID as int {
        None
    } else {
        Some(
            StoreM {
                ledger: s.ledger + block_rows_of(appends, s.ledger_next),
                ledger_next: s.ledger_next + appends.len(),
                assets: upsert_or_skip(s.assets, s.assets_next, ab),
                assets_next: next_or_skip(s.assets_next, ab),
                tickers: upsert_or_skip(s.tickers, s.tickers_next, tb),
                tickers_next: next_or_skip(s.tickers_next, tb),
                origins: if flat.len() == 0 {
                    s.origins
                } else {
                    spec_insert_origins(s.origins, origin_records(flat, s.assets_next))
                },
            },
        )
    }
}


/// The storage address an optional parameter stands for.
pub open spec fn opt_str_view(o: Option<&String>) -> Option<Seq<char>> {
    match o {
        Some(st) => Some(st@),
        None => None,
    }
}

/// Every asset entry of one append carries that append's ledger uid.
proof fn lemma_eob_const(us: Seq<BaseAssetInfoUpdateM>, buid: int, j: int)
    requires
        0 <= j <= us.len(),
    ensures
        eob_from(us, buid, j).len() == us.len() - j,
        forall|i: int|
            0 <= i < eob_from(us, buid, j).len() ==> (#[trigger] eob_from(us, buid, j)[i]).block_uid
                == buid && eob_from(us, buid, j)[i].key == us[j + i].id,
    decreases us.len() - j,
{
    if j < us.len() {
        lemma_eob_const(us, buid, j + 1);
    }
}

/// Every ticker entry of one append carries that append's ledger uid.
proof fn lemma_eot_const(us: Seq<AssetTickerUpdateM>, buid: int, j: int)
    requires
        0 <= j <= us.len(),
    ensures
        eot_from(us, buid, j).len() == us.len() - j,
        forall|i: int|
            0 <= i < eot_from(us, buid, j).len() ==> (#[trigger] eot_from(us, buid, j)[i]).block_uid
                == buid && eot_from(us, buid, j)[i].key == us[j + i].asset_id,
    decreases us.len() - j,
{
    if j < us.len() {
        lemma_eot_const(us, buid, j + 1);
    }
}

/// Ticker entries distribute over concatenated update lists.
proof fn lemma_eot_concat(a: Seq<AssetTickerUpdateM>, b: Seq<AssetTickerUpdateM>, buid: int, j: int)
    requires
        0 <= j <= a.len(),
    ensures
        eot_from(a + b, buid, j) == eot_from(a, buid, j) + eot_from(b, buid, 0),
    decreases a.len() - j,
{
    assert((a + b).len() == a.len() + b.len());
    if j < a.len() {
        assert((a + b)[j] == a[j]);
        lemma_eot_concat(a, b, buid, j + 1);
        assert(eot_from(a + b, buid, j) =~= eot_from(a, buid, j) + eot_from(b, buid, 0));
    } else {
        lemma_eot_shift(a, b, buid, 0);
        assert(eot_from(a, buid, j) + eot_from(b, buid, 0) =~= eot_from(b, buid, 0));
    }
}

/// Ticker entries of the tail of a concatenation.
proof fn lemma_eot_shift(a: Seq<AssetTickerUpdateM>, b: Seq<AssetTickerUpdateM>, buid: int, m: int)
    requires
        0 <= m <= b.len(),
    ensures
        eot_from(a + b, buid, a.len() + m) == eot_from(b, buid, m),
    decreases b.len() - m,
{
    assert((a + b).len() == a.len() + b.len());
    if m < b.len() {
        assert((a + b)[a.len() + m] == b[m]);
        lemma_eot_shift(a, b, buid, m + 1);
        assert(eot_from(a + b, buid, a.len() + m) =~= eot_from(b, buid, m));
    }
}

/// The asset entries of a run reference the run's own ledger rows, in
/// append order.
proof fn lemma_abe_bounds(
    appends: Seq<BlockMicroblockAppend>,
    first: int,
    chain_id: u8,
    now: i64,
    t: int,
)
    requires
        0 <= t <= appends.len(),
    ensures
        forall|i: int|
            0 <= i < abe_from(appends, first, chain_id, now, t).len() ==> first + t <= (
            #[trigger] abe_from(appends, first, chain_id, now, t)[i]).block_uid < first
                + appends.len(),
        forall|p: int, q: int|
            0 <= p <= q < abe_from(appends, first, chain_id, now, t).len() ==> (
            #[trigger] abe_from(appends, first, chain_id, now, t)[p]).block_uid <= (
            #[trigger] abe_from(appends, first, chain_id, now, t)[q]).block_uid,
    decreases appends.len() - t,
{
    if t < appends.len() {
        let us = base_updates_from(appends[t].txs@, 0, appends[t].height, chain_id, now);
        let head = eob_from(us, first + t, 0);
        let rest = abe_from(appends, first, chain_id, now, t + 1);
        let whole = abe_from(appends, first, chain_id, now, t);
        lemma_eob_const(us, first + t, 0);
        lemma_abe_bounds(appends, first, chain_id, now, t + 1);
        assert(whole == head + rest);
        assert forall|i: int| 0 <= i < whole.len() implies first + t <= (
        #[trigger] whole[i]).block_uid < first + appends.len() by {
            if i < head.len() {
                assert(whole[i] == head[i]);
            } else {
                assert(whole[i] == rest[i - head.len()]);
            }
        }
        assert forall|p: int, q: int| 0 <= p <= q < whole.len() implies (
        #[trigger] whole[p]).block_uid <= (#[trigger] whole[q]).block_uid by {
            if p < head.len() {
                assert(whole[p] == head[p]);
                if q >= head.len() {
                    assert(whole[q] == rest[q - head.len()]);
                } else {
                    assert(whole[q] == head[q]);
                }
            } else {
                assert(whole[p] == rest[p - head.len()]);
                assert(whole[q] == rest[q - head.len()]);
            }
        }
    }
}

/// The ticker entries of a run reference the run's own ledger rows, in
/// append order.
proof fn lemma_ate_bounds(
    appends: Seq<BlockMicroblockAppend>,
    first: int,
    storage: Seq<char>,
    t: int,
)
    requires
        0 <= t <= appends.len(),
    ensures
        forall|i: int|
            0 <= i < ate_from(appends, first, storage, t).len() ==> first + t <= (
            #[trigger] ate_from(appends, first, storage, t)[i]).block_uid < first + appends.len(),
        forall|p: int, q: int|
            0 <= p <= q < ate_from(appends, first, storage, t).len() ==> (
            #[trigger] ate_from(appends, first, storage, t)[p]).block_uid <= (
            #[trigger] ate_from(appends, first, storage, t)[q]).block_uid,
    decreases appends.len() - t,
{
    if t < appends.len() {
        let us = append_ticks_from(appends[t].txs@, 0, storage);
        let head = eot_from(us, first + t, 0);
        let rest = ate_from(appends, first, storage, t + 1);
        let whole = ate_from(appends, first, storage, t);
        lemma_eot_const(us, first + t, 0);
        lemma_ate_bounds(appends, first, storage, t + 1);
        assert(whole == head + rest);
        assert forall|i: int| 0 <= i < whole.len() implies first + t <= (
        #[trigger] whole[i]).block_uid < first + appends.len() by {
            if i < head.len() {
                assert(whole[i] == head[i]);
            } else {
                assert(whole[i] == rest[i - head.len()]);
            }
        }
        assert forall|p: int, q: int| 0 <= p <= q < whole.len() implies (
        #[trigger] whole[p]).block_uid <= (#[trigger] whole[q]).block_uid by {
            if p < head.len() {
                assert(whole[p] == head[p]);
                if q >= head.len() {
                    assert(whole[q] == rest[q - head.len()]);
                } else {
                    assert(whole[q] == head[q]);
                }
            } else {
                assert(whole[p] == rest[p - head.len()]);
                assert(whole[q] == rest[q - head.len()]);
            }
        }
    }
}

/// Inserts one run of appends: the ledger rows in order, then the asset
/// updates the run's transactions carry, then — when a storage account is
/// watched — its ticker assignments, each family as one chain-linked
/// batch.  Fails, changing nothing, exactly when a uid counter would
/// leave its space.
#[verifier::rlimit(80)]
pub fn handle_appends(
    store: &mut Store,
    chain_id: u8,
    appends: &Vec<BlockMicroblockAppend>,
    asset_storage_address: Option<&String>,
    now: i64,
) -> (r: Result<(), Error>)
    requires
        old(store).wf(),
        forall|p: int, q: int|
            0 <= p <= q < appends@.len() && (#[trigger] appends@[p]).time_stamp is None ==> (
            #[trigger] appends@[q]).time_stamp is None,
        (exists|i: int|
            0 <= i < old(store)@.ledger.len() && (#[trigger] old(store)@.ledger[i]).time_stamp
                is None) ==> forall|q: int|
            0 <= q < appends@.len() ==> (#[trigger] appends@[q]).time_stamp is None,
    ensures
        final(store).wf(),
        match r {
            Ok(_) => Some(final(store)@) == spec_handle_appends(
                old(store)@,
                appends@,
                chain_id,
                opt_str_view(asset_storage_address),
                now,
            ),
            Err(_) => spec_handle_appends(
                old(store)@,
                appends@,
                chain_id,
                opt_str_view(asset_storage_address),
                now,
            ) is None && final(store)@ == old(store)@,
        },
{
    let ghost s0 = store@;
    let ghost stv = opt_str_view(asset_storage_address);
    let first = store.ledger.next_uid;
    let ghost ab = abe_from(appends@, first as int, chain_id, now, 0);
    let ghost tb = match stv {
        Some(st) => ate_from(appends@, first as int, st, 0),
        None => Seq::<EntryM>::empty(),
    };
    let ghost flat0 = flat_base_updates(appends@, chain_id, now, 0);
    let n_app = appends.len();
    if n_app as u64 >= 0x7fff_ffff_ffff_ffffu64 - (first as u64) {
        proof {
            assert(s0.ledger_next + appends@.len() >= 0x7fff_ffff_ffff_ffff);
        }
        return Err(Error::InconsistDataError(String::from_str("ledger uid space exhausted")));
    }
    let mut rows: Vec<BlockMicroblock> = Vec::new();
    let mut all_base: Vec<(i64, BaseAssetInfoUpdate)> = Vec::new();
    let mut all_ticks: Vec<(i64, AssetTickerUpdate)> = Vec::new();
    let mut q: usize = 0;
    while q < n_app
        invariant
            n_app == appends@.len(),
            0 <= first,
            first + n_app < 0x7fff_ffff_ffff_ffff,
            ab == abe_from(appends@, first as int, chain_id, now, 0),
            stv == opt_str_view(asset_storage_address),
            tb == (match stv {
                Some(st) => ate_from(appends@, first as int, st, 0),
                None => Seq::<EntryM>::empty(),
            }),
            0 <= q <= n_app,
            rows@.len() == q,
            forall|w: int|
                0 <= w < q ==> (#[trigger] rows@[w]).id@ == appends@[w].id@ && rows@[w].time_stamp
                    == appends@[w].time_stamp && rows@[w].height == appends@[w].height,
            asset_entries(all_base@) + abe_from(appends@, first as int, chain_id, now, q as int)
                == ab,
            flat0 == flat_base_updates(appends@, chain_id, now, 0),
            flat_updates(all_base@) + flat_base_updates(appends@, chain_id, now, q as int)
                == flat0,
            ticker_entries(all_ticks@) + (match stv {
                Some(st) => ate_from(appends@, first as int, st, q as int),
                None => Seq::<EntryM>::empty(),
            }) == tb,
            stv is None ==> all_ticks@.len() == 0,
        decreases n_app - q,
    {
        let append = &appends[q];
        rows.push(BlockMicroblock::from_append(append));
        let buid = first + q as i64;
        let mut ex = extract_base_asset_info_updates(chain_id, append, now);
        let ghost exm = base_views(ex@);
        proof {
            assert(exm == base_updates_from(append.txs@, 0, append.height, chain_id, now));
            assert(abe_from(appends@, first as int, chain_id, now, q as int) == eob_from(
                exm,
                buid as int,
                0,
            ) + abe_from(appends@, first as int, chain_id, now, q + 1));
            assert(flat_base_updates(appends@, chain_id, now, q as int) == exm
                + flat_base_updates(appends@, chain_id, now, q + 1));
            assert(exm.skip(0) =~= exm);
            assert(flat_updates(all_base@) + exm.skip(0) + flat_base_updates(
                appends@,
                chain_id,
                now,
                q + 1,
            ) =~= flat_updates(all_base@) + flat_base_updates(appends@, chain_id, now, q as int));
        }
        let ghost mut j: int = 0;
        while ex.len() > 0
            invariant
                0 <= j <= exm.len(),
                ex@.len() == exm.len() - j,
                forall|w: int| 0 <= w < ex@.len() ==> (#[trigger] ex@[w])@ == exm[j + w],
                asset_entries(all_base@) + eob_from(exm, buid as int, j) + abe_from(
                    appends@,
                    first as int,
                    chain_id,
                    now,
                    q + 1,
                ) == ab,
                flat0 == flat_base_updates(appends@, chain_id, now, 0),
                flat_updates(all_base@) + exm.skip(j) + flat_base_updates(
                    appends@,
                    chain_id,
                    now,
                    q + 1,
                ) == flat0,
            decreases ex@.len(),
        {
            let ghost base0 = all_base@;
            let u = ex.remove(0);
            proof {
                assert(u@ == exm[j]);
                assert(forall|w: int| 0 <= w < ex@.len() ==> (#[trigger] ex@[w])@ == exm[j + 1 + w]);
            }
            let pair = (buid, u);
            all_base.push(pair);
            proof {
                assert(all_base@ == base0.push(pair));
                assert(asset_entries(all_base@) =~= asset_entries(base0).push(
                    EntryM { block_uid: buid as int, key: exm[j].id },
                ));
                assert(eob_from(exm, buid as int, j) == seq![
                    EntryM { block_uid: buid as int, key: exm[j].id },
                ] + eob_from(exm, buid as int, j + 1));
                assert(asset_entries(all_base@) + eob_from(exm, buid as int, j + 1) =~= (
                asset_entries(base0) + eob_from(exm, buid as int, j)));
                assert(asset_entries(all_base@) + eob_from(exm, buid as int, j + 1) + abe_from(
                    appends@,
                    first as int,
                    chain_id,
                    now,
                    q + 1,
                ) =~= asset_entries(base0) + eob_from(exm, buid as int, j) + abe_from(
                    appends@,
                    first as int,
                    chain_id,
                    now,
                    q + 1,
                ));
                assert(flat_updates(all_base@) =~= flat_updates(base0).push(exm[j]));
                assert(exm.skip(j) =~= seq![exm[j]] + exm.skip(j + 1));
                assert(flat_updates(all_base@) + exm.skip(j + 1) + flat_base_updates(
                    appends@,
                    chain_id,
                    now,
                    q + 1,
                ) =~= flat_updates(base0) + exm.skip(j) + flat_base_updates(
                    appends@,
                    chain_id,
                    now,
                    q + 1,
                ));
            }
            proof {
                j = j + 1;
            }
        }
        proof {
            assert(eob_from(exm, buid as int, j) =~= Seq::<EntryM>::empty());
            assert(asset_entries(all_base@) + abe_from(appends@, first as int, chain_id, now, q + 1)
                =~= asset_entries(all_base@) + eob_from(exm, buid as int, j) + abe_from(
                appends@,
                first as int,
                chain_id,
                now,
                q + 1,
            ));
            assert(exm.skip(j) =~= Seq::<BaseAssetInfoUpdateM>::empty());
            assert(flat_updates(all_base@) + flat_base_updates(appends@, chain_id, now, q + 1)
                =~= flat_updates(all_base@) + exm.skip(j) + flat_base_updates(
                appends@,
                chain_id,
                now,
                q + 1,
            ));
        }
        match asset_storage_address {
            Some(addr) => {
                let ghost st = addr@;
                let ghost atx = append_ticks_from(append.txs@, 0, st);
                proof {
                    assert(ate_from(appends@, first as int, st, q as int) == eot_from(
                        atx,
                        buid as int,
                        0,
                    ) + ate_from(appends@, first as int, st, q + 1));
                }
                let nt = append.txs.len();
                let ghost mut done: Seq<AssetTickerUpdateM> = Seq::empty();
                let mut t: usize = 0;
                proof {
                    assert(eot_from(done, buid as int, 0) =~= Seq::<EntryM>::empty());
                    assert(ticker_entries(all_ticks@) + eot_from(done, buid as int, 0) =~=
                        ticker_entries(all_ticks@));
                }
                while t < nt
                    invariant
                        nt == append.txs@.len(),
                        st == addr@,
                        stv == Some(st),
                        atx == append_ticks_from(append.txs@, 0, st),
                        tb == ate_from(appends@, first as int, st, 0),
                        0 <= t <= nt,
                        done + append_ticks_from(append.txs@, t as int, st) == atx,
                        ticker_entries(all_ticks@) + eot_from(
                            append_ticks_from(append.txs@, t as int, st),
                            buid as int,
                            0,
                        ) + ate_from(appends@, first as int, st, q + 1) == tb,
                    decreases nt - t,
                {
                    let tx = &append.txs[t];
                    let mut tex = extract_asset_tickers_updates(tx, addr.as_str());
                    let ghost texm = crate::extract::ticker_views(tex@);
                    proof {
                        assert(texm == tickers_from(tx.data_entries@, 0, st));
                        assert(append_ticks_from(append.txs@, t as int, st) == texm
                            + append_ticks_from(append.txs@, t + 1, st));
                        lemma_eot_concat(texm, append_ticks_from(append.txs@, t + 1, st), buid as int, 0);
                    }
                    let ghost mut jj: int = 0;
                    while tex.len() > 0
                        invariant
                            0 <= jj <= texm.len(),
                            tex@.len() == texm.len() - jj,
                            forall|w: int|
                                0 <= w < tex@.len() ==> (#[trigger] tex@[w])@ == texm[jj + w],
                            ticker_entries(all_ticks@) + eot_from(texm, buid as int, jj) + eot_from(
                                append_ticks_from(append.txs@, t + 1, st),
                                buid as int,
                                0,
                            ) + ate_from(appends@, first as int, st, q + 1) == tb,
                        decreases tex@.len(),
                    {
                        let ghost ticks0 = all_ticks@;
                        let u = tex.remove(0);
                        proof {
                            assert(u@ == texm[jj]);
                            assert(forall|w: int|
                                0 <= w < tex@.len() ==> (#[trigger] tex@[w])@ == texm[jj + 1 + w]);
                        }
                        let pair = (buid, u);
                        all_ticks.push(pair);
                        proof {
                            assert(all_ticks@ == ticks0.push(pair));
                            assert(ticker_entries(all_ticks@) =~= ticker_entries(ticks0).push(
                                EntryM { block_uid: buid as int, key: texm[jj].asset_id },
                            ));
                            assert(eot_from(texm, buid as int, jj) == seq![
                                EntryM { block_uid: buid as int, key: texm[jj].asset_id },
                            ] + eot_from(texm, buid as int, jj + 1));
                            assert(ticker_entries(all_ticks@) + eot_from(texm, buid as int, jj + 1)
                                + eot_from(
                                append_ticks_from(append.txs@, t + 1, st),
                                buid as int,
                                0,
                            ) + ate_from(appends@, first as int, st, q + 1) =~= ticker_entries(
                                ticks0,
                            ) + eot_from(texm, buid as int, jj) + eot_from(
                                append_ticks_from(append.txs@, t + 1, st),
                                buid as int,
                                0,
                            ) + ate_from(appends@, first as int, st, q + 1));
                        }
                        proof {
                            jj = jj + 1;
                        }
                    }
                    proof {
                        assert(eot_from(texm, buid as int, jj) =~= Seq::<EntryM>::empty());
                        assert(ticker_entries(all_ticks@) + eot_from(
                            append_ticks_from(append.txs@, t + 1, st),
                            buid as int,
                            0,
                        ) + ate_from(appends@, first as int, st, q + 1) =~= ticker_entries(
                            all_ticks@,
                        ) + eot_from(texm, buid as int, jj) + eot_from(
                            append_ticks_from(append.txs@, t + 1, st),
                            buid as int,
                            0,
                        ) + ate_from(appends@, first as int, st, q + 1));
                        done = done + texm;
                    }
                    t += 1;
                }
                proof {
                    assert(append_ticks_from(append.txs@, nt as int, st) =~= Seq::<
                        AssetTickerUpdateM,
                    >::empty());
                    assert(eot_from(append_ticks_from(append.txs@, t as int, st), buid as int, 0)
                        =~= Seq::<EntryM>::empty());
                    assert(ticker_entries(all_ticks@) + ate_from(appends@, first as int, st, q + 1)
                        =~= ticker_entries(all_ticks@) + eot_from(
                        append_ticks_from(append.txs@, t as int, st),
                        buid as int,
                        0,
                    ) + ate_from(appends@, first as int, st, q + 1));
                }
            },
            None => {},
        }
        q += 1;
    }
    proof {
        assert(abe_from(appends@, first as int, chain_id, now, n_app as int) =~= Seq::<
            EntryM,
        >::empty());
        assert(asset_entries(all_base@) =~= asset_entries(all_base@) + abe_from(
            appends@,
            first as int,
            chain_id,
            now,
            n_app as int,
        ));
        assert(asset_entries(all_base@) == ab);
        if stv is Some {
            let st = stv->Some_0;
            assert(ate_from(appends@, first as int, st, n_app as int) =~= Seq::<EntryM>::empty());
            assert(ticker_entries(all_ticks@) =~= ticker_entries(all_ticks@) + ate_from(
                appends@,
                first as int,
                st,
                n_app as int,
            ));
        }
        assert(ticker_entries(all_ticks@) == tb);
        assert(all_base@.len() == ab.len()) by {
            assert(asset_entries(all_base@).len() == all_base@.len());
        }
        assert(all_ticks@.len() == tb.len()) by {
            assert(ticker_entries(all_ticks@).len() == all_ticks@.len());
        }
        assert(flat_base_updates(appends@, chain_id, now, n_app as int) =~= Seq::<
            BaseAssetInfoUpdateM,
        >::empty());
        assert(flat_updates(all_base@) =~= flat_updates(all_base@) + flat_base_updates(
            appends@,
            chain_id,
            now,
            n_app as int,
        ));
        assert(flat_updates(all_base@) == flat0);
        assert(all_base@.len() == flat0.len()) by {
            assert(flat_updates(all_base@).len() == all_base@.len());
        }
    }
    if all_base.len() as u64 > (OPEN_UID - store.assets.next_uid) as u64 {
        proof {
            assert(s0.assets_next + ab.len() > OPEN_UID as int);
        }
        return Err(Error::InconsistDataError(String::from_str("asset uid space exhausted")));
    }
    if all_ticks.len() as u64 > (OPEN_UID - store.tickers.next_uid) as u64 {
        proof {
            assert(s0.tickers_next + tb.len() > OPEN_UID as int);
        }
        return Err(Error::InconsistDataError(String::from_str("ticker uid space exhausted")));
    }
    let _uids = store.ledger.insert_blocks_or_microblocks(&rows);
    proof {
        let brs = block_rows_of(appends@, first as int);
        assert forall|i: int| 0 <= i < store@.ledger.len() implies store@.ledger[i] == (s0.ledger
            + brs)[i] by {
            if i < s0.ledger.len() {
                assert(store@.ledger[i] == s0.ledger[i]);
            } else {
                let w = i - s0.ledger.len();
                assert(store@.ledger[s0.ledger.len() + w] == (LedgerRowM {
                    uid: first + w,
                    id: rows@[w].id@,
                    time_stamp: rows@[w].time_stamp,
                    height: rows@[w].height as int,
                }));
                assert(rows@[w].id@ == appends@[w].id@);
                assert(brs[w] == (LedgerRowM {
                    uid: first + w,
                    id: appends@[w].id@,
                    time_stamp: appends@[w].time_stamp,
                    height: appends@[w].height as int,
                }));
            }
        }
        assert(store@.ledger =~= s0.ledger + brs);
    }
    let inserted = handle_base_asset_info_updates(&mut store.assets, &all_base);
    match inserted {
        Some(uids) => {
            let origs = build_asset_origins(&uids, &all_base);
            proof {
                assert forall|w: int| 0 <= w < origs@.len() implies #[trigger] origins_view(
                    origs@,
                )[w] == origin_records(flat0, s0.assets_next)[w] by {
                    assert(origs@[w]@ == origins_view(origs@)[w]);
                    assert(flat0[w] == flat_updates(all_base@)[w]);
                    assert(flat_updates(all_base@)[w] == all_base@[w].1@);
                    assert(uids@[w] == s0.assets_next + w);
                }
                assert(origins_view(origs@) =~= origin_records(flat0, s0.assets_next));
            }
            insert_asset_origins(&mut store.asset_origins, &origs);
        },
        None => {
            proof {
                assert(flat0.len() == 0);
            }
        },
    }
    match asset_storage_address {
        Some(_) => {
            let _t = handle_asset_tickers_updates(&mut store.tickers, &all_ticks);
        },
        None => {},
    }
    proof {
        lemma_abe_bounds(appends@, first as int, chain_id, now, 0);
        if ab.len() > 0 {
            crate::laws::lemma_upsert_preserves_wf(s0.assets, s0.assets_next, ab);
        }
        if stv is Some && tb.len() > 0 {
            lemma_ate_bounds(appends@, first as int, stv->Some_0, 0);
            crate::laws::lemma_upsert_preserves_wf(s0.tickers, s0.tickers_next, tb);
        }
        assert(store@.assets == upsert_or_skip(s0.assets, s0.assets_next, ab));
        assert(store@.tickers == upsert_or_skip(s0.tickers, s0.tickers_next, tb));
        assert(store@.origins == (if flat0.len() == 0 {
            s0.origins
        } else {
            spec_insert_origins(s0.origins, origin_records(flat0, s0.assets_next))
        }));
        assert forall|i: int| 0 <= i < store@.assets.len() implies (
        #[trigger] store@.assets[i]).block_uid < store@.ledger_next by {
            if ab.len() > 0 {
                if i < s0.assets.len() {
                    assert(store@.assets[i] == crate::versioned::close_row_batch(
                        s0.assets[i],
                        s0.assets_next,
                        ab,
                    ));
                } else {
                    assert(store@.assets[i] == crate::versioned::new_rows(s0.assets_next, ab)[i
                        - s0.assets.len()]);
                }
            }
        }
        assert forall|i: int| 0 <= i < store@.tickers.len() implies (
        #[trigger] store@.tickers[i]).block_uid < store@.ledger_next by {
            if tb.len() > 0 {
                if i < s0.tickers.len() {
                    assert(store@.tickers[i] == crate::versioned::close_row_batch(
                        s0.tickers[i],
                        s0.tickers_next,
                        tb,
                    ));
                } else {
                    assert(store@.tickers[i] == crate::versioned::new_rows(s0.tickers_next, tb)[i
                        - s0.tickers.len()]);
                }
            }
        }
        assert(Some(store@) == spec_handle_appends(s0, appends@, chain_id, stv, now));
    }
    Ok(())
}


/// The store after a rollback to `block_uid`: both families and the
/// ledger lose every row made after it; the cut chains reopen.
pub open spec fn spec_store_rollback(s: StoreM, block_uid: int) -> StoreM {
    StoreM {
        ledger: ledger_keep(s.ledger, block_uid),
        ledger_next: s.ledger_next,
        assets: spec_rollback(s.assets, block_uid),
        assets_next: s.assets_next,
        tickers: spec_rollback(s.tickers, block_uid),
        tickers_next: s.tickers_next,
        origins: s.origins,
    }
}

/// Rolls the whole store back to `block_uid`: every versioned row and
/// ledger row created after it is deleted, and each touched chain is
/// reopened at its surviving tip.
pub fn rollback(store: &mut Store, block_uid: i64)
    requires
        old(store).wf(),
    ensures
        final(store).wf(),
        final(store)@ == spec_store_rollback(old(store)@, block_uid as int),
{
    let ghost s0 = store@;
    let _da = crate::assets::rollback_assets(&mut store.assets, block_uid);
    let _dt = crate::tickers::rollback_asset_tickers(&mut store.tickers, block_uid);
    store.ledger.rollback_blocks_microblocks(block_uid);
    proof {
        crate::laws::lemma_rollback_preserves_wf(s0.assets, s0.assets_next, block_uid as int);
        crate::laws::lemma_rollback_preserves_wf(s0.tickers, s0.tickers_next, block_uid as int);
        crate::laws::lemma_rollback_suffix(s0.assets, block_uid as int);
        crate::laws::lemma_rollback_suffix(s0.tickers, block_uid as int);
        assert forall|i: int| 0 <= i < store@.assets.len() implies (
        #[trigger] store@.assets[i]).block_uid < store@.ledger_next by {
            let sv = crate::versioned::surviving(s0.assets, block_uid as int);
            assert(store@.assets[i] == crate::versioned::rollback_row(
                sv[i],
                crate::versioned::deleted_rows(s0.assets, block_uid as int),
            ));
            assert(sv[i] == s0.assets[i]);
        }
        assert forall|i: int| 0 <= i < store@.tickers.len() implies (
        #[trigger] store@.tickers[i]).block_uid < store@.ledger_next by {
            let sv = crate::versioned::surviving(s0.tickers, block_uid as int);
            assert(store@.tickers[i] == crate::versioned::rollback_row(
                sv[i],
                crate::versioned::deleted_rows(s0.tickers, block_uid as int),
            ));
            assert(sv[i] == s0.tickers[i]);
        }
    }
}

/// Whether decoded events carry what their kind promises: a block its
/// timestamp, a microblock none.
pub open spec fn updates_ts_wf(us: Seq<BlockchainUpdate>) -> bool {
    forall|i: int|
        0 <= i < us.len() ==> match #[trigger] us[i] {
            BlockchainUpdate::Block(b) => b.time_stamp is Some,
            BlockchainUpdate::Microblock(b) => b.time_stamp is None,
            BlockchainUpdate::Rollback(_) => true,
        }
}

/// The same, seen through the classifier's runs.
pub open spec fn runs_ts_wf(rs: Seq<UpdatesItem>) -> bool {
    forall|i: int|
        0 <= i < rs.len() ==> match #[trigger] rs[i] {
            UpdatesItem::Blocks(v) => forall|q: int|
                0 <= q < v@.len() ==> (#[trigger] v@[q]).time_stamp is Some,
            UpdatesItem::Microblock(b) => b.time_stamp is None,
            UpdatesItem::Rollback(_) => true,
        }
}

/// Classification keeps the event-kind discipline: when every event of
/// the flat list carries what its kind promises, so does every run.
pub proof fn lemma_runs_ts_wf(rs: Seq<UpdatesItem>)
    requires
        updates_ts_wf(flatten_runs(rs)),
    ensures
        runs_ts_wf(rs),
    decreases rs.len(),
{
    if rs.len() > 0 {
        let a = flatten_runs(rs.drop_last());
        let b = crate::classifier::run_events(rs.last());
        assert(flatten_runs(rs) == a + b);
        assert forall|i: int| 0 <= i < a.len() implies match #[trigger] a[i] {
            BlockchainUpdate::Block(bb) => bb.time_stamp is Some,
            BlockchainUpdate::Microblock(bb) => bb.time_stamp is None,
            BlockchainUpdate::Rollback(_) => true,
        } by {
            assert(a[i] == flatten_runs(rs)[i]);
        }
        lemma_runs_ts_wf(rs.drop_last());
        assert forall|i: int| 0 <= i < rs.len() implies match #[trigger] rs[i] {
            UpdatesItem::Blocks(v) => forall|q: int|
                0 <= q < v@.len() ==> (#[trigger] v@[q]).time_stamp is Some,
            UpdatesItem::Microblock(bb) => bb.time_stamp is None,
            UpdatesItem::Rollback(_) => true,
        } by {
            if i < rs.len() - 1 {
                assert(rs.drop_last()[i] == rs[i]);
            } else {
                match rs[i] {
                    UpdatesItem::Blocks(v) => {
                        assert forall|q: int| 0 <= q < v@.len() implies (
                        #[trigger] v@[q]).time_stamp is Some by {
                            assert(b[q] == BlockchainUpdate::Block(v@[q]));
                            assert(flatten_runs(rs)[a.len() + q] == b[q]);
                        }
                    },
                    UpdatesItem::Microblock(bb) => {
                        assert(b[0] == BlockchainUpdate::Microblock(bb));
                        assert(flatten_runs(rs)[a.len() as int] == b[0]);
                    },
                    UpdatesItem::Rollback(_) => {},
                }
            }
        }
    }
}

/// One classified run against the store: a block run squashes the
/// microblock tail and inserts its blocks; a microblock is inserted
/// alone; a rollback undoes everything past the named block.
pub open spec fn spec_apply_run(
    s: StoreM,
    run: UpdatesItem,
    chain_id: u8,
    storage: Option<Seq<char>>,
    now: i64,
) -> Option<StoreM> {
    match run {
        UpdatesItem::Blocks(v) => match spec_squash(s) {
            Some(s1) => spec_handle_appends(s1, v@, chain_id, storage, now),
            None => None,
        },
        UpdatesItem::Microblock(b) => spec_handle_appends(s, seq![b], chain_id, storage, now),
        UpdatesItem::Rollback(sig) => match find_ledger_id(s.ledger, sig@, 0) {
            Some(i) => Some(spec_store_rollback(s, s.ledger[i].uid)),
            None => None,
        },
    }
}

/// A whole batch of runs, folded in order; nothing as soon as one run
/// fails.
pub open spec fn spec_apply_runs(
    s: StoreM,
    rs: Seq<UpdatesItem>,
    chain_id: u8,
    storage: Option<Seq<char>>,
    now: i64,
) -> Option<StoreM>
    decreases rs.len(),
{
    if rs.len() == 0 {
        Some(s)
    } else {
        match spec_apply_run(s, rs[0], chain_id, storage, now) {
            Some(s1) => spec_apply_runs(s1, rs.skip(1), chain_id, storage, now),
            None => None,
        }
    }
}

/// Processes one classified batch, run by run, in order.  On an error
/// the remaining runs are not applied; the enclosing transaction is what
/// discards the partial work.
pub fn process_runs(
    store: &mut Store,
    runs: Vec<UpdatesItem>,
    chain_id: u8,
    asset_storage_address: Option<&String>,
    now: i64,
) -> (r: Result<(), Error>)
    requires
        old(store).wf(),
        runs_ts_wf(runs@),
    ensures
        final(store).wf(),
        match r {
            Ok(_) => Some(final(store)@) == spec_apply_runs(
                old(store)@,
                runs@,
                chain_id,
                opt_str_view(asset_storage_address),
                now,
            ),
            Err(_) => spec_apply_runs(
                old(store)@,
                runs@,
                chain_id,
                opt_str_view(asset_storage_address),
                now,
            ) is None,
        },
{
    let ghost s0 = store@;
    let ghost stv = opt_str_view(asset_storage_address);
    let ghost all = runs@;
    let mut rest = runs;
    while rest.len() > 0
        invariant
            store.wf(),
            runs_ts_wf(rest@),
            stv == opt_str_view(asset_storage_address),
            s0 == old(store)@,
            all == runs@,
            spec_apply_runs(s0, all, chain_id, stv, now) == spec_apply_runs(
                store@,
                rest@,
                chain_id,
                stv,
                now,
            ),
        decreases rest@.len(),
    {
        let ghost cur = store@;
        let ghost rest0 = rest@;
        let run = rest.remove(0);
        proof {
            assert(run == rest0[0]);
            assert(rest@ =~= rest0.skip(1));
            assert(runs_ts_wf(rest@)) by {
                assert(forall|i: int| 0 <= i < rest@.len() ==> rest@[i] == rest0[i + 1]);
            }
        }
        match run {
            UpdatesItem::Blocks(v) => {
                match squash_microblocks(store) {
                    Ok(_) => {},
                    Err(e) => {
                        proof {
                            assert(spec_apply_run(cur, rest0[0], chain_id, stv, now) is None);
                            assert(rest0.len() > 0);
                            assert(spec_apply_runs(cur, rest0, chain_id, stv, now) is None);
                            assert(spec_apply_runs(s0, all, chain_id, stv, now) is None);
                        }
                        return Err(e);
                    },
                }
                proof {
                    let sq = store@;
                    assert(Some(sq) == spec_squash(cur));
                    assert forall|i: int| 0 <= i < sq.ledger.len() implies (
                    #[trigger] sq.ledger[i]).time_stamp is Some by {
                        if cur.ledger.len() == 0 || cur.ledger.last().time_stamp is Some {
                            assert(sq == cur);
                            if cur.ledger[i].time_stamp is None {
                                assert(cur.ledger[cur.ledger.len() - 1].time_stamp is None);
                            }
                        } else {
                            crate::ledger::lemma_confirmed_prefix(cur.ledger);
                            let c = confirmed_rows(cur.ledger);
                            assert(sq.ledger[i] == relabel(
                                c,
                                c.last().uid,
                                cur.ledger.last().id,
                            )[i]);
                            assert(c[i] == cur.ledger[i]);
                        }
                    }
                }
                match handle_appends(store, chain_id, &v, asset_storage_address, now) {
                    Ok(_) => {
                        proof {
                            assert(Some(store@) == spec_apply_run(cur, rest0[0], chain_id, stv, now));
                        }
                    },
                    Err(e) => {
                        proof {
                            assert(spec_apply_run(cur, rest0[0], chain_id, stv, now) is None);
                            assert(rest0.len() > 0);
                            assert(spec_apply_runs(cur, rest0, chain_id, stv, now) is None);
                            assert(spec_apply_runs(s0, all, chain_id, stv, now) is None);
                        }
                        return Err(e);
                    },
                }
            },
            UpdatesItem::Microblock(b) => {
                let ghost bv = b;
                let mut one: Vec<BlockMicroblockAppend> = Vec::new();
                one.push(b);
                proof {
                    assert(one@ =~= seq![bv]);
                    assert(bv.time_stamp is None);
                }
                match handle_appends(store, chain_id, &one, asset_storage_address, now) {
                    Ok(_) => {
                        proof {
                            assert(Some(store@) == spec_apply_run(cur, rest0[0], chain_id, stv, now));
                        }
                    },
                    Err(e) => {
                        proof {
                            assert(spec_apply_run(cur, rest0[0], chain_id, stv, now) is None);
                            assert(rest0.len() > 0);
                            assert(spec_apply_runs(cur, rest0, chain_id, stv, now) is None);
                            assert(spec_apply_runs(s0, all, chain_id, stv, now) is None);
                        }
                        return Err(e);
                    },
                }
            },
            UpdatesItem::Rollback(sig) => {
                match store.ledger.get_block_uid(sig.as_str()) {
                    Some(block_uid) => {
                        rollback(store, block_uid);
                        proof {
                            assert(Some(store@) == spec_apply_run(cur, rest0[0], chain_id, stv, now));
                        }
                    },
                    None => {
                        proof {
                            assert(spec_apply_run(cur, rest0[0], chain_id, stv, now) is None);
                        }
                        return Err(
                            Error::InconsistDataError(
                                String::from_str("rollback to an unknown block id"),
                            ),
                        );
                    },
                }
            },
        }
    }
    proof {
        assert(rest@.len() == 0);
        assert(spec_apply_runs(store@, rest@, chain_id, stv, now) == Some(store@));
    }
    Ok(())
}

/// Handles one batch from the feed: classifies it into runs and applies
/// them in order under what should be one persistence transaction.  The
/// runs the contract speaks of are the batch's unique shape-correct
/// classification.
pub fn handle_updates(
    store: &mut Store,
    updates: Vec<BlockchainUpdate>,
    chain_id: u8,
    asset_storage_address: Option<&String>,
    now: i64,
) -> (r: Result<(), Error>)
    requires
        old(store).wf(),
        updates_ts_wf(updates@),
    ensures
        final(store).wf(),
        exists|rs: Seq<UpdatesItem>|
            #[trigger] runs_shape(rs) && flatten_runs(rs) == updates@ && (match r {
                Ok(_) => Some(final(store)@) == spec_apply_runs(
                    old(store)@,
                    rs,
                    chain_id,
                    opt_str_view(asset_storage_address),
                    now,
                ),
                Err(_) => spec_apply_runs(
                    old(store)@,
                    rs,
                    chain_id,
                    opt_str_view(asset_storage_address),
                    now,
                ) is None,
            }),
{
    let ghost us = updates@;
    let runs = classify(updates);
    let ghost rsv = runs@;
    proof {
        lemma_runs_ts_wf(rsv);
    }
    let r = process_runs(store, runs, chain_id, asset_storage_address, now);
    proof {
        assert(runs_shape(rsv) && flatten_runs(rsv) == us);
    }
    r
}

/// Startup recovery: when the ledger holds a row one height below the
/// top, a crash may have left the top height half-ingested — roll back to
/// that row and resume one height above it.  Otherwise start fresh at
/// the configured height.
pub fn prepare_start(store: &mut Store, starting_height: u32) -> (r: Result<u32, Error>)
    requires
        old(store).wf(),
    ensures
        final(store).wf(),
        match r {
            Ok(h) => (match first_at_height(
                old(store)@.ledger,
                max_height(old(store)@.ledger) - 1,
                0,
            ) {
                Some(i) => old(store)@.ledger[i].height >= 0 && h as int == old(
                    store,
                )@.ledger[i].height + 1 && final(store)@ == spec_store_rollback(
                    old(store)@,
                    old(store)@.ledger[i].uid,
                ),
                None => h == starting_height && final(store)@ == old(store)@,
            }),
            Err(_) => (match first_at_height(
                old(store)@.ledger,
                max_height(old(store)@.ledger) - 1,
                0,
            ) {
                Some(i) => old(store)@.ledger[i].height < 0 && final(store)@ == old(store)@,
                None => false,
            }),
        },
{
    match store.ledger.get_prev_handled_height() {
        Some(prev) => {
            if prev.height < 0 {
                return Err(
                    Error::InconsistDataError(String::from_str("negative height in the ledger")),
                );
            }
            rollback(store, prev.uid);
            Ok((prev.height as u32) + 1)
        },
        None => Ok(starting_height),
    }
}


/// Rollback inverts an append at the whole store: for any well-formed
/// state, applying one run of appends and then rolling back to the last
/// block uid the state had spent restores the state exactly — ledger
/// rows, both families' rows, their uids and their reopened chains.
/// The uid counters are not part of the persisted rows and stay
/// advanced, as the sequences do; origin records are write-once and
/// survive a rollback, as the store never deletes them.
pub proof fn lemma_rollback_inverts_appends(
    s: StoreM,
    appends: Seq<BlockMicroblockAppend>,
    chain_id: u8,
    storage: Option<Seq<char>>,
    now: i64,
)
    requires
        store_wf(s),
    ensures
        match spec_handle_appends(s, appends, chain_id, storage, now) {
            Some(s1) => {
                let back = spec_store_rollback(s1, s.ledger_next - 1);
                back.ledger == s.ledger && back.assets == s.assets && back.tickers == s.tickers
            },
            None => true,
        },
{
    let target = s.ledger_next - 1;
    match spec_handle_appends(s, appends, chain_id, storage, now) {
        Some(s1) => {
            let ab = abe_from(appends, s.ledger_next, chain_id, now, 0);
            let tb = match storage {
                Some(st) => ate_from(appends, s.ledger_next, st, 0),
                None => Seq::<EntryM>::empty(),
            };
            let brs = block_rows_of(appends, s.ledger_next);
            crate::ledger::lemma_ledger_keep_concat(s.ledger, brs, target);
            crate::ledger::lemma_all_kept(s.ledger, target);
            assert(forall|j: int| 0 <= j < brs.len() ==> (#[trigger] brs[j]).uid > target);
            crate::ledger::lemma_all_dropped(brs, target);
            assert(s1.ledger == s.ledger + brs);
            assert(ledger_keep(s1.ledger, target) =~= s.ledger);

            lemma_abe_bounds(appends, s.ledger_next, chain_id, now, 0);
            assert(forall|i: int|
                0 <= i < s.assets.len() ==> (#[trigger] s.assets[i]).block_uid <= target);
            if ab.len() == 0 {
                crate::laws::lemma_rollback_noop(s.assets, target);
            } else {
                assert(forall|q: int| 0 <= q < ab.len() ==> (#[trigger] ab[q]).block_uid > target);
                crate::laws::lemma_rollback_inverts_upsert(s.assets, s.assets_next, ab, target);
            }
            assert(spec_rollback(s1.assets, target) == s.assets);

            assert(forall|i: int|
                0 <= i < s.tickers.len() ==> (#[trigger] s.tickers[i]).block_uid <= target);
            if tb.len() == 0 {
                crate::laws::lemma_rollback_noop(s.tickers, target);
            } else {
                lemma_ate_bounds(appends, s.ledger_next, storage->Some_0, 0);
                assert(forall|q: int| 0 <= q < tb.len() ==> (#[trigger] tb[q]).block_uid > target);
                crate::laws::lemma_rollback_inverts_upsert(s.tickers, s.tickers_next, tb, target);
            }
            assert(spec_rollback(s1.tickers, target) == s.tickers);
        },
        None => {},
    }
}

/// Recovery is idempotent at the whole store: committing a run, rolling
/// back to the block before it, and reprocessing the same run from the
/// same counters reaches exactly the state of processing it once.  The
/// origin records written by the first pass stay through the rollback
/// (the store never deletes them) and the reprocessing inserts the same
/// records again, which the conflict-skipping insert drops.
pub proof fn lemma_store_recovery_idempotent(
    s: StoreM,
    appends: Seq<BlockMicroblockAppend>,
    chain_id: u8,
    storage: Option<Seq<char>>,
    now: i64,
)
    requires
        store_wf(s),
    ensures
        match spec_handle_appends(s, appends, chain_id, storage, now) {
            Some(s1) => {
                let back = spec_store_rollback(s1, s.ledger_next - 1);
                spec_handle_appends(
                    StoreM {
                        ledger: back.ledger,
                        ledger_next: s.ledger_next,
                        assets: back.assets,
                        assets_next: s.assets_next,
                        tickers: back.tickers,
                        tickers_next: s.tickers_next,
                        origins: back.origins,
                    },
                    appends,
                    chain_id,
                    storage,
                    now,
                ) == Some(s1)
            },
            None => true,
        },
{
    lemma_rollback_inverts_appends(s, appends, chain_id, storage, now);
    match spec_handle_appends(s, appends, chain_id, storage, now) {
        Some(s1) => {
            let back = spec_store_rollback(s1, s.ledger_next - 1);
            let again = StoreM {
                ledger: back.ledger,
                ledger_next: s.ledger_next,
                assets: back.assets,
                assets_next: s.assets_next,
                tickers: back.tickers,
                tickers_next: s.tickers_next,
                origins: back.origins,
            };
            assert(again.ledger == s.ledger);
            assert(again.assets == s.assets);
            assert(again.tickers == s.tickers);
            assert(again.origins == s1.origins);
            let flat = flat_base_updates(appends, chain_id, now, 0);
            let recs = origin_records(flat, s.assets_next);
            let r2 = spec_handle_appends(again, appends, chain_id, storage, now);
            assert(r2 is Some);
            let s2 = r2->Some_0;
            assert(s2.ledger == s1.ledger);
            assert(s2.ledger_next == s1.ledger_next);
            assert(s2.assets == s1.assets);
            assert(s2.assets_next == s1.assets_next);
            assert(s2.tickers == s1.tickers);
            assert(s2.tickers_next == s1.tickers_next);
            if flat.len() == 0 {
                assert(s2.origins == s1.origins);
            } else {
                assert(s1.origins == spec_insert_origins(s.origins, recs));
                crate::assets::lemma_insert_origins_has(s.origins, recs);
                crate::assets::lemma_insert_origins_skip_all(s1.origins, recs);
                assert(s2.origins == spec_insert_origins(s1.origins, recs));
                assert(s2.origins == s1.origins);
            }
            assert(s2 == s1);
            assert(r2 == Some(s1));
        },
        None => {},
    }
}

} // verus!
