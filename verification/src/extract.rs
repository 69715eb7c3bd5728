//! Entity-update extraction: reads the decoded transactions of an
//! appended block and produces the asset-metadata and ticker updates the
//! versioned store must ingest, in transaction order.

use vstd::prelude::*;

use crate::models::{
    AssetDetails, AssetStateUpdate, AssetTickerUpdate, AssetTickerUpdateM, BaseAssetInfoUpdate,
    BaseAssetInfoUpdateM, BlockMicroblockAppend, DataEntryUpdate, DataEntryValue, TxData,
};
use crate::utils::{base58_of, escape_unicode_null, into_base58, spec_escape_nul};
use crate::waves::{
    extract_asset_id, spec_address_of_public_key, spec_extract_asset_id, waves_id_chars, Address,
};

verus! {

/// Whether `s` begins with the characters of `p`.
pub open spec fn spec_starts_with(s: Seq<char>, p: Seq<char>) -> bool {
    s.len() >= p.len() && s.take(p.len() as int) == p
}

/// Compares two texts character by character.
pub fn str_eq(a: &str, b: &str) -> (r: bool)
    ensures
        r == (a@ == b@),
{
    let na = a.unicode_len();
    let nb = b.unicode_len();
    if na != nb {
        proof {
            assert(a@ != b@);
        }
        return false;
    }
    let mut i: usize = 0;
    while i < na
        invariant
            na == a@.len(),
            na == b@.len(),
            0 <= i <= na,
            forall|q: int| 0 <= q < i ==> a@[q] == b@[q],
        decreases na - i,
    {
        if a.get_char(i) != b.get_char(i) {
            return false;
        }
        i += 1;
    }
    proof {
        assert(a@ =~= b@);
    }
    true
}

/// Whether the text begins with the given prefix.
pub fn str_starts_with(s: &str, p: &str) -> (r: bool)
    ensures
        r == spec_starts_with(s@, p@),
{
    let ns = s.unicode_len();
    let np = p.unicode_len();
    if ns < np {
        return false;
    }
    let mut i: usize = 0;
    while i < np
        invariant
            ns == s@.len(),
            np == p@.len(),
            np <= ns,
            0 <= i <= np,
            forall|q: int| 0 <= q < i ==> s@[q] == p@[q],
        decreases np - i,
    {
        if s.get_char(i) != p.get_char(i) {
            proof {
                assert(s@.take(np as int)[i as int] != p@[i as int]);
            }
            return false;
        }
        i += 1;
    }
    proof {
        assert(s@.take(np as int) =~= p@);
    }
    true
}

/// Whether two consecutive underscores occur at or after `from`.
pub open spec fn has_sep(s: Seq<char>, from: int) -> bool
    decreases s.len() - from when 0 <= from
{
    if from + 1 >= s.len() {
        false
    } else if s[from] == '_' && s[from + 1] == '_' {
        true
    } else {
        has_sep(s, from + 1)
    }
}

/// Scans the text for a double underscore.
pub fn contains_sep(s: &str) -> (r: bool)
    ensures
        r == has_sep(s@, 0),
{
    let n = s.unicode_len();
    if n < 2 {
        return false;
    }
    let mut i: usize = 0;
    while i + 1 < n
        invariant
            n == s@.len(),
            2 <= n,
            0 <= i,
            i + 1 <= n,
            has_sep(s@, 0) == has_sep(s@, i as int),
        decreases n - i,
    {
        if s.get_char(i) == '_' && s.get_char(i + 1) == '_' {
            return true;
        }
        i += 1;
    }
    false
}

/// The asset-metadata update extracted from one surviving asset entry of
/// a transaction.
pub open spec fn conv_asset(
    tx: TxData,
    d: AssetDetails,
    height: i32,
    chain_id: u8,
    now: i64,
) -> BaseAssetInfoUpdateM {
    BaseAssetInfoUpdateM {
        id: spec_extract_asset_id(d.asset_id@),
        issuer: spec_address_of_public_key(d.issuer@, chain_id),
        precision: d.decimals as int,
        nft: d.nft,
        updated_at: match tx.timestamp {
            Some(t) => t as int,
            None => now as int,
        },
        update_height: height as int,
        name: spec_escape_nul(d.name@),
        description: spec_escape_nul(d.description@),
        script: match d.script {
            Some(s) => Some(s@),
            None => None,
        },
        quantity: d.volume as int,
        reissuable: d.reissuable,
        min_sponsored_fee: if d.sponsorship > 0 {
            Some(d.sponsorship)
        } else {
            None
        },
        tx_id: tx.id@,
    }
}

/// The asset-metadata updates of one transaction, from entry `j` on:
/// entries whose asset still exists and is not the native currency.
pub open spec fn tx_base_updates_from(
    tx: TxData,
    j: int,
    height: i32,
    chain_id: u8,
    now: i64,
) -> Seq<BaseAssetInfoUpdateM>
    decreases tx.assets@.len() - j when 0 <= j
{
    if j >= tx.assets@.len() {
        Seq::<BaseAssetInfoUpdateM>::empty()
    } else {
        let rest = tx_base_updates_from(tx, j + 1, height, chain_id, now);
        match tx.assets@[j].after {
            Some(d) => if spec_extract_asset_id(d.asset_id@) != waves_id_chars() {
                seq![conv_asset(tx, d, height, chain_id, now)] + rest
            } else {
                rest
            },
            None => rest,
        }
    }
}

/// The asset-metadata updates of a block's transactions, from `t` on.
pub open spec fn base_updates_from(
    txs: Seq<TxData>,
    t: int,
    height: i32,
    chain_id: u8,
    now: i64,
) -> Seq<BaseAssetInfoUpdateM>
    decreases txs.len() - t when 0 <= t
{
    if t >= txs.len() {
        Seq::<BaseAssetInfoUpdateM>::empty()
    } else {
        tx_base_updates_from(txs[t], 0, height, chain_id, now) + base_updates_from(
            txs,
            t + 1,
            height,
            chain_id,
            now,
        )
    }
}

/// The models of extracted updates.
pub open spec fn base_views(v: Seq<BaseAssetInfoUpdate>) -> Seq<BaseAssetInfoUpdateM> {
    v.map_values(|x: BaseAssetInfoUpdate| x@)
}

/// Copies a byte vector.
fn clone_bytes(v: &Vec<u8>) -> (r: Vec<u8>)
    ensures
        r@ == v@,
{
    let n = v.len();
    let mut r: Vec<u8> = Vec::new();
    let mut i: usize = 0;
    while i < n
        invariant
            n == v@.len(),
            0 <= i <= n,
            r@ == v@.take(i as int),
        decreases n - i,
    {
        r.push(v[i]);
        proof {
            assert(r@ =~= v@.take(i + 1));
        }
        i += 1;
    }
    proof {
        assert(v@.take(n as int) =~= v@);
    }
    r
}

/// Extracts the asset-metadata updates of one appended block or
/// microblock, in transaction order.  A transaction without its own
/// timestamp is stamped `now`.
pub fn extract_base_asset_info_updates(
    chain_id: u8,
    append: &BlockMicroblockAppend,
    now: i64,
) -> (r: Vec<BaseAssetInfoUpdate>)
    ensures
        base_views(r@) == base_updates_from(append.txs@, 0, append.height, chain_id, now),
{
    let ghost txs = append.txs@;
    let height = append.height;
    let nt = append.txs.len();
    let mut out: Vec<BaseAssetInfoUpdate> = Vec::new();
    let mut t: usize = 0;
    while t < nt
        invariant
            nt == txs.len(),
            txs == append.txs@,
            height == append.height,
            0 <= t <= nt,
            base_updates_from(txs, 0, height, chain_id, now) == base_views(out@)
                + base_updates_from(txs, t as int, height, chain_id, now),
        decreases nt - t,
    {
        let tx = &append.txs[t];
        let na = tx.assets.len();
        let mut j: usize = 0;
        while j < na
            invariant
                nt == txs.len(),
                txs == append.txs@,
                height == append.height,
                t < nt,
                tx == &txs[t as int],
                na == tx.assets@.len(),
                0 <= j <= na,
                base_updates_from(txs, 0, height, chain_id, now) == base_views(out@)
                    + tx_base_updates_from(txs[t as int], j as int, height, chain_id, now)
                    + base_updates_from(txs, t + 1, height, chain_id, now),
            decreases na - j,
        {
            let ghost out0 = out@;
            match &tx.assets[j].after {
                Some(d) => {
                    let asset_id = extract_asset_id(d.asset_id.as_slice());
                    let w = String::from_str(crate::waves::WAVES_ID);
                    proof {
                        reveal_strlit("WAVES");
                        assert(w@ =~= waves_id_chars());
                    }
                    if !(asset_id == w) {
                        let upd = BaseAssetInfoUpdate {
                            id: asset_id,
                            issuer: Address::from_public_key(d.issuer.as_slice(), chain_id)
                                .into_text(),
                            precision: d.decimals,
                            nft: d.nft,
                            updated_at: match tx.timestamp {
                                Some(ts) => ts,
                                None => now,
                            },
                            update_height: height,
                            name: escape_unicode_null(d.name.as_str()),
                            description: escape_unicode_null(d.description.as_str()),
                            script: match &d.script {
                                Some(sc) => Some(clone_bytes(sc)),
                                None => None,
                            },
                            quantity: d.volume,
                            reissuable: d.reissuable,
                            min_sponsored_fee: if d.sponsorship > 0 {
                                Some(d.sponsorship)
                            } else {
                                None
                            },
                            tx_id: tx.id.clone(),
                        };
                        proof {
                            assert(upd@ == conv_asset(
                                txs[t as int],
                                txs[t as int].assets@[j as int].after->Some_0,
                                height,
                                chain_id,
                                now,
                            ));
                        }
                        out.push(upd);
                        proof {
                            assert(base_views(out@) =~= base_views(out0).push(upd@));
                            assert(base_views(out0).push(upd@) =~= base_views(out0) + seq![upd@]);
                        }
                    }
                },
                None => {},
            }
            proof {
                assert(tx_base_updates_from(txs[t as int], j as int, height, chain_id, now) == (
                match txs[t as int].assets@[j as int].after {
                    Some(d) => if spec_extract_asset_id(d.asset_id@) != waves_id_chars() {
                        seq![conv_asset(txs[t as int], d, height, chain_id, now)]
                            + tx_base_updates_from(txs[t as int], j + 1, height, chain_id, now)
                    } else {
                        tx_base_updates_from(txs[t as int], j + 1, height, chain_id, now)
                    },
                    None => tx_base_updates_from(txs[t as int], j + 1, height, chain_id, now),
                }));
                assert(base_updates_from(txs, 0, height, chain_id, now) =~= base_views(out@)
                    + tx_base_updates_from(txs[t as int], j + 1, height, chain_id, now)
                    + base_updates_from(txs, t + 1, height, chain_id, now));
            }
            j += 1;
        }
        t += 1;
    }
    proof {
        assert(base_updates_from(txs, nt as int, height, chain_id, now)
            == Seq::<BaseAssetInfoUpdateM>::empty());
        assert(base_views(out@) + Seq::<BaseAssetInfoUpdateM>::empty() =~= base_views(out@));
    }
    out
}


/// The data-entry key prefix that carries ticker assignments.
pub open spec fn ticker_prefix() -> Seq<char> {
    "%s%s__assetId2ticker__"@
}

/// Whether a data entry assigns a ticker that the storage account owns:
/// it sits at the storage address, its key carries the ticker prefix,
/// the asset id after the prefix is a single fragment, and its value is
/// either a text or a deletion.
pub open spec fn keep_entry(e: DataEntryUpdate, storage: Seq<char>) -> bool {
    &&& base58_of(e.address@) == storage
    &&& spec_starts_with(e.key@, ticker_prefix())
    &&& !has_sep(e.key@.skip(ticker_prefix().len() as int), 0)
    &&& match e.value {
        None => true,
        Some(DataEntryValue::StringValue(_)) => true,
        Some(_) => false,
    }
}

/// The ticker update a kept entry stands for: the asset id written in
/// the key, and the assigned ticker — empty when the key was deleted.
pub open spec fn conv_ticker(e: DataEntryUpdate) -> AssetTickerUpdateM {
    AssetTickerUpdateM {
        asset_id: e.key@.skip(ticker_prefix().len() as int),
        ticker: match e.value {
            Some(DataEntryValue::StringValue(v)) => v@,
            _ => Seq::<char>::empty(),
        },
    }
}

/// The ticker updates among the data entries, from `j` on.
pub open spec fn tickers_from(
    entries: Seq<DataEntryUpdate>,
    j: int,
    storage: Seq<char>,
) -> Seq<AssetTickerUpdateM>
    decreases entries.len() - j when 0 <= j
{
    if j >= entries.len() {
        Seq::<AssetTickerUpdateM>::empty()
    } else {
        let rest = tickers_from(entries, j + 1, storage);
        if keep_entry(entries[j], storage) {
            seq![conv_ticker(entries[j])] + rest
        } else {
            rest
        }
    }
}

/// The models of extracted ticker updates.
pub open spec fn ticker_views(v: Seq<AssetTickerUpdate>) -> Seq<AssetTickerUpdateM> {
    v.map_values(|x: AssetTickerUpdate| x@)
}

/// Extracts the ticker assignments one transaction makes in the storage
/// account's data, in entry order.
pub fn extract_asset_tickers_updates(tx: &TxData, asset_storage_address: &str) -> (r: Vec<
    AssetTickerUpdate>)
    ensures
        ticker_views(r@) == tickers_from(tx.data_entries@, 0, asset_storage_address@),
{
    let ghost entries = tx.data_entries@;
    let ghost storage = asset_storage_address@;
    let n = tx.data_entries.len();
    let mut out: Vec<AssetTickerUpdate> = Vec::new();
    let mut j: usize = 0;
    while j < n
        invariant
            n == entries.len(),
            entries == tx.data_entries@,
            storage == asset_storage_address@,
            0 <= j <= n,
            tickers_from(entries, 0, storage) == ticker_views(out@) + tickers_from(
                entries,
                j as int,
                storage,
            ),
        decreases n - j,
    {
        let ghost out0 = out@;
        let e = &tx.data_entries[j];
        let addr58 = into_base58(e.address.as_slice());
        let mut kept = false;
        if str_eq(addr58.as_str(), asset_storage_address) {
            if str_starts_with(e.key.as_str(), "%s%s__assetId2ticker__") {
                let ticker: Option<String> = match &e.value {
                    None => Some(String::new()),
                    Some(DataEntryValue::StringValue(v)) => Some(v.clone()),
                    Some(_) => None,
                };
                match ticker {
                    Some(tick) => {
                        let nk = e.key.unicode_len();
                        proof {
                            reveal_strlit("%s%s__assetId2ticker__");
                            assert(ticker_prefix().len() == 22);
                        }
                        let rest = e.key.substring_char(22, nk);
                        proof {
                            assert(rest@ =~= e.key@.skip(22));
                        }
                        if !contains_sep(rest) {
                            let upd = AssetTickerUpdate {
                                asset_id: String::from_str(rest),
                                ticker: tick,
                            };
                            proof {
                                assert(keep_entry(entries[j as int], storage));
                                assert(upd@ == conv_ticker(entries[j as int]));
                            }
                            out.push(upd);
                            kept = true;
                            proof {
                                assert(ticker_views(out@) =~= ticker_views(out0).push(upd@));
                                assert(ticker_views(out0).push(upd@) =~= ticker_views(out0)
                                    + seq![upd@]);
                            }
                        }
                    },
                    None => {},
                }
            }
        }
        proof {
            if !kept {
                assert(!keep_entry(entries[j as int], storage)) by {
                    reveal_strlit("%s%s__assetId2ticker__");
                }
            }
            assert(tickers_from(entries, 0, storage) =~= ticker_views(out@) + tickers_from(
                entries,
                j + 1,
                storage,
            ));
        }
        j += 1;
    }
    proof {
        assert(ticker_views(out@) + Seq::<AssetTickerUpdateM>::empty() =~= ticker_views(out@));
    }
    out
}

} // verus!
