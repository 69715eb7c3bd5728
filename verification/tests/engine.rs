//! The whole engine on concrete event streams: append, squash, rollback,
//! extraction and recovery.

use data_service_consumer::error::Error;
use data_service_consumer::extract::{
    extract_asset_tickers_updates, extract_base_asset_info_updates,
};
use data_service_consumer::models::{
    AssetDetails, AssetStateUpdate, BlockMicroblockAppend, BlockchainUpdate, DataEntryUpdate,
    DataEntryValue, TxData,
};
use data_service_consumer::pipeline::{
    handle_updates, prepare_start, rollback, squash_microblocks, Store,
};
use data_service_consumer::utils::into_base58;
use data_service_consumer::versioned::OPEN_UID;

fn details(asset_id: &[u8], name: &str) -> AssetDetails {
    AssetDetails {
        asset_id: asset_id.to_vec(),
        issuer: vec![9u8; 32],
        name: name.to_string(),
        description: String::new(),
        decimals: 8,
        script: None,
        nft: false,
        reissuable: true,
        sponsorship: 0,
        volume: 1000,
    }
}

fn tx_with_asset(id: &str, asset_id: &[u8], name: &str) -> TxData {
    TxData {
        id: id.to_string(),
        timestamp: Some(1_700_000_000_000),
        assets: vec![AssetStateUpdate { after: Some(details(asset_id, name)) }],
        data_entries: vec![],
    }
}

fn block(id: &str, height: i32, txs: Vec<TxData>) -> BlockchainUpdate {
    BlockchainUpdate::Block(BlockMicroblockAppend {
        id: id.to_string(),
        time_stamp: Some(1_700_000_000_000 + height as i64),
        height,
        updated_waves_amount: None,
        txs,
    })
}

fn micro(id: &str, height: i32, txs: Vec<TxData>) -> BlockchainUpdate {
    BlockchainUpdate::Microblock(BlockMicroblockAppend {
        id: id.to_string(),
        time_stamp: None,
        height,
        updated_waves_amount: None,
        txs,
    })
}

#[test]
fn appended_blocks_become_ledger_rows_and_asset_versions() {
    let mut store = Store::new();
    let updates = vec![
        block("b1", 1, vec![tx_with_asset("t1", b"aaaa", "gold")]),
        block("b2", 2, vec![tx_with_asset("t2", b"aaaa", "gold2")]),
    ];
    handle_updates(&mut store, updates, 87, None, 0).unwrap();
    assert_eq!(store.ledger.rows.len(), 2);
    assert_eq!(store.ledger.rows[0].id, "b1");
    assert_eq!(store.ledger.rows[0].uid, 1);
    assert_eq!(store.assets.rows.len(), 2);
    let key = into_base58(b"aaaa");
    assert_eq!(store.assets.rows[0].key, key);
    assert_eq!(store.assets.rows[0].superseded_by, 2);
    assert_eq!(store.assets.rows[1].superseded_by, OPEN_UID);
    assert_eq!(store.assets.rows[0].block_uid, 1);
    assert_eq!(store.assets.rows[1].block_uid, 2);
}

#[test]
fn a_block_after_microblocks_squashes_the_tail() {
    let mut store = Store::new();
    handle_updates(
        &mut store,
        vec![block("b1", 1, vec![tx_with_asset("t1", b"aaaa", "gold")])],
        87,
        None,
        0,
    )
    .unwrap();
    handle_updates(
        &mut store,
        vec![micro("m1", 1, vec![tx_with_asset("t2", b"bbbb", "iron")])],
        87,
        None,
        0,
    )
    .unwrap();
    assert_eq!(store.ledger.rows.len(), 2);
    assert!(store.ledger.rows[1].time_stamp.is_none());
    assert_eq!(store.assets.rows[1].block_uid, 2);
    // the next confirmed block folds the microblock into the key block
    handle_updates(&mut store, vec![block("b2", 2, vec![])], 87, None, 0).unwrap();
    assert_eq!(store.ledger.rows.len(), 2);
    assert_eq!(store.ledger.rows[0].id, "m1");
    assert_eq!(store.ledger.rows[0].uid, 1);
    assert_eq!(store.ledger.rows[1].id, "b2");
    // the microblock's asset row now references the key block
    assert_eq!(store.assets.rows[1].block_uid, 1);
}

#[test]
fn a_rollback_event_undoes_later_blocks() {
    let mut store = Store::new();
    handle_updates(
        &mut store,
        vec![
            block("b1", 1, vec![tx_with_asset("t1", b"aaaa", "gold")]),
            block("b2", 2, vec![tx_with_asset("t2", b"aaaa", "gold2")]),
        ],
        87,
        None,
        0,
    )
    .unwrap();
    let before: Vec<(i64, i64)> =
        store.assets.rows.iter().map(|r| (r.uid, r.superseded_by)).collect();
    assert_eq!(before, vec![(1, 2), (2, OPEN_UID)]);
    handle_updates(
        &mut store,
        vec![BlockchainUpdate::Rollback("b1".to_string())],
        87,
        None,
        0,
    )
    .unwrap();
    assert_eq!(store.ledger.rows.len(), 1);
    assert_eq!(store.assets.rows.len(), 1);
    assert_eq!(store.assets.rows[0].superseded_by, OPEN_UID);
}

#[test]
fn a_rollback_to_an_unknown_id_fails() {
    let mut store = Store::new();
    handle_updates(&mut store, vec![block("b1", 1, vec![])], 87, None, 0).unwrap();
    let r = handle_updates(
        &mut store,
        vec![BlockchainUpdate::Rollback("nowhere".to_string())],
        87,
        None,
        0,
    );
    assert!(matches!(r, Err(Error::InconsistDataError(_))));
}

#[test]
fn exhausted_uid_space_is_refused() {
    let mut store = Store::new();
    store.assets.next_uid = OPEN_UID;
    let r = handle_updates(
        &mut store,
        vec![block("b1", 1, vec![tx_with_asset("t1", b"aaaa", "gold")])],
        87,
        None,
        0,
    );
    assert!(matches!(r, Err(Error::InconsistDataError(_))));
}

#[test]
fn reprocessing_after_rollback_recovers_the_same_chain() {
    // process a batch, roll it back, process it again: the chain shape
    // and key rows come back the same
    let run = |store: &mut Store| {
        handle_updates(
            store,
            vec![block("b2", 2, vec![tx_with_asset("t2", b"aaaa", "gold2")])],
            87,
            None,
            0,
        )
        .unwrap();
    };
    let mut store = Store::new();
    handle_updates(
        &mut store,
        vec![block("b1", 1, vec![tx_with_asset("t1", b"aaaa", "gold")])],
        87,
        None,
        0,
    )
    .unwrap();
    run(&mut store);
    let once: Vec<(i64, String)> = store
        .assets
        .rows
        .iter()
        .map(|r| (r.superseded_by, r.key.clone()))
        .collect();
    rollback(&mut store, 1);
    run(&mut store);
    let twice: Vec<(i64, String)> = store
        .assets
        .rows
        .iter()
        .map(|r| (r.superseded_by, r.key.clone()))
        .collect();
    // uids differ (the counter is not rolled back) but the chain shape,
    // keys and the open position are identical
    assert_eq!(once.len(), twice.len());
    assert_eq!(once[1].1, twice[1].1);
    assert_eq!(once[1].0, OPEN_UID);
    assert_eq!(twice[1].0, OPEN_UID);
    assert_ne!(once[0].0, OPEN_UID);
    assert_ne!(twice[0].0, OPEN_UID);
}

#[test]
fn recovery_rolls_back_to_one_height_below_the_top() {
    let mut store = Store::new();
    handle_updates(
        &mut store,
        vec![
            block("b1", 10, vec![]),
            block("b2", 11, vec![tx_with_asset("t1", b"aaaa", "gold")]),
        ],
        87,
        None,
        0,
    )
    .unwrap();
    let resumed = prepare_start(&mut store, 5).unwrap();
    assert_eq!(resumed, 11);
    assert_eq!(store.ledger.rows.len(), 1);
    assert_eq!(store.assets.rows.len(), 0);
    // an empty store starts at the configured height
    let mut fresh = Store::new();
    assert_eq!(prepare_start(&mut fresh, 5).unwrap(), 5);
}

#[test]
fn squash_without_a_tail_changes_nothing() {
    let mut store = Store::new();
    handle_updates(&mut store, vec![block("b1", 1, vec![])], 87, None, 0).unwrap();
    squash_microblocks(&mut store).unwrap();
    assert_eq!(store.ledger.rows.len(), 1);
    assert_eq!(store.ledger.rows[0].id, "b1");
}

#[test]
fn extraction_reads_assets_and_skips_the_native_currency() {
    let append = BlockMicroblockAppend {
        id: "b1".to_string(),
        time_stamp: Some(1),
        height: 7,
        updated_waves_amount: None,
        txs: vec![
            tx_with_asset("t1", b"aaaa", "gold"),
            tx_with_asset("t2", b"", "ignored"),
        ],
    };
    let ex = extract_base_asset_info_updates(87, &append, 42);
    assert_eq!(ex.len(), 1);
    assert_eq!(ex[0].id, into_base58(b"aaaa"));
    assert_eq!(ex[0].name, "gold");
    assert_eq!(ex[0].update_height, 7);
    assert_eq!(ex[0].updated_at, 1_700_000_000_000);
    assert_eq!(ex[0].tx_id, "t1");
}

#[test]
fn ticker_extraction_reads_only_the_storage_account() {
    let storage = into_base58(b"storage-account");
    let entry = |addr: &[u8], key: &str, value: Option<DataEntryValue>| DataEntryUpdate {
        address: addr.to_vec(),
        key: key.to_string(),
        value,
    };
    let tx = TxData {
        id: "t1".to_string(),
        timestamp: None,
        assets: vec![],
        data_entries: vec![
            entry(
                b"storage-account",
                "%s%s__assetId2ticker__ABC",
                Some(DataEntryValue::StringValue("GOLD".to_string())),
            ),
            entry(b"storage-account", "%s%s__assetId2ticker__DEF", None),
            entry(
                b"elsewhere",
                "%s%s__assetId2ticker__XYZ",
                Some(DataEntryValue::StringValue("SKIP".to_string())),
            ),
            entry(
                b"storage-account",
                "%s%s__other__XYZ",
                Some(DataEntryValue::StringValue("SKIP".to_string())),
            ),
            entry(
                b"storage-account",
                "%s%s__assetId2ticker__BAD__ID",
                Some(DataEntryValue::StringValue("SKIP".to_string())),
            ),
            entry(
                b"storage-account",
                "%s%s__assetId2ticker__NUM",
                Some(DataEntryValue::IntValue(5)),
            ),
        ],
    };
    let got = extract_asset_tickers_updates(&tx, &storage);
    assert_eq!(got.len(), 2);
    assert_eq!(got[0].asset_id, "ABC");
    assert_eq!(got[0].ticker, "GOLD");
    assert_eq!(got[1].asset_id, "DEF");
    assert_eq!(got[1].ticker, "");
}

#[test]
fn tickers_flow_into_their_own_family() {
    let storage = into_base58(b"storage-account");
    let tx = TxData {
        id: "t1".to_string(),
        timestamp: Some(1),
        assets: vec![],
        data_entries: vec![DataEntryUpdate {
            address: b"storage-account".to_vec(),
            key: "%s%s__assetId2ticker__ABC".to_string(),
            value: Some(DataEntryValue::StringValue("GOLD".to_string())),
        }],
    };
    let mut store = Store::new();
    handle_updates(&mut store, vec![block("b1", 1, vec![tx])], 87, Some(&storage), 0).unwrap();
    assert_eq!(store.tickers.rows.len(), 1);
    assert_eq!(store.tickers.rows[0].key, "ABC");
    assert_eq!(store.tickers.rows[0].superseded_by, OPEN_UID);
}

#[test]
fn recovery_picks_the_oldest_row_one_below_the_top() {
    // a block and its microblock share a height: the recovery point is
    // the oldest (lowest-uid) row at that height
    let mut store = Store::new();
    handle_updates(&mut store, vec![block("b1", 10, vec![])], 87, None, 0).unwrap();
    handle_updates(&mut store, vec![micro("m1", 10, vec![])], 87, None, 0).unwrap();
    handle_updates(&mut store, vec![block("b2", 11, vec![])], 87, None, 0).unwrap();
    // rows now: b1 (uid 1, h10), m1 renamed... after squash: key block uid 1 at h10, b2 uid 3 at h11
    let prev = store.ledger.get_prev_handled_height().unwrap();
    assert_eq!(prev.height, 10);
    assert_eq!(prev.uid, 1);
}

#[test]
fn origin_records_are_written_once_per_asset() {
    let mut store = Store::new();
    handle_updates(
        &mut store,
        vec![block(
            "b1",
            1,
            vec![
                tx_with_asset("t1", b"aaaa", "gold"),
                tx_with_asset("t2", b"aaaa", "gold2"),
            ],
        )],
        87,
        None,
        0,
    )
    .unwrap();
    // two versions of one asset: one origin, at the first version's uid
    assert_eq!(store.assets.rows.len(), 2);
    assert_eq!(store.asset_origins.len(), 1);
    assert_eq!(store.asset_origins[0].asset_id, into_base58(b"aaaa"));
    assert_eq!(store.asset_origins[0].first_asset_update_uid, 1);
    assert_eq!(store.asset_origins[0].origin_transaction_id, "t1");
    assert_eq!(store.asset_origins[0].issue_height, 1);
    // a later batch for the same asset does not rewrite the origin
    handle_updates(
        &mut store,
        vec![block("b2", 2, vec![tx_with_asset("t3", b"aaaa", "gold3")])],
        87,
        None,
        0,
    )
    .unwrap();
    assert_eq!(store.asset_origins.len(), 1);
    assert_eq!(store.asset_origins[0].first_asset_update_uid, 1);
    // a new asset gets its own origin
    handle_updates(
        &mut store,
        vec![block("b3", 3, vec![tx_with_asset("t4", b"bbbb", "iron")])],
        87,
        None,
        0,
    )
    .unwrap();
    assert_eq!(store.asset_origins.len(), 2);
    assert_eq!(store.asset_origins[1].asset_id, into_base58(b"bbbb"));
    assert_eq!(store.asset_origins[1].origin_transaction_id, "t4");
}

#[test]
fn origins_survive_a_rollback() {
    let mut store = Store::new();
    handle_updates(
        &mut store,
        vec![block("b1", 1, vec![tx_with_asset("t1", b"aaaa", "gold")])],
        87,
        None,
        0,
    )
    .unwrap();
    handle_updates(
        &mut store,
        vec![block("b2", 2, vec![tx_with_asset("t2", b"bbbb", "iron")])],
        87,
        None,
        0,
    )
    .unwrap();
    assert_eq!(store.asset_origins.len(), 2);
    handle_updates(
        &mut store,
        vec![BlockchainUpdate::Rollback("b1".to_string())],
        87,
        None,
        0,
    )
    .unwrap();
    // the versioned rows of b2 are gone; the origin records stay
    assert_eq!(store.assets.rows.len(), 1);
    assert_eq!(store.asset_origins.len(), 2);
}
