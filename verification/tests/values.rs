//! Small value types: intervals, configuration defaults, commands,
//! per-height uid assignment, rows and errors.

use data_service_consumer::config::{
    default_assets_only, default_max_wait_time_in_msecs, default_poolsize, default_port,
    default_updates_per_request, parse_action, Action,
};
use data_service_consumer::candles::interval_in_seconds;
use data_service_consumer::error::Error;
use data_service_consumer::models::{BaseAssetInfoUpdate, OrderType};
use data_service_consumer::assets::{build_asset_origins, build_asset_updates};
use data_service_consumer::txuid::TxUidGenerator;

#[test]
fn interval_seconds_of_every_supported_name() {
    assert_eq!(interval_in_seconds("1m"), Some(60));
    assert_eq!(interval_in_seconds("5m"), Some(300));
    assert_eq!(interval_in_seconds("15m"), Some(900));
    assert_eq!(interval_in_seconds("30m"), Some(1800));
    assert_eq!(interval_in_seconds("1h"), Some(3600));
    assert_eq!(interval_in_seconds("2h"), Some(7200));
    assert_eq!(interval_in_seconds("3h"), Some(10800));
    assert_eq!(interval_in_seconds("4h"), Some(14400));
    assert_eq!(interval_in_seconds("6h"), Some(21600));
    assert_eq!(interval_in_seconds("12h"), Some(43200));
    assert_eq!(interval_in_seconds("1d"), Some(86400));
    assert_eq!(interval_in_seconds("1w"), None);
    assert_eq!(interval_in_seconds("1M"), None);
}

#[test]
fn defaults_match_the_deployment_conventions() {
    assert_eq!(default_assets_only(), false);
    assert_eq!(default_updates_per_request(), 256);
    assert_eq!(default_max_wait_time_in_msecs(), 5000);
    assert_eq!(default_port(), 5432);
    assert_eq!(default_poolsize(), 1);
}

#[test]
fn migration_commands_parse() {
    assert!(matches!(parse_action(""), Ok(Action::ListPending)));
    assert!(matches!(parse_action("list"), Ok(Action::ListPending)));
    assert!(matches!(parse_action("up"), Ok(Action::MigrateUp)));
    assert!(matches!(parse_action("down"), Ok(Action::MigrateDown)));
    assert!(parse_action("sideways").is_err());
}

#[test]
fn tx_uids_stay_stable_per_height() {
    let mut g = TxUidGenerator::new(100_000);
    g.maybe_update_height(3);
    assert_eq!(g.next(), 300_000);
    assert_eq!(g.next(), 300_001);
    g.maybe_update_height(3);
    assert_eq!(g.next(), 300_002);
    g.maybe_update_height(5);
    assert_eq!(g.next(), 500_000);
    g.maybe_update_height(4);
    assert_eq!(g.next(), 500_001);
}

#[test]
fn order_sides_decode() {
    assert!(matches!(OrderType::from_side(0), OrderType::Buy));
    assert!(matches!(OrderType::from_side(1), OrderType::Sell));
}

#[test]
fn error_messages_carry_their_text() {
    let e = Error::StreamClosed("closed".to_string());
    assert_eq!(e.message(), "closed");
    let e = Error::StreamError("transport".to_string());
    assert_eq!(e.message(), "transport");
    let e = Error::InvalidMessage("empty body".to_string());
    assert_eq!(e.message(), "empty body");
    let e = Error::InconsistDataError("bad".to_string());
    assert_eq!(e.message(), "bad");
}

#[test]
fn built_asset_rows_carry_their_payload() {
    let upd = BaseAssetInfoUpdate {
        id: "ASSET".to_string(),
        issuer: "ISSUER".to_string(),
        precision: 8,
        nft: false,
        updated_at: 7,
        update_height: 3,
        name: "gold".to_string(),
        description: "shiny".to_string(),
        script: Some(b"abc".to_vec()),
        quantity: 100,
        reissuable: true,
        min_sponsored_fee: Some(5),
        tx_id: "t1".to_string(),
    };
    let rows = build_asset_updates(40, &vec![(9, upd)]);
    assert_eq!(rows.len(), 1);
    let r = &rows[0];
    assert_eq!(r.uid, 40);
    assert_eq!(r.block_uid, 9);
    assert_eq!(r.asset_id, "ASSET");
    assert_eq!(r.decimals, 8);
    assert_eq!(r.name, "gold");
    assert_eq!(r.description, "shiny");
    assert_eq!(r.volume, 100);
    assert_eq!(r.script.as_deref(), Some("YWJj"));
    assert_eq!(r.sponsorship, Some(5));
}

#[test]
fn origin_records_pair_updates_with_their_uids() {
    let upd = BaseAssetInfoUpdate {
        id: "ASSET".to_string(),
        issuer: "ISSUER".to_string(),
        precision: 8,
        nft: false,
        updated_at: 7,
        update_height: 3,
        name: "gold".to_string(),
        description: String::new(),
        script: None,
        quantity: 100,
        reissuable: true,
        min_sponsored_fee: None,
        tx_id: "t1".to_string(),
    };
    let origins = build_asset_origins(&vec![40], &vec![(9, upd)]);
    assert_eq!(origins.len(), 1);
    assert_eq!(origins[0].first_asset_update_uid, 40);
    assert_eq!(origins[0].asset_id, "ASSET");
    assert_eq!(origins[0].origin_transaction_id, "t1");
    assert_eq!(origins[0].issuer, "ISSUER");
    assert_eq!(origins[0].issue_height, 3);
    assert_eq!(origins[0].issue_time_stamp, 7);
}
