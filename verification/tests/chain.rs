//! The versioned chain on concrete values: upserts link, rollbacks
//! restore.

use data_service_consumer::versioned::{
    chain_overrides, chain_superseded_by, rollback_versioned, upsert_versioned, VersionedTable,
    OPEN_UID,
};

fn batch(entries: &[(i64, &str)]) -> Vec<(i64, String)> {
    entries.iter().map(|(b, k)| (*b, k.to_string())).collect()
}

#[test]
fn upsert_links_one_key_in_order() {
    // three updates of one key in one batch: a single chain, oldest to
    // newest, ending open
    let mut t = VersionedTable::new();
    let uids = upsert_versioned(&mut t, &batch(&[(5, "A"), (5, "A"), (5, "A")])).unwrap();
    assert_eq!(uids, vec![1, 2, 3]);
    assert_eq!(t.rows.len(), 3);
    assert_eq!(t.rows[0].superseded_by, 2);
    assert_eq!(t.rows[1].superseded_by, 3);
    assert_eq!(t.rows[2].superseded_by, OPEN_UID);
    assert_eq!(t.next_uid, 4);
}

#[test]
fn upsert_empty_batch_changes_nothing() {
    let mut t = VersionedTable::new();
    let r = upsert_versioned(&mut t, &Vec::new());
    assert!(r.is_none());
    assert_eq!(t.next_uid, 1);
    assert_eq!(t.rows.len(), 0);
}

#[test]
fn second_batch_closes_previous_open_row() {
    // batch 1 writes uid 100 (open), batch 2 writes uid 101: afterwards
    // 100 points at 101 and 101 is open
    let mut t = VersionedTable::new();
    t.set_next_uid(100);
    upsert_versioned(&mut t, &batch(&[(1, "A")])).unwrap();
    assert_eq!(t.rows[0].uid, 100);
    assert_eq!(t.rows[0].superseded_by, OPEN_UID);
    upsert_versioned(&mut t, &batch(&[(2, "A")])).unwrap();
    assert_eq!(t.rows[0].uid, 100);
    assert_eq!(t.rows[0].superseded_by, 101);
    assert_eq!(t.rows[1].uid, 101);
    assert_eq!(t.rows[1].superseded_by, OPEN_UID);
}

#[test]
fn keys_do_not_disturb_each_other() {
    let mut t = VersionedTable::new();
    upsert_versioned(&mut t, &batch(&[(1, "A"), (1, "B"), (1, "A")])).unwrap();
    // A: uids 1 and 3 chained; B: uid 2 open
    assert_eq!(t.rows[0].superseded_by, 3);
    assert_eq!(t.rows[1].superseded_by, OPEN_UID);
    assert_eq!(t.rows[2].superseded_by, OPEN_UID);
}

#[test]
fn rollback_after_three_heights_keeps_first_row_open() {
    // updates for one asset at three heights, then a rollback to the
    // first: exactly the first row remains, open again
    let mut t = VersionedTable::new();
    upsert_versioned(&mut t, &batch(&[(10, "A")])).unwrap();
    upsert_versioned(&mut t, &batch(&[(11, "A")])).unwrap();
    upsert_versioned(&mut t, &batch(&[(12, "A")])).unwrap();
    assert_eq!(t.rows.len(), 3);
    assert_eq!(t.rows[0].superseded_by, 2);
    let deleted = rollback_versioned(&mut t, 10);
    assert_eq!(deleted.len(), 2);
    assert_eq!(t.rows.len(), 1);
    assert_eq!(t.rows[0].uid, 1);
    assert_eq!(t.rows[0].key, "A");
    assert_eq!(t.rows[0].superseded_by, OPEN_UID);
}

#[test]
fn rollback_restores_the_previous_state_exactly() {
    // a batch applied and rolled back leaves no trace
    let mut t = VersionedTable::new();
    upsert_versioned(&mut t, &batch(&[(1, "A"), (1, "B")])).unwrap();
    let before: Vec<(i64, i64, i64, String)> = t
        .rows
        .iter()
        .map(|r| (r.uid, r.superseded_by, r.block_uid, r.key.clone()))
        .collect();
    upsert_versioned(&mut t, &batch(&[(2, "B"), (2, "A"), (2, "B")])).unwrap();
    assert_eq!(t.rows.len(), 5);
    rollback_versioned(&mut t, 1);
    let after: Vec<(i64, i64, i64, String)> = t
        .rows
        .iter()
        .map(|r| (r.uid, r.superseded_by, r.block_uid, r.key.clone()))
        .collect();
    assert_eq!(before, after);
}

#[test]
fn chain_links_walk_groups_from_the_back() {
    let sb = chain_superseded_by(7, &batch(&[(1, "X"), (1, "Y"), (1, "X")]));
    assert_eq!(sb, vec![7 + 2, OPEN_UID, OPEN_UID]);
}

#[test]
fn overrides_take_first_uid_of_each_key() {
    let ovs = chain_overrides(7, &batch(&[(1, "X"), (1, "Y"), (1, "X")]));
    assert_eq!(ovs.len(), 2);
    assert_eq!(ovs[0].key, "X");
    assert_eq!(ovs[0].superseded_by, 7);
    assert_eq!(ovs[1].key, "Y");
    assert_eq!(ovs[1].superseded_by, 8);
}
