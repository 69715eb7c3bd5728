//! Batcher flush policy and classifier order on concrete event lists.

use data_service_consumer::batcher::BatchAccumulator;
use data_service_consumer::classifier::{classify, UpdatesItem};
use data_service_consumer::models::{BlockMicroblockAppend, BlockchainUpdate};

fn block(id: &str, height: i32) -> BlockchainUpdate {
    BlockchainUpdate::Block(BlockMicroblockAppend {
        id: id.to_string(),
        time_stamp: Some(1000 + height as i64),
        height,
        updated_waves_amount: None,
        txs: vec![],
    })
}

fn micro(id: &str, height: i32) -> BlockchainUpdate {
    BlockchainUpdate::Microblock(BlockMicroblockAppend {
        id: id.to_string(),
        time_stamp: None,
        height,
        updated_waves_amount: None,
        txs: vec![],
    })
}

fn event_id(u: &BlockchainUpdate) -> String {
    match u {
        BlockchainUpdate::Block(b) => b.id.clone(),
        BlockchainUpdate::Microblock(b) => b.id.clone(),
        BlockchainUpdate::Rollback(s) => s.clone(),
    }
}

#[test]
fn three_blocks_flush_without_a_microblock() {
    let mut acc = BatchAccumulator::new(1);
    assert!(acc.accept(block("b1", 1), 1, 3, false).is_none());
    assert!(acc.accept(block("b2", 2), 2, 3, false).is_none());
    let flushed = acc.accept(block("b3", 3), 3, 3, false);
    let batch = flushed.expect("a full batch must flush");
    assert_eq!(batch.last_height, 3);
    assert_eq!(batch.updates.len(), 3);
    assert_eq!(acc.pending.len(), 0);
}

#[test]
fn a_single_microblock_flushes_immediately() {
    let mut acc = BatchAccumulator::new(1);
    let flushed = acc.accept(micro("m1", 1), 1, 3, false);
    let batch = flushed.expect("a microblock must flush at once");
    assert_eq!(batch.updates.len(), 1);
}

#[test]
fn a_single_rollback_flushes_immediately() {
    let mut acc = BatchAccumulator::new(1);
    assert!(acc.accept(block("b1", 1), 1, 3, false).is_none());
    let flushed = acc.accept(BlockchainUpdate::Rollback("r1".to_string()), 1, 3, false);
    let batch = flushed.expect("a rollback must flush at once");
    assert_eq!(batch.updates.len(), 2);
}

#[test]
fn an_overdue_block_flushes_even_a_small_batch() {
    let mut acc = BatchAccumulator::new(1);
    let flushed = acc.accept(block("b1", 1), 1, 100, true);
    assert!(flushed.is_some());
}

#[test]
fn classify_groups_blocks_and_keeps_order() {
    let input = vec![
        block("b1", 1),
        block("b2", 2),
        micro("m1", 2),
        BlockchainUpdate::Rollback("r1".to_string()),
        block("b3", 3),
    ];
    let expect_ids: Vec<String> = input.iter().map(event_id).collect();
    let runs = classify(input);
    assert_eq!(runs.len(), 4);
    match &runs[0] {
        UpdatesItem::Blocks(v) => {
            assert_eq!(v.len(), 2);
            assert_eq!(v[0].id, "b1");
            assert_eq!(v[1].id, "b2");
        },
        _ => panic!("first run must be a block run"),
    }
    assert!(matches!(&runs[1], UpdatesItem::Microblock(b) if b.id == "m1"));
    assert!(matches!(&runs[2], UpdatesItem::Rollback(s) if s == "r1"));
    assert!(matches!(&runs[3], UpdatesItem::Blocks(v) if v.len() == 1 && v[0].id == "b3"));

    // flattening the runs reproduces the input exactly
    let mut flat: Vec<String> = Vec::new();
    for run in &runs {
        match run {
            UpdatesItem::Blocks(v) => {
                for b in v {
                    flat.push(b.id.clone());
                }
            },
            UpdatesItem::Microblock(b) => flat.push(b.id.clone()),
            UpdatesItem::Rollback(s) => flat.push(s.clone()),
        }
    }
    assert_eq!(flat, expect_ids);
}

#[test]
fn classify_empty_batch_gives_no_runs() {
    let runs = classify(vec![]);
    assert_eq!(runs.len(), 0);
}
