//! The classifier: folds a batch's flat event list into ordered runs —
//! maximal groups of consecutive block appends, single microblocks,
//! single rollbacks — without reordering anything.

use vstd::prelude::*;

use crate::models::{BlockMicroblockAppend, BlockchainUpdate};

verus! {

/// One run of a classified batch.
pub enum UpdatesItem {
    Blocks(Vec<BlockMicroblockAppend>),
    Microblock(BlockMicroblockAppend),
    Rollback(String),
}

/// The events a run stands for, in their original order.
pub open spec fn run_events(r: UpdatesItem) -> Seq<BlockchainUpdate> {
    match r {
        UpdatesItem::Blocks(v) => v@.map_values(
            |b: BlockMicroblockAppend| BlockchainUpdate::Block(b),
        ),
        UpdatesItem::Microblock(b) => seq![BlockchainUpdate::Microblock(b)],
        UpdatesItem::Rollback(s) => seq![BlockchainUpdate::Rollback(s)],
    }
}

/// The events of a whole run list, concatenated in order.
pub open spec fn flatten_runs(rs: Seq<UpdatesItem>) -> Seq<BlockchainUpdate>
    decreases rs.len(),
{
    if rs.len() == 0 {
        Seq::<BlockchainUpdate>::empty()
    } else {
        flatten_runs(rs.drop_last()) + run_events(rs.last())
    }
}

/// The shape the classifier promises: block runs are non-empty, and two
/// block runs never stand side by side — consecutive blocks are merged.
pub open spec fn runs_shape(rs: Seq<UpdatesItem>) -> bool {
    &&& forall|i: int|
        0 <= i < rs.len() ==> ((#[trigger] rs[i]) matches UpdatesItem::Blocks(v) ==> v@.len() > 0)
    &&& forall|i: int|
        0 <= i < rs.len() - 1 ==> !((#[trigger] rs[i]) is Blocks && rs[i + 1] is Blocks)
}

/// Classifies a batch into runs.  The order of events is exactly kept:
/// flattening the runs gives back the input, element for element.
#[verifier::rlimit(60)]
pub fn classify(updates: Vec<BlockchainUpdate>) -> (runs: Vec<UpdatesItem>)
    ensures
        flatten_runs(runs@) == updates@,
        runs_shape(runs@),
{
    let ghost us = updates@;
    let n = updates.len();
    let mut runs: Vec<UpdatesItem> = Vec::new();
    let mut rest = updates;
    let mut i: usize = 0;
    while i < n
        invariant
            n == us.len(),
            rest@ == us.skip(i as int),
            0 <= i <= n,
            flatten_runs(runs@) == us.take(i as int),
            runs_shape(runs@),
        decreases n - i,
    {
        let ghost runs0 = runs@;
        let u = rest.remove(0);
        proof {
            assert(u == us[i as int]);
            assert(rest@ =~= us.skip(i + 1));
            assert(us.take(i + 1).drop_last() =~= us.take(i as int));
            assert(us.take(i + 1).last() == us[i as int]);
        }
        let ghost uv = u;
        match u {
            BlockchainUpdate::Block(b) => {
                let ghost bv = b;
                match runs.pop() {
                    Some(UpdatesItem::Blocks(mut v)) => {
                        proof {
                            assert(runs0.last() == UpdatesItem::Blocks(v));
                        }
                        v.push(b);
                        let item = UpdatesItem::Blocks(v);
                        let ghost itemv = item;
                        runs.push(item);
                        proof {
                            assert(runs@ == runs0.drop_last().push(itemv));
                            assert(runs@.drop_last() =~= runs0.drop_last());
                            assert(runs@.last() == itemv);
                            assert(run_events(itemv) =~= run_events(runs0.last()).push(
                                BlockchainUpdate::Block(bv),
                            ));
                            assert(flatten_runs(runs@) == flatten_runs(runs0.drop_last())
                                + run_events(itemv));
                            assert(flatten_runs(runs@) =~= flatten_runs(runs0) + seq![uv]);
                            assert forall|q: int| 0 <= q < runs@.len() - 1 implies !((
                            #[trigger] runs@[q]) is Blocks && runs@[q + 1] is Blocks) by {
                                if q < runs@.len() - 2 {
                                    assert(runs@[q] == runs0[q] && runs@[q + 1] == runs0[q + 1]);
                                } else {
                                    assert(runs@[q] == runs0[q]);
                                    assert(!(runs0[q] is Blocks && runs0[q + 1] is Blocks));
                                    assert(runs0[q + 1] is Blocks);
                                }
                            }
                        }
                    },
                    Some(other) => {
                        let ghost otherv = other;
                        runs.push(other);
                        proof {
                            assert(runs0.last() == otherv);
                            assert(!(otherv is Blocks));
                            assert(runs@ =~= runs0);
                        }
                        let mut v: Vec<BlockMicroblockAppend> = Vec::new();
                        v.push(b);
                        proof {
                            assert(v@ =~= seq![bv]);
                        }
                        let item = UpdatesItem::Blocks(v);
                        let ghost itemv = item;
                        runs.push(item);
                        proof {
                            assert(runs@ == runs0.push(itemv));
                            assert(runs@.drop_last() =~= runs0);
                            assert(run_events(itemv) =~= seq![uv]);
                            assert(flatten_runs(runs@) =~= flatten_runs(runs0) + seq![uv]);
                            assert forall|q: int| 0 <= q < runs@.len() - 1 implies !((
                            #[trigger] runs@[q]) is Blocks && runs@[q + 1] is Blocks) by {
                                if q < runs@.len() - 2 {
                                    assert(runs@[q] == runs0[q] && runs@[q + 1] == runs0[q + 1]);
                                } else {
                                    assert(runs@[q] == runs0.last());
                                }
                            }
                        }
                    },
                    None => {
                        let mut v: Vec<BlockMicroblockAppend> = Vec::new();
                        v.push(b);
                        proof {
                            assert(v@ =~= seq![bv]);
                        }
                        let item = UpdatesItem::Blocks(v);
                        let ghost itemv = item;
                        runs.push(item);
                        proof {
                            assert(runs0.len() == 0);
                            assert(runs@ == runs0.push(itemv));
                            assert(runs@.drop_last() =~= runs0);
                            assert(run_events(itemv) =~= seq![uv]);
                            assert(flatten_runs(runs@) =~= flatten_runs(runs0) + seq![uv]);
                        }
                    },
                }
            },
            BlockchainUpdate::Microblock(mba) => {
                let item = UpdatesItem::Microblock(mba);
                let ghost itemv = item;
                runs.push(item);
                proof {
                    assert(runs@ == runs0.push(itemv));
                    assert(runs@.drop_last() =~= runs0);
                    assert(run_events(itemv) =~= seq![uv]);
                    assert(flatten_runs(runs@) =~= flatten_runs(runs0) + seq![uv]);
                    assert forall|q: int| 0 <= q < runs@.len() - 1 implies !((
                    #[trigger] runs@[q]) is Blocks && runs@[q + 1] is Blocks) by {
                        if q < runs@.len() - 2 {
                            assert(runs@[q] == runs0[q] && runs@[q + 1] == runs0[q + 1]);
                        }
                    }
                }
            },
            BlockchainUpdate::Rollback(sig) => {
                let item = UpdatesItem::Rollback(sig);
                let ghost itemv = item;
                runs.push(item);
                proof {
                    assert(runs@ == runs0.push(itemv));
                    assert(runs@.drop_last() =~= runs0);
                    assert(run_events(itemv) =~= seq![uv]);
                    assert(flatten_runs(runs@) =~= flatten_runs(runs0) + seq![uv]);
                    assert forall|q: int| 0 <= q < runs@.len() - 1 implies !((
                    #[trigger] runs@[q]) is Blocks && runs@[q + 1] is Blocks) by {
                        if q < runs@.len() - 2 {
                            assert(runs@[q] == runs0[q] && runs@[q + 1] == runs0[q + 1]);
                        }
                    }
                }
            },
        }
        proof {
            assert(flatten_runs(runs@) =~= us.take(i + 1));
        }
        i += 1;
    }
    proof {
        assert(us.take(n as int) =~= us);
    }
    runs
}

} // verus!
