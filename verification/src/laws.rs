//! The laws of the versioned store: the chain invariant is preserved by
//! upsert and rollback, rollback exactly inverts an upsert, and recovery
//! by rollback-and-reprocess is idempotent.

use vstd::prelude::*;

use crate::versioned::{
    batch_has_key, close_row_batch, deleted_rows, find_entry_key, find_row_key, is_min_of_key,
    lemma_find_entry_key, lemma_find_row_key, lemma_surviving_len, min_at, new_rows, open_uid,
    rollback_row,
    spec_rollback, spec_upsert, surviving, wf_rows, EntryM, RowM,
};

verus! {

/// Finding a key in a concatenation, starting inside the first part:
/// the first part wins; otherwise the search continues in the second.
pub proof fn lemma_find_concat(a: Seq<RowM>, c: Seq<RowM>, k: Seq<char>, from: int)
    requires
        0 <= from <= a.len(),
    ensures
        find_row_key(a + c, k, from) == (match find_row_key(a, k, from) {
            Some(j) => Some(j),
            None => match find_row_key(c, k, 0) {
                Some(j) => Some(a.len() + j),
                None => None::<int>,
            },
        }),
    decreases a.len() - from,
{
    assert((a + c).len() == a.len() + c.len());
    if from < a.len() {
        assert((a + c)[from] == a[from]);
        if a[from].key != k {
            lemma_find_concat(a, c, k, from + 1);
        }
    } else {
        lemma_find_shift(a, c, k, 0);
    }
}

/// Finding a key in a concatenation, starting inside the second part.
pub proof fn lemma_find_shift(a: Seq<RowM>, c: Seq<RowM>, k: Seq<char>, m: int)
    requires
        0 <= m <= c.len(),
    ensures
        find_row_key(a + c, k, a.len() + m) == (match find_row_key(c, k, m) {
            Some(j) => Some(a.len() + j),
            None => None::<int>,
        }),
    decreases c.len() - m,
{
    assert((a + c).len() == a.len() + c.len());
    if m < c.len() {
        assert((a + c)[a.len() + m] == c[m]);
        if c[m].key != k {
            lemma_find_shift(a, c, k, m + 1);
        }
    }
}

/// The search sees only keys: tables with equal keys at equal positions
/// give equal results.
pub proof fn lemma_find_same_keys(t1: Seq<RowM>, t2: Seq<RowM>, k: Seq<char>, from: int)
    requires
        t1.len() == t2.len(),
        forall|m: int| 0 <= m < t1.len() ==> (#[trigger] t1[m]).key == t2[m].key,
        0 <= from <= t1.len(),
    ensures
        find_row_key(t1, k, from) == find_row_key(t2, k, from),
    decreases t1.len() - from,
{
    if from < t1.len() && t1[from].key != k {
        lemma_find_same_keys(t1, t2, k, from + 1);
    }
}

/// Searching the linked batch rows is searching the batch.
pub proof fn lemma_find_new_rows(next: int, b: Seq<EntryM>, k: Seq<char>, m: int)
    requires
        0 <= m <= b.len(),
    ensures
        find_row_key(new_rows(next, b), k, m) == find_entry_key(b, k, m),
    decreases b.len() - m,
{
    if m < b.len() {
        assert(new_rows(next, b)[m].key == b[m].key);
        if b[m].key != k {
            lemma_find_new_rows(next, b, k, m + 1);
        }
    }
}

/// Survivors and deletions distribute over concatenation.
pub proof fn lemma_rollback_concat(a: Seq<RowM>, c: Seq<RowM>, target: int)
    ensures
        surviving(a + c, target) == surviving(a, target) + surviving(c, target),
        deleted_rows(a + c, target) == deleted_rows(a, target) + deleted_rows(c, target),
    decreases c.len(),
{
    if c.len() == 0 {
        assert(a + c =~= a);
        assert(surviving(a, target) + surviving(c, target) =~= surviving(a, target));
        assert(deleted_rows(a, target) + deleted_rows(c, target) =~= deleted_rows(a, target));
    } else {
        assert((a + c).drop_last() =~= a + c.drop_last());
        assert((a + c).last() == c.last());
        lemma_rollback_concat(a, c.drop_last(), target);
        if c.last().block_uid <= target {
            assert(surviving(a + c, target) =~= surviving(a, target) + surviving(c, target));
            assert(deleted_rows(a + c, target) =~= deleted_rows(a, target) + deleted_rows(
                c,
                target,
            ));
        } else {
            assert(surviving(a + c, target) =~= surviving(a, target) + surviving(c, target));
            assert(deleted_rows(a + c, target) =~= deleted_rows(a, target) + deleted_rows(
                c,
                target,
            ));
        }
    }
}

/// A table whose rows all reference `target` or earlier survives whole.
pub proof fn lemma_rollback_none(t: Seq<RowM>, target: int)
    requires
        forall|i: int| 0 <= i < t.len() ==> (#[trigger] t[i]).block_uid <= target,
    ensures
        surviving(t, target) == t,
        deleted_rows(t, target) == Seq::<RowM>::empty(),
    decreases t.len(),
{
    if t.len() > 0 {
        assert(forall|i: int| 0 <= i < t.drop_last().len() ==> t.drop_last()[i] == t[i]);
        lemma_rollback_none(t.drop_last(), target);
        assert(surviving(t, target) =~= t);
    }
}

/// A table whose rows all reference later blocks is deleted whole.
pub proof fn lemma_rollback_all(t: Seq<RowM>, target: int)
    requires
        forall|i: int| 0 <= i < t.len() ==> (#[trigger] t[i]).block_uid > target,
    ensures
        surviving(t, target) == Seq::<RowM>::empty(),
        deleted_rows(t, target) == t,
    decreases t.len(),
{
    if t.len() > 0 {
        assert(forall|i: int| 0 <= i < t.drop_last().len() ==> t.drop_last()[i] == t[i]);
        lemma_rollback_all(t.drop_last(), target);
        assert(deleted_rows(t, target) =~= t);
    }
}

/// A rollback past every block reference changes nothing: nothing is
/// deleted and no chain is touched.
pub proof fn lemma_rollback_noop(t: Seq<RowM>, target: int)
    requires
        forall|i: int| 0 <= i < t.len() ==> (#[trigger] t[i]).block_uid <= target,
    ensures
        spec_rollback(t, target) == t,
{
    lemma_rollback_none(t, target);
    assert forall|q: int| 0 <= q < t.len() implies spec_rollback(t, target)[q] == t[q] by {
        assert(!is_min_of_key(deleted_rows(t, target), t[q].superseded_by)) by {
            if is_min_of_key(deleted_rows(t, target), t[q].superseded_by) {
                let w = choose|w: int|
                    0 <= w < deleted_rows(t, target).len() && #[trigger] deleted_rows(
                        t,
                        target,
                    )[w].uid == t[q].superseded_by && min_at(deleted_rows(t, target), w);
            }
        }
    }
    assert(spec_rollback(t, target) =~= t);
}

/// Rollback exactly inverts an upsert: a batch whose block references lie
/// beyond `target`, applied to a table whose rows all lie at or before
/// `target`, is wholly undone by a rollback to `target` — the surviving
/// rows, their uids and their `superseded_by` pointers are restored
/// exactly, the reopened chains included.
pub proof fn lemma_rollback_inverts_upsert(t: Seq<RowM>, next: int, b: Seq<EntryM>, target: int)
    requires
        wf_rows(t, next),
        next + b.len() <= open_uid(),
        forall|i: int| 0 <= i < t.len() ==> (#[trigger] t[i]).block_uid <= target,
        forall|q: int| 0 <= q < b.len() ==> (#[trigger] b[q]).block_uid > target,
    ensures
        spec_rollback(spec_upsert(t, next, b), target) == t,
{
    let c = Seq::new(t.len(), |i: int| close_row_batch(t[i], next, b));
    let nr = new_rows(next, b);
    let u = spec_upsert(t, next, b);
    assert(u == c + nr);
    assert(forall|i: int| 0 <= i < c.len() ==> (#[trigger] c[i]).block_uid == t[i].block_uid);
    assert(forall|i: int| 0 <= i < nr.len() ==> (#[trigger] nr[i]).block_uid == b[i].block_uid);
    lemma_rollback_concat(c, nr, target);
    lemma_rollback_none(c, target);
    lemma_rollback_all(nr, target);
    assert(surviving(u, target) == c);
    assert(deleted_rows(u, target) == nr);
    assert forall|q: int| 0 <= q < c.len() implies spec_rollback(u, target)[q] == t[q] by {
        let r = t[q];
        lemma_find_entry_key(b, r.key, 0);
        if r.superseded_by == open_uid() && batch_has_key(b, r.key) {
            let f = find_entry_key(b, r.key, 0)->Some_0;
            assert(c[q].superseded_by == next + f);
            assert(is_min_of_key(nr, next + f)) by {
                assert(nr[f].uid == next + f && min_at(nr, f)) by {
                    assert forall|j: int|
                        0 <= j < nr.len() && (#[trigger] nr[j]).key == nr[f].key implies nr[j].uid
                        >= nr[f].uid by {
                        assert(b[j].key == b[f].key);
                        assert(j >= f);
                    }
                }
            }
            assert(rollback_row(c[q], nr) == RowM { superseded_by: open_uid(), ..c[q] });
            assert(spec_rollback(u, target)[q] == t[q]);
        } else {
            assert(c[q] == r);
            assert(!is_min_of_key(nr, r.superseded_by)) by {
                if is_min_of_key(nr, r.superseded_by) {
                    let w = choose|w: int|
                        0 <= w < nr.len() && #[trigger] nr[w].uid == r.superseded_by && min_at(
                            nr,
                            w,
                        );
                    assert(nr[w].uid == next + w);
                    if r.superseded_by == open_uid() {
                        assert(next + w < open_uid());
                    } else {
                        lemma_find_row_key(t, r.key, q + 1);
                        let j = find_row_key(t, r.key, q + 1)->Some_0;
                        assert(r.superseded_by == t[j].uid);
                        assert(t[j].uid < next);
                    }
                }
            }
            assert(spec_rollback(u, target)[q] == t[q]);
        }
    }
    assert(spec_rollback(u, target) =~= t);
}

/// Recovery is idempotent: committing a batch, rolling back to the state
/// before it, and reprocessing the same batch from the same counter gives
/// exactly the state of processing it once.
pub proof fn lemma_recovery_idempotent(t: Seq<RowM>, next: int, b: Seq<EntryM>, target: int)
    requires
        wf_rows(t, next),
        next + b.len() <= open_uid(),
        forall|i: int| 0 <= i < t.len() ==> (#[trigger] t[i]).block_uid <= target,
        forall|q: int| 0 <= q < b.len() ==> (#[trigger] b[q]).block_uid > target,
    ensures
        spec_upsert(spec_rollback(spec_upsert(t, next, b), target), next, b) == spec_upsert(
            t,
            next,
            b,
        ),
{
    lemma_rollback_inverts_upsert(t, next, b, target);
}


/// Whether a batch can extend a table: its block references are ordered
/// and none lies before an existing row's reference.
pub open spec fn batch_extends(t: Seq<RowM>, b: Seq<EntryM>) -> bool {
    &&& forall|i: int, q: int|
        0 <= i < t.len() && 0 <= q < b.len() ==> (#[trigger] t[i]).block_uid <= (
        #[trigger] b[q]).block_uid
    &&& forall|p: int, q: int|
        0 <= p <= q < b.len() ==> (#[trigger] b[p]).block_uid <= (#[trigger] b[q]).block_uid
}

/// One batch upsert keeps the table well formed: uids stay increasing,
/// block references stay ordered, and every key's rows still form one
/// chain ending in a single open row.
pub proof fn lemma_upsert_preserves_wf(t: Seq<RowM>, next: int, b: Seq<EntryM>)
    requires
        wf_rows(t, next),
        next + b.len() <= open_uid(),
        batch_extends(t, b),
    ensures
        wf_rows(spec_upsert(t, next, b), next + b.len()),
{
    let c = Seq::new(t.len(), |i: int| close_row_batch(t[i], next, b));
    let nr = new_rows(next, b);
    let u = spec_upsert(t, next, b);
    assert(u == c + nr);
    assert(u.len() == t.len() + b.len());
    assert(forall|i: int| 0 <= i < t.len() ==> (#[trigger] u[i]) == c[i]);
    assert(forall|i: int| 0 <= i < b.len() ==> (#[trigger] nr[i]).uid == next + i);
    assert(forall|i: int| t.len() <= i < u.len() ==> (#[trigger] u[i]) == nr[i - t.len()]);

    assert forall|i: int, j: int| 0 <= i < j < u.len() implies #[trigger] u[i].uid
        < #[trigger] u[j].uid by {
        if j < t.len() {
            assert(t[i].uid < t[j].uid);
        } else if i < t.len() {
            assert(t[i].uid < next);
        }
    }
    assert forall|i: int, j: int| 0 <= i <= j < u.len() implies #[trigger] u[i].block_uid
        <= #[trigger] u[j].block_uid by {
        if j < t.len() {
            assert(t[i].block_uid <= t[j].block_uid);
        } else if i < t.len() {
            assert(t[i].block_uid <= b[j - t.len()].block_uid);
        } else {
            assert(b[i - t.len()].block_uid <= b[j - t.len()].block_uid);
        }
    }
    assert forall|i: int| 0 <= i < u.len() implies 0 <= (#[trigger] u[i]).uid < next + b.len() by {
        if i < t.len() {
            assert(t[i].uid < next);
        }
    }
    assert forall|p: int| 0 <= p < u.len() implies (#[trigger] u[p]).superseded_by == (
    match find_row_key(u, u[p].key, p + 1) {
        Some(j) => u[j].uid,
        None => open_uid(),
    }) by {
        if p < t.len() {
            let k = t[p].key;
            assert(u[p].key == k);
            lemma_find_concat(c, nr, k, p + 1);
            lemma_find_same_keys(c, t, k, p + 1);
            lemma_find_new_rows(next, b, k, 0);
            match find_row_key(t, k, p + 1) {
                Some(j) => {
                    lemma_find_row_key(t, k, p + 1);
                    assert(t[p].superseded_by == t[j].uid);
                    assert(t[j].uid < next <= open_uid());
                    assert(u[p].superseded_by == t[j].uid);
                    assert(find_row_key(u, k, p + 1) == Some(j));
                    assert(u[j].uid == t[j].uid);
                },
                None => {
                    assert(t[p].superseded_by == open_uid());
                    match find_entry_key(b, k, 0) {
                        Some(f) => {
                            lemma_find_entry_key(b, k, 0);
                            assert(batch_has_key(b, k));
                            assert(u[p].superseded_by == next + f);
                            assert(find_row_key(u, k, p + 1) == Some(t.len() + f));
                            assert(u[t.len() + f].uid == next + f);
                        },
                        None => {
                            assert(!batch_has_key(b, k));
                            assert(u[p].superseded_by == open_uid());
                            assert(find_row_key(u, k, p + 1) is None);
                        },
                    }
                },
            }
        } else {
            let i = p - t.len();
            let k = b[i].key;
            assert(u[p] == nr[i]);
            assert(nr[i].key == k);
            lemma_find_shift(c, nr, k, i + 1);
            lemma_find_new_rows(next, b, k, i + 1);
            lemma_find_entry_key(b, k, i + 1);
            match find_entry_key(b, k, i + 1) {
                Some(j) => {
                    assert(u[p].superseded_by == next + j);
                    assert(find_row_key(u, k, p + 1) == Some(t.len() + j));
                    assert(u[t.len() + j].uid == next + j);
                },
                None => {
                    assert(u[p].superseded_by == open_uid());
                    assert(find_row_key(u, k, p + 1) is None);
                },
            }
        }
    }
}

/// A rollback keeps the table well formed: the deleted rows are a suffix,
/// and every chain cut by the deletion is reopened at its last survivor.
pub proof fn lemma_rollback_preserves_wf(t: Seq<RowM>, next: int, target: int)
    requires
        wf_rows(t, next),
    ensures
        wf_rows(spec_rollback(t, target), next),
{
    lemma_rollback_suffix(t, target);
    let s = surviving(t, target);
    let d = deleted_rows(t, target);
    let m = s.len();
    let f = spec_rollback(t, target);
    assert(f.len() == m);
    assert(forall|i: int| 0 <= i < m ==> (#[trigger] f[i]) == rollback_row(s[i], d));
    assert(forall|i: int| 0 <= i < m ==> (#[trigger] f[i]).uid == t[i].uid);
    assert(forall|i: int| 0 <= i < m ==> (#[trigger] f[i]).key == t[i].key);
    assert(forall|i: int| 0 <= i < m ==> (#[trigger] f[i]).block_uid == t[i].block_uid);
    assert forall|p: int| 0 <= p < m implies (#[trigger] f[p]).superseded_by == (
    match find_row_key(f, f[p].key, p + 1) {
        Some(j) => f[j].uid,
        None => open_uid(),
    }) by {
        let k = t[p].key;
        assert(s[p] == t[p]);
        assert(t == s + d) by {
            assert(t =~= s + d);
        }
        lemma_find_concat(s, d, k, p + 1);
        lemma_find_same_keys(f, s, k, p + 1);
        lemma_find_row_key(s, k, p + 1);
        lemma_find_row_key(d, k, 0);
        match find_row_key(s, k, p + 1) {
            Some(j) => {
                assert(find_row_key(t, k, p + 1) == Some(j));
                assert(t[p].superseded_by == t[j].uid);
                assert(j < m);
                assert(!is_min_of_key(d, t[j].uid)) by {
                    if is_min_of_key(d, t[j].uid) {
                        let w = choose|w: int|
                            0 <= w < d.len() && #[trigger] d[w].uid == t[j].uid && min_at(d, w);
                        assert(d[w] == t[m + w]);
                        assert(t[j].uid < t[m + w].uid);
                    }
                }
                assert(f[p].superseded_by == t[j].uid);
                assert(f[j].uid == t[j].uid);
            },
            None => {
                match find_row_key(d, k, 0) {
                    Some(g) => {
                        assert(find_row_key(t, k, p + 1) == Some(m + g));
                        assert(t[p].superseded_by == t[m + g].uid);
                        assert(t[m + g] == d[g]);
                        assert(is_min_of_key(d, d[g].uid)) by {
                            lemma_find_row_key(d, k, 0);
                            assert forall|j: int|
                                0 <= j < d.len() && (#[trigger] d[j]).key == d[g].key implies
                                d[j].uid >= d[g].uid by {
                                assert(j >= g);
                                assert(d[j] == t[m + j]);
                                assert(d[g] == t[m + g]);
                                if j > g {
                                    assert(t[m + g].uid < t[m + j].uid);
                                }
                            }
                        }
                        assert(f[p].superseded_by == open_uid());
                        assert(find_row_key(f, k, p + 1) is None);
                    },
                    None => {
                        assert(find_row_key(t, k, p + 1) is None);
                        assert(t[p].superseded_by == open_uid());
                        assert(!is_min_of_key(d, open_uid())) by {
                            if is_min_of_key(d, open_uid()) {
                                let w = choose|w: int|
                                    0 <= w < d.len() && #[trigger] d[w].uid == open_uid() && min_at(
                                        d,
                                        w,
                                    );
                                assert(d[w] == t[m + w]);
                                assert(t[m + w].uid < next);
                            }
                        }
                        assert(f[p].superseded_by == open_uid());
                        assert(find_row_key(f, k, p + 1) is None);
                    },
                }
            },
        }
    }
}

/// Under ordered block references, a rollback removes a suffix: the
/// survivors are the first rows, the deleted rows the last.
pub proof fn lemma_rollback_suffix(t: Seq<RowM>, target: int)
    requires
        forall|i: int, j: int|
            0 <= i <= j < t.len() ==> (#[trigger] t[i]).block_uid <= (#[trigger] t[j]).block_uid,
    ensures
        surviving(t, target) == t.take(surviving(t, target).len() as int),
        deleted_rows(t, target) == t.skip(surviving(t, target).len() as int),
        surviving(t, target).len() + deleted_rows(t, target).len() == t.len(),
        forall|i: int|
            0 <= i < surviving(t, target).len() ==> (#[trigger] t[i]).block_uid <= target,
        forall|i: int|
            surviving(t, target).len() <= i < t.len() ==> (#[trigger] t[i]).block_uid > target,
    decreases t.len(),
{
    lemma_surviving_len(t, target);
    if t.len() > 0 {
        assert(forall|i: int| 0 <= i < t.drop_last().len() ==> t.drop_last()[i] == t[i]);
        lemma_rollback_suffix(t.drop_last(), target);
        let s = surviving(t, target);
        if t.last().block_uid <= target {
            assert(surviving(t.drop_last(), target) == t.drop_last()) by {
                assert(forall|i: int|
                    0 <= i < t.drop_last().len() ==> (#[trigger] t.drop_last()[i]).block_uid
                        <= target);
                lemma_rollback_none(t.drop_last(), target);
            }
            assert(s =~= t.take(s.len() as int));
            assert(deleted_rows(t, target) =~= t.skip(s.len() as int));
        } else {
            assert(s == surviving(t.drop_last(), target));
            assert(s =~= t.take(s.len() as int));
            assert(deleted_rows(t, target) =~= t.skip(s.len() as int));
        }
    }
}

/// The index the chain from row `i` ends at: follow `superseded_by` until
/// it holds the sentinel.
pub open spec fn chain_end(t: Seq<RowM>, i: int) -> int
    decreases t.len() - i when 0 <= i < t.len() via chain_end_decreases
{
    match find_row_key(t, t[i].key, i + 1) {
        Some(j) => chain_end(t, j),
        None => i,
    }
}

#[via_fn]
proof fn chain_end_decreases(t: Seq<RowM>, i: int) {
    lemma_find_row_key(t, t[i].key, i + 1);
}

/// How many rows of the same key stand after row `i`.
pub open spec fn later_versions(t: Seq<RowM>, k: Seq<char>, from: int) -> nat
    decreases t.len() - from when 0 <= from
{
    if from >= t.len() {
        0
    } else if t[from].key == k {
        1 + later_versions(t, k, from + 1)
    } else {
        later_versions(t, k, from + 1)
    }
}

/// The number of pointer steps from row `i` to its chain's end.
pub open spec fn steps_to_open(t: Seq<RowM>, i: int) -> nat
    decreases t.len() - i when 0 <= i < t.len() via steps_to_open_decreases
{
    match find_row_key(t, t[i].key, i + 1) {
        Some(j) => 1 + steps_to_open(t, j),
        None => 0,
    }
}

#[via_fn]
proof fn steps_to_open_decreases(t: Seq<RowM>, i: int) {
    lemma_find_row_key(t, t[i].key, i + 1);
}

/// Chain integrity: in a well-formed table, a key's rows form exactly one
/// chain.  Following `superseded_by` from any row reaches a row of the
/// same key that holds the sentinel, in exactly as many steps as there
/// are later rows of that key; and the row holding the sentinel is the
/// single open row of its key.
pub proof fn lemma_chain_integrity(t: Seq<RowM>, next: int, i: int)
    requires
        wf_rows(t, next),
        0 <= i < t.len(),
    ensures
        t[chain_end(t, i)].key == t[i].key,
        t[chain_end(t, i)].superseded_by == open_uid(),
        steps_to_open(t, i) == later_versions(t, t[i].key, i + 1),
        forall|j: int|
            0 <= j < t.len() && (#[trigger] t[j]).key == t[i].key && t[j].superseded_by
                == open_uid() ==> j == chain_end(t, i),
    decreases t.len() - i,
{
    lemma_find_row_key(t, t[i].key, i + 1);
    match find_row_key(t, t[i].key, i + 1) {
        Some(j) => {
            assert(t[j].key == t[i].key);
            lemma_chain_integrity(t, next, j);
            assert(t[i].superseded_by == t[j].uid);
            assert(t[j].uid < next <= open_uid());
            assert(t[i].superseded_by != open_uid());
            lemma_later_versions_skip(t, t[i].key, i + 1, j);
            assert forall|w: int|
                0 <= w < t.len() && (#[trigger] t[w]).key == t[i].key && t[w].superseded_by
                    == open_uid() implies w == chain_end(t, i) by {
                if w <= i {
                    if w < i {
                        lemma_find_row_key(t, t[w].key, w + 1);
                        match find_row_key(t, t[w].key, w + 1) {
                            Some(v) => {
                                assert(t[w].superseded_by == t[v].uid);
                                assert(t[v].uid < next <= open_uid());
                                assert(false);
                            },
                            None => {
                                assert(t[i].key != t[w].key);
                                assert(false);
                            },
                        }
                    } else {
                        assert(false);
                    }
                }
            }
        },
        None => {
            assert(t[i].superseded_by == open_uid());
            assert(chain_end(t, i) == i);
            lemma_later_versions_none(t, t[i].key, i + 1);
            assert forall|w: int|
                0 <= w < t.len() && (#[trigger] t[w]).key == t[i].key && t[w].superseded_by
                    == open_uid() implies w == i by {
                if w < i {
                    lemma_find_row_key(t, t[w].key, w + 1);
                    match find_row_key(t, t[w].key, w + 1) {
                        Some(v) => {
                            assert(t[w].superseded_by == t[v].uid);
                            assert(t[v].uid < next <= open_uid());
                            assert(false);
                        },
                        None => {
                            assert(t[i].key != t[w].key);
                            assert(false);
                        },
                    }
                }
                if w > i {
                    assert(t[w].key != t[i].key);
                    assert(false);
                }
            }
        },
    }
}

/// Between a row and the next row of its key there are no other versions,
/// so the count of later versions drops by exactly one.
proof fn lemma_later_versions_skip(t: Seq<RowM>, k: Seq<char>, from: int, j: int)
    requires
        0 <= from <= j < t.len(),
        find_row_key(t, k, from) == Some(j),
        t[j].key == k,
    ensures
        later_versions(t, k, from) == 1 + later_versions(t, k, j + 1),
    decreases j - from,
{
    if from < j {
        assert(t[from].key != k);
        lemma_later_versions_skip(t, k, from + 1, j);
    }
}

/// With no later row of the key, there are no later versions.
proof fn lemma_later_versions_none(t: Seq<RowM>, k: Seq<char>, from: int)
    requires
        0 <= from <= t.len(),
        find_row_key(t, k, from) is None,
    ensures
        later_versions(t, k, from) == 0,
    decreases t.len() - from,
{
    if from < t.len() {
        assert(t[from].key != k);
        lemma_later_versions_none(t, k, from + 1);
    }
}

} // verus!

