//! The guarantees of the shuffle, stated and proved over the model
//! transitions: row accounting across insert and finish, the flush
//! policy, disjointness of group ids across keys, and the behaviour of
//! replay for absent and present keys.

use vstd::prelude::*;
use crate::batch::{group_of, rows_of, BatchModel};
use crate::shuffler::{
    buffered_rows, builder_wf, entry_wf, find_at, finish_step, flushed_groups, groups_for,
    groups_wf, has_key, insert_step, keys_of, lemma_find_at, lemma_finish_step_wf,
    lemma_flushed_len_le, lemma_flushed_take_step, reader_has_key, reader_keys_of, reader_rows,
    reader_wf, replay, sum_group_rows, total_rows, BuilderModel, KeyStateModel, ReaderModel,
};

verus! {

/// Group ids recorded for `key` by the reader (empty when absent).
pub open spec fn reader_groups_for(r: ReaderModel, key: u32) -> Seq<u32> {
    let i = find_at(reader_keys_of(r.entries), key);
    if i < r.entries.len() {
        r.entries[i].groups
    } else {
        Seq::empty()
    }
}

proof fn lemma_find_at_push(keys: Seq<u32>, x: u32, k: u32)
    ensures
        find_at(keys.push(x), k) == if find_at(keys, k) < keys.len() {
            find_at(keys, k)
        } else if k == x {
            keys.len() as int
        } else {
            (keys.len() + 1) as int
        },
    decreases keys.len(),
{
    lemma_find_at(keys, k);
    if keys.len() == 0 {
        assert(keys.push(x)[0] == x);
        assert(keys.push(x).drop_first() =~= Seq::<u32>::empty());
        if k == x {
            assert(find_at(keys.push(x), k) == 0);
        } else {
            assert(find_at(keys.push(x), k) == 1 + find_at(keys.push(x).drop_first(), k));
            assert(find_at(keys.push(x).drop_first(), k) == 0);
        }
    } else if keys[0] == k {
        assert(keys.push(x)[0] == k);
        assert(find_at(keys.push(x), k) == 0);
        assert(find_at(keys, k) == 0);
    } else {
        let d = keys.drop_first();
        assert(keys.push(x)[0] == keys[0]);
        assert(keys.push(x).drop_first() =~= d.push(x));
        lemma_find_at_push(d, x, k);
        lemma_find_at(d, k);
        assert(find_at(keys.push(x), k) == 1 + find_at(d.push(x), k));
        assert(find_at(keys, k) == 1 + find_at(d, k));
        if find_at(d, k) < d.len() {
            assert(find_at(keys, k) < keys.len());
            assert(find_at(d.push(x), k) == find_at(d, k));
        } else if k == x {
            assert(find_at(keys, k) == keys.len());
            assert(find_at(d.push(x), k) == d.len() as int);
        } else {
            assert(find_at(d.push(x), k) == d.len() + 1);
        }
    }
}

/// Growing the store beyond every id named in `groups` does not change
/// the rows those ids select.
proof fn lemma_sum_extend(file1: Seq<BatchModel>, file2: Seq<BatchModel>, groups: Seq<u32>)
    requires
        file1.len() <= file2.len(),
        file2.take(file1.len() as int) == file1,
        forall|j: int| 0 <= j < groups.len() ==> (#[trigger] groups[j]) < file1.len(),
    ensures
        sum_group_rows(file2, groups) == sum_group_rows(file1, groups),
    decreases groups.len(),
{
    if groups.len() > 0 {
        lemma_sum_extend(file1, file2, groups.drop_last());
        let g = groups.last();
        assert(file2[g as int] == file2.take(file1.len() as int)[g as int]);
    }
}

/// A prefix of the entries contributes a prefix of the flushed groups.
proof fn lemma_flushed_prefix(
    entries: Seq<KeyStateModel>,
    schema: Seq<crate::schema::FieldModel>,
    j: int,
)
    requires
        0 <= j <= entries.len(),
    ensures
        flushed_groups(entries, schema).take(
            flushed_groups(entries.take(j), schema).len() as int,
        ) == flushed_groups(entries.take(j), schema),
    decreases entries.len() - j,
{
    if j == entries.len() {
        assert(entries.take(j) =~= entries);
        assert(flushed_groups(entries, schema).take(
            flushed_groups(entries, schema).len() as int,
        ) =~= flushed_groups(entries, schema));
    } else {
        lemma_flushed_prefix(entries, schema, j + 1);
        lemma_flushed_take_step(entries, schema, j);
        lemma_flushed_len_le(entries, schema, j, j + 1);
        lemma_flushed_len_le(entries, schema, j + 1, entries.len() as int);
        assert(entries.take(entries.len() as int) =~= entries);
        let fj = flushed_groups(entries.take(j), schema);
        let fj1 = flushed_groups(entries.take(j + 1), schema);
        let all = flushed_groups(entries, schema);
        assert(fj.len() <= fj1.len());
        assert(fj1.len() <= all.len());
        assert(all.take(fj.len() as int) =~= all.take(fj1.len() as int).take(fj.len() as int));
        assert(fj1.take(fj.len() as int) =~= fj);
    }
}

// ---------------------------------------------------------------------
// Row accounting
// ---------------------------------------------------------------------

/// One insert adds exactly the batch's rows to its key's recorded total
/// — buffered or written — touches no other key's total, and makes the
/// key known.
pub proof fn lemma_insert_accounts(b: BuilderModel, key: u32, batch: BatchModel)
    requires
        builder_wf(b),
        b.file.len() < u32::MAX,
    ensures
        total_rows(insert_step(b, key, batch), key) == total_rows(b, key) + batch.rows,
        forall|k: u32| k != key ==> total_rows(insert_step(b, key, batch), k) == total_rows(b, k),
        forall|k: u32|
            has_key(insert_step(b, key, batch).entries, k) == (has_key(b.entries, k) || k == key),
{
    let keys = keys_of(b.entries);
    lemma_find_at(keys, key);
    let i = find_at(keys, key);
    let present = i < b.entries.len();
    let buf0 = if present {
        b.entries[i].buffered
    } else {
        Seq::<BatchModel>::empty()
    };
    let grp0 = if present {
        b.entries[i].groups
    } else {
        Seq::<u32>::empty()
    };
    let buf1 = buf0.push(batch);
    let b1 = insert_step(b, key, batch);
    let keys1 = keys_of(b1.entries);
    assert(buf1.drop_last() =~= buf0);
    assert(rows_of(buf1) == rows_of(buf0) + batch.rows);
    if present {
        assert(keys1 =~= keys);
        assert(entry_wf(b.entries[i], b.schema, b.flush_size, b.file.len() as int));
    } else {
        assert(keys1 =~= keys.push(key));
    }
    // Where each key is found afterwards.
    assert forall|k: u32| #[trigger] find_at(keys1, k) == (if find_at(keys, k) < keys.len() {
        find_at(keys, k)
    } else if k == key {
        i
    } else {
        keys1.len() as int
    }) by {
        assert(keys.len() == b.entries.len());
        assert(keys1.len() == b1.entries.len());
        lemma_find_at(keys, k);
        lemma_find_at(keys1, k);
        if present {
            assert(keys1 == keys);
        } else {
            assert(i == keys.len() as int);
            lemma_find_at_push(keys, key, k);
        }
    }
    if rows_of(buf1) >= b.flush_size {
        let gid = b.file.len() as u32;
        let grp1 = grp0.push(gid);
        assert(b1.entries[i].buffered =~= Seq::<BatchModel>::empty());
        assert(rows_of(b1.entries[i].buffered) == 0);
        assert(grp1.drop_last() =~= grp0);
        assert(b1.file[gid as int] == group_of(b.schema, buf1));
        assert(b1.file.take(b.file.len() as int) =~= b.file);
        assert forall|j: int| 0 <= j < grp0.len() implies (#[trigger] grp0[j]) < b.file.len() by {
            assert(present);
        }
        lemma_sum_extend(b.file, b1.file, grp0);
        assert(sum_group_rows(b1.file, grp1) == sum_group_rows(b.file, grp0) + rows_of(buf1));
        assert(total_rows(b1, key) == total_rows(b, key) + batch.rows);
        assert forall|k: u32| k != key implies total_rows(b1, k) == total_rows(b, k) by {
            lemma_find_at(keys1, k);
            lemma_find_at(keys, k);
            let ik = find_at(keys, k);
            if ik < b.entries.len() {
                assert(keys[ik] == k);
                assert(ik != i);
                assert(b1.entries[ik] == b.entries[ik]);
                assert(entry_wf(b.entries[ik], b.schema, b.flush_size, b.file.len() as int));
                lemma_sum_extend(b.file, b1.file, b.entries[ik].groups);
            }
        }
    } else {
        assert(total_rows(b1, key) == total_rows(b, key) + batch.rows);
        assert forall|k: u32| k != key implies total_rows(b1, k) == total_rows(b, k) by {
            lemma_find_at(keys, k);
            let ik = find_at(keys, k);
            if ik < b.entries.len() {
                assert(keys[ik] == k);
                assert(ik != i);
                assert(b1.entries[ik] == b.entries[ik]);
            }
        }
    }
}

/// Completeness across `finish`: every key observed during the build is
/// retrievable, no other key is, and the rows retrievable for a key are
/// exactly the rows the builder recorded for it.
pub proof fn lemma_finish_accounts(b: BuilderModel)
    requires
        builder_wf(b),
        b.file.len() + b.entries.len() <= u32::MAX,
    ensures
        forall|k: u32|
            #[trigger] reader_has_key(finish_step(b).entries, k) == has_key(b.entries, k),
        forall|k: u32|
            has_key(b.entries, k) ==> #[trigger] reader_rows(finish_step(b), k) == total_rows(
                b,
                k,
            ),
{
    let r = finish_step(b);
    let n = b.entries.len() as int;
    assert(reader_keys_of(r.entries) =~= keys_of(b.entries));
    assert(b.entries.take(n) =~= b.entries);
    assert forall|k: u32| has_key(b.entries, k) implies #[trigger] reader_rows(finish_step(b), k)
        == total_rows(b, k) by {
        let keys = keys_of(b.entries);
        lemma_find_at(keys, k);
        let i = find_at(keys, k);
        let e = b.entries[i];
        assert(entry_wf(e, b.schema, b.flush_size, b.file.len() as int));
        lemma_flushed_len_le(b.entries, b.schema, 0, i);
        lemma_flushed_len_le(b.entries, b.schema, i, n);
        assert(flushed_groups(b.entries.take(0), b.schema) =~= Seq::<BatchModel>::empty());
        let pend_i = flushed_groups(b.entries.take(i), b.schema).len();
        let gid = (b.file.len() + pend_i) as u32;
        assert(gid as int == b.file.len() + pend_i);
        assert(r.file.take(b.file.len() as int) =~= b.file);
        lemma_sum_extend(b.file, r.file, e.groups);
        if e.buffered.len() > 0 {
            assert(r.entries[i].groups == e.groups.push(gid));
            assert(r.entries[i].groups.drop_last() =~= e.groups);
            // The group the final flush wrote for this key.
            lemma_flushed_take_step(b.entries, b.schema, i);
            lemma_flushed_prefix(b.entries, b.schema, i + 1);
            lemma_flushed_len_le(b.entries, b.schema, i + 1, n);
            let all = flushed_groups(b.entries, b.schema);
            let fj1 = flushed_groups(b.entries.take(i + 1), b.schema);
            assert(fj1 == flushed_groups(b.entries.take(i), b.schema) + seq![
                group_of(b.schema, e.buffered),
            ]);
            assert(fj1.len() <= all.len());
            assert(all.take(fj1.len() as int) == fj1);
            assert(fj1[pend_i as int] == all.take(fj1.len() as int)[pend_i as int]);
            assert(all[pend_i as int] == fj1[pend_i as int]);
            assert(all[pend_i as int] == group_of(b.schema, e.buffered));
            assert(r.file[gid as int] == group_of(b.schema, e.buffered));
            assert(sum_group_rows(r.file, r.entries[i].groups) == sum_group_rows(r.file, e.groups)
                + rows_of(e.buffered));
        } else {
            assert(r.entries[i].groups == e.groups);
            assert(rows_of(e.buffered) == 0);
        }
    }
}

// ---------------------------------------------------------------------
// Completeness over a whole build
// ---------------------------------------------------------------------

/// The builder after a sequence of inserts, applied in order.
pub open spec fn run_inserts(b: BuilderModel, ops: Seq<(u32, BatchModel)>) -> BuilderModel
    decreases ops.len(),
{
    if ops.len() == 0 {
        b
    } else {
        insert_step(run_inserts(b, ops.drop_last()), ops.last().0, ops.last().1)
    }
}

/// Rows of `ops` inserted under `key`.
pub open spec fn inserted_rows(ops: Seq<(u32, BatchModel)>, key: u32) -> nat
    decreases ops.len(),
{
    if ops.len() == 0 {
        0
    } else {
        inserted_rows(ops.drop_last(), key) + (if ops.last().0 == key {
            ops.last().1.rows
        } else {
            0
        })
    }
}

/// Whether some insert of `ops` targets `key`.
pub open spec fn ops_contain(ops: Seq<(u32, BatchModel)>, key: u32) -> bool {
    exists|j: int| 0 <= j < ops.len() && (#[trigger] ops[j]).0 == key
}

/// Every intermediate store along the run still has room for a `u32` id.
pub open spec fn run_in_bounds(b: BuilderModel, ops: Seq<(u32, BatchModel)>) -> bool
    decreases ops.len(),
{
    if ops.len() == 0 {
        true
    } else {
        run_in_bounds(b, ops.drop_last()) && run_inserts(b, ops.drop_last()).file.len()
            < u32::MAX
    }
}

/// Row accounting over a whole build: after any sequence of inserts, a
/// key is known exactly when something was inserted under it (or it was
/// known before), and the rows recorded for each key grew by exactly the
/// rows inserted under it.
pub proof fn lemma_run_accounts(b0: BuilderModel, ops: Seq<(u32, BatchModel)>)
    requires
        builder_wf(b0),
        forall|j: int|
            0 <= j < ops.len() ==> crate::batch::batch_wf((#[trigger] ops[j]).1) && ops[j].1.schema
                == b0.schema,
        run_in_bounds(b0, ops),
    ensures
        builder_wf(run_inserts(b0, ops)),
        run_inserts(b0, ops).schema == b0.schema,
        forall|k: u32|
            #[trigger] has_key(run_inserts(b0, ops).entries, k) == (has_key(b0.entries, k)
                || ops_contain(ops, k)),
        forall|k: u32|
            #[trigger] total_rows(run_inserts(b0, ops), k) == total_rows(b0, k) + inserted_rows(
                ops,
                k,
            ),
    decreases ops.len(),
{
    if ops.len() > 0 {
        let rest = ops.drop_last();
        let (key, batch) = ops.last();
        let prev = run_inserts(b0, rest);
        lemma_run_accounts(b0, rest);
        crate::shuffler::lemma_insert_step_wf(prev, key, batch);
        lemma_insert_accounts(prev, key, batch);
        assert forall|k: u32| #[trigger] ops_contain(ops, k) == (ops_contain(rest, k) || key
            == k) by {
            if ops_contain(ops, k) {
                let j = choose|j: int| 0 <= j < ops.len() && (#[trigger] ops[j]).0 == k;
                if j < ops.len() - 1 {
                    assert(rest[j] == ops[j]);
                    assert(ops_contain(rest, k));
                }
            }
            if ops_contain(rest, k) {
                let j = choose|j: int| 0 <= j < rest.len() && (#[trigger] rest[j]).0 == k;
                assert(ops[j] == rest[j]);
                assert(ops_contain(ops, k));
            }
            if key == k {
                assert(ops[ops.len() - 1].0 == k);
                assert(ops_contain(ops, k));
            }
        }
        assert(run_inserts(b0, ops) == insert_step(prev, key, batch));
        assert forall|k: u32| #[trigger] total_rows(run_inserts(b0, ops), k) == total_rows(b0, k)
            + inserted_rows(ops, k) by {
            assert(total_rows(prev, k) == total_rows(b0, k) + inserted_rows(rest, k));
            if k == key {
                assert(total_rows(insert_step(prev, key, batch), key) == total_rows(prev, key)
                    + batch.rows);
            } else {
                assert(total_rows(insert_step(prev, key, batch), k) == total_rows(prev, k));
            }
            assert(inserted_rows(ops, k) == inserted_rows(rest, k) + (if key == k {
                batch.rows
            } else {
                0
            }));
        }
        assert forall|k: u32| #[trigger] has_key(run_inserts(b0, ops).entries, k) == (has_key(
            b0.entries,
            k,
        ) || ops_contain(ops, k)) by {
            assert(has_key(prev.entries, k) == (has_key(b0.entries, k) || ops_contain(rest, k)));
            assert(has_key(insert_step(prev, key, batch).entries, k) == (has_key(prev.entries, k)
                || k == key));
            assert(ops_contain(ops, k) == (ops_contain(rest, k) || key == k));
        }
    }
}

/// The rows a replay yields are the rows stored under the key's group
/// ids.
pub proof fn lemma_replay_rows(r: ReaderModel, key: u32)
    requires
        replay(r, key) is Some,
    ensures
        rows_of(replay(r, key).unwrap()) == reader_rows(r, key),
{
    let i = find_at(reader_keys_of(r.entries), key);
    lemma_replay_rows_rec(r.file, r.entries[i].groups);
}

proof fn lemma_replay_rows_rec(file: Seq<BatchModel>, groups: Seq<u32>)
    ensures
        rows_of(groups.map_values(|g: u32| file[g as int])) == sum_group_rows(file, groups),
    decreases groups.len(),
{
    let m = groups.map_values(|g: u32| file[g as int]);
    if groups.len() == 0 {
        assert(m.len() == 0);
    } else {
        lemma_replay_rows_rec(file, groups.drop_last());
        assert(m.drop_last() =~= groups.drop_last().map_values(|g: u32| file[g as int]));
        assert(m.last() == file[groups.last() as int]);
    }
}

/// Completeness, end to end: build from a fresh builder by any sequence
/// of inserts, finish, and read. Exactly the keys inserted at least once
/// are present, and each replays exactly the rows ever inserted under it
/// — no more (partition isolation), no less.
pub proof fn lemma_completeness(b0: BuilderModel, ops: Seq<(u32, BatchModel)>, key: u32)
    requires
        builder_wf(b0),
        b0.entries.len() == 0,
        forall|j: int|
            0 <= j < ops.len() ==> crate::batch::batch_wf((#[trigger] ops[j]).1) && ops[j].1.schema
                == b0.schema,
        run_in_bounds(b0, ops),
        run_inserts(b0, ops).file.len() + run_inserts(b0, ops).entries.len() <= u32::MAX,
    ensures
        reader_has_key(finish_step(run_inserts(b0, ops)).entries, key) == ops_contain(ops, key),
        ops_contain(ops, key) ==> rows_of(
            replay(finish_step(run_inserts(b0, ops)), key).unwrap(),
        ) == total_rows(b0, key) + inserted_rows(ops, key),
{
    let bn = run_inserts(b0, ops);
    let r = finish_step(bn);
    lemma_run_accounts(b0, ops);
    lemma_finish_accounts(bn);
    assert(keys_of(b0.entries).len() == 0);
    assert(!has_key(b0.entries, key));
    if ops_contain(ops, key) {
        assert(has_key(bn.entries, key));
        assert(reader_has_key(r.entries, key));
        assert(reader_keys_of(r.entries) =~= keys_of(bn.entries));
        assert(replay(r, key) is Some);
        lemma_replay_rows(r, key);
        assert(reader_rows(r, key) == total_rows(bn, key));
    }
}

// ---------------------------------------------------------------------
// Content-level completeness
// ---------------------------------------------------------------------

/// Column `c` of the groups named by `groups`, joined in recorded order.
pub open spec fn groups_col(file: Seq<BatchModel>, groups: Seq<u32>, c: int) -> Seq<u64>
    decreases groups.len(),
{
    if groups.len() == 0 {
        Seq::empty()
    } else {
        groups_col(file, groups.drop_last(), c) + file[groups.last() as int].columns[c]
    }
}

/// Column `c` of everything the builder has recorded for `key`: the
/// written groups first, the still-buffered batches after them — which
/// is insertion order, since a flush empties the buffer into the last
/// group.
pub open spec fn key_col(b: BuilderModel, key: u32, c: int) -> Seq<u64> {
    let i = find_at(keys_of(b.entries), key);
    if i < b.entries.len() {
        groups_col(b.file, b.entries[i].groups, c) + crate::batch::concat_col(
            b.entries[i].buffered,
            c,
        )
    } else {
        Seq::empty()
    }
}

/// Column `c` of everything the reader replays for `key`.
pub open spec fn reader_col(r: ReaderModel, key: u32, c: int) -> Seq<u64> {
    let i = find_at(reader_keys_of(r.entries), key);
    if i < r.entries.len() {
        groups_col(r.file, r.entries[i].groups, c)
    } else {
        Seq::empty()
    }
}

/// Column `c` of the batches of `ops` inserted under `key`, in insertion
/// order.
pub open spec fn inserted_col(ops: Seq<(u32, BatchModel)>, key: u32, c: int) -> Seq<u64>
    decreases ops.len(),
{
    if ops.len() == 0 {
        Seq::empty()
    } else {
        inserted_col(ops.drop_last(), key, c) + (if ops.last().0 == key {
            ops.last().1.columns[c]
        } else {
            Seq::<u64>::empty()
        })
    }
}

/// Growing the store beyond every id named in `groups` does not change
/// the cells those ids select.
proof fn lemma_groups_col_extend(
    file1: Seq<BatchModel>,
    file2: Seq<BatchModel>,
    groups: Seq<u32>,
    c: int,
)
    requires
        file1.len() <= file2.len(),
        file2.take(file1.len() as int) == file1,
        forall|j: int| 0 <= j < groups.len() ==> (#[trigger] groups[j]) < file1.len(),
    ensures
        groups_col(file2, groups, c) == groups_col(file1, groups, c),
    decreases groups.len(),
{
    if groups.len() > 0 {
        lemma_groups_col_extend(file1, file2, groups.drop_last(), c);
        let g = groups.last();
        assert(file2[g as int] == file2.take(file1.len() as int)[g as int]);
    }
}

/// One insert appends exactly the batch's cells to its key's recorded
/// columns and touches no other key's.
pub proof fn lemma_insert_content(b: BuilderModel, key: u32, batch: BatchModel, c: int)
    requires
        builder_wf(b),
        b.file.len() < u32::MAX,
        0 <= c < b.schema.len(),
    ensures
        key_col(insert_step(b, key, batch), key, c) == key_col(b, key, c) + batch.columns[c],
        forall|k: u32| k != key ==> key_col(insert_step(b, key, batch), k, c) == key_col(b, k, c),
{
    let keys = keys_of(b.entries);
    lemma_find_at(keys, key);
    let i = find_at(keys, key);
    let present = i < b.entries.len();
    let buf0 = if present {
        b.entries[i].buffered
    } else {
        Seq::<BatchModel>::empty()
    };
    let grp0 = if present {
        b.entries[i].groups
    } else {
        Seq::<u32>::empty()
    };
    let buf1 = buf0.push(batch);
    let b1 = insert_step(b, key, batch);
    let keys1 = keys_of(b1.entries);
    assert(buf1.drop_last() =~= buf0);
    assert(rows_of(buf1) == rows_of(buf0) + batch.rows);
    assert(crate::batch::concat_col(buf1, c) == crate::batch::concat_col(buf0, c)
        + batch.columns[c]);
    if present {
        assert(keys1 =~= keys);
        assert(entry_wf(b.entries[i], b.schema, b.flush_size, b.file.len() as int));
    } else {
        assert(keys1 =~= keys.push(key));
    }
    assert forall|k: u32| #[trigger] find_at(keys1, k) == (if find_at(keys, k) < keys.len() {
        find_at(keys, k)
    } else if k == key {
        i
    } else {
        keys1.len() as int
    }) by {
        assert(keys.len() == b.entries.len());
        assert(keys1.len() == b1.entries.len());
        lemma_find_at(keys, k);
        lemma_find_at(keys1, k);
        if present {
            assert(keys1 == keys);
        } else {
            assert(i == keys.len() as int);
            lemma_find_at_push(keys, key, k);
        }
    }
    if rows_of(buf1) >= b.flush_size {
        let gid = b.file.len() as u32;
        let grp1 = grp0.push(gid);
        assert(b1.entries[i].buffered =~= Seq::<BatchModel>::empty());
        assert(crate::batch::concat_col(b1.entries[i].buffered, c) =~= Seq::<u64>::empty());
        assert(grp1.drop_last() =~= grp0);
        assert(b1.file[gid as int] == group_of(b.schema, buf1));
        assert(b1.file.take(b.file.len() as int) =~= b.file);
        assert forall|j: int| 0 <= j < grp0.len() implies (#[trigger] grp0[j]) < b.file.len() by {
            assert(present);
        }
        lemma_groups_col_extend(b.file, b1.file, grp0, c);
        assert(group_of(b.schema, buf1).columns[c] == crate::batch::concat_col(buf1, c));
        assert(groups_col(b1.file, grp1, c) == groups_col(b.file, grp0, c)
            + crate::batch::concat_col(buf1, c));
        assert(key_col(b1, key, c) =~= key_col(b, key, c) + batch.columns[c]);
        assert forall|k: u32| k != key implies key_col(b1, k, c) == key_col(b, k, c) by {
            lemma_find_at(keys1, k);
            lemma_find_at(keys, k);
            let ik = find_at(keys, k);
            if ik < b.entries.len() {
                assert(keys[ik] == k);
                assert(ik != i);
                assert(b1.entries[ik] == b.entries[ik]);
                assert(entry_wf(b.entries[ik], b.schema, b.flush_size, b.file.len() as int));
                lemma_groups_col_extend(b.file, b1.file, b.entries[ik].groups, c);
            }
        }
    } else {
        assert(key_col(b1, key, c) =~= key_col(b, key, c) + batch.columns[c]);
        assert forall|k: u32| k != key implies key_col(b1, k, c) == key_col(b, k, c) by {
            lemma_find_at(keys, k);
            let ik = find_at(keys, k);
            if ik < b.entries.len() {
                assert(keys[ik] == k);
                assert(ik != i);
                assert(b1.entries[ik] == b.entries[ik]);
            }
        }
    }
}

/// Content accounting over a whole build: each key's recorded columns
/// grow by exactly the columns inserted under it, in insertion order.
pub proof fn lemma_run_content(b0: BuilderModel, ops: Seq<(u32, BatchModel)>, c: int)
    requires
        builder_wf(b0),
        forall|j: int|
            0 <= j < ops.len() ==> crate::batch::batch_wf((#[trigger] ops[j]).1) && ops[j].1.schema
                == b0.schema,
        run_in_bounds(b0, ops),
        0 <= c < b0.schema.len(),
    ensures
        forall|k: u32|
            #[trigger] key_col(run_inserts(b0, ops), k, c) == key_col(b0, k, c) + inserted_col(
                ops,
                k,
                c,
            ),
    decreases ops.len(),
{
    if ops.len() == 0 {
        assert forall|k: u32| #[trigger] key_col(run_inserts(b0, ops), k, c) == key_col(b0, k, c)
            + inserted_col(ops, k, c) by {
            assert(key_col(b0, k, c) + Seq::<u64>::empty() =~= key_col(b0, k, c));
        }
    } else {
        let rest = ops.drop_last();
        let (key, batch) = ops.last();
        let prev = run_inserts(b0, rest);
        lemma_run_content(b0, rest, c);
        lemma_run_accounts(b0, rest);
        lemma_insert_content(prev, key, batch, c);
        assert(run_inserts(b0, ops) == insert_step(prev, key, batch));
        assert forall|k: u32| #[trigger] key_col(run_inserts(b0, ops), k, c) == key_col(b0, k, c)
            + inserted_col(ops, k, c) by {
            assert(key_col(prev, k, c) == key_col(b0, k, c) + inserted_col(rest, k, c));
            if k == key {
                assert(key_col(insert_step(prev, key, batch), key, c) == key_col(prev, key, c)
                    + batch.columns[c]);
            } else {
                assert(key_col(insert_step(prev, key, batch), k, c) == key_col(prev, k, c));
                assert(key_col(b0, k, c) + (inserted_col(rest, k, c) + Seq::<u64>::empty())
                    =~= key_col(b0, k, c) + inserted_col(rest, k, c));
            }
            assert(inserted_col(ops, k, c) == inserted_col(rest, k, c) + (if key == k {
                batch.columns[c]
            } else {
                Seq::<u64>::empty()
            }));
            assert(key_col(b0, k, c) + (inserted_col(rest, k, c) + (if key == k {
                batch.columns[c]
            } else {
                Seq::<u64>::empty()
            })) =~= (key_col(b0, k, c) + inserted_col(rest, k, c)) + (if key == k {
                batch.columns[c]
            } else {
                Seq::<u64>::empty()
            }));
        }
    }
}

/// Content across `finish`: what the reader replays for a key, column by
/// column, is exactly what the builder had recorded for it.
pub proof fn lemma_finish_content(b: BuilderModel, c: int)
    requires
        builder_wf(b),
        b.file.len() + b.entries.len() <= u32::MAX,
        0 <= c < b.schema.len(),
    ensures
        forall|k: u32|
            has_key(b.entries, k) ==> #[trigger] reader_col(finish_step(b), k, c) == key_col(
                b,
                k,
                c,
            ),
{
    let r = finish_step(b);
    let n = b.entries.len() as int;
    assert(reader_keys_of(r.entries) =~= keys_of(b.entries));
    assert(b.entries.take(n) =~= b.entries);
    assert forall|k: u32| has_key(b.entries, k) implies #[trigger] reader_col(finish_step(b), k, c)
        == key_col(b, k, c) by {
        let keys = keys_of(b.entries);
        lemma_find_at(keys, k);
        let i = find_at(keys, k);
        let e = b.entries[i];
        assert(entry_wf(e, b.schema, b.flush_size, b.file.len() as int));
        lemma_flushed_len_le(b.entries, b.schema, 0, i);
        lemma_flushed_len_le(b.entries, b.schema, i, n);
        assert(flushed_groups(b.entries.take(0), b.schema) =~= Seq::<BatchModel>::empty());
        let pend_i = flushed_groups(b.entries.take(i), b.schema).len();
        let gid = (b.file.len() + pend_i) as u32;
        assert(gid as int == b.file.len() + pend_i);
        assert(r.file.take(b.file.len() as int) =~= b.file);
        lemma_groups_col_extend(b.file, r.file, e.groups, c);
        if e.buffered.len() > 0 {
            assert(r.entries[i].groups == e.groups.push(gid));
            assert(r.entries[i].groups.drop_last() =~= e.groups);
            lemma_flushed_take_step(b.entries, b.schema, i);
            lemma_flushed_prefix(b.entries, b.schema, i + 1);
            lemma_flushed_len_le(b.entries, b.schema, i + 1, n);
            let all = flushed_groups(b.entries, b.schema);
            let fj1 = flushed_groups(b.entries.take(i + 1), b.schema);
            assert(fj1 == flushed_groups(b.entries.take(i), b.schema) + seq![
                group_of(b.schema, e.buffered),
            ]);
            assert(fj1.len() <= all.len());
            assert(all.take(fj1.len() as int) == fj1);
            assert(fj1[pend_i as int] == all.take(fj1.len() as int)[pend_i as int]);
            assert(all[pend_i as int] == group_of(b.schema, e.buffered));
            assert(r.file[gid as int] == group_of(b.schema, e.buffered));
            assert(group_of(b.schema, e.buffered).columns[c] == crate::batch::concat_col(
                e.buffered,
                c,
            ));
            assert(groups_col(r.file, r.entries[i].groups, c) == groups_col(r.file, e.groups, c)
                + crate::batch::concat_col(e.buffered, c));
        } else {
            assert(r.entries[i].groups == e.groups);
            assert(crate::batch::concat_col(e.buffered, c) =~= Seq::<u64>::empty());
            assert(groups_col(r.file, e.groups, c) + Seq::<u64>::empty() =~= groups_col(
                r.file,
                e.groups,
                c,
            ));
        }
    }
}

proof fn lemma_replay_col_rec(file: Seq<BatchModel>, groups: Seq<u32>, c: int)
    ensures
        crate::batch::concat_col(groups.map_values(|g: u32| file[g as int]), c) == groups_col(
            file,
            groups,
            c,
        ),
    decreases groups.len(),
{
    let m = groups.map_values(|g: u32| file[g as int]);
    if groups.len() == 0 {
        assert(m.len() == 0);
    } else {
        lemma_replay_col_rec(file, groups.drop_last(), c);
        assert(m.drop_last() =~= groups.drop_last().map_values(|g: u32| file[g as int]));
        assert(m.last() == file[groups.last() as int]);
    }
}

/// Partition isolation, cell by cell: build from a fresh builder by any
/// sequence of inserts, finish, and replay a key — every column of the
/// replayed batches, joined in replay order, is exactly the same column
/// of the batches inserted under that key, joined in insertion order.
/// Rows of other keys can never appear.
pub proof fn lemma_content_completeness(
    b0: BuilderModel,
    ops: Seq<(u32, BatchModel)>,
    key: u32,
    c: int,
)
    requires
        builder_wf(b0),
        b0.entries.len() == 0,
        forall|j: int|
            0 <= j < ops.len() ==> crate::batch::batch_wf((#[trigger] ops[j]).1) && ops[j].1.schema
                == b0.schema,
        run_in_bounds(b0, ops),
        run_inserts(b0, ops).file.len() + run_inserts(b0, ops).entries.len() <= u32::MAX,
        0 <= c < b0.schema.len(),
        ops_contain(ops, key),
    ensures
        crate::batch::concat_col(replay(finish_step(run_inserts(b0, ops)), key).unwrap(), c)
            == inserted_col(ops, key, c),
{
    let bn = run_inserts(b0, ops);
    let r = finish_step(bn);
    lemma_run_accounts(b0, ops);
    lemma_run_content(b0, ops, c);
    lemma_finish_content(bn, c);
    assert(keys_of(b0.entries).len() == 0);
    assert(!has_key(b0.entries, key));
    assert(has_key(bn.entries, key));
    assert(key_col(b0, key, c) =~= Seq::<u64>::empty());
    assert(key_col(bn, key, c) =~= inserted_col(ops, key, c));
    assert(reader_keys_of(r.entries) =~= keys_of(bn.entries));
    lemma_find_at(reader_keys_of(r.entries), key);
    let i = find_at(reader_keys_of(r.entries), key);
    assert(replay(r, key).unwrap() == r.entries[i].groups.map_values(|g: u32| r.file[g as int]));
    lemma_replay_col_rec(r.file, r.entries[i].groups, c);
    assert(reader_col(r, key, c) == key_col(bn, key, c));
    assert(groups_col(r.file, r.entries[i].groups, c) == reader_col(r, key, c));
}

// ---------------------------------------------------------------------
// Flush policy
// ---------------------------------------------------------------------

/// Threshold flush: an insert leaves strictly fewer buffered rows than
/// the threshold for its key; reaching the threshold records one more
/// group at once — the next write position — and clears the buffer,
/// while staying under it only buffers the batch.
pub proof fn lemma_threshold_flush(b: BuilderModel, key: u32, batch: BatchModel)
    requires
        builder_wf(b),
    ensures
        buffered_rows(insert_step(b, key, batch), key) < b.flush_size,
        buffered_rows(b, key) + batch.rows >= b.flush_size ==> groups_for(
            insert_step(b, key, batch),
            key,
        ) == groups_for(b, key).push(b.file.len() as u32),
        buffered_rows(b, key) + batch.rows < b.flush_size ==> groups_for(
            insert_step(b, key, batch),
            key,
        ) == groups_for(b, key) && buffered_rows(insert_step(b, key, batch), key) == buffered_rows(
            b,
            key,
        ) + batch.rows,
{
    let keys = keys_of(b.entries);
    lemma_find_at(keys, key);
    let i = find_at(keys, key);
    let present = i < b.entries.len();
    let buf0 = if present {
        b.entries[i].buffered
    } else {
        Seq::<BatchModel>::empty()
    };
    let buf1 = buf0.push(batch);
    let b1 = insert_step(b, key, batch);
    let keys1 = keys_of(b1.entries);
    assert(buf1.drop_last() =~= buf0);
    assert(rows_of(buf1) == rows_of(buf0) + batch.rows);
    if present {
        assert(keys1 =~= keys);
        assert(entry_wf(b.entries[i], b.schema, b.flush_size, b.file.len() as int));
    } else {
        assert(keys1 =~= keys.push(key));
        lemma_find_at_push(keys, key, key);
    }
    assert(find_at(keys1, key) == i);
    if rows_of(buf1) >= b.flush_size {
        assert(b1.entries[i].buffered =~= Seq::<BatchModel>::empty());
        assert(rows_of(b1.entries[i].buffered) == 0);
    }
}

/// A key whose recorded rows have reached the threshold has been flushed
/// at least once already: the buffer alone never holds that many rows.
pub proof fn lemma_threshold_reached_implies_flushed(b: BuilderModel, key: u32)
    requires
        builder_wf(b),
        has_key(b.entries, key),
        total_rows(b, key) >= b.flush_size,
    ensures
        groups_for(b, key).len() >= 1,
{
    let keys = keys_of(b.entries);
    lemma_find_at(keys, key);
    let i = find_at(keys, key);
    assert(entry_wf(b.entries[i], b.schema, b.flush_size, b.file.len() as int));
    if b.entries[i].groups.len() == 0 {
        assert(sum_group_rows(b.file, b.entries[i].groups) == 0);
        assert(total_rows(b, key) == rows_of(b.entries[i].buffered));
        assert(rows_of(b.entries[i].buffered) < b.flush_size);
    }
}

/// A key whose rows never reached the threshold — no group was written
/// for it during the build, yet something of it is buffered — is flushed
/// exactly once, by `finish`.
pub proof fn lemma_small_key_single_group(b: BuilderModel, key: u32)
    requires
        builder_wf(b),
        b.file.len() + b.entries.len() <= u32::MAX,
        has_key(b.entries, key),
        groups_for(b, key).len() == 0,
    ensures
        reader_groups_for(finish_step(b), key).len() == 1,
{
    let r = finish_step(b);
    let keys = keys_of(b.entries);
    lemma_find_at(keys, key);
    let i = find_at(keys, key);
    assert(reader_keys_of(r.entries) =~= keys);
    assert(entry_wf(b.entries[i], b.schema, b.flush_size, b.file.len() as int));
    assert(b.entries[i].buffered.len() > 0);
}

// ---------------------------------------------------------------------
// Disjointness, absent keys, repeated reads
// ---------------------------------------------------------------------

/// Group-id disjointness: two distinct keys never share a recorded
/// group id.
pub proof fn lemma_groupid_disjoint(r: ReaderModel, k1: u32, k2: u32)
    requires
        reader_wf(r),
        k1 != k2,
    ensures
        forall|g: u32|
            reader_groups_for(r, k1).contains(g) ==> !reader_groups_for(r, k2).contains(g),
{
    let keys = reader_keys_of(r.entries);
    lemma_find_at(keys, k1);
    lemma_find_at(keys, k2);
    let i1 = find_at(keys, k1);
    let i2 = find_at(keys, k2);
    assert forall|g: u32| reader_groups_for(r, k1).contains(g) implies !reader_groups_for(
        r,
        k2,
    ).contains(g) by {
        if i1 < r.entries.len() && i2 < r.entries.len() {
            assert(keys[i1] == k1 && keys[i2] == k2);
            assert(i1 != i2);
            let j1 = choose|j: int|
                0 <= j < r.entries[i1].groups.len() && r.entries[i1].groups[j] == g;
            if reader_groups_for(r, k2).contains(g) {
                let j2 = choose|j: int|
                    0 <= j < r.entries[i2].groups.len() && r.entries[i2].groups[j] == g;
                let gs = crate::shuffler::reader_group_seqs(r.entries);
                assert(gs[i1] == r.entries[i1].groups);
                assert(gs[i2] == r.entries[i2].groups);
                assert(gs[i1][j1] != gs[i2][j2]);
            }
        }
    }
}

/// Missing key: after `finish`, a key never observed during the build is
/// reported as absent — never as an empty-but-present replay — and a
/// present key replays at least one batch.
pub proof fn lemma_missing_key(b: BuilderModel, key: u32)
    requires
        builder_wf(b),
        b.file.len() + b.entries.len() <= u32::MAX,
    ensures
        replay(finish_step(b), key) is None <==> !has_key(b.entries, key),
        replay(finish_step(b), key) is Some ==> replay(finish_step(b), key).unwrap().len() >= 1,
{
    let r = finish_step(b);
    assert(reader_keys_of(r.entries) =~= keys_of(b.entries));
    lemma_finish_step_wf(b);
    lemma_find_at(reader_keys_of(r.entries), key);
    let i = find_at(reader_keys_of(r.entries), key);
    if i < r.entries.len() {
        assert(reader_wf(r));
        assert(0 <= i < r.entries.len());
        assert(groups_wf(r.entries[i].groups, r.file.len() as int) && r.entries[i].groups.len()
            >= 1);
        assert(replay(r, key).unwrap().len() == r.entries[i].groups.len());
    }
}

/// Replay order: a key's batches come back in the order their groups
/// were written — the replayed group ids strictly increase.
pub proof fn lemma_replay_in_write_order(r: ReaderModel, key: u32)
    requires
        reader_wf(r),
        reader_has_key(r.entries, key),
    ensures
        forall|j1: int, j2: int|
            0 <= j1 < j2 < reader_groups_for(r, key).len() ==> reader_groups_for(r, key)[j1]
                < reader_groups_for(r, key)[j2],
{
    lemma_find_at(reader_keys_of(r.entries), key);
    let i = find_at(reader_keys_of(r.entries), key);
    assert(0 <= i < r.entries.len());
    assert(groups_wf(r.entries[i].groups, r.file.len() as int));
}

/// Idempotent read: the reader is immutable, so what a key replays is a
/// function of the reader state alone — two reads of the same key give
/// the same batches.
pub proof fn lemma_replay_idempotent(
    r: ReaderModel,
    key: u32,
    s1: Option<Seq<BatchModel>>,
    s2: Option<Seq<BatchModel>>,
)
    requires
        s1 == replay(r, key),
        s2 == replay(r, key),
    ensures
        s1 == s2,
{
}

} // verus!
