//! The shuffler core: a builder that buffers record batches per partition
//! key and spills a key's buffer as one contiguous group into a shared
//! append-only backing store once the buffered row count reaches the
//! flush threshold, and an immutable reader that replays, per key, exactly
//! the groups recorded for that key.
//!
//! The backing store is modeled as the sequence of groups written so far;
//! a group's identifier is its position in that sequence, assigned in
//! write order.

use vstd::prelude::*;
use crate::schema::{FieldModel, Schema};
use crate::batch::{
    batch_views, batch_wf, concat_batches, group_of, lemma_rows_of_take_le,
    lemma_rows_of_take_step, rows_of, Batch, BatchModel,
};

verus! {

/// Build-phase state of one partition key: the not-yet-flushed batches
/// and the ids of the groups already written for the key.
pub struct KeyState {
    pub key: u32,
    pub buffered: Vec<Batch>,
    pub groups: Vec<u32>,
}

/// Mathematical value of a `KeyState`.
#[verifier::ext_equal]
pub ghost struct KeyStateModel {
    pub key: u32,
    pub buffered: Seq<BatchModel>,
    pub groups: Seq<u32>,
}

impl View for KeyState {
    type V = KeyStateModel;

    open spec fn view(&self) -> KeyStateModel {
        KeyStateModel { key: self.key, buffered: batch_views(self.buffered@), groups: self.groups@ }
    }
}

/// Mathematical value of a `ShufflerBuilder`.
#[verifier::ext_equal]
pub ghost struct BuilderModel {
    pub schema: Seq<FieldModel>,
    pub flush_size: nat,
    pub entries: Seq<KeyStateModel>,
    pub file: Seq<BatchModel>,
}

/// Read-phase state of one partition key: the ids of its groups.
pub struct ReaderKey {
    pub key: u32,
    pub groups: Vec<u32>,
}

/// Mathematical value of a `ReaderKey`.
#[verifier::ext_equal]
pub ghost struct ReaderKeyModel {
    pub key: u32,
    pub groups: Seq<u32>,
}

impl View for ReaderKey {
    type V = ReaderKeyModel;

    open spec fn view(&self) -> ReaderKeyModel {
        ReaderKeyModel { key: self.key, groups: self.groups@ }
    }
}

/// Mathematical value of a `Shuffler`.
#[verifier::ext_equal]
pub ghost struct ReaderModel {
    pub entries: Seq<ReaderKeyModel>,
    pub file: Seq<BatchModel>,
}

// ---------------------------------------------------------------------
// Key lookup
// ---------------------------------------------------------------------

/// Position of the first occurrence of `key` in `keys`, or `keys.len()`
/// when absent.
pub open spec fn find_at(keys: Seq<u32>, key: u32) -> int
    decreases keys.len(),
{
    if keys.len() == 0 {
        0
    } else if keys[0] == key {
        0
    } else {
        1 + find_at(keys.drop_first(), key)
    }
}

pub proof fn lemma_find_at(keys: Seq<u32>, key: u32)
    ensures
        0 <= find_at(keys, key) <= keys.len(),
        find_at(keys, key) < keys.len() ==> keys[find_at(keys, key)] == key,
        forall|k: int| 0 <= k < find_at(keys, key) ==> keys[k] != key,
    decreases keys.len(),
{
    if keys.len() > 0 && keys[0] != key {
        lemma_find_at(keys.drop_first(), key);
        assert forall|k: int| 0 <= k < find_at(keys, key) implies keys[k] != key by {
            if k > 0 {
                assert(keys[k] == keys.drop_first()[k - 1]);
            }
        }
    }
}

/// The keys of the build-phase entries, in entry order.
pub open spec fn keys_of(entries: Seq<KeyStateModel>) -> Seq<u32> {
    entries.map_values(|e: KeyStateModel| e.key)
}

/// The keys of the read-phase entries, in entry order.
pub open spec fn reader_keys_of(entries: Seq<ReaderKeyModel>) -> Seq<u32> {
    entries.map_values(|e: ReaderKeyModel| e.key)
}

/// Whether `key` was observed during the build phase.
pub open spec fn has_key(entries: Seq<KeyStateModel>, key: u32) -> bool {
    find_at(keys_of(entries), key) < entries.len()
}

/// Whether the reader holds groups for `key`.
pub open spec fn reader_has_key(entries: Seq<ReaderKeyModel>, key: u32) -> bool {
    find_at(reader_keys_of(entries), key) < entries.len()
}

// ---------------------------------------------------------------------
// Well-formedness
// ---------------------------------------------------------------------

/// No key appears twice.
pub open spec fn distinct(keys: Seq<u32>) -> bool {
    forall|i: int, j: int| 0 <= i < j < keys.len() ==> keys[i] != keys[j]
}

/// Every group id points into the store, and ids are recorded in the
/// strictly increasing order they were assigned.
pub open spec fn groups_wf(groups: Seq<u32>, file_len: int) -> bool {
    &&& forall|j: int| 0 <= j < groups.len() ==> (#[trigger] groups[j]) < file_len
    &&& forall|j1: int, j2: int| 0 <= j1 < j2 < groups.len() ==> groups[j1] < groups[j2]
}

/// No group id appears under two different positions of `gs`: a group is
/// written on behalf of exactly one partition key.
pub open spec fn pairwise_disjoint(gs: Seq<Seq<u32>>) -> bool {
    forall|i1: int, j1: int, i2: int, j2: int|
        #![trigger gs[i1][j1], gs[i2][j2]]
        0 <= i1 < gs.len() && 0 <= i2 < gs.len() && i1 != i2 && 0 <= j1 < gs[i1].len() && 0 <= j2
            < gs[i2].len() ==> gs[i1][j1] != gs[i2][j2]
}

/// The group-id sequences of the build-phase entries.
pub open spec fn group_seqs(entries: Seq<KeyStateModel>) -> Seq<Seq<u32>> {
    entries.map_values(|e: KeyStateModel| e.groups)
}

/// The group-id sequences of the read-phase entries.
pub open spec fn reader_group_seqs(entries: Seq<ReaderKeyModel>) -> Seq<Seq<u32>> {
    entries.map_values(|e: ReaderKeyModel| e.groups)
}

/// A consistent build-phase entry: buffered batches conform to the
/// builder's schema, the buffer holds strictly fewer rows than the flush
/// threshold, the recorded groups are consistent with the store, and a
/// key is only ever present because something was inserted under it.
pub open spec fn entry_wf(
    e: KeyStateModel,
    schema: Seq<FieldModel>,
    flush_size: nat,
    file_len: int,
) -> bool {
    &&& rows_of(e.buffered) < flush_size
    &&& forall|j: int|
        0 <= j < e.buffered.len() ==> batch_wf(#[trigger] e.buffered[j]) && e.buffered[j].schema
            == schema
    &&& groups_wf(e.groups, file_len)
    &&& e.buffered.len() + e.groups.len() >= 1
}

/// The builder's invariant.
pub open spec fn builder_wf(b: BuilderModel) -> bool {
    &&& b.flush_size >= 1
    &&& distinct(keys_of(b.entries))
    &&& forall|i: int|
        0 <= i < b.entries.len() ==> entry_wf(
            #[trigger] b.entries[i],
            b.schema,
            b.flush_size,
            b.file.len() as int,
        )
    &&& forall|g: int|
        0 <= g < b.file.len() ==> batch_wf(#[trigger] b.file[g]) && b.file[g].schema == b.schema
    &&& pairwise_disjoint(group_seqs(b.entries))
}

/// The reader's invariant: distinct keys, every key with at least one
/// group, ids valid, ordered and disjoint across keys.
pub open spec fn reader_wf(r: ReaderModel) -> bool {
    &&& distinct(reader_keys_of(r.entries))
    &&& forall|i: int|
        0 <= i < r.entries.len() ==> groups_wf(
            (#[trigger] r.entries[i]).groups,
            r.file.len() as int,
        ) && r.entries[i].groups.len() >= 1
    &&& pairwise_disjoint(reader_group_seqs(r.entries))
}

// ---------------------------------------------------------------------
// Transitions
// ---------------------------------------------------------------------

/// Rows currently buffered for `key` (zero when the key is unknown).
pub open spec fn buffered_rows(b: BuilderModel, key: u32) -> nat {
    let i = find_at(keys_of(b.entries), key);
    if i < b.entries.len() {
        rows_of(b.entries[i].buffered)
    } else {
        0
    }
}

/// Group ids recorded for `key` so far (empty when the key is unknown).
pub open spec fn groups_for(b: BuilderModel, key: u32) -> Seq<u32> {
    let i = find_at(keys_of(b.entries), key);
    if i < b.entries.len() {
        b.entries[i].groups
    } else {
        Seq::empty()
    }
}

/// What one `insert` does: append the batch to the key's buffer (creating
/// the key on first sight); then, if the buffer now holds at least
/// `flush_size` rows, write the whole buffer as one new group — whose id
/// is the next write position of the store — record the id under the key,
/// and clear the buffer.
pub open spec fn insert_step(b: BuilderModel, key: u32, batch: BatchModel) -> BuilderModel {
    let i = find_at(keys_of(b.entries), key);
    let present = i < b.entries.len();
    let buf0 = if present {
        b.entries[i].buffered
    } else {
        Seq::<BatchModel>::empty()
    };
    let grp0 = if present {
        b.entries[i].groups
    } else {
        Seq::<u32>::empty()
    };
    let buf1 = buf0.push(batch);
    if rows_of(buf1) >= b.flush_size {
        let e = KeyStateModel {
            key,
            buffered: Seq::empty(),
            groups: grp0.push(b.file.len() as u32),
        };
        BuilderModel {
            schema: b.schema,
            flush_size: b.flush_size,
            entries: if present {
                b.entries.update(i, e)
            } else {
                b.entries.push(e)
            },
            file: b.file.push(group_of(b.schema, buf1)),
        }
    } else {
        let e = KeyStateModel { key, buffered: buf1, groups: grp0 };
        BuilderModel {
            schema: b.schema,
            flush_size: b.flush_size,
            entries: if present {
                b.entries.update(i, e)
            } else {
                b.entries.push(e)
            },
            file: b.file,
        }
    }
}

/// The groups a `finish` writes: one per entry with a non-empty buffer,
/// in entry order.
pub open spec fn flushed_groups(entries: Seq<KeyStateModel>, schema: Seq<FieldModel>) -> Seq<
    BatchModel,
>
    decreases entries.len(),
{
    if entries.len() == 0 {
        Seq::empty()
    } else {
        flushed_groups(entries.drop_last(), schema) + (if entries.last().buffered.len() > 0 {
            seq![group_of(schema, entries.last().buffered)]
        } else {
            Seq::<BatchModel>::empty()
        })
    }
}

/// One key's final mapping entry: its recorded ids, extended by `gid`
/// when a final flush writes its remaining buffer.
pub open spec fn finish_key(e: KeyStateModel, gid: u32) -> ReaderKeyModel {
    ReaderKeyModel {
        key: e.key,
        groups: if e.buffered.len() > 0 {
            e.groups.push(gid)
        } else {
            e.groups
        },
    }
}

/// What `finish` does: flush every non-empty buffer as one more group —
/// ids continuing in write order — and freeze the key → group-ids
/// mapping together with the completed store.
pub open spec fn finish_step(b: BuilderModel) -> ReaderModel {
    ReaderModel {
        entries: Seq::new(
            b.entries.len(),
            |i: int|
                finish_key(
                    b.entries[i],
                    (b.file.len() + flushed_groups(b.entries.take(i), b.schema).len()) as u32,
                ),
        ),
        file: b.file + flushed_groups(b.entries, b.schema),
    }
}

/// The batches `key_iter` replays for `key`: the stored groups recorded
/// for the key, in the order their ids were assigned — which is the
/// order the groups stand in the backing store. `None` when the key was
/// never observed.
pub open spec fn replay(r: ReaderModel, key: u32) -> Option<Seq<BatchModel>> {
    let i = find_at(reader_keys_of(r.entries), key);
    if i < r.entries.len() {
        Some(r.entries[i].groups.map_values(|g: u32| r.file[g as int]))
    } else {
        None
    }
}

/// Rows stored in the groups named by `groups`.
pub open spec fn sum_group_rows(file: Seq<BatchModel>, groups: Seq<u32>) -> nat
    decreases groups.len(),
{
    if groups.len() == 0 {
        0
    } else {
        sum_group_rows(file, groups.drop_last()) + file[groups.last() as int].rows
    }
}

/// Rows the builder has recorded for `key`: still buffered plus already
/// written as groups.
pub open spec fn total_rows(b: BuilderModel, key: u32) -> nat {
    let i = find_at(keys_of(b.entries), key);
    if i < b.entries.len() {
        rows_of(b.entries[i].buffered) + sum_group_rows(b.file, b.entries[i].groups)
    } else {
        0
    }
}

/// Rows the reader can retrieve for `key`.
pub open spec fn reader_rows(r: ReaderModel, key: u32) -> nat {
    let i = find_at(reader_keys_of(r.entries), key);
    if i < r.entries.len() {
        sum_group_rows(r.file, r.entries[i].groups)
    } else {
        0
    }
}

// ---------------------------------------------------------------------
// Facts about the finish transition
// ---------------------------------------------------------------------

/// Unfolds `flushed_groups` one step at the end of a prefix.
pub proof fn lemma_flushed_take_step(entries: Seq<KeyStateModel>, schema: Seq<FieldModel>, j: int)
    requires
        0 <= j < entries.len(),
    ensures
        flushed_groups(entries.take(j + 1), schema) == flushed_groups(entries.take(j), schema) + (
        if entries[j].buffered.len() > 0 {
            seq![group_of(schema, entries[j].buffered)]
        } else {
            Seq::<BatchModel>::empty()
        }),
    decreases entries.len(),
{
    assert(entries.take(j + 1).drop_last() =~= entries.take(j));
    assert(entries.take(j + 1).last() == entries[j]);
}

/// Between two prefixes, the flushed-group count grows by at most one
/// per entry, and never shrinks.
pub proof fn lemma_flushed_len_le(
    entries: Seq<KeyStateModel>,
    schema: Seq<FieldModel>,
    i: int,
    j: int,
)
    requires
        0 <= i <= j <= entries.len(),
    ensures
        flushed_groups(entries.take(i), schema).len() <= flushed_groups(
            entries.take(j),
            schema,
        ).len(),
        flushed_groups(entries.take(j), schema).len() - flushed_groups(
            entries.take(i),
            schema,
        ).len() <= j - i,
    decreases j - i,
{
    if i < j {
        lemma_flushed_len_le(entries, schema, i, j - 1);
        lemma_flushed_take_step(entries, schema, j - 1);
    }
}

/// `finish` establishes the reader invariant: the ids it assigns continue
/// past every id recorded during the build, one per flushed buffer, so
/// validity, ordering and disjointness carry over.
pub proof fn lemma_finish_step_wf(b: BuilderModel)
    requires
        builder_wf(b),
        b.file.len() + b.entries.len() <= u32::MAX,
    ensures
        reader_wf(finish_step(b)),
{
    let r = finish_step(b);
    let n = b.entries.len() as int;
    assert(reader_keys_of(r.entries) =~= keys_of(b.entries));
    // Assigned ids are exact: no truncation in the `u32` cast.
    assert forall|i: int| 0 <= i < n implies (#[trigger] r.entries[i]).key == b.entries[i].key
        && r.entries[i].groups == finish_key(
        b.entries[i],
        (b.file.len() + flushed_groups(b.entries.take(i), b.schema).len()) as u32,
    ).groups by {}
    assert forall|i: int| 0 <= i < n implies flushed_groups(b.entries.take(i), b.schema).len()
        <= i by {
        lemma_flushed_len_le(b.entries, b.schema, 0, i);
        assert(flushed_groups(b.entries.take(0), b.schema) =~= Seq::<BatchModel>::empty());
    }
    assert(b.entries.take(n) =~= b.entries);
    assert forall|i: int| 0 <= i < n implies groups_wf(
        (#[trigger] r.entries[i]).groups,
        r.file.len() as int,
    ) && r.entries[i].groups.len() >= 1 by {
        assert(entry_wf(b.entries[i], b.schema, b.flush_size, b.file.len() as int));
        let pend_i = flushed_groups(b.entries.take(i), b.schema).len();
        let gid = (b.file.len() + pend_i) as u32;
        assert(gid as int == b.file.len() + pend_i);
        if b.entries[i].buffered.len() > 0 {
            lemma_flushed_take_step(b.entries, b.schema, i);
            lemma_flushed_len_le(b.entries, b.schema, i + 1, n);
            assert(pend_i < flushed_groups(b.entries, b.schema).len());
            assert(r.entries[i].groups == b.entries[i].groups.push(gid));
            assert forall|j: int| 0 <= j < r.entries[i].groups.len() implies (
            #[trigger] r.entries[i].groups[j]) < r.file.len() by {
                if j < b.entries[i].groups.len() {
                    assert(r.entries[i].groups[j] == b.entries[i].groups[j]);
                }
            }
            assert forall|j1: int, j2: int| 0 <= j1 < j2 < r.entries[i].groups.len() implies
                r.entries[i].groups[j1] < r.entries[i].groups[j2] by {
                if j2 < b.entries[i].groups.len() {
                    assert(r.entries[i].groups[j1] == b.entries[i].groups[j1]);
                    assert(r.entries[i].groups[j2] == b.entries[i].groups[j2]);
                } else {
                    assert(r.entries[i].groups[j1] == b.entries[i].groups[j1]);
                    assert(b.entries[i].groups[j1] < b.file.len());
                    assert(r.entries[i].groups[j2] == gid);
                }
            }
        }
    }
    // Disjointness: old ids were disjoint; each fresh id is unique to its
    // entry, because the flushed-group count strictly grows at a flush.
    let gs1 = reader_group_seqs(r.entries);
    assert forall|i1: int, j1: int, i2: int, j2: int|
        #![trigger gs1[i1][j1], gs1[i2][j2]]
        0 <= i1 < gs1.len() && 0 <= i2 < gs1.len() && i1 != i2 && 0 <= j1 < gs1[i1].len() && 0 <= j2
            < gs1[i2].len() implies gs1[i1][j1] != gs1[i2][j2] by {
        assert(gs1[i1] == r.entries[i1].groups);
        assert(gs1[i2] == r.entries[i2].groups);
        assert(entry_wf(b.entries[i1], b.schema, b.flush_size, b.file.len() as int));
        assert(entry_wf(b.entries[i2], b.schema, b.flush_size, b.file.len() as int));
        let gs0 = group_seqs(b.entries);
        assert(gs0[i1] == b.entries[i1].groups);
        assert(gs0[i2] == b.entries[i2].groups);
        let old1 = j1 < b.entries[i1].groups.len();
        let old2 = j2 < b.entries[i2].groups.len();
        if old1 && old2 {
            assert(gs1[i1][j1] == gs0[i1][j1]);
            assert(gs1[i2][j2] == gs0[i2][j2]);
        } else if old1 && !old2 {
            assert(gs1[i1][j1] < b.file.len());
            assert(gs1[i2][j2] as int >= b.file.len());
        } else if !old1 && old2 {
            assert(gs1[i2][j2] < b.file.len());
            assert(gs1[i1][j1] as int >= b.file.len());
        } else {
            // Both are freshly assigned: their flushed-group counts differ.
            let ia = if i1 < i2 { i1 } else { i2 };
            let ib = if i1 < i2 { i2 } else { i1 };
            assert(b.entries[ia].buffered.len() > 0);
            lemma_flushed_take_step(b.entries, b.schema, ia);
            lemma_flushed_len_le(b.entries, b.schema, ia + 1, ib);
            assert(flushed_groups(b.entries.take(ia), b.schema).len() < flushed_groups(
                b.entries.take(ib),
                b.schema,
            ).len());
        }
    }
}

// ---------------------------------------------------------------------
// Invariant preservation
// ---------------------------------------------------------------------

/// `insert` preserves the builder invariant, as long as the store still
/// has room for a fresh `u32` group id.
pub proof fn lemma_insert_step_wf(b: BuilderModel, key: u32, batch: BatchModel)
    requires
        builder_wf(b),
        batch_wf(batch),
        batch.schema == b.schema,
        b.file.len() < u32::MAX,
    ensures
        builder_wf(insert_step(b, key, batch)),
{
    let keys = keys_of(b.entries);
    lemma_find_at(keys, key);
    let i = find_at(keys, key);
    let present = i < b.entries.len();
    let buf0 = if present {
        b.entries[i].buffered
    } else {
        Seq::<BatchModel>::empty()
    };
    let grp0 = if present {
        b.entries[i].groups
    } else {
        Seq::<u32>::empty()
    };
    let buf1 = buf0.push(batch);
    let b1 = insert_step(b, key, batch);
    let flush = rows_of(buf1) >= b.flush_size;
    let gid = b.file.len() as u32;
    assert(gid as int == b.file.len() as int);
    assert(buf1.drop_last() =~= buf0);
    assert(rows_of(buf1) == rows_of(buf0) + batch.rows);
    // Distinct keys are preserved.
    if present {
        assert(keys_of(b1.entries) =~= keys);
    } else {
        assert(keys_of(b1.entries) =~= keys.push(key));
    }
    assert(distinct(keys_of(b1.entries)));
    // Every batch of the grown buffer conforms.
    assert forall|j: int| 0 <= j < buf1.len() implies batch_wf(#[trigger] buf1[j])
        && buf1[j].schema == b.schema by {
        if j < buf0.len() {
            assert(entry_wf(b.entries[i], b.schema, b.flush_size, b.file.len() as int));
            assert(buf1[j] == buf0[j]);
        } else {
            assert(buf1[j] == batch);
        }
    }
    // Every id recorded so far points below the next write position.
    assert forall|i2: int, j2: int|
        0 <= i2 < b.entries.len() && 0 <= j2 < b.entries[i2].groups.len() implies (
    #[trigger] b.entries[i2].groups[j2]) < b.file.len() by {
        assert(entry_wf(b.entries[i2], b.schema, b.flush_size, b.file.len() as int));
    }
    if flush {
        crate::batch::lemma_concat_wf(b.schema, buf1);
        assert(b1.file[b.file.len() as int] == group_of(b.schema, buf1));
        assert forall|g: int| 0 <= g < b1.file.len() implies batch_wf(#[trigger] b1.file[g])
            && b1.file[g].schema == b.schema by {
            if g < b.file.len() {
                assert(b1.file[g] == b.file[g]);
            }
        }
    }
    // Every entry of the new state is well formed.
    assert forall|k: int| 0 <= k < b1.entries.len() implies entry_wf(
        #[trigger] b1.entries[k],
        b1.schema,
        b1.flush_size,
        b1.file.len() as int,
    ) by {
        if k != i {
            assert(b1.entries[k] == b.entries[k]);
            assert(entry_wf(b.entries[k], b.schema, b.flush_size, b.file.len() as int));
            assert forall|j: int| 0 <= j < b.entries[k].groups.len() implies (
            #[trigger] b.entries[k].groups[j]) < b1.file.len() by {
                assert(b.entries[k].groups[j] < b.file.len());
            }
        } else {
            let e1 = b1.entries[i];
            if flush {
                assert(e1.buffered =~= Seq::<BatchModel>::empty());
                assert(rows_of(e1.buffered) == 0);
                assert(e1.groups == grp0.push(gid));
                assert forall|j: int| 0 <= j < e1.groups.len() implies (#[trigger] e1.groups[j])
                    < b1.file.len() by {
                    if j < grp0.len() {
                        assert(e1.groups[j] == b.entries[i].groups[j]);
                    } else {
                        assert(e1.groups[j] == gid);
                    }
                }
                assert forall|j1: int, j2: int| 0 <= j1 < j2 < e1.groups.len() implies e1.groups[j1]
                    < e1.groups[j2] by {
                    assert(entry_wf(b.entries[i], b.schema, b.flush_size, b.file.len() as int));
                    if j2 < grp0.len() {
                        assert(e1.groups[j1] == grp0[j1] && e1.groups[j2] == grp0[j2]);
                    } else {
                        assert(e1.groups[j2] == gid);
                        assert(e1.groups[j1] == grp0[j1]);
                        assert(grp0[j1] == b.entries[i].groups[j1]);
                    }
                }
            } else {
                assert(e1.buffered == buf1);
                assert(e1.groups == grp0);
                if present {
                    assert(entry_wf(b.entries[i], b.schema, b.flush_size, b.file.len() as int));
                }
            }
        }
    }
    // Group ids stay disjoint across keys: the only new id is the next
    // write position, which is larger than every id recorded so far.
    let gs0 = group_seqs(b.entries);
    let gs1 = group_seqs(b1.entries);
    assert forall|i1: int, j1: int, i2: int, j2: int|
        #![trigger gs1[i1][j1], gs1[i2][j2]]
        0 <= i1 < gs1.len() && 0 <= i2 < gs1.len() && i1 != i2 && 0 <= j1 < gs1[i1].len() && 0 <= j2
            < gs1[i2].len() implies gs1[i1][j1] != gs1[i2][j2] by {
        assert(gs1[i1] == b1.entries[i1].groups);
        assert(gs1[i2] == b1.entries[i2].groups);
        if i1 != i && i2 != i {
            assert(b1.entries[i1] == b.entries[i1]);
            assert(b1.entries[i2] == b.entries[i2]);
            assert(gs0[i1] == b.entries[i1].groups);
            assert(gs0[i2] == b.entries[i2].groups);
        } else {
            let ia = if i1 == i { i2 } else { i1 };
            let ja = if i1 == i { j2 } else { j1 };
            let jb = if i1 == i { j1 } else { j2 };
            // `ia` is untouched; its ids are old, hence below `gid`.
            assert(b1.entries[ia] == b.entries[ia]);
            assert(b1.entries[ia].groups[ja] < b.file.len());
            if flush && jb == grp0.len() {
                assert(b1.entries[i].groups[jb] == gid);
            } else {
                // An old id of the touched entry: disjointness held before.
                assert(b1.entries[i].groups[jb] == grp0[jb]);
                assert(present);
                assert(gs0[i] == b.entries[i].groups);
                assert(gs0[ia] == b.entries[ia].groups);
            }
        }
    }
}

// ---------------------------------------------------------------------
// Executable builder
// ---------------------------------------------------------------------

fn find_index(entries: &Vec<KeyState>, key: u32) -> (i: usize)
    ensures
        i as int == find_at(keys_of(entries@.map_values(|e: KeyState| e@)), key),
        i <= entries@.len(),
{
    let ghost keys = keys_of(entries@.map_values(|e: KeyState| e@));
    let n = entries.len();
    let mut i: usize = 0;
    while i < n
        invariant
            n == entries@.len(),
            keys == keys_of(entries@.map_values(|e: KeyState| e@)),
            i <= n,
            forall|k: int| 0 <= k < i ==> keys[k] != key,
        decreases n - i,
    {
        if entries[i].key == key {
            proof {
                lemma_find_at(keys, key);
                assert(keys[i as int] == key);
            }
            return i;
        }
        i += 1;
    }
    proof {
        lemma_find_at(keys, key);
    }
    i
}

fn find_reader_index(entries: &Vec<ReaderKey>, key: u32) -> (i: usize)
    ensures
        i as int == find_at(reader_keys_of(entries@.map_values(|e: ReaderKey| e@)), key),
        i <= entries@.len(),
{
    let ghost keys = reader_keys_of(entries@.map_values(|e: ReaderKey| e@));
    let n = entries.len();
    let mut i: usize = 0;
    while i < n
        invariant
            n == entries@.len(),
            keys == reader_keys_of(entries@.map_values(|e: ReaderKey| e@)),
            i <= n,
            forall|k: int| 0 <= k < i ==> keys[k] != key,
        decreases n - i,
    {
        if entries[i].key == key {
            proof {
                lemma_find_at(keys, key);
                assert(keys[i as int] == key);
            }
            return i;
        }
        i += 1;
    }
    proof {
        lemma_find_at(keys, key);
    }
    i
}

/// Total row count of a buffered sequence.
fn buffered_total(batches: &Vec<Batch>) -> (r: usize)
    requires
        rows_of(batch_views(batches@)) <= usize::MAX,
    ensures
        r as nat == rows_of(batch_views(batches@)),
{
    let ghost views = batch_views(batches@);
    let n = batches.len();
    let mut total: usize = 0;
    let mut j: usize = 0;
    while j < n
        invariant
            n == batches@.len(),
            views == batch_views(batches@),
            j <= n,
            total as nat == rows_of(views.take(j as int)),
            rows_of(views) <= usize::MAX,
        decreases n - j,
    {
        proof {
            lemma_rows_of_take_step(views, j as int);
            lemma_rows_of_take_le(views, j + 1);
        }
        total = total + batches[j].num_rows;
        j += 1;
    }
    proof {
        assert(views.take(n as int) =~= views);
    }
    total
}

/// Ingests `(key, batch)` pairs, spilling per-key buffers as groups into
/// the backing store, until `finish` turns it into a `Shuffler`.
pub struct ShufflerBuilder {
    schema: Schema,
    flush_size: usize,
    entries: Vec<KeyState>,
    file: Vec<Batch>,
}

impl View for ShufflerBuilder {
    type V = BuilderModel;

    closed spec fn view(&self) -> BuilderModel {
        BuilderModel {
            schema: self.schema@,
            flush_size: self.flush_size as nat,
            entries: self.entries@.map_values(|e: KeyState| e@),
            file: batch_views(self.file@),
        }
    }
}

impl ShufflerBuilder {
    /// A fresh builder over an empty backing store, writing `schema` and
    /// flushing a key's buffer once it holds at least `flush_threshold`
    /// rows.
    pub fn try_new(schema: Schema, flush_threshold: usize) -> (r: ShufflerBuilder)
        requires
            flush_threshold >= 1,
        ensures
            r@ == (BuilderModel {
                schema: schema@,
                flush_size: flush_threshold as nat,
                entries: Seq::empty(),
                file: Seq::empty(),
            }),
            builder_wf(r@),
    {
        let r = ShufflerBuilder {
            schema,
            flush_size: flush_threshold,
            entries: Vec::new(),
            file: Vec::new(),
        };
        proof {
            assert(r@.entries =~= Seq::<KeyStateModel>::empty());
            assert(r@.file =~= Seq::<BatchModel>::empty());
        }
        r
    }

    /// Whether `batch` may be inserted: it is structurally consistent and
    /// carries this builder's schema (metadata aside). A mismatch is a
    /// caller bug; unverified callers can test this before `insert`.
    pub fn accepts(&self, batch: &Batch) -> (r: bool)
        ensures
            r == (batch_wf(batch@) && batch@.schema == self@.schema),
    {
        batch.is_consistent() && batch.schema.logical_eq(&self.schema)
    }

    /// Appends `batch` under `key`; once the key's buffer reaches the
    /// flush threshold, writes it as one group and records the group id.
    pub fn insert(&mut self, key: u32, batch: Batch)
        requires
            builder_wf(old(self)@),
            batch_wf(batch@),
            batch@.schema == old(self)@.schema,
            buffered_rows(old(self)@, key) + batch@.rows <= usize::MAX,
            old(self)@.file.len() < u32::MAX,
        ensures
            final(self)@ == insert_step(old(self)@, key, batch@),
            builder_wf(final(self)@),
    {
        let ghost b0 = self@;
        let ghost keys = keys_of(b0.entries);
        proof {
            lemma_find_at(keys, key);
        }
        let i = find_index(&self.entries, key);
        let ghost present = (i as int) < b0.entries.len();
        let ghost buf0 = if present {
            b0.entries[i as int].buffered
        } else {
            Seq::<BatchModel>::empty()
        };
        let ghost grp0 = if present {
            b0.entries[i as int].groups
        } else {
            Seq::<u32>::empty()
        };
        let ghost buf1 = buf0.push(batch@);
        if i == self.entries.len() {
            self.entries.push(KeyState { key, buffered: Vec::new(), groups: Vec::new() });
            proof {
                assert(batch_views(Seq::<Batch>::empty()) =~= Seq::<BatchModel>::empty());
            }
        }
        self.entries[i].buffered.push(batch);
        proof {
            assert(self@.entries[i as int].buffered =~= buf1);
            assert(self@.entries[i as int].groups =~= grp0);
            assert(buf1.drop_last() =~= buf0);
            assert(rows_of(buf1) == rows_of(buf0) + batch@.rows);
        }
        let total = buffered_total(&self.entries[i].buffered);
        if total >= self.flush_size {
            let gid: u32 = self.file.len() as u32;
            proof {
                assert(gid as int == b0.file.len() as int);
            }
            self.entries[i].groups.push(gid);
            proof {
                assert forall|j: int| 0 <= j < buf1.len() implies batch_wf(#[trigger] buf1[j])
                    && buf1[j].schema == self.schema@ by {
                    if j < buf0.len() {
                        assert(entry_wf(
                            b0.entries[i as int],
                            b0.schema,
                            b0.flush_size,
                            b0.file.len() as int,
                        ));
                        assert(buf1[j] == buf0[j]);
                    } else {
                        assert(buf1[j] == batch@);
                    }
                }
                assert(rows_of(buf1) <= usize::MAX);
                assert(batch_views(self.entries@[i as int].buffered@) == buf1);
                assert forall|j: int| 0 <= j < self.entries@[i as int].buffered@.len() implies
                    batch_wf(#[trigger] self.entries@[i as int].buffered@[j]@)
                    && self.entries@[i as int].buffered@[j]@.schema == self.schema@ by {
                    assert(self.entries@[i as int].buffered@[j]@ == buf1[j]);
                }
            }
            let group = concat_batches(&self.schema, &self.entries[i].buffered);
            self.file.push(group);
            self.entries[i].buffered = Vec::new();
            proof {
                assert(batch_views(Seq::<Batch>::empty()) =~= Seq::<BatchModel>::empty());
                let b1 = insert_step(b0, key, batch@);
                if present {
                    assert(self@.entries =~= b1.entries);
                } else {
                    assert(self@.entries =~= b1.entries);
                }
                assert(self@.file =~= b1.file);
                assert(self@ =~= b1);
                lemma_insert_step_wf(b0, key, batch@);
            }
        } else {
            proof {
                let b1 = insert_step(b0, key, batch@);
                assert(self@.entries =~= b1.entries);
                assert(self@.file =~= b1.file);
                assert(self@ =~= b1);
                lemma_insert_step_wf(b0, key, batch@);
            }
        }
    }

    /// Flushes every key's remaining non-empty buffer as one final group,
    /// finalizes the backing store, and consumes the builder into an
    /// immutable `Shuffler`. No insert is possible afterwards.
    pub fn finish(self) -> (r: Shuffler)
        requires
            builder_wf(self@),
            self@.file.len() + self@.entries.len() <= u32::MAX,
        ensures
            r@ == finish_step(self@),
            reader_wf(r@),
    {
        let ghost b0 = self@;
        let mut this = self;
        let n = this.entries.len();
        let mut rentries: Vec<ReaderKey> = Vec::new();
        let mut i: usize = 0;
        while i < n
            invariant
                builder_wf(b0),
                b0.file.len() + b0.entries.len() <= u32::MAX,
                b0.flush_size <= usize::MAX,
                n == b0.entries.len(),
                i <= n,
                this.schema@ == b0.schema,
                this.entries@.map_values(|e: KeyState| e@) == b0.entries,
                batch_views(this.file@) == b0.file + flushed_groups(
                    b0.entries.take(i as int),
                    b0.schema,
                ),
                rentries@.len() == i,
                forall|k: int| 0 <= k < i ==> (#[trigger] rentries@[k])@ == finish_key(
                    b0.entries[k],
                    (b0.file.len() + flushed_groups(b0.entries.take(k), b0.schema).len()) as u32,
                ),
            decreases n - i,
        {
            let ghost e = b0.entries[i as int];
            proof {
                assert(entry_wf(e, b0.schema, b0.flush_size, b0.file.len() as int));
                lemma_flushed_take_step(b0.entries, b0.schema, i as int);
                lemma_flushed_len_le(b0.entries, b0.schema, 0, i as int);
                assert(flushed_groups(b0.entries.take(0), b0.schema) =~= Seq::<
                    BatchModel,
                >::empty());
                assert(this.entries@[i as int]@ == e);
            }
            let mut groups2 = dup_ids(&this.entries[i].groups);
            if this.entries[i].buffered.len() > 0 {
                proof {
                    assert(batch_views(this.file@).len() == this.file@.len());
                    assert(this.file@.len() == b0.file.len() + flushed_groups(
                        b0.entries.take(i as int),
                        b0.schema,
                    ).len());
                    assert(this.file@.len() < u32::MAX);
                    assert(batch_views(this.entries@[i as int].buffered@) == e.buffered);
                    assert forall|j: int| 0 <= j < this.entries@[i as int].buffered@.len() implies
                        batch_wf(#[trigger] this.entries@[i as int].buffered@[j]@)
                        && this.entries@[i as int].buffered@[j]@.schema == this.schema@ by {
                        assert(this.entries@[i as int].buffered@[j]@ == e.buffered[j]);
                    }
                    assert(rows_of(e.buffered) < b0.flush_size);
                    assert(rows_of(e.buffered) <= usize::MAX);
                }
                let gid: u32 = this.file.len() as u32;
                let group = concat_batches(&this.schema, &this.entries[i].buffered);
                let ghost gv = group@;
                let ghost file_before = this.file@;
                proof {
                    assert(gv == group_of(b0.schema, e.buffered));
                }
                this.file.push(group);
                groups2.push(gid);
                proof {
                    assert(this.file@ == file_before.push(group));
                    assert(batch_views(this.file@) =~= batch_views(file_before).push(gv));
                    assert(flushed_groups(b0.entries.take(i + 1), b0.schema) == flushed_groups(
                        b0.entries.take(i as int),
                        b0.schema,
                    ) + seq![gv]);
                    assert(batch_views(this.file@) =~= b0.file + flushed_groups(
                        b0.entries.take(i + 1),
                        b0.schema,
                    ));
                }
            } else {
                proof {
                    assert(batch_views(this.file@) =~= b0.file + flushed_groups(
                        b0.entries.take(i + 1),
                        b0.schema,
                    ));
                }
            }
            rentries.push(ReaderKey { key: this.entries[i].key, groups: groups2 });
            i += 1;
        }
        let r = Shuffler::new(rentries, this.file);
        proof {
            assert(b0.entries.take(n as int) =~= b0.entries);
            assert(r@.entries =~= finish_step(b0).entries);
            assert(r@ =~= finish_step(b0));
            lemma_finish_step_wf(b0);
        }
        r
    }
}

/// A fresh copy of a group-id list.
fn dup_ids(ids: &Vec<u32>) -> (r: Vec<u32>)
    ensures
        r@ == ids@,
{
    let mut r: Vec<u32> = Vec::new();
    let n = ids.len();
    let mut i: usize = 0;
    while i < n
        invariant
            n == ids@.len(),
            i <= n,
            r@ == ids@.take(i as int),
        decreases n - i,
    {
        r.push(ids[i]);
        proof {
            assert(r@ =~= ids@.take(i + 1));
        }
        i += 1;
    }
    proof {
        assert(ids@.take(n as int) =~= ids@);
    }
    r
}

/// Immutable result of a finished build: the key → group-ids mapping and
/// the completed backing store. Reading never mutates it, so independent
/// replays of the same key always agree.
pub struct Shuffler {
    entries: Vec<ReaderKey>,
    file: Vec<Batch>,
}

impl View for Shuffler {
    type V = ReaderModel;

    closed spec fn view(&self) -> ReaderModel {
        ReaderModel {
            entries: self.entries@.map_values(|e: ReaderKey| e@),
            file: batch_views(self.file@),
        }
    }
}

impl Shuffler {
    /// Wraps a finalized key → group-ids mapping and backing store.
    fn new(entries: Vec<ReaderKey>, file: Vec<Batch>) -> (r: Shuffler)
        ensures
            r@.entries == entries@.map_values(|e: ReaderKey| e@),
            r@.file == batch_views(file@),
    {
        Shuffler { entries, file }
    }

    /// Replays the batches recorded for `key`: `None` when the key was
    /// never inserted; otherwise every group written for the key, as
    /// fresh batches, in the order the groups stand in the backing store.
    /// A present key always yields at least one group.
    pub fn key_iter(&self, key: u32) -> (r: Option<Vec<Batch>>)
        requires
            reader_wf(self@),
        ensures
            (r is Some) == reader_has_key(self@.entries, key),
            replay(self@, key) is Some <==> r is Some,
            r is Some ==> batch_views(r.unwrap()@) == replay(self@, key).unwrap(),
            r is Some ==> r.unwrap()@.len() >= 1,
    {
        let ghost keys = reader_keys_of(self@.entries);
        let i = find_reader_index(&self.entries, key);
        proof {
            lemma_find_at(keys, key);
        }
        if i == self.entries.len() {
            return None;
        }
        let ghost target = self@.entries[i as int].groups.map_values(
            |g: u32| self@.file[g as int],
        );
        let groups = &self.entries[i].groups;
        let m = groups.len();
        let mut out: Vec<Batch> = Vec::new();
        let mut j: usize = 0;
        while j < m
            invariant
                reader_wf(self@),
                i < self.entries@.len(),
                groups == &self.entries@[i as int].groups,
                m == groups@.len(),
                j <= m,
                target == self@.entries[i as int].groups.map_values(
                    |g: u32| self@.file[g as int],
                ),
                out@.len() == j,
                forall|k: int| 0 <= k < j ==> (#[trigger] out@[k])@ == target[k],
            decreases m - j,
        {
            let g = groups[j];
            proof {
                assert(groups_wf(self@.entries[i as int].groups, self@.file.len() as int));
                assert(self@.entries[i as int].groups[j as int] < self@.file.len());
                assert(self@.file[g as int] == self.file@[g as int]@);
            }
            out.push(self.file[g as usize].duplicate());
            j += 1;
        }
        proof {
            assert(batch_views(out@) =~= target);
            assert(self@.entries[i as int].groups.len() >= 1);
        }
        Some(out)
    }
}

} // verus!
