//! Indexing of checkpoints: from what a full node returns for a checkpoint to
//! the records that the store keeps of it.
use vstd::prelude::*;
use vstd::seq_lib::lemma_flatten_concat;

use crate::transactions::{
    event_views, index_transactions, successful_of, transactions_error, transactions_error_of,
    transactions_indexed,
};
use crate::indexed::{
    BatchError, CheckpointDataToCommit, IndexedCheckpoint, IndexerError, IndexedDeletedObject, IndexedObject, IndexedObjectView, IndexedPackage, IndexedPackageView,
    TransactionObjectChangesToCommit,
};
use crate::sui_model::copy_bytes;
use crate::objects::{
    find_object, get_deleted_objects, get_latest_objects, holds_id, is_discarded, is_latest_at,
    is_latest_version, latest_object, latest_version_is, lemma_latest_unique, views,
};
use crate::sui_model::{
    ChangedObjectRef, CheckpointData, CheckpointTransaction, Object, ObjectId, ObjectRef,
    ObjectView,
};

verus! {

// ---------------------------------------------------------------------------
// Output objects
// ---------------------------------------------------------------------------
/// The output objects of the transactions `txs`, transaction after transaction.
pub open spec fn output_views(txs: Seq<CheckpointTransaction>) -> Seq<ObjectView>
    decreases txs.len(),
{
    if txs.len() == 0 {
        Seq::empty()
    } else {
        output_views(txs.drop_last()) + views(txs.last().output_objects@)
    }
}

/// Appends copies of `objects` to `dst`.
fn append_objects(dst: &mut Vec<Object>, objects: &Vec<Object>)
    ensures
        views(final(dst)@) == views(old(dst)@) + views(objects@),
{
    let ghost start = views(dst@);
    let mut i: usize = 0;
    while i < objects.len()
        invariant
            i <= objects.len(),
            views(dst@) == start + views(objects@).take(i as int),
        decreases objects.len() - i,
    {
        let ghost before = dst@;
        dst.push(objects[i].duplicate());
        proof {
            assert(views(dst@) =~= views(before).push(objects@[i as int]@));
            assert(views(objects@).take(i + 1) =~= views(objects@).take(i as int).push(
                objects@[i as int]@,
            ));
        }
        i = i + 1;
    }
    assert(views(objects@).take(i as int) =~= views(objects@));
}

impl CheckpointData {
    /// The output objects of the checkpoint's transactions, transaction after
    /// transaction, each in its transaction's order.
    pub fn output_objects(&self) -> (r: Vec<Object>)
        ensures
            views(r@) == output_views(self.transactions@),
    {
        let mut r: Vec<Object> = Vec::new();
        let mut i: usize = 0;
        proof {
            assert(views(r@) =~= Seq::<ObjectView>::empty());
            assert(self.transactions@.take(0) =~= Seq::<CheckpointTransaction>::empty());
        }
        while i < self.transactions.len()
            invariant
                i <= self.transactions.len(),
                views(r@) == output_views(self.transactions@.take(i as int)),
            decreases self.transactions.len() - i,
        {
            append_objects(&mut r, &self.transactions[i].output_objects);
            proof {
                assert(self.transactions@.take(i + 1).drop_last() =~= self.transactions@.take(
                    i as int,
                ));
            }
            i = i + 1;
        }
        assert(self.transactions@.take(i as int) =~= self.transactions@);
        r
    }
}

// ---------------------------------------------------------------------------
// Deleted objects
// ---------------------------------------------------------------------------
/// The records of the objects that transaction `tx` deleted.
pub open spec fn deleted_of_tx(tx: CheckpointTransaction, checkpoint: u64) -> Seq<
    IndexedDeletedObject,
> {
    let refs = tx.effects.deleted@ + tx.effects.wrapped@ + tx.effects.unwrapped_then_deleted@;
    refs.map_values(
        |r: ObjectRef|
            IndexedDeletedObject {
                object_id: r.object_id,
                object_version: r.version,
                checkpoint_sequence_number: checkpoint,
                tx_digest: tx.transaction.digest,
            },
    )
}

/// The records of the objects that the transactions `txs` deleted,
/// transaction after transaction.
pub open spec fn deleted_objects_spec(txs: Seq<CheckpointTransaction>, checkpoint: u64) -> Seq<
    IndexedDeletedObject,
>
    decreases txs.len(),
{
    if txs.len() == 0 {
        Seq::empty()
    } else {
        deleted_objects_spec(txs.drop_last(), checkpoint) + deleted_of_tx(txs.last(), checkpoint)
    }
}

/// `rec` records an object reference that a transaction of `txs` deleted,
/// wrapped, or unwrapped and deleted: with that object's identifier and
/// version, checkpoint `checkpoint` and that transaction's digest.
pub open spec fn records_deletion(
    txs: Seq<CheckpointTransaction>,
    checkpoint: u64,
    rec: IndexedDeletedObject,
) -> bool {
    exists|i: int, r: ObjectRef|
        #![trigger txs[i].effects.deleted@.contains(r)]
        #![trigger txs[i].effects.wrapped@.contains(r)]
        #![trigger txs[i].effects.unwrapped_then_deleted@.contains(r)]
        0 <= i < txs.len() && (txs[i].effects.deleted@.contains(r)
            || txs[i].effects.wrapped@.contains(r)
            || txs[i].effects.unwrapped_then_deleted@.contains(r)) && rec == (IndexedDeletedObject {
            object_id: r.object_id,
            object_version: r.version,
            checkpoint_sequence_number: checkpoint,
            tx_digest: txs[i].transaction.digest,
        })
}

/// The deleted-object records of a checkpoint are exactly one per object
/// reference that a transaction of it deleted, wrapped, or unwrapped and
/// deleted: each with that object's identifier and version, the checkpoint's
/// sequence number and that transaction's digest.
pub proof fn lemma_deleted_objects_exact(txs: Seq<CheckpointTransaction>, checkpoint: u64)
    ensures
        forall|i: int, r: ObjectRef|
            0 <= i < txs.len() && (txs[i].effects.deleted@.contains(r)
                || txs[i].effects.wrapped@.contains(r)
                || txs[i].effects.unwrapped_then_deleted@.contains(r)) ==> #[trigger] deleted_objects_spec(
                txs,
                checkpoint,
            ).contains(
                (IndexedDeletedObject {
                    object_id: r.object_id,
                    object_version: r.version,
                    checkpoint_sequence_number: checkpoint,
                    tx_digest: (#[trigger] txs[i]).transaction.digest,
                }),
            ),
        forall|k: int|
            0 <= k < deleted_objects_spec(txs, checkpoint).len() ==> records_deletion(
                txs,
                checkpoint,
                #[trigger] deleted_objects_spec(txs, checkpoint)[k],
            ),
    decreases txs.len(),
{
    if txs.len() > 0 {
        let n = txs.len() - 1;
        let init = txs.drop_last();
        lemma_deleted_objects_exact(init, checkpoint);
        let before = deleted_objects_spec(init, checkpoint);
        let t = txs.last();
        let refs = t.effects.deleted@ + t.effects.wrapped@ + t.effects.unwrapped_then_deleted@;
        let these = deleted_of_tx(t, checkpoint);
        let all = deleted_objects_spec(txs, checkpoint);
        assert(all == before + these);
        assert(txs[n] == t);
        assert forall|i: int, r: ObjectRef|
            0 <= i < txs.len() && (txs[i].effects.deleted@.contains(r)
                || txs[i].effects.wrapped@.contains(r)
                || txs[i].effects.unwrapped_then_deleted@.contains(r)) implies #[trigger] all.contains(
                (IndexedDeletedObject {
                    object_id: r.object_id,
                    object_version: r.version,
                    checkpoint_sequence_number: checkpoint,
                    tx_digest: (#[trigger] txs[i]).transaction.digest,
                }),
            ) by {
            let e = IndexedDeletedObject {
                object_id: r.object_id,
                object_version: r.version,
                checkpoint_sequence_number: checkpoint,
                tx_digest: txs[i].transaction.digest,
            };
            if i < n {
                assert(init[i] == txs[i]);
                assert(before.contains(e));
                let k = choose|k: int| 0 <= k < before.len() && before[k] == e;
                assert(all[k] == e);
            } else {
                let d = t.effects.deleted@;
                let w = t.effects.wrapped@;
                let u = t.effects.unwrapped_then_deleted@;
                let q: int = if d.contains(r) {
                    choose|q: int| 0 <= q < d.len() && d[q] == r
                } else if w.contains(r) {
                    d.len() + choose|q: int| 0 <= q < w.len() && w[q] == r
                } else {
                    d.len() + w.len() + choose|q: int| 0 <= q < u.len() && u[q] == r
                };
                assert(refs[q] == r);
                assert(these[q] == e);
                assert(all[before.len() + q] == e);
            }
        }
        assert forall|k: int| 0 <= k < all.len() implies records_deletion(txs, checkpoint, #[trigger] all[k]) by {
            if k < before.len() {
                assert(all[k] == before[k]);
                assert(records_deletion(init, checkpoint, before[k]));
                let (i, r) = choose|i: int, r: ObjectRef|
                    #![trigger init[i].effects.deleted@.contains(r)]
                    #![trigger init[i].effects.wrapped@.contains(r)]
                    #![trigger init[i].effects.unwrapped_then_deleted@.contains(r)]
                    0 <= i < init.len() && (init[i].effects.deleted@.contains(r)
                        || init[i].effects.wrapped@.contains(r)
                        || init[i].effects.unwrapped_then_deleted@.contains(r)) && before[k] == (
                    IndexedDeletedObject {
                        object_id: r.object_id,
                        object_version: r.version,
                        checkpoint_sequence_number: checkpoint,
                        tx_digest: init[i].transaction.digest,
                    });
                assert(init[i] == txs[i]);
                if init[i].effects.deleted@.contains(r) {
                    assert(txs[i].effects.deleted@.contains(r));
                } else if init[i].effects.wrapped@.contains(r) {
                    assert(txs[i].effects.wrapped@.contains(r));
                } else {
                    assert(txs[i].effects.unwrapped_then_deleted@.contains(r));
                }
            } else {
                let q = k - before.len();
                let r = refs[q];
                assert(all[k] == these[q]);
                let d = t.effects.deleted@;
                let w = t.effects.wrapped@;
                let u = t.effects.unwrapped_then_deleted@;
                if q < d.len() {
                    assert(d[q] == r);
                    assert(txs[n].effects.deleted@.contains(r));
                } else if q < d.len() + w.len() {
                    assert(w[q - d.len()] == r);
                    assert(txs[n].effects.wrapped@.contains(r));
                } else {
                    assert(u[q - d.len() - w.len()] == r);
                    assert(txs[n].effects.unwrapped_then_deleted@.contains(r));
                }
            }
        }
    }
}

/// Version `v` of object `id` is among the deleted objects `deleted`.
pub open spec fn is_deleted(deleted: Seq<IndexedDeletedObject>, id: ObjectId, v: u64) -> bool {
    exists|k: int|
        0 <= k < deleted.len() && #[trigger] deleted[k].object_id == id && deleted[k].object_version
            == v
}

/// Whether version `v` of object `id` is among `deleted`.
fn contains_deleted(deleted: &Vec<IndexedDeletedObject>, id: ObjectId, v: u64) -> (r: bool)
    ensures
        r == is_deleted(deleted@, id, v),
{
    let mut i: usize = 0;
    while i < deleted.len()
        invariant
            i <= deleted.len(),
            forall|k: int|
                0 <= k < i ==> !(#[trigger] deleted@[k].object_id == id && deleted@[k].object_version
                    == v),
        decreases deleted.len() - i,
    {
        if deleted[i].object_id == id && deleted[i].object_version == v {
            assert(deleted@[i as int].object_id == id);
            return true;
        }
        i = i + 1;
    }
    false
}

/// Whether the pair `(id, v)` is among `pairs`.
fn contains_version(pairs: &Vec<(ObjectId, u64)>, id: ObjectId, v: u64) -> (r: bool)
    ensures
        r == pairs@.contains((id, v)),
{
    let mut i: usize = 0;
    while i < pairs.len()
        invariant
            i <= pairs.len(),
            forall|k: int| 0 <= k < i ==> #[trigger] pairs@[k] != (id, v),
        decreases pairs.len() - i,
    {
        if pairs[i].0 == id && pairs[i].1 == v {
            assert(pairs@[i as int] == (id, v));
            return true;
        }
        i = i + 1;
    }
    false
}

// ---------------------------------------------------------------------------
// Live objects
// ---------------------------------------------------------------------------
/// The checkpoint leaves version `c` of an object live: no later output of the
/// checkpoint superseded it, and no transaction of the checkpoint deleted it.
pub open spec fn stays_live(
    c: ChangedObjectRef,
    outputs: Seq<ObjectView>,
    deleted: Seq<IndexedDeletedObject>,
) -> bool {
    !is_discarded(outputs, c.object_ref.object_id, c.object_ref.version) && !is_deleted(
        deleted,
        c.object_ref.object_id,
        c.object_ref.version,
    )
}

/// The live objects among the changes `changes`, in their order.
pub open spec fn live_of_changes(
    changes: Seq<ChangedObjectRef>,
    outputs: Seq<ObjectView>,
    deleted: Seq<IndexedDeletedObject>,
    checkpoint: u64,
) -> Seq<IndexedObjectView>
    decreases changes.len(),
{
    if changes.len() == 0 {
        Seq::empty()
    } else {
        let prev = live_of_changes(changes.drop_last(), outputs, deleted, checkpoint);
        let c = changes.last();
        if stays_live(c, outputs, deleted) {
            prev.push(
                IndexedObjectView {
                    checkpoint_sequence_number: checkpoint,
                    object: latest_object(outputs, c.object_ref.object_id),
                },
            )
        } else {
            prev
        }
    }
}

/// The live objects among the changes of the transactions `txs`, transaction
/// after transaction.
pub open spec fn live_objects_spec(
    txs: Seq<CheckpointTransaction>,
    outputs: Seq<ObjectView>,
    deleted: Seq<IndexedDeletedObject>,
    checkpoint: u64,
) -> Seq<IndexedObjectView>
    decreases txs.len(),
{
    if txs.len() == 0 {
        Seq::empty()
    } else {
        live_objects_spec(txs.drop_last(), outputs, deleted, checkpoint) + live_of_changes(
            txs.last().effects.changed_objects@,
            outputs,
            deleted,
            checkpoint,
        )
    }
}

/// All the changes of the transactions `txs`, transaction after transaction.
pub open spec fn all_changes(txs: Seq<CheckpointTransaction>) -> Seq<ChangedObjectRef> {
    txs.map_values(|t: CheckpointTransaction| t.effects.changed_objects@).flatten()
}

/// Whether a change names a version that no output of `outputs` superseded and
/// that no record of `deleted` names.
pub open spec fn kept(outputs: Seq<ObjectView>, deleted: Seq<IndexedDeletedObject>) -> spec_fn(
    ChangedObjectRef,
) -> bool {
    |c: ChangedObjectRef|
        !is_discarded(outputs, c.object_ref.object_id, c.object_ref.version) && !is_deleted(
            deleted,
            c.object_ref.object_id,
            c.object_ref.version,
        )
}

/// The record of a change's object at checkpoint `checkpoint`: its latest
/// output in `outputs`.
pub open spec fn latest_record(outputs: Seq<ObjectView>, checkpoint: u64) -> spec_fn(
    ChangedObjectRef,
) -> IndexedObjectView {
    |c: ChangedObjectRef|
        IndexedObjectView {
            checkpoint_sequence_number: checkpoint,
            object: latest_object(outputs, c.object_ref.object_id),
        }
}

/// The live objects of one transaction's changes are exactly those changes,
/// in order, whose version was neither superseded nor deleted, whatever their
/// write kind, each recorded as its object's latest output.
pub proof fn lemma_live_of_changes_exact(
    changes: Seq<ChangedObjectRef>,
    outputs: Seq<ObjectView>,
    deleted: Seq<IndexedDeletedObject>,
    checkpoint: u64,
)
    ensures
        live_of_changes(changes, outputs, deleted, checkpoint) == changes.filter(
            kept(outputs, deleted),
        ).map_values(latest_record(outputs, checkpoint)),
    decreases changes.len(),
{
    let p = kept(outputs, deleted);
    let f = latest_record(outputs, checkpoint);
    reveal(Seq::filter);
    if changes.len() > 0 {
        lemma_live_of_changes_exact(changes.drop_last(), outputs, deleted, checkpoint);
        let before = changes.drop_last().filter(p);
        if p(changes.last()) {
            assert(changes.filter(p) == before.push(changes.last()));
            assert(before.push(changes.last()).map_values(f) =~= before.map_values(f).push(
                f(changes.last()),
            ));
        } else {
            assert(changes.filter(p) == before);
        }
    } else {
        assert(changes.filter(p).map_values(f) =~= Seq::<IndexedObjectView>::empty());
    }
}

/// The live objects of a checkpoint are exactly its changes, transaction
/// after transaction, whose version no later output superseded and no
/// transaction deleted, whatever their write kind (created, mutated or
/// unwrapped): one record per such change, holding its object's latest output.
pub proof fn lemma_live_objects_exact(
    txs: Seq<CheckpointTransaction>,
    outputs: Seq<ObjectView>,
    deleted: Seq<IndexedDeletedObject>,
    checkpoint: u64,
)
    ensures
        live_objects_spec(txs, outputs, deleted, checkpoint) == all_changes(txs).filter(
            kept(outputs, deleted),
        ).map_values(latest_record(outputs, checkpoint)),
    decreases txs.len(),
{
    let p = kept(outputs, deleted);
    let f = latest_record(outputs, checkpoint);
    let g = |t: CheckpointTransaction| t.effects.changed_objects@;
    if txs.len() == 0 {
        assert(txs.map_values(g) =~= Seq::<Seq<ChangedObjectRef>>::empty());
        assert(all_changes(txs) =~= Seq::<ChangedObjectRef>::empty());
        assert(all_changes(txs).filter(p).map_values(f) =~= Seq::<IndexedObjectView>::empty());
    } else {
        let init = txs.drop_last();
        let last = txs.last().effects.changed_objects@;
        lemma_live_objects_exact(init, outputs, deleted, checkpoint);
        lemma_live_of_changes_exact(last, outputs, deleted, checkpoint);
        assert(txs.map_values(g) =~= init.map_values(g) + seq![last]);
        lemma_flatten_concat(init.map_values(g), seq![last]);
        seq![last].lemma_flatten_one_element();
        assert(all_changes(txs) == all_changes(init) + last);
        Seq::filter_distributes_over_add(all_changes(init), last, p);
        assert((all_changes(init).filter(p) + last.filter(p)).map_values(f) =~= all_changes(
            init,
        ).filter(p).map_values(f) + last.filter(p).map_values(f));
    }
}

/// Every change of a checkpoint's transaction whose version no output
/// superseded and no transaction deleted, whatever its write kind, has a
/// record of its object's latest output among the live objects; and the live
/// objects are exactly as many as those changes.
pub proof fn lemma_live_objects_complete(
    txs: Seq<CheckpointTransaction>,
    outputs: Seq<ObjectView>,
    deleted: Seq<IndexedDeletedObject>,
    checkpoint: u64,
    i: int,
    j: int,
)
    requires
        0 <= i < txs.len(),
        0 <= j < txs[i].effects.changed_objects@.len(),
        !is_discarded(
            outputs,
            txs[i].effects.changed_objects@[j].object_ref.object_id,
            txs[i].effects.changed_objects@[j].object_ref.version,
        ),
        !is_deleted(
            deleted,
            txs[i].effects.changed_objects@[j].object_ref.object_id,
            txs[i].effects.changed_objects@[j].object_ref.version,
        ),
    ensures
        live_objects_spec(txs, outputs, deleted, checkpoint).contains(
            latest_record(outputs, checkpoint)(txs[i].effects.changed_objects@[j]),
        ),
        live_objects_spec(txs, outputs, deleted, checkpoint).len() == all_changes(txs).filter(
            kept(outputs, deleted),
        ).len(),
    decreases txs.len(),
{
    lemma_live_objects_exact(txs, outputs, deleted, checkpoint);
    let c = txs[i].effects.changed_objects@[j];
    let p = kept(outputs, deleted);
    let f = latest_record(outputs, checkpoint);
    let g = |t: CheckpointTransaction| t.effects.changed_objects@;
    let init = txs.drop_last();
    let last = txs.last().effects.changed_objects@;
    assert(txs.map_values(g) =~= init.map_values(g) + seq![last]);
    lemma_flatten_concat(init.map_values(g), seq![last]);
    seq![last].lemma_flatten_one_element();
    assert(all_changes(txs) == all_changes(init) + last);
    Seq::filter_distributes_over_add(all_changes(init), last, p);
    if i == txs.len() - 1 {
        assert(last[j] == c);
        last.lemma_filter_contains(p, j);
        let k = choose|k: int| 0 <= k < last.filter(p).len() && last.filter(p)[k] == c;
        let off = all_changes(init).filter(p).len();
        assert(all_changes(txs).filter(p)[off + k] == c);
        assert(all_changes(txs).filter(p).map_values(f)[off + k] == f(c));
    } else {
        lemma_live_objects_complete(init, outputs, deleted, checkpoint, i, j);
        lemma_live_objects_exact(init, outputs, deleted, checkpoint);
        assert(init[i] == txs[i]);
        let k = choose|k: int|
            0 <= k < live_objects_spec(init, outputs, deleted, checkpoint).len()
                && live_objects_spec(init, outputs, deleted, checkpoint)[k] == f(c);
        assert(all_changes(txs).filter(p)[k] == all_changes(init).filter(p)[k]);
        assert(all_changes(txs).filter(p).map_values(f)[k] == f(c));
    }
}

/// Every change that the checkpoint leaves live names the latest version of
/// its object among the checkpoint's outputs.
pub open spec fn live_changes_are_latest(data: CheckpointData) -> bool {
    let outputs = output_views(data.transactions@);
    let deleted = deleted_objects_spec(data.transactions@, data.checkpoint_summary.sequence_number);
    forall|i: int, j: int|
        0 <= i < data.transactions@.len() && 0 <= j
            < data.transactions@[i].effects.changed_objects@.len() && stays_live(
            #[trigger] data.transactions@[i].effects.changed_objects@[j],
            outputs,
            deleted,
        ) ==> latest_version_is(
            outputs,
            data.transactions@[i].effects.changed_objects@[j].object_ref.object_id,
            data.transactions@[i].effects.changed_objects@[j].object_ref.version,
        )
}

/// Every change of `changes` that stays live names its object's latest output.
pub open spec fn changes_name_latest(
    changes: Seq<ChangedObjectRef>,
    outputs: Seq<ObjectView>,
    deleted: Seq<IndexedDeletedObject>,
) -> bool {
    forall|j: int|
        0 <= j < changes.len() && stays_live(#[trigger] changes[j], outputs, deleted)
            ==> latest_version_is(outputs, changes[j].object_ref.object_id, changes[j].object_ref.version)
}

/// Every record of `live` is of checkpoint `checkpoint`, holds the latest
/// output of its object, and that version was neither superseded nor deleted.
pub open spec fn live_records_sound(
    live: Seq<IndexedObjectView>,
    outputs: Seq<ObjectView>,
    deleted: Seq<IndexedDeletedObject>,
    checkpoint: u64,
) -> bool {
    forall|k: int|
        0 <= k < live.len() ==> {
            &&& (#[trigger] live[k]).checkpoint_sequence_number == checkpoint
            &&& is_latest_version(outputs, live[k].object)
            &&& !is_discarded(outputs, live[k].object.id, live[k].object.version)
            &&& !is_deleted(deleted, live[k].object.id, live[k].object.version)
        }
}

/// The live objects of one transaction's changes are sound.
pub proof fn lemma_live_of_changes_sound(
    changes: Seq<ChangedObjectRef>,
    outputs: Seq<ObjectView>,
    deleted: Seq<IndexedDeletedObject>,
    checkpoint: u64,
)
    requires
        changes_name_latest(changes, outputs, deleted),
    ensures
        live_records_sound(live_of_changes(changes, outputs, deleted, checkpoint), outputs, deleted, checkpoint),
    decreases changes.len(),
{
    if changes.len() > 0 {
        let t = changes.drop_last();
        assert forall|j: int| 0 <= j < t.len() && stays_live(#[trigger] t[j], outputs, deleted) implies latest_version_is(
            outputs,
            t[j].object_ref.object_id,
            t[j].object_ref.version,
        ) by {
            assert(t[j] == changes[j]);
        }
        lemma_live_of_changes_sound(t, outputs, deleted, checkpoint);
        let c = changes.last();
        let prev = live_of_changes(t, outputs, deleted, checkpoint);
        if stays_live(c, outputs, deleted) {
            assert(changes[changes.len() - 1] == c);
            assert(latest_version_is(outputs, c.object_ref.object_id, c.object_ref.version));
            let k = choose|k: int|
                #[trigger] is_latest_at(outputs, k) && outputs[k].id == c.object_ref.object_id
                    && outputs[k].version == c.object_ref.version;
            let m = choose|m: int| #[trigger] is_latest_at(outputs, m) && outputs[m].id == c.object_ref.object_id;
            lemma_latest_unique(outputs, k, m);
            let o = latest_object(outputs, c.object_ref.object_id);
            assert(o == outputs[k]);
            assert(is_latest_version(outputs, o));
            let live = live_of_changes(changes, outputs, deleted, checkpoint);
            assert forall|q: int| 0 <= q < live.len() implies {
                &&& (#[trigger] live[q]).checkpoint_sequence_number == checkpoint
                &&& is_latest_version(outputs, live[q].object)
                &&& !is_discarded(outputs, live[q].object.id, live[q].object.version)
                &&& !is_deleted(deleted, live[q].object.id, live[q].object.version)
            } by {
                if q < prev.len() {
                    assert(live[q] == prev[q]);
                }
            }
        }
    }
}

/// Indexing never keeps as live an object version that a later output of the
/// checkpoint superseded or that a transaction of the checkpoint deleted:
/// each live record holds its object's latest output in the checkpoint.
pub proof fn lemma_live_objects_sound(data: CheckpointData)
    requires
        live_changes_are_latest(data),
    ensures
        live_records_sound(
            live_objects_spec(
                data.transactions@,
                output_views(data.transactions@),
                deleted_objects_spec(data.transactions@, data.checkpoint_summary.sequence_number),
                data.checkpoint_summary.sequence_number,
            ),
            output_views(data.transactions@),
            deleted_objects_spec(data.transactions@, data.checkpoint_summary.sequence_number),
            data.checkpoint_summary.sequence_number,
        ),
{
    let txs = data.transactions@;
    let outputs = output_views(txs);
    let deleted = deleted_objects_spec(txs, data.checkpoint_summary.sequence_number);
    lemma_live_objects_sound_upto(data, txs.len() as int);
    assert(txs.take(txs.len() as int) =~= txs);
}

/// The live records of the first `n` transactions are sound.
proof fn lemma_live_objects_sound_upto(data: CheckpointData, n: int)
    requires
        live_changes_are_latest(data),
        0 <= n <= data.transactions@.len(),
    ensures
        live_records_sound(
            live_objects_spec(
                data.transactions@.take(n),
                output_views(data.transactions@),
                deleted_objects_spec(data.transactions@, data.checkpoint_summary.sequence_number),
                data.checkpoint_summary.sequence_number,
            ),
            output_views(data.transactions@),
            deleted_objects_spec(data.transactions@, data.checkpoint_summary.sequence_number),
            data.checkpoint_summary.sequence_number,
        ),
    decreases n,
{
    let txs = data.transactions@;
    let outputs = output_views(txs);
    let seq = data.checkpoint_summary.sequence_number;
    let deleted = deleted_objects_spec(txs, seq);
    if n > 0 {
        lemma_live_objects_sound_upto(data, n - 1);
        assert(txs.take(n).drop_last() =~= txs.take(n - 1));
        assert(txs.take(n).last() == txs[n - 1]);
        let changes = txs[n - 1].effects.changed_objects@;
        assert forall|j: int| 0 <= j < changes.len() && stays_live(#[trigger] changes[j], outputs, deleted) implies latest_version_is(
            outputs,
            changes[j].object_ref.object_id,
            changes[j].object_ref.version,
        ) by {
            assert(changes[j] == data.transactions@[n - 1].effects.changed_objects@[j]);
        }
        lemma_live_of_changes_sound(changes, outputs, deleted, seq);
        let a = live_objects_spec(txs.take(n - 1), outputs, deleted, seq);
        let b = live_of_changes(changes, outputs, deleted, seq);
        let live = live_objects_spec(txs.take(n), outputs, deleted, seq);
        assert(live == a + b);
        assert forall|q: int| 0 <= q < live.len() implies {
            &&& (#[trigger] live[q]).checkpoint_sequence_number == seq
            &&& is_latest_version(outputs, live[q].object)
            &&& !is_discarded(outputs, live[q].object.id, live[q].object.version)
            &&& !is_deleted(deleted, live[q].object.id, live[q].object.version)
        } by {
            if q < a.len() {
                assert(live[q] == a[q]);
            } else {
                assert(live[q] == b[q - a.len()]);
            }
        }
    } else {
        assert(txs.take(0) =~= Seq::<CheckpointTransaction>::empty());
    }
}

/// The view of a vector of indexed objects.
pub open spec fn indexed_object_views(v: Seq<IndexedObject>) -> Seq<IndexedObjectView> {
    v.map_values(|o: IndexedObject| o@)
}

/// The records of the objects that the checkpoint's transactions deleted,
/// transaction after transaction.
fn deleted_objects_of(data: &CheckpointData) -> (r: Vec<IndexedDeletedObject>)
    ensures
        r@ == deleted_objects_spec(data.transactions@, data.checkpoint_summary.sequence_number),
{
    let checkpoint_seq = data.checkpoint_summary.sequence_number;
    let ghost txs = data.transactions@;
    let mut deleted: Vec<IndexedDeletedObject> = Vec::new();
    let mut i: usize = 0;
    proof {
        assert(txs.take(0) =~= Seq::<CheckpointTransaction>::empty());
    }
    while i < data.transactions.len()
        invariant
            i <= data.transactions.len(),
            txs == data.transactions@,
            checkpoint_seq == data.checkpoint_summary.sequence_number,
            deleted@ == deleted_objects_spec(txs.take(i as int), checkpoint_seq),
        decreases data.transactions.len() - i,
    {
        let tx = &data.transactions[i];
        let refs = get_deleted_objects(&tx.effects);
        let ghost before = deleted@;
        let mut j: usize = 0;
        while j < refs.len()
            invariant
                j <= refs.len(),
                deleted@ == before + deleted_of_tx(*tx, checkpoint_seq).take(j as int),
                refs@ == tx.effects.deleted@ + tx.effects.wrapped@
                    + tx.effects.unwrapped_then_deleted@,
            decreases refs.len() - j,
        {
            let d = refs[j];
            deleted.push(
                IndexedDeletedObject {
                    object_id: d.object_id,
                    object_version: d.version,
                    checkpoint_sequence_number: checkpoint_seq,
                    tx_digest: tx.transaction.digest,
                },
            );
            proof {
                assert(deleted_of_tx(*tx, checkpoint_seq).take(j + 1) =~= deleted_of_tx(
                    *tx,
                    checkpoint_seq,
                ).take(j as int).push(deleted_of_tx(*tx, checkpoint_seq)[j as int]));
                assert(deleted@ =~= before + deleted_of_tx(*tx, checkpoint_seq).take(j + 1));
            }
            j = j + 1;
        }
        proof {
            assert(deleted_of_tx(*tx, checkpoint_seq).take(j as int) =~= deleted_of_tx(
                *tx,
                checkpoint_seq,
            ));
            assert(txs.take(i + 1).drop_last() =~= txs.take(i as int));
            assert(txs.take(i + 1).last() == *tx);
        }
        i = i + 1;
    }
    proof {
        assert(txs.take(i as int) =~= txs);
    }
    deleted
}

/// The objects that a checkpoint deleted, and the objects it left live.
///
/// Deleted: for each transaction in order, the objects it deleted, wrapped,
/// or unwrapped and deleted. Live: for each transaction in order, each object
/// it created, mutated or unwrapped, unless a later output of the checkpoint
/// superseded that version or a transaction of the checkpoint deleted it; each
/// as the checkpoint's latest output of that object.
pub fn index_objects(data: &CheckpointData) -> (r: TransactionObjectChangesToCommit)
    requires
        live_changes_are_latest(*data),
    ensures
        r.deleted_objects@ == deleted_objects_spec(
            data.transactions@,
            data.checkpoint_summary.sequence_number,
        ),
        indexed_object_views(r.changed_objects@) == live_objects_spec(
            data.transactions@,
            output_views(data.transactions@),
            deleted_objects_spec(data.transactions@, data.checkpoint_summary.sequence_number),
            data.checkpoint_summary.sequence_number,
        ),
{
    let checkpoint_seq = data.checkpoint_summary.sequence_number;
    let ghost txs = data.transactions@;

    // The deleted objects, with the transaction that deleted them.
    let deleted = deleted_objects_of(data);
    let ghost dels = deleted@;

    // The latest version of each output object, and the superseded versions.
    let outputs = data.output_objects();
    let ghost outs = views(outputs@);
    let (latest_objects, intermediate_versions) = get_latest_objects(&outputs);

    // The live objects.
    let mut changed: Vec<IndexedObject> = Vec::new();
    let mut i: usize = 0;
    proof {
        assert(indexed_object_views(changed@) =~= Seq::<IndexedObjectView>::empty());
    }
    while i < data.transactions.len()
        invariant
            i <= data.transactions.len(),
            txs == data.transactions@,
            checkpoint_seq == data.checkpoint_summary.sequence_number,
            outs == output_views(txs),
            dels == deleted_objects_spec(txs, checkpoint_seq),
            deleted@ == dels,
            live_changes_are_latest(*data),
            forall|a: int| 0 <= a < latest_objects.len() ==> #[trigger] is_latest_version(
                outs,
                latest_objects@[a]@,
            ),
            forall|k: int| 0 <= k < outputs.len() ==> #[trigger] holds_id(views(latest_objects@), outputs@[k].id),
            views(outputs@) == outs,
            forall|id: ObjectId, v: u64|
                intermediate_versions@.contains((id, v)) <==> #[trigger] is_discarded(outs, id, v),
            indexed_object_views(changed@) == live_objects_spec(
                txs.take(i as int),
                outs,
                dels,
                checkpoint_seq,
            ),
        decreases data.transactions.len() - i,
    {
        let tx = &data.transactions[i];
        let ghost changes = tx.effects.changed_objects@;
        let ghost before = indexed_object_views(changed@);
        let mut j: usize = 0;
        proof {
            assert(changes.take(0) =~= Seq::<ChangedObjectRef>::empty());
        }
        while j < tx.effects.changed_objects.len()
            invariant
                j <= tx.effects.changed_objects.len(),
                changes == tx.effects.changed_objects@,
                tx == data.transactions@[i as int],
                i < data.transactions.len(),
                txs == data.transactions@,
                checkpoint_seq == data.checkpoint_summary.sequence_number,
                outs == output_views(txs),
                dels == deleted_objects_spec(txs, checkpoint_seq),
                deleted@ == dels,
                live_changes_are_latest(*data),
                forall|a: int| 0 <= a < latest_objects.len() ==> #[trigger] is_latest_version(
                    outs,
                    latest_objects@[a]@,
                ),
                forall|k: int| 0 <= k < outputs.len() ==> #[trigger] holds_id(views(latest_objects@), outputs@[k].id),
                views(outputs@) == outs,
                forall|id: ObjectId, v: u64|
                    intermediate_versions@.contains((id, v)) <==> #[trigger] is_discarded(outs, id, v),
                indexed_object_views(changed@) == before + live_of_changes(
                    changes.take(j as int),
                    outs,
                    dels,
                    checkpoint_seq,
                ),
            decreases tx.effects.changed_objects.len() - j,
        {
            let c = tx.effects.changed_objects[j];
            let id = c.object_ref.object_id;
            let version = c.object_ref.version;
            proof {
                assert(changes.take(j + 1).drop_last() =~= changes.take(j as int));
                assert(changes.take(j + 1).last() == c);
            }
            let superseded = contains_version(&intermediate_versions, id, version);
            let removed = contains_deleted(&deleted, id, version);
            if !superseded && !removed {
                proof {
                    assert(stays_live(data.transactions@[i as int].effects.changed_objects@[j as int], outs, dels));
                    assert(latest_version_is(outs, id, version));
                }
                let ghost k = choose|k: int| #[trigger] is_latest_at(outs, k) && outs[k].id == id && outs[k].version == version;
                proof {
                    assert(holds_id(views(latest_objects@), outputs@[k].id));
                }
                let found = find_object(&latest_objects, id);
                match found {
                    Some(p) => {
                        let ghost before_j = indexed_object_views(changed@);
                        proof {
                            assert(is_latest_version(outs, latest_objects@[p as int]@));
                            let m = choose|m: int|
                                #[trigger] is_latest_at(outs, m) && latest_objects@[p as int]@ == outs[m];
                            lemma_latest_unique(outs, m, k);
                            let q = choose|q: int| #[trigger] is_latest_at(outs, q) && outs[q].id == id;
                            lemma_latest_unique(outs, q, k);
                            assert(latest_object(outs, id) == latest_objects@[p as int]@);
                        }
                        changed.push(
                            IndexedObject {
                                checkpoint_sequence_number: checkpoint_seq,
                                object: latest_objects[p].duplicate(),
                            },
                        );
                        proof {
                            assert(indexed_object_views(changed@) =~= before_j.push(
                                IndexedObjectView {
                                    checkpoint_sequence_number: checkpoint_seq,
                                    object: latest_object(outs, id),
                                },
                            ));
                        }
                    },
                    None => {
                        proof {
                            let a = choose|a: int|
                                0 <= a < views(latest_objects@).len() && #[trigger] views(
                                    latest_objects@,
                                )[a].id == id;
                            assert(latest_objects@[a].id == id);
                            assert(false);
                        }
                    },
                }
            } else {
                proof {
                    assert(!stays_live(c, outs, dels));
                }
            }
            j = j + 1;
        }
        proof {
            assert(changes.take(j as int) =~= changes);
            assert(txs.take(i + 1).drop_last() =~= txs.take(i as int));
            assert(txs.take(i + 1).last() == *tx);
        }
        i = i + 1;
    }
    proof {
        assert(txs.take(i as int) =~= txs);
    }
    TransactionObjectChangesToCommit { changed_objects: changed, deleted_objects: deleted }
}


// ---------------------------------------------------------------------------
// Packages
// ---------------------------------------------------------------------------
/// The packages among `objects`, in their order, as published in checkpoint
/// `checkpoint`.
pub open spec fn packages_of_objects(objects: Seq<ObjectView>, checkpoint: u64) -> Seq<
    IndexedPackageView,
>
    decreases objects.len(),
{
    if objects.len() == 0 {
        Seq::empty()
    } else {
        let prev = packages_of_objects(objects.drop_last(), checkpoint);
        let o = objects.last();
        if o.is_package {
            prev.push(
                IndexedPackageView {
                    package_id: o.id,
                    move_package: o.contents,
                    checkpoint_sequence_number: checkpoint,
                },
            )
        } else {
            prev
        }
    }
}

/// Whether an object is a package.
pub open spec fn is_package_object() -> spec_fn(ObjectView) -> bool {
    |o: ObjectView| o.is_package
}

/// The package record of an object at checkpoint `checkpoint`.
pub open spec fn package_record(checkpoint: u64) -> spec_fn(ObjectView) -> IndexedPackageView {
    |o: ObjectView|
        IndexedPackageView {
            package_id: o.id,
            move_package: o.contents,
            checkpoint_sequence_number: checkpoint,
        }
}

/// The packages among some objects are exactly those objects that are
/// packages, in order, each with its identifier, its contents and the
/// checkpoint's sequence number.
pub proof fn lemma_packages_are_package_objects(objects: Seq<ObjectView>, checkpoint: u64)
    ensures
        packages_of_objects(objects, checkpoint) == objects.filter(is_package_object()).map_values(
            package_record(checkpoint),
        ),
    decreases objects.len(),
{
    let p = is_package_object();
    let f = package_record(checkpoint);
    reveal(Seq::filter);
    if objects.len() > 0 {
        lemma_packages_are_package_objects(objects.drop_last(), checkpoint);
        let before = objects.drop_last().filter(p);
        if p(objects.last()) {
            assert(objects.filter(p) == before.push(objects.last()));
            assert(before.push(objects.last()).map_values(f) =~= before.map_values(f).push(
                f(objects.last()),
            ));
        } else {
            assert(objects.filter(p) == before);
        }
    } else {
        assert(objects.filter(p).map_values(f) =~= Seq::<IndexedPackageView>::empty());
    }
}

/// The outputs of a checkpoint's transactions are all their output objects,
/// transaction after transaction, each in its own order.
pub proof fn lemma_output_views_flatten(txs: Seq<CheckpointTransaction>)
    ensures
        output_views(txs) == txs.map_values(
            |t: CheckpointTransaction| views(t.output_objects@),
        ).flatten(),
    decreases txs.len(),
{
    let g = |t: CheckpointTransaction| views(t.output_objects@);
    if txs.len() == 0 {
        assert(txs.map_values(g) =~= Seq::<Seq<ObjectView>>::empty());
    } else {
        let init = txs.drop_last();
        let last = views(txs.last().output_objects@);
        lemma_output_views_flatten(init);
        assert(txs.map_values(g) =~= init.map_values(g) + seq![last]);
        lemma_flatten_concat(init.map_values(g), seq![last]);
        seq![last].lemma_flatten_one_element();
    }
}

/// The packages among the output objects of one checkpoint.
pub open spec fn packages_of_checkpoint(data: CheckpointData) -> Seq<IndexedPackageView> {
    packages_of_objects(output_views(data.transactions@), data.checkpoint_summary.sequence_number)
}

/// The packages among the output objects of the checkpoints `checkpoints`,
/// checkpoint after checkpoint.
pub open spec fn index_packages_spec(checkpoints: Seq<CheckpointData>) -> Seq<IndexedPackageView>
    decreases checkpoints.len(),
{
    if checkpoints.len() == 0 {
        Seq::empty()
    } else {
        index_packages_spec(checkpoints.drop_last()) + packages_of_checkpoint(checkpoints.last())
    }
}

/// The views of a vector of packages.
pub open spec fn package_views(v: Seq<IndexedPackage>) -> Seq<IndexedPackageView> {
    v.map_values(|p: IndexedPackage| p@)
}

/// A copy of a package.
fn copy_package(p: &IndexedPackage) -> (r: IndexedPackage)
    ensures
        r@ == p@,
{
    IndexedPackage {
        package_id: p.package_id,
        move_package: copy_bytes(&p.move_package),
        checkpoint_sequence_number: p.checkpoint_sequence_number,
    }
}

/// Appends to `dst` the packages among `objects`, as published in checkpoint
/// `checkpoint`.
fn append_packages(dst: &mut Vec<IndexedPackage>, objects: &Vec<Object>, checkpoint: u64)
    ensures
        package_views(final(dst)@) == package_views(old(dst)@) + packages_of_objects(
            views(objects@),
            checkpoint,
        ),
{
    let ghost start = package_views(dst@);
    let ghost objs = views(objects@);
    let mut i: usize = 0;
    proof {
        assert(objs.take(0) =~= Seq::<ObjectView>::empty());
        assert(package_views(dst@) =~= start + packages_of_objects(objs.take(0), checkpoint));
    }
    while i < objects.len()
        invariant
            i <= objects.len(),
            objs == views(objects@),
            package_views(dst@) == start + packages_of_objects(objs.take(i as int), checkpoint),
        decreases objects.len() - i,
    {
        let ghost before = package_views(dst@);
        proof {
            assert(objs.take(i + 1).drop_last() =~= objs.take(i as int));
            assert(objs.take(i + 1).last() == objects@[i as int]@);
        }
        if objects[i].is_package {
            dst.push(
                IndexedPackage {
                    package_id: objects[i].id,
                    move_package: copy_bytes(&objects[i].contents),
                    checkpoint_sequence_number: checkpoint,
                },
            );
            proof {
                assert(package_views(dst@) =~= before.push(
                    IndexedPackageView {
                        package_id: objects@[i as int].id,
                        move_package: objects@[i as int].contents@,
                        checkpoint_sequence_number: checkpoint,
                    },
                ));
            }
        }
        i = i + 1;
    }
    proof {
        assert(objs.take(i as int) =~= objs);
    }
}

/// The packages that the checkpoints `checkpoint_data` published: checkpoint
/// after checkpoint, the output objects that are packages, in their order.
pub fn index_packages(checkpoint_data: &Vec<CheckpointData>) -> (r: Vec<IndexedPackage>)
    ensures
        package_views(r@) == index_packages_spec(checkpoint_data@),
{
    let mut r: Vec<IndexedPackage> = Vec::new();
    let mut i: usize = 0;
    proof {
        assert(checkpoint_data@.take(0) =~= Seq::<CheckpointData>::empty());
        assert(package_views(r@) =~= Seq::<IndexedPackageView>::empty());
    }
    while i < checkpoint_data.len()
        invariant
            i <= checkpoint_data.len(),
            package_views(r@) == index_packages_spec(checkpoint_data@.take(i as int)),
        decreases checkpoint_data.len() - i,
    {
        let data = &checkpoint_data[i];
        let outputs = data.output_objects();
        append_packages(&mut r, &outputs, data.checkpoint_summary.sequence_number);
        proof {
            assert(checkpoint_data@.take(i + 1).drop_last() =~= checkpoint_data@.take(i as int));
            assert(checkpoint_data@.take(i + 1).last() == *data);
        }
        i = i + 1;
    }
    assert(checkpoint_data@.take(i as int) =~= checkpoint_data@);
    r
}

/// The packages of two batches one after the other are the packages of the
/// first followed by those of the second.
pub proof fn lemma_index_packages_concat(a: Seq<CheckpointData>, b: Seq<CheckpointData>)
    ensures
        index_packages_spec(a + b) == index_packages_spec(a) + index_packages_spec(b),
    decreases b.len(),
{
    if b.len() == 0 {
        assert(a + b =~= a);
        assert(index_packages_spec(a) + Seq::<IndexedPackageView>::empty() =~= index_packages_spec(a));
    } else {
        lemma_index_packages_concat(a, b.drop_last());
        assert((a + b).drop_last() =~= a + b.drop_last());
        assert((a + b).last() == b.last());
        assert(index_packages_spec(a) + index_packages_spec(b.drop_last()) + packages_of_checkpoint(
            b.last(),
        ) =~= index_packages_spec(a) + (index_packages_spec(b.drop_last()) + packages_of_checkpoint(
            b.last(),
        )));
    }
}

/// The packages of `packages` that were published in checkpoint `checkpoint`,
/// in their order.
pub open spec fn packages_in_checkpoint(packages: Seq<IndexedPackageView>, checkpoint: u64) -> Seq<
    IndexedPackageView,
>
    decreases packages.len(),
{
    if packages.len() == 0 {
        Seq::empty()
    } else {
        let prev = packages_in_checkpoint(packages.drop_last(), checkpoint);
        if packages.last().checkpoint_sequence_number == checkpoint {
            prev.push(packages.last())
        } else {
            prev
        }
    }
}

/// No checkpoint before position `i` of `sequence_numbers` has the sequence
/// number of the checkpoint at `i`.
pub open spec fn first_with_sequence_number(sequence_numbers: Seq<u64>, i: int) -> bool {
    forall|j: int| 0 <= j < i ==> #[trigger] sequence_numbers[j] != sequence_numbers[i]
}

/// The packages that go with the checkpoint at position `i` of a batch whose
/// checkpoints have the sequence numbers `sequence_numbers`.
pub open spec fn packages_for_spec(
    sequence_numbers: Seq<u64>,
    i: int,
    packages: Seq<IndexedPackageView>,
) -> Seq<IndexedPackageView> {
    if first_with_sequence_number(sequence_numbers, i) {
        packages_in_checkpoint(packages, sequence_numbers[i])
    } else {
        Seq::empty()
    }
}

/// The packages that go with the checkpoint at position `i` of a batch whose
/// checkpoints have the sequence numbers `sequence_numbers`: all packages of
/// its sequence number, in their order, if no earlier checkpoint of the
/// batch has that sequence number, and none otherwise.
pub fn packages_for(
    sequence_numbers: &Vec<u64>,
    i: usize,
    packages: &Vec<IndexedPackage>,
) -> (r: Vec<IndexedPackage>)
    requires
        i < sequence_numbers.len(),
    ensures
        package_views(r@) == packages_for_spec(sequence_numbers@, i as int, package_views(packages@)),
{
    let seq = sequence_numbers[i];
    let mut j: usize = 0;
    while j < i
        invariant
            j <= i,
            i < sequence_numbers.len(),
            seq == sequence_numbers@[i as int],
            forall|k: int| 0 <= k < j ==> #[trigger] sequence_numbers@[k] != seq,
        decreases i - j,
    {
        if sequence_numbers[j] == seq {
            let r: Vec<IndexedPackage> = Vec::new();
            proof {
                assert(!first_with_sequence_number(sequence_numbers@, i as int));
                assert(package_views(r@) =~= Seq::<IndexedPackageView>::empty());
            }
            return r;
        }
        j = j + 1;
    }
    let ghost ps = package_views(packages@);
    let mut r: Vec<IndexedPackage> = Vec::new();
    let mut k: usize = 0;
    proof {
        assert(ps.take(0) =~= Seq::<IndexedPackageView>::empty());
        assert(package_views(r@) =~= Seq::<IndexedPackageView>::empty());
    }
    while k < packages.len()
        invariant
            k <= packages.len(),
            ps == package_views(packages@),
            package_views(r@) == packages_in_checkpoint(ps.take(k as int), seq),
        decreases packages.len() - k,
    {
        let ghost before = package_views(r@);
        proof {
            assert(ps.take(k + 1).drop_last() =~= ps.take(k as int));
            assert(ps.take(k + 1).last() == packages@[k as int]@);
        }
        if packages[k].checkpoint_sequence_number == seq {
            r.push(copy_package(&packages[k]));
            proof {
                assert(package_views(r@) =~= before.push(packages@[k as int]@));
            }
        }
        k = k + 1;
    }
    proof {
        assert(ps.take(k as int) =~= ps);
    }
    r
}


/// Selecting one checkpoint's packages from a concatenation selects them
/// from each part.
pub proof fn lemma_packages_in_checkpoint_concat(
    a: Seq<IndexedPackageView>,
    b: Seq<IndexedPackageView>,
    checkpoint: u64,
)
    ensures
        packages_in_checkpoint(a + b, checkpoint) == packages_in_checkpoint(a, checkpoint)
            + packages_in_checkpoint(b, checkpoint),
    decreases b.len(),
{
    if b.len() == 0 {
        assert(a + b =~= a);
        assert(packages_in_checkpoint(a, checkpoint) + Seq::<IndexedPackageView>::empty()
            =~= packages_in_checkpoint(a, checkpoint));
    } else {
        lemma_packages_in_checkpoint_concat(a, b.drop_last(), checkpoint);
        assert((a + b).drop_last() =~= a + b.drop_last());
        assert((a + b).last() == b.last());
        let pa = packages_in_checkpoint(a, checkpoint);
        let pb = packages_in_checkpoint(b.drop_last(), checkpoint);
        assert((pa + pb).push(b.last()) =~= pa + pb.push(b.last()));
    }
}

/// The packages found among `objects` all carry `checkpoint`, so selecting
/// the packages of a checkpoint keeps all of them or none.
pub proof fn lemma_packages_of_objects_select(objects: Seq<ObjectView>, checkpoint: u64, other: u64)
    ensures
        packages_in_checkpoint(packages_of_objects(objects, checkpoint), other) == if other
            == checkpoint {
            packages_of_objects(objects, checkpoint)
        } else {
            Seq::<IndexedPackageView>::empty()
        },
    decreases objects.len(),
{
    if objects.len() > 0 {
        lemma_packages_of_objects_select(objects.drop_last(), checkpoint, other);
        let prev = packages_of_objects(objects.drop_last(), checkpoint);
        if objects.last().is_package {
            let p = packages_of_objects(objects, checkpoint);
            assert(p == prev.push(p.last()));
            assert(p.drop_last() =~= prev);
        }
    }
}

/// The packages that checkpoint `i` of a batch gets are those that
/// `index_packages` found in the first `n` checkpoints under its sequence
/// number, where no other checkpoint of the batch has that number.
proof fn lemma_regrouped_upto(checkpoints: Seq<CheckpointData>, i: int, n: int)
    requires
        0 <= i < checkpoints.len(),
        0 <= n <= checkpoints.len(),
        forall|a: int, b: int|
            0 <= a < b < checkpoints.len() ==> (#[trigger] checkpoints[a]).checkpoint_summary.sequence_number
                != (#[trigger] checkpoints[b]).checkpoint_summary.sequence_number,
    ensures
        packages_in_checkpoint(
            index_packages_spec(checkpoints.take(n)),
            checkpoints[i].checkpoint_summary.sequence_number,
        ) == if i < n {
            packages_of_checkpoint(checkpoints[i])
        } else {
            Seq::<IndexedPackageView>::empty()
        },
    decreases n,
{
    let c = checkpoints[i].checkpoint_summary.sequence_number;
    if n == 0 {
        assert(checkpoints.take(0) =~= Seq::<CheckpointData>::empty());
    } else {
        lemma_regrouped_upto(checkpoints, i, n - 1);
        let t = checkpoints.take(n);
        assert(t.drop_last() =~= checkpoints.take(n - 1));
        assert(t.last() == checkpoints[n - 1]);
        let a = index_packages_spec(checkpoints.take(n - 1));
        let last = checkpoints[n - 1];
        lemma_packages_in_checkpoint_concat(a, packages_of_checkpoint(last), c);
        lemma_packages_of_objects_select(
            output_views(last.transactions@),
            last.checkpoint_summary.sequence_number,
            c,
        );
        if i == n - 1 {
            assert(Seq::<IndexedPackageView>::empty() + packages_of_checkpoint(last)
                =~= packages_of_checkpoint(last));
        } else {
            if i < n - 1 {
                assert(checkpoints[i].checkpoint_summary.sequence_number
                    != checkpoints[n - 1].checkpoint_summary.sequence_number);
                assert(packages_of_checkpoint(checkpoints[i]) + Seq::<IndexedPackageView>::empty()
                    =~= packages_of_checkpoint(checkpoints[i]));
            } else {
                assert(checkpoints[n - 1].checkpoint_summary.sequence_number
                    != checkpoints[i].checkpoint_summary.sequence_number);
                assert(Seq::<IndexedPackageView>::empty() + Seq::<IndexedPackageView>::empty()
                    =~= Seq::<IndexedPackageView>::empty());
            }
        }
    }
}

/// In a batch whose checkpoints have distinct sequence numbers, grouping
/// the batch's packages by checkpoint gives each checkpoint exactly the
/// packages among its own outputs, in their order.
pub proof fn lemma_packages_regrouped(checkpoints: Seq<CheckpointData>, i: int)
    requires
        0 <= i < checkpoints.len(),
        forall|a: int, b: int|
            0 <= a < b < checkpoints.len() ==> (#[trigger] checkpoints[a]).checkpoint_summary.sequence_number
                != (#[trigger] checkpoints[b]).checkpoint_summary.sequence_number,
    ensures
        packages_for_spec(sequence_numbers(checkpoints), i, index_packages_spec(checkpoints))
            == packages_of_checkpoint(checkpoints[i]),
{
    lemma_regrouped_upto(checkpoints, i, checkpoints.len() as int);
    assert(checkpoints.take(checkpoints.len() as int) =~= checkpoints);
    let seqs = sequence_numbers(checkpoints);
    assert forall|j: int| 0 <= j < i implies #[trigger] seqs[j] != seqs[i] by {
        assert(checkpoints[j].checkpoint_summary.sequence_number
            != checkpoints[i].checkpoint_summary.sequence_number);
    }
}

// ---------------------------------------------------------------------------
// One checkpoint, and a batch of checkpoints
// ---------------------------------------------------------------------------
/// How many transactions the transactions `txs` count as, those that failed
/// counting as none.
pub open spec fn successful_sum(txs: Seq<CheckpointTransaction>) -> int
    decreases txs.len(),
{
    if txs.len() == 0 {
        0
    } else {
        successful_sum(txs.drop_last()) + successful_of(txs.last())
    }
}

/// The count of a prefix is at most the count of the whole.
pub proof fn lemma_successful_sum_prefix(txs: Seq<CheckpointTransaction>, i: int)
    requires
        0 <= i <= txs.len(),
    ensures
        successful_sum(txs.take(i)) <= successful_sum(txs),
    decreases txs.len() - i,
{
    if i < txs.len() {
        lemma_successful_sum_prefix(txs, i + 1);
        assert(txs.take(i + 1).drop_last() =~= txs.take(i));
    } else {
        assert(txs.take(i) =~= txs);
    }
}

/// The count of transactions adds up over consecutive runs of transactions,
/// and one transaction counts as its kind's count when it succeeded and as
/// none when it failed.
pub proof fn lemma_successful_sum_adds(
    a: Seq<CheckpointTransaction>,
    b: Seq<CheckpointTransaction>,
    t: CheckpointTransaction,
)
    ensures
        successful_sum(a + b) == successful_sum(a) + successful_sum(b),
        successful_sum(seq![t]) == (if t.effects.status_ok {
            t.transaction.data.tx_count as int
        } else {
            0
        }),
    decreases b.len(),
{
    if b.len() == 0 {
        assert(a + b =~= a);
    } else {
        lemma_successful_sum_adds(a, b.drop_last(), t);
        assert((a + b).drop_last() =~= a + b.drop_last());
        assert((a + b).last() == b.last());
    }
    assert(seq![t].drop_last() =~= Seq::<CheckpointTransaction>::empty());
    assert(successful_sum(seq![t].drop_last()) == 0);
    assert(seq![t].last() == t);
}

/// One change that stays live without naming its object's latest output
/// breaks what indexing needs.
proof fn lemma_not_latest(data: CheckpointData, i: int, j: int)
    requires
        0 <= i < data.transactions@.len(),
        0 <= j < data.transactions@[i].effects.changed_objects@.len(),
        stays_live(
            data.transactions@[i].effects.changed_objects@[j],
            output_views(data.transactions@),
            deleted_objects_spec(data.transactions@, data.checkpoint_summary.sequence_number),
        ),
        !latest_version_is(
            output_views(data.transactions@),
            data.transactions@[i].effects.changed_objects@[j].object_ref.object_id,
            data.transactions@[i].effects.changed_objects@[j].object_ref.version,
        ),
    ensures
        !live_changes_are_latest(data),
{
}

/// Whether every change that the checkpoint leaves live names its object's
/// latest output in the checkpoint, as indexing its objects needs.
pub fn changes_name_latest_outputs(data: &CheckpointData) -> (r: bool)
    ensures
        r == live_changes_are_latest(*data),
{
    let ghost txs = data.transactions@;
    let deleted = deleted_objects_of(data);
    let ghost dels = deleted@;
    let outputs = data.output_objects();
    let ghost outs = views(outputs@);
    let (latest_objects, intermediate_versions) = get_latest_objects(&outputs);
    let mut i: usize = 0;
    while i < data.transactions.len()
        invariant
            i <= data.transactions.len(),
            txs == data.transactions@,
            outs == output_views(txs),
            dels == deleted_objects_spec(txs, data.checkpoint_summary.sequence_number),
            deleted@ == dels,
            forall|a: int| 0 <= a < latest_objects.len() ==> #[trigger] is_latest_version(
                outs,
                latest_objects@[a]@,
            ),
            forall|k: int| 0 <= k < outputs.len() ==> #[trigger] holds_id(views(latest_objects@), outputs@[k].id),
            views(outputs@) == outs,
            forall|id: ObjectId, v: u64|
                intermediate_versions@.contains((id, v)) <==> #[trigger] is_discarded(outs, id, v),
            forall|a: int, b: int|
                0 <= a < i && 0 <= b < txs[a].effects.changed_objects@.len() && stays_live(
                    #[trigger] txs[a].effects.changed_objects@[b],
                    outs,
                    dels,
                ) ==> latest_version_is(
                    outs,
                    txs[a].effects.changed_objects@[b].object_ref.object_id,
                    txs[a].effects.changed_objects@[b].object_ref.version,
                ),
        decreases data.transactions.len() - i,
    {
        let tx = &data.transactions[i];
        let mut j: usize = 0;
        while j < tx.effects.changed_objects.len()
            invariant
                j <= tx.effects.changed_objects.len(),
                i < data.transactions.len(),
                tx == data.transactions@[i as int],
                txs == data.transactions@,
                outs == output_views(txs),
                dels == deleted_objects_spec(txs, data.checkpoint_summary.sequence_number),
                deleted@ == dels,
                forall|a: int| 0 <= a < latest_objects.len() ==> #[trigger] is_latest_version(
                    outs,
                    latest_objects@[a]@,
                ),
                forall|k: int| 0 <= k < outputs.len() ==> #[trigger] holds_id(views(latest_objects@), outputs@[k].id),
                views(outputs@) == outs,
                forall|id: ObjectId, v: u64|
                    intermediate_versions@.contains((id, v)) <==> #[trigger] is_discarded(outs, id, v),
                forall|b: int|
                    0 <= b < j && stays_live(#[trigger] tx.effects.changed_objects@[b], outs, dels)
                        ==> latest_version_is(
                        outs,
                        tx.effects.changed_objects@[b].object_ref.object_id,
                        tx.effects.changed_objects@[b].object_ref.version,
                    ),
            decreases tx.effects.changed_objects.len() - j,
        {
            let c = tx.effects.changed_objects[j];
            let id = c.object_ref.object_id;
            let version = c.object_ref.version;
            let superseded = contains_version(&intermediate_versions, id, version);
            let removed = contains_deleted(&deleted, id, version);
            if !superseded && !removed {
                match find_object(&latest_objects, id) {
                    Some(p) => {
                        if latest_objects[p].version != version {
                            proof {
                                assert(is_latest_version(outs, latest_objects@[p as int]@));
                                let m = choose|m: int|
                                    #[trigger] is_latest_at(outs, m) && latest_objects@[p as int]@
                                        == outs[m];
                                if latest_version_is(outs, id, version) {
                                    let k = choose|k: int|
                                        #[trigger] is_latest_at(outs, k) && outs[k].id == id
                                            && outs[k].version == version;
                                    lemma_latest_unique(outs, m, k);
                                }
                                assert(!latest_version_is(outs, id, version));
                                lemma_not_latest(*data, i as int, j as int);
                            }
                            return false;
                        }
                        proof {
                            assert(is_latest_version(outs, latest_objects@[p as int]@));
                            let m = choose|m: int|
                                #[trigger] is_latest_at(outs, m) && latest_objects@[p as int]@ == outs[m];
                            assert(latest_version_is(outs, id, version));
                        }
                    },
                    None => {
                        proof {
                            if latest_version_is(outs, id, version) {
                                let k = choose|k: int|
                                    #[trigger] is_latest_at(outs, k) && outs[k].id == id
                                        && outs[k].version == version;
                                assert(outs[k].id == outputs@[k].id);
                                assert(holds_id(views(latest_objects@), outputs@[k].id));
                                let a = choose|a: int|
                                    0 <= a < views(latest_objects@).len() && #[trigger] views(
                                        latest_objects@,
                                    )[a].id == id;
                                assert(latest_objects@[a].id == id);
                            }
                            assert(!latest_version_is(outs, id, version));
                            lemma_not_latest(*data, i as int, j as int);
                        }
                        return false;
                    },
                }
            }
            j = j + 1;
        }
        i = i + 1;
    }
    true
}

/// How many transactions the checkpoint's transactions count as, those that
/// failed counting as none; none if the count does not fit in 64 bits.
pub fn successful_count(transactions: &Vec<CheckpointTransaction>) -> (r: Option<u64>)
    ensures
        match r {
            Some(n) => n == successful_sum(transactions@),
            None => successful_sum(transactions@) > u64::MAX,
        },
{
    let ghost txs = transactions@;
    let mut total: u64 = 0;
    let mut k: usize = 0;
    proof {
        assert(txs.take(0) =~= Seq::<CheckpointTransaction>::empty());
    }
    while k < transactions.len()
        invariant
            k <= transactions.len(),
            txs == transactions@,
            total == successful_sum(txs.take(k as int)),
        decreases transactions.len() - k,
    {
        let tx = &transactions[k];
        let count: u64 = if tx.effects.status_ok {
            tx.transaction.data.tx_count
        } else {
            0
        };
        proof {
            assert(txs.take(k + 1).drop_last() =~= txs.take(k as int));
            assert(txs.take(k + 1).last() == *tx);
        }
        match total.checked_add(count) {
            Some(t) => {
                total = t;
            },
            None => {
                proof {
                    lemma_successful_sum_prefix(txs, k + 1);
                }
                return None;
            },
        }
        k = k + 1;
    }
    proof {
        assert(txs.take(k as int) =~= txs);
    }
    Some(total)
}

/// `r` is what indexing makes of checkpoint `data` together with the
/// packages `packages`.
pub open spec fn checkpoint_indexed(
    data: CheckpointData,
    packages: Seq<IndexedPackageView>,
    r: CheckpointDataToCommit,
) -> bool {
    let txs = data.transactions@;
    let contents = data.checkpoint_contents@;
    let summary = data.checkpoint_summary;
    let seq = summary.sequence_number;
    &&& r.checkpoint.summary == summary
    &&& r.checkpoint.contents@ == contents
    &&& r.checkpoint.successful_tx_num == successful_sum(txs)
    &&& transactions_indexed(
        txs,
        contents,
        summary,
        r.transactions@,
        event_views(r.events@),
        r.tx_indices@,
        r.display_updates@,
    )
    &&& r.object_changes.deleted_objects@ == deleted_objects_spec(txs, seq)
    &&& indexed_object_views(r.object_changes.changed_objects@) == live_objects_spec(
        txs,
        output_views(txs),
        deleted_objects_spec(txs, seq),
        seq,
    )
    &&& r.object_history_changes.changed_objects@.len() == 0
    &&& r.object_history_changes.deleted_objects@.len() == 0
    &&& package_views(r.packages@) == packages
}

/// Indexes one checkpoint, with the packages it published.
///
/// Fails as indexing its transactions fails. Otherwise gives the checkpoint
/// with how many transactions it holds that succeeded, the records of its
/// transactions and events, their lookup entries, the objects it deleted and
/// left live, and the packages.
pub fn index_one_checkpoint(data: CheckpointData, packages: Vec<IndexedPackage>) -> (r: Result<
    CheckpointDataToCommit,
    IndexerError,
>)
    requires
        live_changes_are_latest(data),
        transactions_error(data.transactions@, data.checkpoint_contents@, data.checkpoint_summary)
            is None ==> successful_sum(data.transactions@) <= u64::MAX,
    ensures
        match r {
            Ok(c) => transactions_error(
                data.transactions@,
                data.checkpoint_contents@,
                data.checkpoint_summary,
            ) is None && checkpoint_indexed(data, package_views(packages@), c),
            Err(e) => transactions_error(
                data.transactions@,
                data.checkpoint_contents@,
                data.checkpoint_summary,
            ) == Some(e),
        },
{
    let ghost txs = data.transactions@;
    let object_changes = index_objects(&data);
    // Indexing keeps no history of object versions.
    let object_history_changes = TransactionObjectChangesToCommit {
        changed_objects: Vec::new(),
        deleted_objects: Vec::new(),
    };
    let CheckpointData { checkpoint_summary, checkpoint_contents, transactions } = data;
    let (records, events, indices, display_updates) = match index_transactions(
        transactions,
        &checkpoint_summary,
        &checkpoint_contents,
    ) {
        Ok(t) => t,
        Err(e) => {
            return Err(e);
        },
    };
    let mut successful_tx_num: u64 = 0;
    let mut k: usize = 0;
    proof {
        assert(txs.take(0) =~= Seq::<CheckpointTransaction>::empty());
    }
    while k < records.len()
        invariant
            k <= records.len(),
            records.len() == txs.len(),
            forall|m: int|
                0 <= m < txs.len() ==> #[trigger] records@[m].successful_tx_num == successful_of(
                    txs[m],
                ),
            successful_sum(txs) <= u64::MAX,
            successful_tx_num == successful_sum(txs.take(k as int)),
        decreases records.len() - k,
    {
        proof {
            assert(txs.take(k + 1).drop_last() =~= txs.take(k as int));
            assert(txs.take(k + 1).last() == txs[k as int]);
            lemma_successful_sum_prefix(txs, k + 1);
            assert(records@[k as int].successful_tx_num == successful_of(txs[k as int]));
        }
        successful_tx_num = successful_tx_num + records[k].successful_tx_num;
        k = k + 1;
    }
    proof {
        assert(txs.take(k as int) =~= txs);
    }
    let checkpoint = IndexedCheckpoint {
        summary: checkpoint_summary,
        contents: checkpoint_contents,
        successful_tx_num,
    };
    Ok(
        CheckpointDataToCommit {
            checkpoint,
            transactions: records,
            events,
            tx_indices: indices,
            display_updates,
            object_changes,
            object_history_changes,
            packages,
        },
    )
}

/// The sequence numbers of the checkpoints `checkpoints`, in order.
pub open spec fn sequence_numbers(checkpoints: Seq<CheckpointData>) -> Seq<u64> {
    checkpoints.map_values(|c: CheckpointData| c.checkpoint_summary.sequence_number)
}

/// The error of the first checkpoint before `n` that cannot be indexed, if
/// there is one.
pub open spec fn batch_error(checkpoints: Seq<CheckpointData>, n: int) -> Option<IndexerError>
    decreases n,
{
    if n <= 0 {
        None
    } else {
        match batch_error(checkpoints, n - 1) {
            Some(e) => Some(e),
            None => transactions_error(
                checkpoints[n - 1].transactions@,
                checkpoints[n - 1].checkpoint_contents@,
                checkpoints[n - 1].checkpoint_summary,
            ),
        }
    }
}

/// Indexing checkpoint `data` stops without a result: a change that it leaves
/// live does not name its object's latest output, or its transactions can be
/// indexed and the count of those that succeeded does not fit in 64 bits.
pub open spec fn indexing_aborts(data: CheckpointData) -> bool {
    ||| !live_changes_are_latest(data)
    ||| transactions_error(data.transactions@, data.checkpoint_contents@, data.checkpoint_summary)
        is None && successful_sum(data.transactions@) > u64::MAX
}

/// The sequence number of the first checkpoint before `n` whose indexing
/// stops without a result, if there is one.
pub open spec fn first_abort(checkpoints: Seq<CheckpointData>, n: int) -> Option<u64>
    decreases n,
{
    if n <= 0 {
        None
    } else {
        match first_abort(checkpoints, n - 1) {
            Some(s) => Some(s),
            None => if indexing_aborts(checkpoints[n - 1]) {
                Some(checkpoints[n - 1].checkpoint_summary.sequence_number)
            } else {
                None
            },
        }
    }
}

/// Why the batch `checkpoints` cannot be indexed, if it cannot: the first
/// checkpoint whose indexing stops without a result, or else the error of
/// the first checkpoint that cannot be indexed.
pub open spec fn process_error(checkpoints: Seq<CheckpointData>) -> Option<BatchError> {
    match first_abort(checkpoints, checkpoints.len() as int) {
        Some(s) => Some(BatchError::IndexingAborted { checkpoint_sequence_number: s }),
        None => match batch_error(checkpoints, checkpoints.len() as int) {
            Some(e) => Some(BatchError::Indexer(e)),
            None => None,
        },
    }
}

/// No checkpoint before `n` stops without a result exactly when none of
/// them is one whose indexing aborts.
proof fn lemma_first_abort_none(checkpoints: Seq<CheckpointData>, n: int)
    ensures
        first_abort(checkpoints, n) is None <==> forall|i: int|
            0 <= i < n ==> !indexing_aborts(#[trigger] checkpoints[i]),
    decreases n,
{
    if n > 0 {
        lemma_first_abort_none(checkpoints, n - 1);
    }
}

/// When no checkpoint before `i` aborts and checkpoint `i` does, the batch
/// aborts at checkpoint `i`.
proof fn lemma_first_abort(checkpoints: Seq<CheckpointData>, i: int, n: int)
    requires
        0 <= i < n,
        first_abort(checkpoints, i) is None,
        indexing_aborts(checkpoints[i]),
    ensures
        first_abort(checkpoints, n) == Some(checkpoints[i].checkpoint_summary.sequence_number),
    decreases n - i,
{
    if n > i + 1 {
        lemma_first_abort(checkpoints, i, n - 1);
    }
}

/// No checkpoint before `n` fails exactly when each of their transactions can
/// be indexed.
proof fn lemma_batch_error_none(checkpoints: Seq<CheckpointData>, n: int)
    ensures
        batch_error(checkpoints, n) is None <==> forall|i: int|
            0 <= i < n ==> transactions_error(
                (#[trigger] checkpoints[i]).transactions@,
                checkpoints[i].checkpoint_contents@,
                checkpoints[i].checkpoint_summary,
            ) is None,
    decreases n,
{
    if n > 0 {
        lemma_batch_error_none(checkpoints, n - 1);
    }
}

/// A batch in which every checkpoint has contents that match its
/// transactions (with the change processor's results for all of them), every
/// live change naming its object's latest output, and a count of succeeded
/// transactions that fits in 64 bits, is indexed without error, whatever the
/// success status of its transactions.
pub proof fn lemma_consistent_batch_is_indexed(checkpoints: Seq<CheckpointData>)
    requires
        forall|i: int|
            0 <= i < checkpoints.len() ==> transactions_error(
                (#[trigger] checkpoints[i]).transactions@,
                checkpoints[i].checkpoint_contents@,
                checkpoints[i].checkpoint_summary,
            ) is None,
        forall|i: int| 0 <= i < checkpoints.len() ==> live_changes_are_latest(#[trigger] checkpoints[i]),
        forall|i: int|
            0 <= i < checkpoints.len() ==> successful_sum((#[trigger] checkpoints[i]).transactions@)
                <= u64::MAX,
    ensures
        process_error(checkpoints) is None,
{
    assert forall|i: int| 0 <= i < checkpoints.len() implies !indexing_aborts(
        #[trigger] checkpoints[i],
    ) by {
        assert(live_changes_are_latest(checkpoints[i]));
        assert(successful_sum(checkpoints[i].transactions@) <= u64::MAX);
    }
    lemma_first_abort_none(checkpoints, checkpoints.len() as int);
    lemma_batch_error_none(checkpoints, checkpoints.len() as int);
}

/// Whether indexing checkpoint `data` stops without a result.
pub fn aborts_indexing(data: &CheckpointData) -> (r: bool)
    ensures
        r == indexing_aborts(*data),
{
    if !changes_name_latest_outputs(data) {
        return true;
    }
    let fails = transactions_error_of(
        &data.transactions,
        &data.checkpoint_summary,
        &data.checkpoint_contents,
    );
    match fails {
        Some(_) => false,
        None => successful_count(&data.transactions).is_none(),
    }
}

/// Indexes a batch of checkpoints.
///
/// Fails when indexing some checkpoint stops without a result, naming the
/// first such checkpoint; or else with the error of the first checkpoint that
/// cannot be indexed. Otherwise gives each checkpoint's records, in order,
/// each indexed with the packages that the batch published under its sequence
/// number (or none, where an earlier checkpoint of the batch has that
/// sequence number).
pub fn index_checkpoints(checkpoints: Vec<CheckpointData>) -> (r: Result<
    Vec<CheckpointDataToCommit>,
    BatchError,
>)
    ensures
        match r {
            Ok(v) => process_error(checkpoints@) is None && v.len() == checkpoints@.len() && forall|
                i: int,
            |
                0 <= i < v.len() ==> checkpoint_indexed(
                    checkpoints@[i],
                    packages_for_spec(
                        sequence_numbers(checkpoints@),
                        i,
                        index_packages_spec(checkpoints@),
                    ),
                    #[trigger] v@[i],
                ),
            Err(e) => process_error(checkpoints@) == Some(e),
        },
{
    let ghost cps = checkpoints@;
    let mut seqs: Vec<u64> = Vec::new();
    let mut k: usize = 0;
    while k < checkpoints.len()
        invariant
            k <= checkpoints.len(),
            cps == checkpoints@,
            seqs@ == sequence_numbers(cps).take(k as int),
            forall|m: int| 0 <= m < k ==> !indexing_aborts(#[trigger] cps[m]),
        decreases checkpoints.len() - k,
    {
        if aborts_indexing(&checkpoints[k]) {
            proof {
                lemma_first_abort_none(cps, k as int);
                lemma_first_abort(cps, k as int, cps.len() as int);
            }
            return Err(
                BatchError::IndexingAborted {
                    checkpoint_sequence_number: checkpoints[k].checkpoint_summary.sequence_number,
                },
            );
        }
        seqs.push(checkpoints[k].checkpoint_summary.sequence_number);
        k = k + 1;
        assert(seqs@ =~= sequence_numbers(cps).take(k as int));
    }
    proof {
        assert(sequence_numbers(cps).take(k as int) =~= sequence_numbers(cps));
        lemma_first_abort_none(cps, cps.len() as int);
    }
    let packages = index_packages(&checkpoints);
    let mut out: Vec<CheckpointDataToCommit> = Vec::new();
    let mut i: usize = 0;
    for data in it: checkpoints
        invariant
            it.seq() == cps,
            i == it.index(),
            i <= cps.len(),
            cps.len() <= usize::MAX,
            seqs@ == sequence_numbers(cps),
            package_views(packages@) == index_packages_spec(cps),
            forall|m: int| 0 <= m < cps.len() ==> !indexing_aborts(#[trigger] cps[m]),
            first_abort(cps, cps.len() as int) is None,
            batch_error(cps, i as int) is None,
            out.len() == i,
            forall|m: int|
                0 <= m < i ==> checkpoint_indexed(
                    cps[m],
                    packages_for_spec(sequence_numbers(cps), m, index_packages_spec(cps)),
                    #[trigger] out@[m],
                ),
    {
        proof {
            assert(data == cps[i as int]);
            assert(!indexing_aborts(cps[i as int]));
        }
        let group = packages_for(&seqs, i, &packages);
        match index_one_checkpoint(data, group) {
            Ok(c) => {
                out.push(c);
            },
            Err(e) => {
                proof {
                    lemma_first_batch_error(cps, i as int, cps.len() as int);
                }
                return Err(BatchError::Indexer(e));
            },
        }
        i = i + 1;
    }
    Ok(out)
}

/// When no checkpoint before `i` fails and checkpoint `i` does, the batch
/// fails with its error.
proof fn lemma_first_batch_error(checkpoints: Seq<CheckpointData>, i: int, n: int)
    requires
        0 <= i < n,
        batch_error(checkpoints, i) is None,
        transactions_error(
            checkpoints[i].transactions@,
            checkpoints[i].checkpoint_contents@,
            checkpoints[i].checkpoint_summary,
        ) is Some,
    ensures
        batch_error(checkpoints, n) == transactions_error(
            checkpoints[i].transactions@,
            checkpoints[i].checkpoint_contents@,
            checkpoints[i].checkpoint_summary,
        ),
    decreases n - i,
{
    if n > i + 1 {
        lemma_first_batch_error(checkpoints, i, n - 1);
    }
}


// ---------------------------------------------------------------------------
// Queue size
// ---------------------------------------------------------------------------
/// How many indexed checkpoints may wait for the committer when nothing else
/// is set.
pub const CHECKPOINT_QUEUE_SIZE: usize = 100;

/// `b` is an ASCII decimal digit.
pub open spec fn is_digit(b: u8) -> bool {
    48 <= b <= 57
}

/// The number that the decimal digits `digits` write.
pub open spec fn decimal_value(digits: Seq<u8>) -> int
    decreases digits.len(),
{
    if digits.len() == 0 {
        0
    } else {
        decimal_value(digits.drop_last()) * 10 + (digits.last() - 48)
    }
}

/// The `usize` that the text `s` writes in decimal, with an optional leading
/// `+`, if it writes one: at least one digit, nothing but digits, and a
/// value that fits.
pub open spec fn parse_usize_spec(s: Seq<u8>) -> Option<usize> {
    let digits = digits_of(s);
    if digits.len() == 0 || exists|i: int| 0 <= i < digits.len() && !is_digit(#[trigger] digits[i]) {
        None
    } else if decimal_value(digits) > usize::MAX {
        None
    } else {
        Some(decimal_value(digits) as usize)
    }
}

/// The text `s` without its leading `+`, if it has one.
pub open spec fn digits_of(s: Seq<u8>) -> Seq<u8> {
    if s.len() > 0 && s[0] == 43 {
        s.drop_first()
    } else {
        s
    }
}

/// A value written with more digits is at least the value of its prefix.
proof fn lemma_decimal_prefix(digits: Seq<u8>, i: int)
    requires
        0 <= i <= digits.len(),
        forall|k: int| 0 <= k < digits.len() ==> is_digit(#[trigger] digits[k]),
    ensures
        decimal_value(digits.take(i)) <= decimal_value(digits),
        decimal_value(digits) >= 0,
    decreases digits.len() - i,
{
    lemma_decimal_nonnegative(digits);
    if i < digits.len() {
        lemma_decimal_prefix(digits, i + 1);
        let t = digits.take(i + 1);
        assert(t.drop_last() =~= digits.take(i));
        lemma_decimal_nonnegative(digits.take(i));
        assert(t.last() == digits[i]);
    } else {
        assert(digits.take(i) =~= digits);
    }
}

/// The value of digits is never negative.
proof fn lemma_decimal_nonnegative(digits: Seq<u8>)
    requires
        forall|k: int| 0 <= k < digits.len() ==> is_digit(#[trigger] digits[k]),
    ensures
        decimal_value(digits) >= 0,
    decreases digits.len(),
{
    if digits.len() > 0 {
        let t = digits.drop_last();
        assert forall|k: int| 0 <= k < t.len() implies is_digit(#[trigger] t[k]) by {
            assert(t[k] == digits[k]);
        }
        lemma_decimal_nonnegative(t);
        assert(is_digit(digits[digits.len() - 1]));
    }
}

/// How decimal text reads: no text reads as nothing, one digit reads as its
/// value, a leading `+` before a digit changes nothing, a digit appended to
/// text that reads as `n` gives `10 * n` plus that digit while it fits, and a
/// byte that is not a digit makes the text read as nothing.
pub proof fn lemma_parse_usize_reads_decimal(s: Seq<u8>, d: u8, n: usize)
    ensures
        parse_usize_spec(Seq::<u8>::empty()) is None,
        is_digit(d) ==> parse_usize_spec(seq![d]) == Some((d - 48) as usize),
        is_digit(d) ==> parse_usize_spec(seq![43u8, d]) == Some((d - 48) as usize),
        parse_usize_spec(s) == Some(n) && is_digit(d) && n * 10 + (d - 48) <= usize::MAX
            ==> parse_usize_spec(s.push(d)) == Some((n * 10 + (d - 48)) as usize),
        (s.len() > 0 && !is_digit(d)) ==> parse_usize_spec(s.push(d)) is None,
{
    assert(digits_of(Seq::<u8>::empty()) =~= Seq::<u8>::empty());
    if is_digit(d) {
        let one = seq![d];
        assert(digits_of(one) == one);
        assert(one.drop_last() =~= Seq::<u8>::empty());
        assert(decimal_value(one) == decimal_value(one.drop_last()) * 10 + (one.last() - 48));
        let plus = seq![43u8, d];
        assert(digits_of(plus) =~= one);
    }
    if s.len() > 0 {
        let ds = digits_of(s);
        let dp = digits_of(s.push(d));
        assert(s.push(d)[0] == s[0]);
        if s[0] == 43 {
            assert(dp =~= ds.push(d));
        } else {
            assert(dp == ds.push(d));
        }
        assert(dp.drop_last() =~= ds);
        assert(dp.last() == d);
        assert(dp[dp.len() - 1] == d);
        if parse_usize_spec(s) is Some && is_digit(d) {
            assert forall|i: int| 0 <= i < dp.len() implies is_digit(#[trigger] dp[i]) by {
                if i < ds.len() {
                    assert(dp[i] == ds[i]);
                }
            }
            assert(!(exists|i: int| 0 <= i < dp.len() && !is_digit(#[trigger] dp[i])));
            assert forall|i: int| 0 <= i < ds.len() implies is_digit(#[trigger] ds[i]) by {
                assert(dp[i] == ds[i]);
            }
            lemma_decimal_nonnegative(ds);
            assert(decimal_value(dp) == decimal_value(ds) * 10 + (d - 48));
        }
    }
}

/// The `usize` that the text `s` writes in decimal, with an optional leading
/// `+`, if it writes one.
pub fn parse_usize(s: &[u8]) -> (r: Option<usize>)
    ensures
        r == parse_usize_spec(s@),
{
    let mut start: usize = 0;
    if s.len() > 0 && s[0] == 43u8 {
        start = 1;
    }
    let ghost digits = digits_of(s@);
    proof {
        if s@.len() > 0 && s@[0] == 43 {
            assert(digits =~= s@.skip(start as int));
        } else {
            assert(digits =~= s@.skip(start as int));
        }
    }
    if start >= s.len() {
        proof {
            assert(digits.len() == 0);
        }
        return None;
    }
    let mut value: usize = 0;
    let mut i: usize = start;
    proof {
        assert(digits.take(0) =~= Seq::<u8>::empty());
    }
    while i < s.len()
        invariant
            start <= i <= s.len(),
            start < s.len(),
            digits == s@.skip(start as int),
            digits == digits_of(s@),
            digits.len() == s.len() - start,
            forall|k: int| 0 <= k < i - start ==> is_digit(#[trigger] digits[k]),
            value == decimal_value(digits.take(i - start)),
        decreases s.len() - i,
    {
        let b = s[i];
        let ghost k = i - start;
        assert(digits[k] == b);
        if b < 48u8 || b > 57u8 {
            proof {
                assert(!is_digit(digits[k]));
            }
            return None;
        }
        proof {
            assert(digits.take(k + 1).drop_last() =~= digits.take(k));
            assert(digits.take(k + 1).last() == b);
            assert(decimal_value(digits.take(k + 1)) == value * 10 + (b - 48));
            assert(is_digit(s@[i as int]));
        }
        let next = match value.checked_mul(10) {
            Some(v10) => v10.checked_add((b - 48u8) as usize),
            None => None,
        };
        match next {
            Some(v) => {
                value = v;
            },
            None => {
                let rest_digits = all_digits(s, i + 1);
                proof {
                    assert(value * 10 + (b - 48) > usize::MAX);
                    if rest_digits {
                        lemma_all_digits_or_none(s@, start as int, digits, i as int);
                        lemma_decimal_prefix(digits, k + 1);
                    } else {
                        let q = choose|q: int| i + 1 <= q < s.len() && !is_digit(#[trigger] s@[q]);
                        assert(digits[q - start] == s@[q]);
                        assert(!is_digit(digits[q - start]));
                    }
                }
                return None;
            },
        }
        i = i + 1;
    }
    proof {
        assert(digits.take(i - start) =~= digits);
    }
    Some(value)
}

/// Whether the bytes of `s` from `from` on are all decimal digits.
fn all_digits(s: &[u8], from: usize) -> (r: bool)
    requires
        from <= s.len(),
    ensures
        r == forall|k: int| from <= k < s.len() ==> is_digit(#[trigger] s@[k]),
{
    let mut i: usize = from;
    while i < s.len()
        invariant
            from <= i <= s.len(),
            forall|k: int| from <= k < i ==> is_digit(#[trigger] s@[k]),
        decreases s.len() - i,
    {
        if s[i] < 48u8 || s[i] > 57u8 {
            return false;
        }
        i = i + 1;
    }
    true
}

/// Where digits precede position `i` and the rest is checked, the digits
/// of the whole are known.
proof fn lemma_all_digits_or_none(s: Seq<u8>, start: int, digits: Seq<u8>, i: int)
    requires
        0 <= start <= i < s.len(),
        digits == s.skip(start),
    ensures
        (forall|k: int| 0 <= k < i - start ==> is_digit(#[trigger] digits[k])) && is_digit(s[i])
            && (forall|k: int| i + 1 <= k < s.len() ==> is_digit(#[trigger] s[k])) ==> forall|q: int|
            0 <= q < digits.len() ==> is_digit(#[trigger] digits[q]),
{
    if (forall|k: int| 0 <= k < i - start ==> is_digit(#[trigger] digits[k])) && is_digit(s[i])
        && (forall|k: int| i + 1 <= k < s.len() ==> is_digit(#[trigger] s[k])) {
        assert forall|q: int| 0 <= q < digits.len() implies is_digit(#[trigger] digits[q]) by {
            assert(digits[q] == s[q + start]);
            if q > i - start {
                assert(is_digit(s[q + start]));
            }
        }
    }
}

/// The size of the queue of indexed checkpoints: the setting `setting`
/// read as a decimal number where there is one, else
/// [`CHECKPOINT_QUEUE_SIZE`]. `None` where the setting is not a number.
pub fn checkpoint_queue_size(setting: Option<&[u8]>) -> (r: Option<usize>)
    ensures
        match setting {
            None => r == Some(CHECKPOINT_QUEUE_SIZE),
            Some(s) => r == parse_usize_spec(s@),
        },
{
    match setting {
        None => Some(CHECKPOINT_QUEUE_SIZE),
        Some(s) => parse_usize(s),
    }
}

} // verus!
