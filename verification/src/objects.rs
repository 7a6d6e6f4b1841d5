//! Which objects a checkpoint deleted, and which version of each object it left.
use vstd::prelude::*;

use crate::sui_model::{Object, ObjectId, ObjectRef, ObjectView, TransactionEffects};

verus! {

/// The views of a sequence of objects.
pub open spec fn views(objects: Seq<Object>) -> Seq<ObjectView> {
    objects.map_values(|o: Object| o@)
}

/// Position `k` of `s` holds the highest version of its object, and no
/// earlier position holds that version of it.
pub open spec fn is_latest_at(s: Seq<ObjectView>, k: int) -> bool {
    &&& 0 <= k < s.len()
    &&& forall|j: int| 0 <= j < s.len() && #[trigger] s[j].id == s[k].id ==> s[j].version <= s[k].version
    &&& forall|j: int| 0 <= j < k && #[trigger] s[j].id == s[k].id ==> s[j].version < s[k].version
}

/// Position `i` of `s` holds a higher version of its object than every
/// earlier position.
pub open spec fn is_record_at(s: Seq<ObjectView>, i: int) -> bool {
    &&& 0 <= i < s.len()
    &&& forall|j: int| 0 <= j < i && #[trigger] s[j].id == s[i].id ==> s[j].version < s[i].version
}

/// Version `v` of object `id` was the highest seen so far at some position of
/// `s`, and a later position holds a higher version: it is superseded.
pub open spec fn is_discarded(s: Seq<ObjectView>, id: ObjectId, v: u64) -> bool {
    exists|i: int, j: int|
        #![trigger is_record_at(s, i), s[j]]
        i < j < s.len() && is_record_at(s, i) && s[i].id == id && s[i].version == v && s[j].id == id
            && v < s[j].version
}

/// Some position of `s` holds object `id`.
pub open spec fn holds_id(s: Seq<ObjectView>, id: ObjectId) -> bool {
    exists|k: int| 0 <= k < s.len() && #[trigger] s[k].id == id
}

/// `o` is the latest version, in `s`, of its object.
pub open spec fn is_latest_version(s: Seq<ObjectView>, o: ObjectView) -> bool {
    exists|k: int| #[trigger] is_latest_at(s, k) && o == s[k]
}

/// The latest version of object `id` in `s` is `v`.
pub open spec fn latest_version_is(s: Seq<ObjectView>, id: ObjectId, v: u64) -> bool {
    exists|k: int| #[trigger] is_latest_at(s, k) && s[k].id == id && s[k].version == v
}

/// The latest version of object `id` in `s`, as stored.
pub open spec fn latest_object(s: Seq<ObjectView>, id: ObjectId) -> ObjectView {
    s[choose|k: int| #[trigger] is_latest_at(s, k) && s[k].id == id]
}

/// Two positions that both hold the latest version of one object are one position.
pub proof fn lemma_latest_unique(s: Seq<ObjectView>, k1: int, k2: int)
    requires
        is_latest_at(s, k1),
        is_latest_at(s, k2),
        s[k1].id == s[k2].id,
    ensures
        k1 == k2,
{
    if k1 < k2 {
        assert(s[k1].version < s[k2].version);
        assert(s[k2].version <= s[k1].version);
    } else if k2 < k1 {
        assert(s[k2].version < s[k1].version);
        assert(s[k1].version <= s[k2].version);
    }
}

/// Every object that `s` holds has a position holding its latest version.
pub proof fn lemma_latest_exists(s: Seq<ObjectView>, k: int)
    requires
        0 <= k < s.len(),
    ensures
        exists|m: int| #[trigger] is_latest_at(s, m) && s[m].id == s[k].id,
    decreases s.len(),
{
    let id = s[k].id;
    let t = s.drop_last();
    let n = s.len() - 1;
    if k == n && !holds_id(t, id) {
        assert forall|j: int| 0 <= j < n implies #[trigger] s[j].id != id by {
            assert(t[j] == s[j]);
        }
        assert(is_latest_at(s, n));
    } else {
        let k0: int = if k < n {
            k
        } else {
            choose|k0: int| 0 <= k0 < t.len() && #[trigger] t[k0].id == id
        };
        assert(t[k0] == s[k0]);
        lemma_latest_exists(t, k0);
        let m = choose|m: int| #[trigger] is_latest_at(t, m) && t[m].id == id;
        assert(t[m] == s[m]);
        if s[n].id == id && s[n].version > s[m].version {
            assert forall|j: int| 0 <= j < s.len() && #[trigger] s[j].id == s[n].id implies s[j].version
                <= s[n].version by {
                if j < n {
                    assert(t[j] == s[j]);
                }
            }
            assert forall|j: int| 0 <= j < n && #[trigger] s[j].id == s[n].id implies s[j].version
                < s[n].version by {
                assert(t[j] == s[j]);
            }
            assert(is_latest_at(s, n));
        } else {
            assert forall|j: int| 0 <= j < s.len() && #[trigger] s[j].id == s[m].id implies s[j].version
                <= s[m].version by {
                if j < n {
                    assert(t[j] == s[j]);
                }
            }
            assert forall|j: int| 0 <= j < m && #[trigger] s[j].id == s[m].id implies s[j].version
                < s[m].version by {
                assert(t[j] == s[j]);
            }
            assert(is_latest_at(s, m));
        }
    }
}

/// A superseded version is lower than the latest version of its object.
pub proof fn lemma_superseded_below_latest(s: Seq<ObjectView>, id: ObjectId, v: u64)
    requires
        is_discarded(s, id, v),
    ensures
        holds_id(s, id),
        latest_object(s, id).id == id,
        v < latest_object(s, id).version,
{
    let (i, j) = choose|i: int, j: int|
        #![trigger is_record_at(s, i), s[j]]
        i < j < s.len() && is_record_at(s, i) && s[i].id == id && s[i].version == v && s[j].id == id
            && v < s[j].version;
    lemma_latest_exists(s, j);
    let k = choose|k: int| #[trigger] is_latest_at(s, k) && s[k].id == id;
    assert(s[j].version <= s[k].version);
}

/// The latest version of an object is never superseded.
pub proof fn lemma_latest_not_superseded(s: Seq<ObjectView>, k: int)
    requires
        is_latest_at(s, k),
    ensures
        !is_discarded(s, s[k].id, s[k].version),
{
    if is_discarded(s, s[k].id, s[k].version) {
        let (i, j) = choose|i: int, j: int|
            #![trigger is_record_at(s, i), s[j]]
            i < j < s.len() && is_record_at(s, i) && s[i].id == s[k].id && s[i].version
                == s[k].version && s[j].id == s[k].id && s[k].version < s[j].version;
        assert(s[j].version <= s[k].version);
    }
}

/// The latest version of an object is the highest version of it that `s`
/// holds.
pub proof fn lemma_latest_version_is_highest(s: Seq<ObjectView>, id: ObjectId, v: u64)
    ensures
        latest_version_is(s, id, v) <==> (exists|k: int|
            0 <= k < s.len() && #[trigger] s[k].id == id && s[k].version == v) && (forall|j: int|
            0 <= j < s.len() && #[trigger] s[j].id == id ==> s[j].version <= v),
{
    if (exists|k: int| 0 <= k < s.len() && #[trigger] s[k].id == id && s[k].version == v) && (
    forall|j: int| 0 <= j < s.len() && #[trigger] s[j].id == id ==> s[j].version <= v) {
        let k = choose|k: int| 0 <= k < s.len() && #[trigger] s[k].id == id && s[k].version == v;
        lemma_latest_exists(s, k);
        let m = choose|m: int| #[trigger] is_latest_at(s, m) && s[m].id == s[k].id;
        assert(s[k].version <= s[m].version);
        assert(s[m].version <= v);
    }
}

/// Which version of each object is the latest does not depend on the order
/// of the objects: two sequences that hold the same objects, as many times
/// each, agree on it.
pub proof fn lemma_latest_version_order_free(s1: Seq<ObjectView>, s2: Seq<ObjectView>, id: ObjectId, v: u64)
    requires
        s1.to_multiset() == s2.to_multiset(),
    ensures
        latest_version_is(s1, id, v) <==> latest_version_is(s2, id, v),
{
    lemma_latest_version_is_highest(s1, id, v);
    lemma_latest_version_is_highest(s2, id, v);
    lemma_same_elements(s1, s2, id, v);
    lemma_same_elements(s2, s1, id, v);
}

/// What the highest version of an object in `s1` is, it is in `s2`, when
/// `s2` holds the same objects.
proof fn lemma_same_elements(s1: Seq<ObjectView>, s2: Seq<ObjectView>, id: ObjectId, v: u64)
    requires
        s1.to_multiset() == s2.to_multiset(),
    ensures
        (exists|k: int| 0 <= k < s1.len() && #[trigger] s1[k].id == id && s1[k].version == v) && (
        forall|j: int| 0 <= j < s1.len() && #[trigger] s1[j].id == id ==> s1[j].version <= v)
            ==> (exists|k: int| 0 <= k < s2.len() && #[trigger] s2[k].id == id && s2[k].version == v)
            && (forall|j: int| 0 <= j < s2.len() && #[trigger] s2[j].id == id ==> s2[j].version <= v),
{
    broadcast use vstd::seq_lib::to_multiset_contains;

    if (exists|k: int| 0 <= k < s1.len() && #[trigger] s1[k].id == id && s1[k].version == v) && (
    forall|j: int| 0 <= j < s1.len() && #[trigger] s1[j].id == id ==> s1[j].version <= v) {
        let k = choose|k: int| 0 <= k < s1.len() && #[trigger] s1[k].id == id && s1[k].version == v;
        let x = s1[k];
        assert(s1.contains(x));
        assert(s1.to_multiset().count(x) > 0);
        assert(s2.to_multiset().count(x) > 0);
        assert(s2.contains(x));
        let k2 = choose|k2: int| 0 <= k2 < s2.len() && s2[k2] == x;
        assert(s2[k2].id == id && s2[k2].version == v);
        assert forall|j: int| 0 <= j < s2.len() && #[trigger] s2[j].id == id implies s2[j].version <= v by {
            let y = s2[j];
            assert(s2.contains(y));
            assert(s2.to_multiset().count(y) > 0);
            assert(s1.to_multiset().count(y) > 0);
            assert(s1.contains(y));
            let j1 = choose|j1: int| 0 <= j1 < s1.len() && s1[j1] == y;
            assert(s1[j1].id == id);
        }
    }
}

/// The objects that a transaction deleted: those it deleted, then those it
/// wrapped, then those it unwrapped and deleted, each list in its own order.
pub fn get_deleted_objects(effects: &TransactionEffects) -> (r: Vec<ObjectRef>)
    ensures
        r@ == effects.deleted@ + effects.wrapped@ + effects.unwrapped_then_deleted@,
{
    let mut r: Vec<ObjectRef> = Vec::new();
    append_refs(&mut r, &effects.deleted);
    append_refs(&mut r, &effects.wrapped);
    append_refs(&mut r, &effects.unwrapped_then_deleted);
    r
}

/// Appends a copy of `refs` to `dst`.
fn append_refs(dst: &mut Vec<ObjectRef>, refs: &Vec<ObjectRef>)
    ensures
        final(dst)@ == old(dst)@ + refs@,
{
    let ghost start = dst@;
    let mut i: usize = 0;
    while i < refs.len()
        invariant
            i <= refs.len(),
            dst@ == start + refs@.subrange(0, i as int),
        decreases refs.len() - i,
    {
        dst.push(refs[i]);
        i = i + 1;
        assert(dst@ =~= start + refs@.subrange(0, i as int));
    }
    assert(refs@.subrange(0, i as int) =~= refs@);
}

/// The position in `latest` of the object `id`, if it is there.
pub(crate) fn find_object(latest: &Vec<Object>, id: ObjectId) -> (r: Option<usize>)
    ensures
        match r {
            Some(p) => p < latest.len() && latest@[p as int].id == id,
            None => forall|i: int| 0 <= i < latest.len() ==> #[trigger] latest@[i].id != id,
        },
{
    let mut i: usize = 0;
    while i < latest.len()
        invariant
            i <= latest.len(),
            forall|j: int| 0 <= j < i ==> #[trigger] latest@[j].id != id,
        decreases latest.len() - i,
    {
        if latest[i].id == id {
            return Some(i);
        }
        i = i + 1;
    }
    None
}

/// What holds after the first `t.len()` objects: `latest` holds each object
/// seen once, at its latest version so far (found at position `pos[i]`), and
/// `discarded` holds each superseded version once; `slot[k]` is where
/// `latest` holds the object of position `k`.
#[verifier::opaque]
spec fn latest_inv(
    t: Seq<ObjectView>,
    latest: Seq<ObjectView>,
    pos: Seq<int>,
    slot: Seq<int>,
    discarded: Seq<(ObjectId, u64)>,
) -> bool {
    &&& pos.len() == latest.len()
    &&& slot.len() == t.len()
    &&& forall|i: int, j: int|
        0 <= i < j < latest.len() ==> #[trigger] latest[i].id != #[trigger] latest[j].id
    &&& forall|i: int|
        0 <= i < latest.len() ==> is_latest_at(t, #[trigger] pos[i]) && latest[i] == t[pos[i]]
    &&& forall|k: int|
        0 <= k < t.len() ==> 0 <= #[trigger] slot[k] < latest.len() && latest[slot[k]].id == t[k].id
    &&& forall|id: ObjectId, v: u64|
        discarded.contains((id, v)) <==> #[trigger] is_discarded(t, id, v)
    &&& discarded.no_duplicates()
}

/// Appending an object keeps the records of the earlier positions, and every
/// superseded version stays superseded.
proof fn lemma_push_keeps_history(t: Seq<ObjectView>, o: ObjectView)
    ensures
        forall|i: int| 0 <= i < t.len() ==> (#[trigger] is_record_at(t.push(o), i) <==> is_record_at(t, i)),
        forall|id: ObjectId, v: u64| #[trigger] is_discarded(t, id, v) ==> is_discarded(t.push(o), id, v),
{
    let t2 = t.push(o);
    assert forall|i: int| 0 <= i < t.len() implies (#[trigger] is_record_at(t2, i) <==> is_record_at(t, i)) by {
        assert(t2[i] == t[i]);
        if is_record_at(t, i) {
            assert forall|j: int| 0 <= j < i && #[trigger] t2[j].id == t2[i].id implies t2[j].version
                < t2[i].version by {
                assert(t2[j] == t[j]);
            }
        }
        if is_record_at(t2, i) {
            assert forall|j: int| 0 <= j < i && #[trigger] t[j].id == t[i].id implies t[j].version
                < t[i].version by {
                assert(t2[j] == t[j]);
            }
        }
    }
    assert forall|id: ObjectId, v: u64| #[trigger] is_discarded(t, id, v) implies is_discarded(t2, id, v) by {
        let (i, j) = choose|i: int, j: int|
            #![trigger is_record_at(t, i), t[j]]
            i < j < t.len() && is_record_at(t, i) && t[i].id == id && t[i].version == v && t[j].id == id
                && v < t[j].version;
        assert(is_record_at(t2, i));
        assert(t2[j] == t[j]);
        assert(t2[i] == t[i]);
    }
}

/// A latest position of `t` stays latest once `o` is appended, unless `o` is
/// a higher version of the same object.
proof fn lemma_push_keeps_latest(t: Seq<ObjectView>, o: ObjectView, k: int)
    requires
        is_latest_at(t, k),
        t[k].id != o.id || o.version <= t[k].version,
    ensures
        is_latest_at(t.push(o), k),
{
    let t2 = t.push(o);
    assert forall|j: int| 0 <= j < t2.len() && #[trigger] t2[j].id == t2[k].id implies t2[j].version
        <= t2[k].version by {
        if j < t.len() {
            assert(t2[j] == t[j]);
        }
    }
    assert forall|j: int| 0 <= j < k && #[trigger] t2[j].id == t2[k].id implies t2[j].version
        < t2[k].version by {
        assert(t2[j] == t[j]);
    }
}

/// Appending an object not seen before.
proof fn lemma_step_new(
    t: Seq<ObjectView>,
    latest: Seq<ObjectView>,
    pos: Seq<int>,
    slot: Seq<int>,
    discarded: Seq<(ObjectId, u64)>,
    o: ObjectView,
)
    requires
        latest_inv(t, latest, pos, slot, discarded),
        forall|i: int| 0 <= i < latest.len() ==> #[trigger] latest[i].id != o.id,
    ensures
        latest_inv(
            t.push(o),
            latest.push(o),
            pos.push(t.len() as int),
            slot.push(latest.len() as int),
            discarded,
        ),
{
    reveal(latest_inv);
    let s2 = slot.push(latest.len() as int);
    let t2 = t.push(o);
    let l2 = latest.push(o);
    let p2 = pos.push(t.len() as int);
    let n = t.len() as int;
    lemma_push_keeps_history(t, o);
    assert forall|k: int| 0 <= k < n implies #[trigger] t[k].id != o.id by {
        assert(latest[slot[k]].id == t[k].id);
    }
    assert forall|i: int| 0 <= i < l2.len() implies is_latest_at(t2, #[trigger] p2[i]) && l2[i] == t2[p2[i]] by {
        if i < latest.len() {
            lemma_push_keeps_latest(t, o, pos[i]);
            assert(t2[pos[i]] == t[pos[i]]);
        } else {
            assert forall|j: int| 0 <= j < t2.len() && #[trigger] t2[j].id == t2[n].id implies t2[j].version
                <= t2[n].version by {
                if j < n {
                    assert(t2[j] == t[j]);
                }
            }
            assert forall|j: int| 0 <= j < n && #[trigger] t2[j].id == t2[n].id implies t2[j].version
                < t2[n].version by {
                assert(t2[j] == t[j]);
            }
        }
    }
    assert forall|i: int, j: int| 0 <= i < j < l2.len() implies #[trigger] l2[i].id != #[trigger] l2[j].id by {
        assert(l2[i] == latest[i]);
        if j < latest.len() {
            assert(l2[j] == latest[j]);
        }
    }
    assert forall|k: int| 0 <= k < t2.len() implies 0 <= #[trigger] s2[k] < l2.len() && l2[s2[k]].id
        == t2[k].id by {
        if k < n {
            assert(t2[k] == t[k]);
            assert(l2[slot[k]] == latest[slot[k]]);
        } else {
            assert(t2[n] == o);
        }
    }
    assert forall|id: ObjectId, v: u64| #[trigger] is_discarded(t2, id, v) implies is_discarded(t, id, v) by {
        let (i, j) = choose|i: int, j: int|
            #![trigger is_record_at(t2, i), t2[j]]
            i < j < t2.len() && is_record_at(t2, i) && t2[i].id == id && t2[i].version == v
                && t2[j].id == id && v < t2[j].version;
        assert(t2[i] == t[i]);
        if j == n {
            assert(t[i].id == o.id);
        } else {
            assert(t2[j] == t[j]);
        }
    }
    assert forall|id: ObjectId, v: u64| discarded.contains((id, v)) <==> #[trigger] is_discarded(t2, id, v) by {
        assert(discarded.contains((id, v)) <==> is_discarded(t, id, v));
    }
}

/// Appending a higher version of an object seen before, held at `latest[p]`.
proof fn lemma_step_replace(
    t: Seq<ObjectView>,
    latest: Seq<ObjectView>,
    pos: Seq<int>,
    slot: Seq<int>,
    discarded: Seq<(ObjectId, u64)>,
    o: ObjectView,
    p: int,
)
    requires
        latest_inv(t, latest, pos, slot, discarded),
        0 <= p < latest.len(),
        latest[p].id == o.id,
        latest[p].version < o.version,
    ensures
        latest_inv(
            t.push(o),
            latest.update(p, o),
            pos.update(p, t.len() as int),
            slot.push(p),
            discarded.push((o.id, latest[p].version)),
        ),
{
    reveal(latest_inv);
    let s2 = slot.push(p);
    let t2 = t.push(o);
    let l2 = latest.update(p, o);
    let p2 = pos.update(p, t.len() as int);
    let d2 = discarded.push((o.id, latest[p].version));
    let n = t.len() as int;
    let k = pos[p];
    let old_version = latest[p].version;
    lemma_push_keeps_history(t, o);
    assert(is_latest_at(t, k));
    assert(t[k] == latest[p]);
    assert(is_record_at(t, k));
    assert(is_record_at(t2, k));
    assert(t2[k] == t[k]);
    assert(t2[n] == o);
    assert(is_discarded(t2, o.id, old_version));
    // The replaced version was never superseded before.
    assert(!discarded.contains((o.id, old_version))) by {
        if discarded.contains((o.id, old_version)) {
            assert(is_discarded(t, o.id, old_version));
            let (i, j) = choose|i: int, j: int|
                #![trigger is_record_at(t, i), t[j]]
                i < j < t.len() && is_record_at(t, i) && t[i].id == o.id && t[i].version == old_version
                    && t[j].id == o.id && old_version < t[j].version;
            assert(t[j].version <= t[k].version);
        }
    }
    assert(d2.no_duplicates()) by {
        assert forall|a: int, b: int| 0 <= a < b < d2.len() implies d2[a] != d2[b] by {
            if b == discarded.len() {
                assert(d2[a] == discarded[a]);
                assert(discarded.contains(discarded[a]));
            } else {
                assert(d2[a] == discarded[a]);
                assert(d2[b] == discarded[b]);
            }
        }
    }
    assert forall|i: int| 0 <= i < l2.len() implies is_latest_at(t2, #[trigger] p2[i]) && l2[i] == t2[p2[i]] by {
        if i != p {
            assert(latest[i].id != latest[p].id);
            assert(is_latest_at(t, pos[i]));
            lemma_push_keeps_latest(t, o, pos[i]);
            assert(t2[pos[i]] == t[pos[i]]);
        } else {
            assert forall|j: int| 0 <= j < t2.len() && #[trigger] t2[j].id == t2[n].id implies t2[j].version
                <= t2[n].version by {
                if j < n {
                    assert(t2[j] == t[j]);
                    assert(t[j].id == t[k].id);
                }
            }
            assert forall|j: int| 0 <= j < n && #[trigger] t2[j].id == t2[n].id implies t2[j].version
                < t2[n].version by {
                assert(t2[j] == t[j]);
                assert(t[j].id == t[k].id);
            }
        }
    }
    assert forall|i: int, j: int| 0 <= i < j < l2.len() implies #[trigger] l2[i].id != #[trigger] l2[j].id by {
        assert(latest[i].id != latest[j].id);
    }
    assert forall|kk: int| 0 <= kk < t2.len() implies 0 <= #[trigger] s2[kk] < l2.len() && l2[s2[kk]].id
        == t2[kk].id by {
        if kk < n {
            assert(t2[kk] == t[kk]);
            let i = slot[kk];
            assert(latest[i].id == t[kk].id);
            if i == p {
                assert(l2[p].id == t2[kk].id);
            } else {
                assert(l2[i] == latest[i]);
            }
        } else {
            assert(l2[p].id == t2[kk].id);
        }
    }
    assert forall|id: ObjectId, v: u64| #[trigger] is_discarded(t2, id, v) implies d2.contains((id, v)) by {
        let (i, j) = choose|i: int, j: int|
            #![trigger is_record_at(t2, i), t2[j]]
            i < j < t2.len() && is_record_at(t2, i) && t2[i].id == id && t2[i].version == v
                && t2[j].id == id && v < t2[j].version;
        assert(is_record_at(t, i));
        assert(t2[i] == t[i]);
        if j == n {
            if v == old_version {
                assert(d2[d2.len() - 1] == (id, v));
            } else {
                assert(t[i].version <= t[k].version);
                if k < i {
                    assert(t[k].version < t[i].version);
                }
                assert(i < k);
                assert(is_discarded(t, id, v));
                assert(d2[discarded.index_of((id, v))] == (id, v));
            }
        } else {
            assert(t2[j] == t[j]);
            assert(is_discarded(t, id, v));
            assert(d2[discarded.index_of((id, v))] == (id, v));
        }
    }
    assert forall|id: ObjectId, v: u64| d2.contains((id, v)) implies #[trigger] is_discarded(t2, id, v) by {
        if discarded.contains((id, v)) {
            assert(is_discarded(t, id, v));
        } else {
            let a = choose|a: int| 0 <= a < d2.len() && d2[a] == (id, v);
            if a < discarded.len() {
                assert(discarded[a] == d2[a]);
            }
        }
    }
}

/// Appending a version of an object seen before that is no higher than the
/// one held at `latest[p]`.
proof fn lemma_step_keep(
    t: Seq<ObjectView>,
    latest: Seq<ObjectView>,
    pos: Seq<int>,
    slot: Seq<int>,
    discarded: Seq<(ObjectId, u64)>,
    o: ObjectView,
    p: int,
)
    requires
        latest_inv(t, latest, pos, slot, discarded),
        0 <= p < latest.len(),
        latest[p].id == o.id,
        o.version <= latest[p].version,
    ensures
        latest_inv(t.push(o), latest, pos, slot.push(p), discarded),
{
    reveal(latest_inv);
    let s2 = slot.push(p);
    let t2 = t.push(o);
    let n = t.len() as int;
    let k = pos[p];
    lemma_push_keeps_history(t, o);
    assert(is_latest_at(t, k));
    assert(t[k] == latest[p]);
    assert forall|i: int| 0 <= i < latest.len() implies is_latest_at(t2, #[trigger] pos[i]) && latest[i]
        == t2[pos[i]] by {
        assert(is_latest_at(t, pos[i]));
        if i != p {
            assert(latest[i].id != latest[p].id);
        }
        lemma_push_keeps_latest(t, o, pos[i]);
        assert(t2[pos[i]] == t[pos[i]]);
    }
    assert forall|kk: int| 0 <= kk < t2.len() implies 0 <= #[trigger] s2[kk] < latest.len()
        && latest[s2[kk]].id == t2[kk].id by {
        if kk < n {
            assert(t2[kk] == t[kk]);
            assert(latest[slot[kk]].id == t[kk].id);
        } else {
            assert(latest[p].id == t2[kk].id);
        }
    }
    assert forall|id: ObjectId, v: u64| #[trigger] is_discarded(t2, id, v) implies is_discarded(t, id, v) by {
        let (i, j) = choose|i: int, j: int|
            #![trigger is_record_at(t2, i), t2[j]]
            i < j < t2.len() && is_record_at(t2, i) && t2[i].id == id && t2[i].version == v
                && t2[j].id == id && v < t2[j].version;
        assert(is_record_at(t, i));
        assert(t2[i] == t[i]);
        if j == n {
            assert(t[i].version <= t[k].version);
            if k <= i {
                if k < i {
                    assert(t[k].version < t[i].version);
                }
                assert(t[k].version < o.version);
            }
            assert(i < k);
            assert(t[k].id == id);
        } else {
            assert(t2[j] == t[j]);
        }
    }
    assert forall|id: ObjectId, v: u64| discarded.contains((id, v)) <==> #[trigger] is_discarded(t2, id, v) by {
        assert(discarded.contains((id, v)) <==> is_discarded(t, id, v));
    }
}

/// The invariant holds before any object is seen.
proof fn lemma_inv_empty()
    ensures
        latest_inv(
            Seq::<ObjectView>::empty(),
            Seq::<ObjectView>::empty(),
            Seq::<int>::empty(),
            Seq::<int>::empty(),
            Seq::<(ObjectId, u64)>::empty(),
        ),
{
    reveal(latest_inv);
}

/// What the invariant gives once every object is seen.
proof fn lemma_inv_done(
    s: Seq<ObjectView>,
    latest: Seq<ObjectView>,
    pos: Seq<int>,
    slot: Seq<int>,
    discarded: Seq<(ObjectId, u64)>,
)
    requires
        latest_inv(s, latest, pos, slot, discarded),
    ensures
        forall|i: int, j: int| 0 <= i < j < latest.len() ==> #[trigger] latest[i].id != #[trigger] latest[j].id,
        forall|i: int| 0 <= i < latest.len() ==> #[trigger] is_latest_version(s, latest[i]),
        forall|k: int| 0 <= k < s.len() ==> #[trigger] holds_id(latest, s[k].id),
        forall|id: ObjectId, v: u64| discarded.contains((id, v)) <==> #[trigger] is_discarded(s, id, v),
        discarded.no_duplicates(),
{
    reveal(latest_inv);
    assert forall|i: int| 0 <= i < latest.len() implies #[trigger] is_latest_version(s, latest[i]) by {
        assert(is_latest_at(s, pos[i]));
    }
    assert forall|k: int| 0 <= k < s.len() implies #[trigger] holds_id(latest, s[k].id) by {
        assert(latest[slot[k]].id == s[k].id);
    }
}

/// For each object among `objects`, its latest version: the highest, and of
/// equal highest versions the first. Beside it, the superseded versions: each
/// version that was the highest of its object so far and that a later, higher
/// version replaced.
///
/// The first vector holds each object once; the second holds each pair once.
pub fn get_latest_objects(objects: &Vec<Object>) -> (r: (Vec<Object>, Vec<(ObjectId, u64)>))
    ensures
        forall|i: int, j: int|
            0 <= i < j < r.0.len() ==> #[trigger] r.0@[i].id != #[trigger] r.0@[j].id,
        forall|i: int| 0 <= i < r.0.len() ==> #[trigger] is_latest_version(views(objects@), r.0@[i]@),
        forall|k: int| 0 <= k < objects.len() ==> #[trigger] holds_id(views(r.0@), objects@[k].id),
        forall|id: ObjectId, v: u64|
            r.1@.contains((id, v)) <==> #[trigger] is_discarded(views(objects@), id, v),
        r.1@.no_duplicates(),
{
    let ghost s = views(objects@);
    let mut latest: Vec<Object> = Vec::new();
    let mut discarded: Vec<(ObjectId, u64)> = Vec::new();
    let ghost mut pos: Seq<int> = Seq::empty();
    let ghost mut slot: Seq<int> = Seq::empty();
    let mut n: usize = 0;
    proof {
        assert(views(latest@) =~= Seq::<ObjectView>::empty());
        assert(s.take(0) =~= Seq::<ObjectView>::empty());
        lemma_inv_empty();
    }
    while n < objects.len()
        invariant
            n <= objects.len(),
            s == views(objects@),
            pos.len() == latest.len(),
            latest_inv(s.take(n as int), views(latest@), pos, slot, discarded@),
        decreases objects.len() - n,
    {
        let ghost t = s.take(n as int);
        let ghost old_latest = latest@;
        let object = &objects[n];
        let ghost o = object@;
        proof {
            assert(s[n as int] == o);
            assert(s.take(n + 1) =~= t.push(o));
        }
        let found = find_object(&latest, object.id);
        match found {
            None => {
                proof {
                    assert forall|i: int| 0 <= i < views(latest@).len() implies #[trigger] views(latest@)[i].id
                        != o.id by {
                        assert(latest@[i].id != o.id);
                    }
                    lemma_step_new(t, views(latest@), pos, slot, discarded@, o);
                }
                latest.push(object.duplicate());
                proof {
                    slot = slot.push(pos.len() as int);
                    pos = pos.push(n as int);
                    assert(views(latest@) =~= views(old_latest).push(o));
                }
            },
            Some(p) => {
                if object.version > latest[p].version {
                    let old_id = latest[p].id;
                    let old_version = latest[p].version;
                    proof {
                        assert(views(latest@)[p as int] == latest@[p as int]@);
                        lemma_step_replace(t, views(latest@), pos, slot, discarded@, o, p as int);
                    }
                    discarded.push((old_id, old_version));
                    latest.set(p, object.duplicate());
                    proof {
                        pos = pos.update(p as int, n as int);
                        slot = slot.push(p as int);
                        assert(views(latest@) =~= views(old_latest).update(p as int, o));
                    }
                } else {
                    proof {
                        assert(views(latest@)[p as int] == latest@[p as int]@);
                        lemma_step_keep(t, views(latest@), pos, slot, discarded@, o, p as int);
                        slot = slot.push(p as int);
                    }
                }
            },
        }
        n = n + 1;
    }
    proof {
        assert(s.take(n as int) =~= s);
        let lv = views(latest@);
        lemma_inv_done(s, lv, pos, slot, discarded@);
        assert forall|i: int| 0 <= i < latest.len() implies #[trigger] is_latest_version(
            views(objects@),
            latest@[i]@,
        ) by {
            assert(lv[i] == latest@[i]@);
        }
        assert forall|k: int| 0 <= k < objects.len() implies #[trigger] holds_id(lv, objects@[k].id) by {
            assert(s[k].id == objects@[k].id);
        }
        assert forall|i: int, j: int| 0 <= i < j < latest.len() implies #[trigger] latest@[i].id
            != #[trigger] latest@[j].id by {
            assert(lv[i] == latest@[i]@);
            assert(lv[j] == latest@[j]@);
            assert(lv[i].id != lv[j].id);
        }
    }
    (latest, discarded)
}

} // verus!
