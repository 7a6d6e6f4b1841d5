use sf_indexer::objects::{get_deleted_objects, get_latest_objects};
use sf_indexer::sui_model::{
    ChangedObjectRef, Object, ObjectDigest, ObjectId, ObjectRef, Owner, SuiAddress,
    TransactionEffects, WriteKind,
};

fn oid(n: u128) -> ObjectId {
    ObjectId { high: 0, low: n }
}

fn oref(n: u128, version: u64) -> ObjectRef {
    ObjectRef { object_id: oid(n), version, digest: ObjectDigest { high: 7, low: n } }
}

fn object(n: u128, version: u64, tag: u8) -> Object {
    Object { id: oid(n), version, is_package: false, contents: vec![tag] }
}

fn effects(deleted: Vec<ObjectRef>, wrapped: Vec<ObjectRef>, unwrapped_then_deleted: Vec<ObjectRef>) -> TransactionEffects {
    TransactionEffects {
        status_ok: true,
        changed_objects: vec![ChangedObjectRef {
            object_ref: oref(99, 1),
            owner: Owner::AddressOwner(SuiAddress { high: 0, low: 1 }),
            write_kind: WriteKind::Create,
        }],
        deleted,
        wrapped,
        unwrapped_then_deleted,
    }
}

#[test]
fn deleted_objects_come_deleted_then_wrapped_then_unwrapped_deleted() {
    let fx = effects(vec![oref(1, 3), oref(2, 4)], vec![oref(3, 5)], vec![oref(4, 6)]);
    let r = get_deleted_objects(&fx);
    assert_eq!(r, vec![oref(1, 3), oref(2, 4), oref(3, 5), oref(4, 6)]);
}

#[test]
fn deleted_objects_of_effects_without_deletions_are_none() {
    let fx = effects(vec![], vec![], vec![]);
    assert!(get_deleted_objects(&fx).is_empty());
}

fn find<'a>(latest: &'a [Object], n: u128) -> &'a Object {
    latest.iter().find(|o| o.id == oid(n)).unwrap()
}

#[test]
fn latest_objects_keep_highest_version_and_list_superseded_ones() {
    let objects = vec![object(1, 1, 10), object(2, 5, 20), object(1, 3, 11), object(1, 2, 12), object(1, 4, 13)];
    let (latest, discarded) = get_latest_objects(&objects);
    assert_eq!(latest.len(), 2);
    assert_eq!(find(&latest, 1).version, 4);
    assert_eq!(find(&latest, 1).contents, vec![13]);
    assert_eq!(find(&latest, 2).version, 5);
    let mut d = discarded.clone();
    d.sort_by_key(|p| p.1);
    // Version 2 was never the highest so far, so it is not listed.
    assert_eq!(d, vec![(oid(1), 1), (oid(1), 3)]);
}

#[test]
fn latest_objects_keep_first_of_equal_versions() {
    let objects = vec![object(1, 2, 1), object(1, 2, 2)];
    let (latest, discarded) = get_latest_objects(&objects);
    assert_eq!(latest.len(), 1);
    assert_eq!(latest[0].contents, vec![1]);
    assert!(discarded.is_empty());
}

#[test]
fn latest_objects_of_nothing_are_empty() {
    let (latest, discarded) = get_latest_objects(&vec![]);
    assert!(latest.is_empty());
    assert!(discarded.is_empty());
}

#[test]
fn latest_version_is_never_superseded() {
    let objects = vec![object(5, 9, 0), object(5, 1, 0), object(5, 10, 0), object(5, 10, 1)];
    let (latest, discarded) = get_latest_objects(&objects);
    assert_eq!(latest.len(), 1);
    assert_eq!(latest[0].version, 10);
    assert_eq!(latest[0].contents, vec![0]);
    assert_eq!(discarded, vec![(oid(5), 9)]);
    assert!(!discarded.contains(&(oid(5), 10)));
}
