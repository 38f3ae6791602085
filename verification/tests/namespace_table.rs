use loam::loam_change_wire::{STATUS_EVENTS, STATUS_LOST};
use loam::loam_limits::{check_key, KeyTooLong};
use loam::loam_snapshot::SnapRecord;
use loam::loam_wire::{decode_list_resp, decode_lookup_resp, decode_referenced_resp, encode_bind, encode_list_req};
use loam::loam_wire::{encode_lookup_req, encode_referenced_req, encode_rename, encode_unbind, DecodedLookupResp};
use loam::loam_wire::{OP_BIND, OP_UNBIND};
use loam::namespace_apply::{apply_to_arena, ApplyFault, NamespaceTable};
use loam::namespace_changes::changes_since;
use loam::namespace_compact::snap_record_from_slot;
use loam::namespace_pic_state::{ApplyError, ApplyOk, NamespaceKindCode, PicNamespaceState, KIND_TOMBSTONE};
use loam::namespace_reads::{handle_list, handle_lookup, handle_referenced, LookupNext};

fn bind_record(path: &[u8], object_id: &[u8], revision: u64) -> Vec<u8> {
    let mut buf = [0u8; 256];
    let n = encode_bind(&mut buf, b"r", path, object_id, 0, revision).unwrap();
    buf[..n].to_vec()
}

fn unbind_record(path: &[u8]) -> Vec<u8> {
    let mut buf = [0u8; 256];
    let n = encode_unbind(&mut buf, b"r", path).unwrap();
    buf[..n].to_vec()
}

fn snapshot_record(path: &[u8], revision: u64) -> SnapRecord {
    let mut t = NamespaceTable::<1>::new();
    t.bindings.bind(b"r", path, b"oid", 0, revision).unwrap();
    snap_record_from_slot(t.bindings.slot_ref(0).unwrap())
}

fn looked_up(table: &NamespaceTable<4>, path: &[u8]) -> Option<(Vec<u8>, u64)> {
    let mut buf = [0u8; 256];
    let n = encode_lookup_req(&mut buf, b"r", path).unwrap();
    match handle_lookup(table, &buf[..n]) {
        LookupNext::Reply(frame) => match decode_lookup_resp(&frame).unwrap() {
            DecodedLookupResp::Found { object_id, revision, .. } => Some((object_id.to_vec(), revision)),
            DecodedLookupResp::NotFound => None,
        },
        _ => panic!("no reply"),
    }
}

#[test]
fn kinds_have_codes() {
    assert_eq!(NamespaceKindCode::from_u8(0).map(|k| k.to_u8()), Some(0));
    assert_eq!(NamespaceKindCode::from_u8(KIND_TOMBSTONE), None);
}

#[test]
fn keys_have_ceilings() {
    assert_eq!(check_key(&[b'r'; 64], &[b'p'; 1024], &[b'o'; 96]), Ok(()));
    assert!(matches!(check_key(&[b'r'; 65], b"/p", b"o"), Err(KeyTooLong { .. })));
    assert!(check_key(b"r", &[b'p'; 1025], b"o").is_err());
    assert!(check_key(b"r", b"/p", &[b'o'; 97]).is_err());
}

#[test]
fn a_bound_key_is_found() {
    let mut t = PicNamespaceState::<4>::new();
    assert!(t.is_empty());
    assert_eq!(t.bind(b"r", b"/a", b"o1", 0, 1), Ok(ApplyOk::Bound { revision: 1 }));
    assert_eq!((t.len(), t.capacity(), t.change_seq()), (1, 4, 1));
    let s = t.lookup(b"r", b"/a").unwrap();
    assert_eq!((s.object_id(), s.revision, s.kind), (&b"o1"[..], 1, 0));
    assert!(t.lookup(b"q", b"/a").is_none());
    assert!(t.object_id_referenced(b"o1"));
    assert!(!t.object_id_referenced(b"o2"));
}

#[test]
fn a_later_revision_wins() {
    let mut t = PicNamespaceState::<4>::new();
    t.bind(b"r", b"/a", b"o1", 0, 5).unwrap();
    assert_eq!(t.bind(b"r", b"/a", b"o1", 0, 5), Ok(ApplyOk::Bound { revision: 5 }));
    assert_eq!(t.change_seq(), 1);
    assert_eq!(t.bind(b"r", b"/a", b"o2", 0, 5), Err(ApplyError::AlreadyBound));
    assert_eq!(t.bind(b"r", b"/a", b"o2", 0, 4), Err(ApplyError::AlreadyBound));
    assert_eq!(t.bind(b"r", b"/a", b"o2", 0, 6), Ok(ApplyOk::Bound { revision: 6 }));
    assert_eq!(t.lookup(b"r", b"/a").unwrap().object_id(), b"o2");
}

#[test]
fn a_table_has_room_for_so_many() {
    let mut t = PicNamespaceState::<2>::new();
    t.bind(b"r", b"/a", b"o", 0, 1).unwrap();
    t.bind(b"r", b"/b", b"o", 0, 1).unwrap();
    assert_eq!(t.bind(b"r", b"/c", b"o", 0, 1), Err(ApplyError::OutOfCapacity));
    assert_eq!(t.tombstone(b"r", b"/c", 1), Err(ApplyError::OutOfCapacity));
    assert_eq!(t.bind(&[b'r'; 65], b"/c", b"o", 0, 1), Err(ApplyError::KeyTooLong));
}

#[test]
fn a_renamed_key_moves() {
    let mut t = PicNamespaceState::<4>::new();
    t.bind(b"r", b"/a", b"o1", 0, 1).unwrap();
    t.bind(b"r", b"/b", b"o2", 0, 1).unwrap();
    assert_eq!(t.rename(b"r", b"/a", b"/b", 2), Err(ApplyError::DestinationOccupied));
    assert_eq!(t.rename(b"r", b"/x", b"/y", 2), Err(ApplyError::NotBound));
    assert_eq!(t.rename(b"r", b"/a", b"/c", 2), Ok(ApplyOk::Renamed { new_revision: 2 }));
    assert!(t.lookup(b"r", b"/a").is_none());
    assert_eq!(t.lookup(b"r", b"/c").unwrap().object_id(), b"o1");
}

#[test]
fn an_unbound_key_is_gone() {
    let mut t = PicNamespaceState::<4>::new();
    t.bind(b"r", b"/a", b"o1", 0, 1).unwrap();
    assert_eq!(t.unbind(b"r", b"/a"), Ok(ApplyOk::Unbound));
    assert!(t.lookup(b"r", b"/a").is_none());
    assert_eq!(t.unbind(b"r", b"/a"), Err(ApplyError::NotBound));
}

#[test]
fn a_deletion_keeps_its_slot() {
    let mut t = PicNamespaceState::<4>::new();
    t.bind(b"r", b"/a", b"o1", 0, 1).unwrap();
    assert_eq!(t.tombstone(b"r", b"/a", 2), Ok(ApplyOk::Unbound));
    assert_eq!((t.len(), t.occupied_count()), (1, 1));
    assert_eq!(t.list_page(b"r", 0, 8).0.len(), 0);
}

#[test]
fn a_locked_key_stays() {
    let mut t = PicNamespaceState::<4>::new();
    t.bind(b"r", b"/a", b"o1", 0, 1).unwrap();
    t.set_lock(b"r", b"/a", true).unwrap();
    assert!(t.is_locked(b"r", b"/a"));
    assert_eq!(t.bind(b"r", b"/a", b"o2", 0, 2), Err(ApplyError::Locked));
    assert_eq!(t.rename(b"r", b"/a", b"/b", 2), Err(ApplyError::Locked));
    assert_eq!(t.unbind(b"r", b"/a"), Err(ApplyError::Locked));
    assert_eq!(t.tombstone(b"r", b"/a", 2), Err(ApplyError::Locked));
    t.set_lock(b"r", b"/a", false).unwrap();
    assert_eq!(t.unbind(b"r", b"/a"), Ok(ApplyOk::Unbound));
}

#[test]
fn a_key_expires_unless_locked() {
    let mut t = PicNamespaceState::<4>::new();
    t.bind(b"r", b"/a", b"o1", 0, 1).unwrap();
    assert!(!t.is_expired(b"r", b"/a", u64::MAX));
    t.set_expiry(b"r", b"/a", 100).unwrap();
    assert!(!t.is_expired(b"r", b"/a", 99));
    assert!(t.is_expired(b"r", b"/a", 100));
    assert_eq!(t.expired_page(100, 0, 8), (vec![0], 0));
    t.set_lock(b"r", b"/a", true).unwrap();
    assert!(!t.is_expired(b"r", b"/a", 100));
    assert_eq!(t.expired_page(100, 0, 8), (vec![], 0));
}

#[test]
fn a_listing_goes_on_where_it_stopped() {
    let mut t = PicNamespaceState::<4>::new();
    t.bind(b"r", b"/a/1", b"o", 0, 1).unwrap();
    t.bind(b"r", b"/b/2", b"o", 0, 1).unwrap();
    t.bind(b"r", b"/a/3", b"o", 0, 1).unwrap();
    t.bind(b"q", b"/a/4", b"o", 0, 1).unwrap();
    assert_eq!(t.list_page(b"r", 0, 2), (vec![0, 1], 2));
    assert_eq!(t.list_page(b"r", 2, 2), (vec![2], 0));
    assert_eq!(t.list_page_prefixed(b"r", b"/a/", 0, 8), (vec![0, 2], None));
    assert_eq!(PicNamespaceState::<4>::resume_at(&[0, 2], None, 0), Some(0));
    assert_eq!(PicNamespaceState::<4>::resume_at(&[0, 2], None, 1), Some(2));
    assert_eq!(PicNamespaceState::<4>::resume_at(&[0, 2], None, 2), None);
    assert_eq!(PicNamespaceState::<4>::resume_at(&[0, 1], Some(2), 2), Some(2));
    let mut u = PicNamespaceState::<4>::new();
    assert_eq!(u.bind(b"r", b"", b"o", 0, 1), Ok(ApplyOk::Bound { revision: 1 }));
    assert_eq!(u.list_page_prefixed(b"r", b"", 0, 10), (vec![0], None));
    assert_eq!(u.list_page_prefixed(b"r", b"/", 0, 10), (vec![], None));
    assert_eq!(u.next_listed(b"r", b"", 0), Some(0));
}

#[test]
fn only_what_a_snapshot_covers_is_evicted() {
    let mut t = PicNamespaceState::<4>::new();
    t.bind(b"r", b"/a", b"o", 0, 1).unwrap();
    assert!(!t.evict_one_snapshotted());
    t.mark_emitted(0, 7);
    assert_eq!(t.dirty_count(), 1);
    t.finalize_emitted(7);
    assert_eq!(t.dirty_count(), 0);
    assert!(t.evict_one_snapshotted());
    assert!(t.lookup(b"r", b"/a").is_none());
    assert_eq!(t.change_horizon(), 1);
}

#[test]
fn records_are_carried_out() {
    let mut t = PicNamespaceState::<4>::new();
    assert_eq!(apply_to_arena(&mut t, &bind_record(b"/a", b"o1", 1)), Ok(OP_BIND));
    let mut buf = [0u8; 64];
    let n = encode_rename(&mut buf, b"r", b"/a", b"/b", 2).unwrap();
    assert!(apply_to_arena(&mut t, &buf[..n]).is_ok());
    assert_eq!(apply_to_arena(&mut t, &unbind_record(b"/a")), Err(()));
    assert_eq!(apply_to_arena(&mut t, &unbind_record(b"/b")), Ok(OP_UNBIND));
    assert_eq!(apply_to_arena(&mut t, &[]), Err(()));
    assert_eq!(apply_to_arena(&mut t, &[0x55]), Err(()));
}

#[test]
fn a_reserved_object_is_not_bound() {
    let mut t = NamespaceTable::<4>::new();
    assert!(t.gc_reserve(b"o1"));
    assert_eq!(t.apply_op(&bind_record(b"/a", b"o1", 1), None), Err(ApplyFault::Reserved));
    assert_eq!(t.apply_op(&bind_record(b"/a", b"o2", 1), None), Ok(OP_BIND));
    t.gc_release(b"o1");
    assert!(!t.is_reserved(b"o1"));
    assert_eq!(t.apply_op(&bind_record(b"/b", b"o1", 1), None), Ok(OP_BIND));
    assert_eq!(t.apply_op(&bind_record(b"/a", b"o9", 1), None), Err(ApplyFault::Rejected));
}

#[test]
fn a_reservation_is_of_one_id() {
    let a = b"8yn0iYCKYHlIj4-BwPqk";
    let b = b"GReLUrM4wMqfg9yzV3KQ";
    let mut t = NamespaceTable::<4>::new();
    assert!(t.gc_reserve(a));
    assert!(!t.is_reserved(b));
    t.gc_release(b);
    assert!(t.is_reserved(a));
    assert_eq!(t.apply_op(&bind_record(b"/a", b, 1), None), Ok(OP_BIND));
    assert_eq!(t.apply_op(&bind_record(b"/b", a, 1), None), Err(ApplyFault::Reserved));
}

#[test]
fn reservations_are_few() {
    let mut t = NamespaceTable::<4>::new();
    assert!(t.gc_reserve(b"1") && t.gc_reserve(b"2") && t.gc_reserve(b"3") && t.gc_reserve(b"4"));
    assert!(t.gc_reserve(b"4"));
    assert!(!t.gc_reserve(b"5"));
    t.gc_release(b"2");
    assert!(t.gc_reserve(b"5"));
}

#[test]
fn a_deletion_masks_the_snapshot() {
    let mut t = NamespaceTable::<4>::new();
    t.snap_active = true;
    let rec = unbind_record(b"/a");
    assert_eq!(t.search_key(&rec), Some((b"r".to_vec(), b"/a".to_vec())));
    assert_eq!(t.apply_op(&rec, None), Err(ApplyFault::Rejected));
    let found = snapshot_record(b"/a", 4);
    assert_eq!(t.apply_op(&rec, Some(&snapshot_record(b"/b", 4))), Err(ApplyFault::Rejected));
    assert_eq!(t.apply_op(&rec, Some(&found)), Ok(OP_UNBIND));
    assert_eq!(looked_up(&t, b"/a"), None);
    let s = t.bindings.lookup(b"r", b"/a").unwrap();
    assert_eq!((s.kind, s.revision), (KIND_TOMBSTONE, 4));
}

#[test]
fn what_leaves_no_trace_is_a_loss() {
    let mut t = PicNamespaceState::<4>::new();
    t.bind(b"", b"/a", b"o1", 0, 1).unwrap();
    t.bind(b"", b"/b", b"o2", 0, 1).unwrap();
    assert_eq!(t.change_horizon(), 0);
    t.tombstone(b"", b"/b", 2).unwrap();
    assert_eq!((t.change_seq(), t.change_horizon()), (3, 0));
    assert_eq!(changes_since(&t, b"", 2, 64)[0], STATUS_EVENTS);
    t.rename(b"", b"/a", b"/c", 2).unwrap();
    assert_eq!((t.change_seq(), t.change_horizon()), (4, 4));
    assert_eq!(changes_since(&t, b"", 3, 64)[0], STATUS_LOST);
    assert_eq!(changes_since(&t, b"", 4, 64), [STATUS_EVENTS, 0, 0, 0, 0]);
    t.unbind(b"", b"/c").unwrap();
    assert_eq!((t.change_seq(), t.change_horizon()), (5, 5));
    assert_eq!(changes_since(&t, b"", 4, 64)[0], STATUS_LOST);
}

#[test]
fn nothing_is_evicted_while_a_merge_runs() {
    let mut t = NamespaceTable::<1>::new();
    t.apply_op(&bind_record(b"/a", b"o", 1), None).unwrap();
    t.bindings.mark_emitted(0, 3);
    t.bindings.finalize_emitted(3);
    t.snap_active = true;
    t.merging = true;
    assert_eq!(t.apply_op(&bind_record(b"/b", b"o", 1), None), Err(ApplyFault::Rejected));
    t.merging = false;
    assert_eq!(t.apply_op(&bind_record(b"/b", b"o", 1), None), Ok(OP_BIND));
    assert_eq!(t.evictions, 1);
}

#[test]
fn lookups_are_answered() {
    let mut t = NamespaceTable::<4>::new();
    t.apply_op(&bind_record(b"/a", b"o1", 3), None).unwrap();
    assert_eq!(looked_up(&t, b"/a"), Some((b"o1".to_vec(), 3)));
    assert_eq!(looked_up(&t, b"/b"), None);
    assert!(matches!(handle_lookup(&t, b"?"), LookupNext::Malformed));
    t.snap_active = true;
    let mut buf = [0u8; 64];
    let n = encode_lookup_req(&mut buf, b"r", b"/b").unwrap();
    match handle_lookup(&t, &buf[..n]) {
        LookupNext::Search { root, path } => assert_eq!((&root[..], &path[..]), (&b"r"[..], &b"/b"[..])),
        _ => panic!("not searched"),
    }
}

#[test]
fn listings_are_answered() {
    let mut t = NamespaceTable::<4>::new();
    t.apply_op(&bind_record(b"/a", b"o1", 3), None).unwrap();
    t.apply_op(&bind_record(b"/b", b"o1", 3), None).unwrap();
    let mut buf = [0u8; 64];
    let n = encode_list_req(&mut buf, b"r", 0, 1).unwrap();
    let walk = handle_list(&t, 0, &buf[..n]).unwrap();
    assert_eq!(walk.wants(0), None);
    let frame = walk.finish(4, 0, 512).unwrap();
    assert_eq!(decode_list_resp(&frame), Ok((1, vec![&b"/a"[..]])));
    assert!(walk.finish(4, 0, 5).is_none());
    assert!(handle_list(&t, 0, b"?").is_none());
}

#[test]
fn references_are_told() {
    let mut t = NamespaceTable::<4>::new();
    t.apply_op(&bind_record(b"/a", b"o1", 3), None).unwrap();
    let mut buf = [0u8; 64];
    let n = encode_referenced_req(&mut buf, 0, b"o1").unwrap();
    let frame = handle_referenced(&t, 0, &buf[..n]).unwrap().finish(&t, 0);
    assert_eq!(decode_referenced_resp(&frame), Ok((true, 0)));
    let n = encode_referenced_req(&mut buf, 0, b"o2").unwrap();
    let scan = handle_referenced(&t, 0, &buf[..n]).unwrap();
    assert_eq!(scan.wants(), None);
    assert_eq!(decode_referenced_resp(&scan.finish(&t, 0)), Ok((false, 0)));
}

#[test]
fn a_record_that_cannot_be_read_counts_as_a_reference() {
    let mut t = NamespaceTable::<4>::new();
    t.snap_active = true;
    let mut buf = [0u8; 64];
    let n = encode_referenced_req(&mut buf, 0, b"o2").unwrap();
    let mut scan = handle_referenced(&t, 1, &buf[..n]).unwrap();
    assert_eq!(scan.wants(), Some(0));
    scan.feed(None);
    assert_eq!(decode_referenced_resp(&scan.finish(&t, 1)), Ok((true, 0)));
}
