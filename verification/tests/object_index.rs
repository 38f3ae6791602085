use loam::loam_object_wire::{
    decode_get_resp, encode_get_req, encode_put, encode_remove, DecodedGetResp, PutFields, DATA_CLASS_ERASURE_CODED,
    OP_OBJ_PUT, OP_OBJ_REMOVE,
};
use loam::object_pic_body::{
    apply_to_arena, command, reply_for, Acks, AppendState, ApplyFault, ArenaError, ObjectCommand, ObjectNext, ObjectSlot,
    ModuleState as ObjectState, NAK,
};

const ACKS: Acks = Acks { absent: 0xF0, quota: 0xF1 };

fn put_record() -> Vec<u8> {
    let mut buf = [0u8; 128];
    let fields = PutFields {
        id: b"id",
        namespace: b"ns",
        key: b"k",
        content_hash: b"h",
        size_bytes: 5,
        revision: 1,
        data_class: DATA_CLASS_ERASURE_CODED,
        replica_count: 3,
        erasure: Some((4, 2)),
    };
    let n = encode_put(&mut buf, &fields).unwrap();
    buf[..n].to_vec()
}

fn remove_record() -> Vec<u8> {
    let mut buf = [0u8; 32];
    let n = encode_remove(&mut buf, b"id").unwrap();
    buf[..n].to_vec()
}

fn owed(s: &mut ObjectState) -> Vec<u8> {
    let b = s.owed().cloned().unwrap_or_default();
    s.delivered();
    b
}

#[test]
fn a_record_describes_a_change() {
    let put = put_record();
    match command(&put) {
        Some(ObjectCommand::Put(p)) => assert_eq!((p.id, p.size_bytes), (&b"id"[..], 5)),
        _ => panic!("no put"),
    }
    let remove = remove_record();
    assert!(matches!(command(&remove), Some(ObjectCommand::Remove(id)) if id == b"id"));
    assert!(command(&[]).is_none());
    assert!(command(&[0x99]).is_none());
}

#[test]
fn each_fault_has_a_reply() {
    assert_eq!(apply_to_arena(&put_record(), Ok(())), Ok(OP_OBJ_PUT));
    assert_eq!(apply_to_arena(&put_record(), Err(ArenaError::QuotaExceeded)), Err(ApplyFault::Quota));
    assert_eq!(apply_to_arena(&put_record(), Err(ArenaError::NotPresent)), Err(ApplyFault::Rejected));
    assert_eq!(apply_to_arena(&remove_record(), Err(ArenaError::NotPresent)), Err(ApplyFault::Absent));
    assert_eq!(apply_to_arena(&remove_record(), Err(ArenaError::QuotaExceeded)), Err(ApplyFault::Rejected));
    assert_eq!(apply_to_arena(&remove_record(), Err(ArenaError::Other)), Err(ApplyFault::Rejected));
    assert_eq!(apply_to_arena(&[0x99], Ok(())), Err(ApplyFault::Rejected));
    assert_eq!(reply_for(&ACKS, ApplyFault::Absent), 0xF0);
    assert_eq!(reply_for(&ACKS, ApplyFault::Quota), 0xF1);
    assert_eq!(reply_for(&ACKS, ApplyFault::Rejected), NAK);
}

#[test]
fn a_change_is_durable_first() {
    let mut s = ObjectState::new(ACKS);
    s.set_wal(true, true);
    assert!(s.begin_step());
    s.refill(&put_record());
    assert!(matches!(s.next(), ObjectNext::Log));
    assert_eq!(s.staged(), Some(&put_record()));
    assert!(matches!(s.next(), ObjectNext::Wait));
    assert!(matches!(s.logged(AppendState::Pending), ObjectNext::Wait));
    assert!(matches!(s.logged(AppendState::Durable), ObjectNext::Apply));
    s.resolve_staged(Ok(()));
    assert_eq!(owed(&mut s), vec![OP_OBJ_PUT]);
    s.refill(&remove_record());
    assert!(matches!(s.next(), ObjectNext::Log));
    assert!(matches!(s.logged(AppendState::Failed), ObjectNext::Answered));
    assert_eq!(owed(&mut s), vec![NAK]);
}

#[test]
fn without_its_log_nothing_is_changed() {
    let mut s = ObjectState::new(ACKS);
    s.set_wal(true, false);
    s.refill(&remove_record());
    assert!(matches!(s.next(), ObjectNext::Answered));
    assert!(!s.begin_step());
    assert_eq!(owed(&mut s), vec![NAK]);
    s.set_wal(false, false);
    s.refill(&remove_record());
    assert!(matches!(s.next(), ObjectNext::Apply));
    s.resolve_staged(Err(ArenaError::NotPresent));
    assert_eq!(owed(&mut s), vec![ACKS.absent]);
    assert_ne!(owed(&mut s), vec![OP_OBJ_REMOVE]);
}

#[test]
fn a_description_is_answered() {
    let mut s = ObjectState::new(ACKS);
    let mut buf = [0u8; 32];
    let n = encode_get_req(&mut buf, b"id").unwrap();
    s.refill(&buf[..n]);
    match s.next() {
        ObjectNext::Get(id) => assert_eq!(id, b"id"),
        _ => panic!("no get"),
    }
    s.handle_get(Some(ObjectSlot {
        size_bytes: 5,
        revision: 1,
        data_class: DATA_CLASS_ERASURE_CODED,
        replica_count: 3,
        erasure: Some((4, 2)),
    }));
    match decode_get_resp(&owed(&mut s)) {
        Ok(DecodedGetResp::Found { size_bytes, revision, erasure, .. }) => {
            assert_eq!((size_bytes, revision, erasure), (5, 1, Some((4, 2))));
        },
        _ => panic!("not found"),
    }
    s.handle_get(None);
    assert_eq!(decode_get_resp(&owed(&mut s)), Ok(DecodedGetResp::NotFound));
}

#[test]
fn bytes_that_begin_no_object_record() {
    let mut s = ObjectState::new(ACKS);
    s.refill(&[0x77, 0x78]);
    assert!(matches!(s.next(), ObjectNext::Answered));
    assert_eq!(owed(&mut s), vec![NAK]);
    assert!(matches!(s.next(), ObjectNext::Skipped));
    s.open_budget();
    s.replay_done(2, 0);
    assert!(s.wants_input());
}
