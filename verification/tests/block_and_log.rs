use loam::block_log_body::{
    clean_record, emit_replay_record, encode_record, set_log_path, LogAction, LogScan, ModuleState as LogState,
};
use loam::block_pic_body::{apply_to_arena, BlockNext, ModuleState as BlockState, ARENA_CAPACITY, NAK};
use loam::block_pic_state::{ApplyError, ApplyOk, PicBlockState};
use loam::crc32::crc32;
use loam::loam_block_wire::{encode_allocate, encode_create_volume, encode_release, CLASS_LOCAL};
use loam::loam_block_wire::{OP_ALLOCATE, OP_CREATE_VOLUME, OP_RELEASE};
use loam::loam_log_wire::{
    decode_append_resp, decode_replay_end, decode_replay_record, encode_append_req, encode_replay_req, OP_REPLAY_END,
};

fn create(id: &[u8]) -> Vec<u8> {
    let mut buf = [0u8; 64];
    let n = encode_create_volume(&mut buf, id, CLASS_LOCAL, 4096, 512, false).unwrap();
    buf[..n].to_vec()
}

fn allocate(id: &[u8], count: u64) -> Vec<u8> {
    let mut buf = [0u8; 64];
    let n = encode_allocate(&mut buf, id, count).unwrap();
    buf[..n].to_vec()
}

fn release(id: &[u8], count: u64) -> Vec<u8> {
    let mut buf = [0u8; 64];
    let n = encode_release(&mut buf, id, count).unwrap();
    buf[..n].to_vec()
}

#[test]
fn volumes_are_allocated_from() {
    let mut t = PicBlockState::<2>::new();
    assert!(t.is_empty());
    assert_eq!(t.create_volume(b"v", CLASS_LOCAL, 4096, 512, false), Ok(ApplyOk::Created));
    assert_eq!((t.len(), t.capacity()), (1, 2));
    let v = t.lookup(b"v").unwrap();
    assert_eq!((v.logical_block_count(), v.free_blocks()), (8, 8));
    assert_eq!(t.allocate(b"v", 3), Ok(ApplyOk::Allocated { first_block: 0, count: 3 }));
    assert_eq!(t.allocate(b"v", 2), Ok(ApplyOk::Allocated { first_block: 3, count: 2 }));
    assert_eq!(t.lookup(b"v").unwrap().free_blocks(), 3);
    assert_eq!(t.release(b"v", 5), Ok(ApplyOk::Released { count: 5 }));
    assert_eq!(t.lookup(b"v").unwrap().free_blocks(), 8);
}

#[test]
fn what_a_volume_does_not_have_is_refused() {
    let mut t = PicBlockState::<1>::new();
    assert_eq!(t.allocate(b"v", 1), Err(ApplyError::NotPresent));
    t.create_volume(b"v", CLASS_LOCAL, 4096, 512, false).unwrap();
    assert_eq!(t.create_volume(b"v", CLASS_LOCAL, 1, 1, false), Err(ApplyError::AlreadyPresent));
    assert_eq!(t.create_volume(b"w", CLASS_LOCAL, 1, 1, false), Err(ApplyError::OutOfCapacity));
    assert_eq!(t.allocate(b"v", 9), Err(ApplyError::AllocationExceedsVolume));
    assert_eq!(t.allocate(b"v", u64::MAX), Err(ApplyError::AllocationExceedsVolume));
    assert_eq!(t.release(b"v", 1), Err(ApplyError::ReleaseExceedsAllocated));
    assert_eq!(t.lookup(b"v").unwrap().free_blocks(), 8);
}

#[test]
fn volumes_whose_ids_share_a_hash_are_two() {
    let a = b"8yn0iYCKYHlIj4-BwPqk";
    let b = b"GReLUrM4wMqfg9yzV3KQ";
    let mut t = PicBlockState::<2>::new();
    t.create_volume(a, CLASS_LOCAL, 4096, 512, false).unwrap();
    assert!(t.lookup(b).is_none());
    assert_eq!(t.allocate(b, 1), Err(ApplyError::NotPresent));
    assert_eq!(t.create_volume(b, CLASS_LOCAL, 1024, 512, false), Ok(ApplyOk::Created));
    assert_eq!(t.allocate(b, 2), Ok(ApplyOk::Allocated { first_block: 0, count: 2 }));
    let (va, vb) = (t.lookup(a).unwrap(), t.lookup(b).unwrap());
    assert_eq!(va.volume_id_hash, vb.volume_id_hash);
    assert_eq!((va.free_blocks(), vb.free_blocks()), (8, 0));
    assert!(va.matches(a) && !va.matches(b));
}

#[test]
fn a_volume_without_blocks() {
    let mut t = PicBlockState::<1>::new();
    t.create_volume(b"v", CLASS_LOCAL, 4096, 0, false).unwrap();
    assert_eq!(t.lookup(b"v").unwrap().logical_block_count(), 0);
    assert_eq!(t.allocate(b"v", 1), Err(ApplyError::AllocationExceedsVolume));
}

#[test]
fn block_records_are_carried_out() {
    let mut t = PicBlockState::<ARENA_CAPACITY>::new();
    assert_eq!(apply_to_arena(&mut t, &create(b"v")), Ok(OP_CREATE_VOLUME));
    assert_eq!(apply_to_arena(&mut t, &allocate(b"v", 2)), Ok(OP_ALLOCATE));
    assert_eq!(apply_to_arena(&mut t, &release(b"v", 1)), Ok(OP_RELEASE));
    assert_eq!(apply_to_arena(&mut t, &release(b"v", 2)), Err(()));
    assert_eq!(apply_to_arena(&mut t, &[]), Err(()));
    assert_eq!(apply_to_arena(&mut t, &[0x77]), Err(()));
}

#[test]
fn requests_come_off_in_pieces() {
    let mut s = BlockState::new();
    s.begin_step();
    let r = create(b"v");
    s.refill(&r[..5]);
    assert!(matches!(s.next(), BlockNext::Wait));
    s.refill(&r[5..]);
    match s.next() {
        BlockNext::Record(record) => {
            assert_eq!(record, r);
            assert_eq!(s.settle(&record, false), NAK);
            assert!(s.lookup(b"v").is_none());
            assert_eq!(s.settle(&record, true), OP_CREATE_VOLUME);
        },
        _ => panic!("no record"),
    }
    assert!(s.lookup(b"v").is_some());
}

#[test]
fn a_step_takes_so_many_requests() {
    let mut s = BlockState::new();
    s.begin_step();
    s.refill(&[0x70, 0x71, 0x72, 0x73, 0x74]);
    assert!(matches!(s.next(), BlockNext::Refused));
    assert!(matches!(s.next(), BlockNext::Skipped));
    assert!(matches!(s.next(), BlockNext::Skipped));
    assert!(matches!(s.next(), BlockNext::Skipped));
    assert!(matches!(s.next(), BlockNext::Wait));
    s.begin_step();
    assert!(matches!(s.next(), BlockNext::Skipped));
    assert!(s.wants_input());
}

#[test]
fn the_block_log_is_replayed() {
    let mut s = BlockState::new();
    assert!(s.replay(&create(b"v")));
    assert!(!s.replay(&create(b"v")));
    s.replay_done(1, 1);
    assert!(s.lookup(b"v").is_some());
}

#[test]
fn a_record_on_disk() {
    let frame = encode_record(b"abc");
    assert_eq!(&frame[..4], &crc32(b"abc").to_le_bytes());
    assert_eq!(&frame[4..], &[3, 0, 0, 0, b'a', b'b', b'c'][..]);
    assert_eq!(clean_record(&frame), Some(3));
    assert_eq!(clean_record(&frame[..10]), None);
    let mut torn = frame.clone();
    torn[9] ^= 1;
    assert_eq!(clean_record(&torn), None);
    assert_eq!(clean_record(&encode_record(b"")), None);
    assert_eq!(clean_record(&encode_record(&[1u8; 4096])), Some(4096));
    let mut long = 4097u32.to_le_bytes().to_vec();
    long.splice(0..0, crc32(&[1u8; 4097]).to_le_bytes());
    long.extend_from_slice(&[1u8; 4097]);
    assert_eq!(clean_record(&long), None);
}

#[test]
fn a_replay_reads_back_what_was_appended() {
    let mut log = encode_record(b"one");
    log.extend_from_slice(&encode_record(b"twotwo"));
    log.extend_from_slice(&[0u8; 5]);
    let mut scan = LogScan::start();
    let mut got = Vec::new();
    while let Some(payload) = scan.advance(&log[scan.offset as usize..]) {
        got.push(payload);
    }
    assert_eq!(got, vec![b"one".to_vec(), b"twotwo".to_vec()]);
    assert_eq!(scan, LogScan { offset: 25, total: 2 });
}

#[test]
fn a_replay_answers_with_its_records_and_their_number() {
    let mut log = encode_record(b"one");
    log.extend_from_slice(&encode_record(b"twotwo"));
    log.extend_from_slice(&[0u8; 5]);
    let mut s = LogState::new();
    s.open_log(3, Some(LogScan { offset: 25, total: 2 }));
    let mut scan = LogScan::start();
    let mut at = 0usize;
    for (offset, payload) in [(0u64, &b"one"[..]), (11, &b"twotwo"[..])] {
        let (len, answer) = scan.next_answer(9, &log[at..]).unwrap();
        let rec = decode_replay_record(&answer).unwrap();
        assert_eq!((rec.correlation_id, rec.offset, rec.payload), (9, offset, payload));
        at += len;
    }
    assert_eq!(scan.next_answer(9, &log[at..]), None);
    let end = decode_replay_end(&s.replay_done(9, scan)).unwrap();
    assert_eq!((end.correlation_id, end.total_records), (9, 2));
}

#[test]
fn a_step_of_the_log_takes_so_many_requests() {
    let mut s = LogState::new();
    s.begin_step();
    for _ in 0..4 {
        assert!(s.wants_input());
        assert!(matches!(s.module_step_impl(&[0x77]), LogAction::Drop));
    }
    assert!(!s.wants_input());
    s.begin_step();
    assert!(s.wants_input());
    assert_eq!((s.ticks, s.append_errors), (2, 4));
}

#[test]
fn an_append_is_answered_once_durable() {
    let mut s = LogState::new();
    let mut buf = [0u8; 64];
    let n = encode_append_req(&mut buf, 7, b"rec").unwrap();
    match s.module_step_impl(&buf[..n]) {
        LogAction::Reply(b) => assert_eq!(decode_append_resp(&b).unwrap().offset, None),
        _ => panic!("no log is open"),
    }
    s.open_log(3, Some(LogScan { offset: 100, total: 2 }));
    match s.module_step_impl(&buf[..n]) {
        LogAction::Append { cid, offset, frame } => {
            assert_eq!((cid, offset), (7, 100));
            assert_eq!(frame, encode_record(b"rec"));
            let b = s.append_done(cid, frame.len(), true);
            assert_eq!(decode_append_resp(&b).unwrap().offset, Some(100));
        },
        _ => panic!("no append"),
    }
    assert_eq!((s.current_offset, s.appends), (111, 1));
    let b = s.append_done(7, 11, false);
    assert_eq!(decode_append_resp(&b).unwrap().offset, None);
    assert_eq!((s.current_offset, s.append_errors), (111, 2));
}

#[test]
fn every_append_that_was_acknowledged_is_replayed() {
    let mut s = LogState::new();
    s.open_log(3, Some(LogScan::start()));
    let mut log: Vec<u8> = Vec::new();
    let mut acked: Vec<(u64, Vec<u8>)> = Vec::new();
    for (payload, durable) in [(&b"one"[..], true), (b"", true), (b"lost", false), (b"three", true)] {
        let mut buf = [0u8; 64];
        let n = encode_append_req(&mut buf, 7, payload).unwrap();
        let answer = match s.module_step_impl(&buf[..n]) {
            LogAction::Append { cid, offset, frame } => {
                log.truncate(offset as usize);
                if durable {
                    log.extend_from_slice(&frame);
                }
                s.append_done(cid, frame.len(), durable)
            },
            LogAction::Reply(b) => b,
            _ => panic!("no answer"),
        };
        if let Some(offset) = decode_append_resp(&answer).unwrap().offset {
            acked.push((offset, payload.to_vec()));
        }
    }
    assert_eq!(acked, vec![(0, b"one".to_vec()), (11, b"three".to_vec())]);
    let mut scan = LogScan::start();
    let mut got = Vec::new();
    loop {
        let offset = scan.offset;
        match scan.advance(&log[offset as usize..]) {
            Some(payload) => got.push((offset, payload)),
            None => break,
        }
    }
    assert_eq!(got, acked);
    assert_eq!(scan.total, 2);
}

#[test]
fn a_record_over_the_cap_is_refused() {
    let mut s = LogState::new();
    s.open_log(3, None);
    let mut request = vec![loam::loam_log_wire::OP_APPEND_REQ, 7, 0, 0, 0];
    request.extend_from_slice(&4097u16.to_le_bytes());
    request.extend_from_slice(&[1u8; 4097]);
    match s.module_step_impl(&request) {
        LogAction::Reply(b) => assert_eq!(decode_append_resp(&b).unwrap().offset, None),
        _ => panic!("accepted"),
    }
    request[5..7].copy_from_slice(&4096u16.to_le_bytes());
    assert!(matches!(s.module_step_impl(&request), LogAction::Append { .. }));
}

#[test]
fn a_replay_is_answered() {
    let mut s = LogState::new();
    let mut buf = [0u8; 64];
    let n = encode_replay_req(&mut buf, 9).unwrap();
    match s.module_step_impl(&buf[..n]) {
        LogAction::Reply(b) => {
            assert_eq!(b[0], OP_REPLAY_END);
            assert_eq!(decode_replay_end(&b).unwrap().total_records, 0);
        },
        _ => panic!("no log is open"),
    }
    s.open_log(3, None);
    assert!(matches!(s.module_step_impl(&buf[..n]), LogAction::Replay { cid: 9 }));
    let r = emit_replay_record(9, 4, b"x");
    assert_eq!(decode_replay_record(&r).unwrap().payload, b"x");
    let e = s.replay_done(9, LogScan { offset: 9, total: 1 });
    assert_eq!(decode_replay_end(&e).unwrap().total_records, 1);
    assert_eq!(s.replays, 1);
    assert!(matches!(s.module_step_impl(b"?"), LogAction::Drop));
    assert!(matches!(s.module_step_impl(&[]), LogAction::Drop));
    assert_eq!(s.append_errors, 2);
}

#[test]
fn a_log_has_a_path() {
    assert!(!set_log_path(b""));
    assert!(set_log_path(&[b'/'; 256]));
    assert!(!set_log_path(&[b'/'; 257]));
}
