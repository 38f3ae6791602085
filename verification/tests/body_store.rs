use loam::body_names::{
    build_body_path, build_pub_path, build_rename_arg, build_wip_path, hex_digest_from_name, is_pub_staging_name,
    parse_dir_listing, publish_tier, wip_id_from_name, DirEntry, PublishTier, CAP_FSYNC_NAME, CAP_RENAME,
};
use loam::body_publish::{publish_first, publish_next, retire_next, CopyRun, CopyStep, PubStep, RetireStep};
use loam::body_slots::BodySlots;
use loam::body_store_body::{range_take, PublishOutcome, ModuleState as BodyStore, StoreAction, SweepAction, SESSION_REAP_TICKS, WRITE_SESSIONS};
use loam::loam_body_wire as wire;
use loam::loam_extent_wire::encode_extent_blob;
use loam::sha256::sha256;

fn store(caps: Option<u32>) -> BodyStore<4> {
    let mut s = BodyStore::<4>::new();
    assert!(s.set_root_dir(b"/r"));
    if let Some(bits) = caps {
        assert!(s.wants_caps());
        s.learn_caps(bits);
    }
    s
}

fn framed(f: impl Fn(&mut [u8]) -> Result<usize, wire::WireError>) -> Vec<u8> {
    let mut buf = vec![0u8; 70_000];
    let n = f(&mut buf).unwrap();
    buf.truncate(n);
    buf
}

fn taken(s: &mut BodyStore<4>) -> Vec<u8> {
    let b = s.answer().to_vec();
    s.flush_resp(b.len());
    b
}

fn nak(errno: u8) -> Vec<u8> {
    vec![wire::OP_NAK, errno]
}

#[test]
fn names_of_blobs() {
    let d = sha256(b"abc");
    let p = build_body_path(b"/r", &d).unwrap();
    assert_eq!(&p[..11], b"/r/ba7816bf");
    assert_eq!(p.len(), 67);
    assert_eq!(hex_digest_from_name(&p[3..]), Some(d));
    assert_eq!(hex_digest_from_name(&p[4..]), None);
    assert_eq!(build_pub_path(b"/r", &d).unwrap(), b"/r/.pub_ba7816bf8f01cfea".to_vec());
    assert!(is_pub_staging_name(b".pub_ba7816bf8f01cfea"));
    assert!(!is_pub_staging_name(b".pub_"));
    assert_eq!(build_wip_path(b"/r", 3).unwrap(), b"/r/.wip_3".to_vec());
    assert_eq!(wip_id_from_name(b".wip_3"), Some(3));
    assert_eq!(wip_id_from_name(b".wip_x"), None);
    assert_eq!(build_body_path(b"", &d), None);
    assert_eq!(build_body_path(&[b'x'; 192], &d), None);
}

#[test]
fn a_directory_is_read() {
    let buf = [2u8, 0, 1, 0, b'a', 2, 1, b'b', b'c'];
    let v = parse_dir_listing(&buf);
    assert_eq!(v.len(), 2);
    assert_eq!((v[0].is_dir, &v[0].name[..]), (false, &b"a"[..]));
    assert_eq!((v[1].is_dir, &v[1].name[..]), (true, &b"bc"[..]));
    assert_eq!(parse_dir_listing(&buf[..8]).len(), 1);
    assert_eq!(parse_dir_listing(&[1]).len(), 0);
}

#[test]
fn how_blobs_are_published() {
    assert_eq!(publish_tier(None), PublishTier::Unavailable);
    assert_eq!(publish_tier(Some(0)), PublishTier::Unavailable);
    assert_eq!(publish_tier(Some(CAP_FSYNC_NAME)), PublishTier::NameFence);
    assert_eq!(publish_tier(Some(CAP_RENAME | CAP_FSYNC_NAME)), PublishTier::Rename);
    assert_eq!(build_rename_arg(b"ab", b"c"), Some(vec![2, 0, b'a', b'b', 1, 0, b'c']));
    assert_eq!(build_rename_arg(&[b'x'; 300], &[b'y'; 300]), None);
}

#[test]
fn a_blob_is_published_in_order() {
    let mut step = publish_first(true, false);
    let mut seen = vec![step];
    for _ in 0..3 {
        step = publish_next(step, true);
        seen.push(step);
    }
    assert_eq!(
        seen,
        vec![PubStep::ClearStaging, PubStep::WriteStaging, PubStep::Rename, PubStep::Done { ok: true }]
    );
    assert_eq!(publish_next(PubStep::WriteStaging, false), PubStep::DropStaging);
    assert_eq!(publish_next(PubStep::DropStaging, true), PubStep::Done { ok: false });
    assert_eq!(publish_first(false, true), PubStep::ClearTarget);
    assert_eq!(publish_first(false, false), PubStep::WriteTarget);
    assert_eq!(publish_next(PubStep::WriteTarget, true), PubStep::FenceTarget);
    assert_eq!(publish_next(PubStep::FenceTarget, false), PubStep::Done { ok: false });
}

#[test]
fn a_removal_is_proved() {
    let fenced = retire_next(RetireStep::Unlink, true, true);
    assert_eq!(fenced, RetireStep::FenceName);
    assert_eq!(retire_next(fenced, true, true), RetireStep::Done { unlinked: true, gone: true });
    assert_eq!(retire_next(fenced, true, false), RetireStep::Done { unlinked: true, gone: false });
    assert_eq!(retire_next(RetireStep::Unlink, false, true), RetireStep::Done { unlinked: true, gone: false });
    let probed = retire_next(RetireStep::Unlink, true, false);
    assert_eq!(retire_next(probed, true, true), RetireStep::Done { unlinked: false, gone: false });
    assert_eq!(retire_next(probed, true, false), RetireStep::Done { unlinked: false, gone: true });
}

#[test]
fn a_copy_is_whole() {
    let mut run = CopyRun::new(70_000);
    run.next(Some(0));
    assert_eq!(run.step, CopyStep::Transfer { want: 61_440 });
    run.next(Some(61_440));
    assert_eq!(run.step, CopyStep::Transfer { want: 8_560 });
    run.next(Some(8_560));
    assert_eq!(run.step, CopyStep::FenceBytes);
    run.next(Some(0));
    assert_eq!(run.step, CopyStep::FenceName);
    run.next(Some(0));
    assert_eq!(run.step, CopyStep::Done { ok: true });
    let mut short = CopyRun::new(10);
    short.next(Some(0));
    short.next(Some(0));
    assert_eq!(short.step, CopyStep::Done { ok: false });
}

#[test]
fn blobs_are_known_and_forgotten() {
    let mut t = BodySlots::<2>::new();
    let (a, b, c) = ([1u8; 32], [2u8; 32], [3u8; 32]);
    assert!(t.record_slot(&a, 5, false));
    assert!(t.record_slot(&b, 6, true));
    assert!(!t.record_slot(&c, 7, false));
    assert!(t.record_slot(&a, 8, false));
    assert_eq!(t.find_slot(&a).unwrap().size, 8);
    let page = t.scan(0, 1);
    let mut d = [[0u8; 32]; 4];
    let mut k = [9u8; 4];
    assert_eq!(wire::decode_scan_resp(&page, &mut d, &mut k), Ok((1, 1)));
    assert_eq!((d[0], k[0]), (a, 0));
    assert_eq!(wire::decode_scan_resp(&t.scan(1, 8), &mut d, &mut k), Ok((0, 1)));
    assert_eq!((d[0], k[0]), (b, 1));
    t.clear(&a);
    assert!(t.find_slot(&a).is_none());
    assert!(t.record_slot(&c, 7, false));
}

#[test]
fn a_body_is_stored_and_served() {
    let mut s = store(Some(CAP_RENAME));
    let d = sha256(b"body");
    let (path, staging) = match s.handle(&framed(|b| wire::encode_put_req(b, b"body"))) {
        StoreAction::Publish { digest, path, staging, keyed, body, .. } => {
            assert_eq!((digest, keyed, body), (d, false, b"body".to_vec()));
            (path, staging)
        },
        _ => panic!("nothing to publish"),
    };
    assert_eq!(path, build_body_path(b"/r", &d).unwrap());
    assert_eq!(staging, build_pub_path(b"/r", &d));
    s.publish_done(&d, 4, false, PublishOutcome::Published);
    assert_eq!(taken(&mut s), framed(|b| wire::encode_put_resp(b, &d)));
    assert!(matches!(s.handle(&framed(|b| wire::encode_put_req(b, b"body"))), StoreAction::Done));
    assert_eq!(taken(&mut s), framed(|b| wire::encode_put_resp(b, &d)));
    match s.handle(&framed(|b| wire::encode_get_req(b, &d))) {
        StoreAction::Read { digest, size, .. } => assert_eq!((digest, size), (d, Some(4))),
        _ => panic!("nothing to read"),
    }
    s.read_done(&d, Some(4), Some(b"body"));
    assert_eq!(taken(&mut s), framed(|b| wire::encode_get_resp(b, b"body")));
    s.read_done(&d, Some(4), Some(b"bod"));
    assert_eq!(taken(&mut s), nak(wire::ERR_IO));
    assert_eq!((s.counts().puts, s.counts().gets), (2, 1));
}

#[test]
fn only_what_belongs_to_the_key_is_served() {
    let mut s = store(Some(CAP_RENAME));
    let d = sha256(b"body");
    s.read_done(&d, None, Some(b"BODY"));
    assert_eq!(taken(&mut s), nak(wire::ERR_NOT_FOUND));
    s.read_done(&d, None, None);
    assert_eq!(taken(&mut s), nak(wire::ERR_NOT_FOUND));
    s.read_done(&d, None, Some(b"body"));
    assert_eq!(taken(&mut s), framed(|b| wire::encode_get_resp(b, b"body")));
    assert!(matches!(s.handle(&framed(|b| wire::encode_head_req(b, &d))), StoreAction::Done));
    assert_eq!(taken(&mut s), framed(|b| wire::encode_head_resp(b, 4)));
    let key = [9u8; 32];
    let mut blob = [0u8; 64];
    let n = encode_extent_blob(&mut blob, &key, b"ext").unwrap();
    s.read_done(&key, None, Some(&blob[..n]));
    assert_eq!(taken(&mut s), framed(|b| wire::encode_get_resp(b, &blob[..n])));
    s.read_done(&[8u8; 32], None, Some(&blob[..n]));
    assert_eq!(taken(&mut s), nak(wire::ERR_NOT_FOUND));
}

#[test]
fn a_keyed_body_replaces_in_place() {
    let mut s = store(Some(CAP_FSYNC_NAME));
    let key = [9u8; 32];
    match s.handle(&framed(|b| wire::encode_put_keyed_req(b, &key, b"x"))) {
        StoreAction::Publish { staging, replace, keyed, .. } => {
            assert_eq!((staging, replace, keyed), (None, true, true));
        },
        _ => panic!("nothing to publish"),
    }
    s.publish_done(&key, 1, true, PublishOutcome::Published);
    assert_eq!(taken(&mut s), framed(|b| wire::encode_put_keyed_resp(b, &key)));
}

#[test]
fn no_body_is_acknowledged_without_a_durable_name() {
    let mut s = store(None);
    assert!(matches!(s.handle(&framed(|b| wire::encode_put_req(b, b"body"))), StoreAction::Done));
    assert_eq!(taken(&mut s), nak(wire::ERR_IO));
    let mut s = store(Some(CAP_RENAME));
    s.handle(&framed(|b| wire::encode_put_req(b, b"body")));
    s.publish_done(&sha256(b"body"), 4, false, PublishOutcome::Failed);
    assert_eq!(taken(&mut s), nak(wire::ERR_IO));
    s.publish_done(&sha256(b"body"), 4, false, PublishOutcome::NoRoot);
    assert_eq!(taken(&mut s), nak(wire::ERR_NO_ROOT));
}

#[test]
fn without_a_root_there_is_no_store() {
    let mut s = BodyStore::<4>::new();
    assert!(!s.set_root_dir(&[b'x'; 193]));
    s.handle(&framed(|b| wire::encode_put_req(b, b"body")));
    assert_eq!(taken(&mut s), nak(wire::ERR_NO_ROOT));
    s.handle(&framed(|b| wire::encode_get_req(b, &[0u8; 32])));
    assert_eq!(taken(&mut s), nak(wire::ERR_NO_ROOT));
    s.handle(&[]);
    assert_eq!(taken(&mut s), nak(wire::ERR_BAD_REQ));
    s.handle(&[0x77]);
    assert_eq!(taken(&mut s), nak(wire::ERR_BAD_REQ));
}

#[test]
fn a_body_is_removed() {
    let mut s = store(Some(CAP_RENAME | CAP_FSYNC_NAME));
    let d = sha256(b"body");
    s.publish_done(&d, 4, false, PublishOutcome::Published);
    match s.handle(&framed(|b| wire::encode_delete_req(b, &d))) {
        StoreAction::Unlink { digest, fence, .. } => assert_eq!((digest, fence), (d, true)),
        _ => panic!("nothing to remove"),
    }
    s.delete_done(&d, true, false);
    assert_eq!(taken(&mut s), nak(wire::ERR_IO));
    assert!(matches!(s.handle(&framed(|b| wire::encode_head_req(b, &d))), StoreAction::Done));
    s.delete_done(&d, true, true);
    assert_eq!(taken(&mut s), framed(|b| wire::encode_delete_resp(b, true)));
    assert!(matches!(s.handle(&framed(|b| wire::encode_head_req(b, &d))), StoreAction::Stat { .. }));
    s.stat_done(&d, None);
    assert_eq!(taken(&mut s), nak(wire::ERR_NOT_FOUND));
    s.delete_done(&d, false, true);
    assert_eq!(taken(&mut s), framed(|b| wire::encode_delete_resp(b, false)));
}

#[test]
fn a_body_is_streamed() {
    let mut s = store(Some(CAP_RENAME));
    let d = sha256(b"abcdef");
    let (wid, path) = match s.handle(&framed(|b| wire::encode_wopen_req(b, &d, 6))) {
        StoreAction::Open { wid, path, digest, total_len } => {
            assert_eq!((digest, total_len), (d, 6));
            (wid, path)
        },
        _ => panic!("nothing to open"),
    };
    assert_eq!((wid, path), (0, b"/r/.wip_0".to_vec()));
    s.wopen_done(wid, &d, 6, 5);
    assert_eq!(taken(&mut s), framed(|b| wire::encode_wopen_resp(b, 0)));
    for part in [&b"abc"[..], &b"def"[..]] {
        match s.handle(&framed(|b| wire::encode_wappend_req(b, 0, part))) {
            StoreAction::Append { wid, fd, chunk } => {
                assert_eq!((wid, fd, &chunk[..]), (0, 5, part));
                assert!(matches!(s.wappend_done(0, &chunk, true), StoreAction::Done));
            },
            _ => panic!("nothing to append"),
        }
        assert_eq!(taken(&mut s), framed(|b| wire::encode_wappend_resp(b, 0)));
    }
    match s.handle(&framed(|b| wire::encode_wcommit_req(b, 0))) {
        StoreAction::Sync { wid, fd, digest } => assert_eq!((wid, fd, digest), (0, 5, d)),
        _ => panic!("nothing to sync"),
    }
    match s.wsync_done(0, &d, true) {
        StoreAction::Rename { from, to, written, .. } => {
            assert_eq!((from, to, written), (b"/r/.wip_0".to_vec(), build_body_path(b"/r", &d).unwrap(), 6));
        },
        _ => panic!("nothing to rename"),
    }
    s.wrename_done(&d, 6, true);
    assert_eq!(taken(&mut s), framed(|b| wire::encode_wcommit_resp(b, &d)));
    assert_eq!(s.counts().stream_commits, 1);
}

#[test]
fn a_stream_that_is_not_what_was_promised() {
    let mut s = store(Some(CAP_RENAME));
    let d = sha256(b"abc");
    s.wopen_done(0, &d, 3, 5);
    taken(&mut s);
    s.wappend_done(0, b"abX", true);
    taken(&mut s);
    assert!(matches!(
        s.handle(&framed(|b| wire::encode_wcommit_req(b, 0))),
        StoreAction::Discard { fd: 5, .. }
    ));
    assert_eq!(taken(&mut s), nak(wire::ERR_BAD_REQ));
    s.wopen_done(0, &d, 3, 5);
    taken(&mut s);
    assert!(matches!(
        s.handle(&framed(|b| wire::encode_wappend_req(b, 0, b"abcd"))),
        StoreAction::Discard { .. }
    ));
    assert_eq!(taken(&mut s), nak(wire::ERR_TOO_LARGE));
    s.handle(&framed(|b| wire::encode_wappend_req(b, 0, b"a")));
    assert_eq!(taken(&mut s), nak(wire::ERR_BAD_REQ));
    s.handle(&framed(|b| wire::encode_wopen_req(b, &d, 0)));
    assert_eq!(taken(&mut s), nak(wire::ERR_TOO_LARGE));
}

#[test]
fn a_stream_is_copied_where_there_is_no_rename() {
    let mut s = store(Some(CAP_FSYNC_NAME));
    let d = sha256(b"abc");
    s.wopen_done(0, &d, 3, 5);
    s.wappend_done(0, b"abc", true);
    s.handle(&framed(|b| wire::encode_wcommit_req(b, 0)));
    match s.wsync_done(0, &d, true) {
        StoreAction::Copy { wid, written, .. } => assert_eq!((wid, written), (0, 3)),
        _ => panic!("nothing to copy"),
    }
    assert!(matches!(s.wcopy_done(0, &d, 3, true), StoreAction::Discard { fd: 5, .. }));
    assert_eq!(taken(&mut s), framed(|b| wire::encode_wcommit_resp(b, &d)));
}

#[test]
fn streams_are_given_up() {
    let mut s = store(Some(CAP_RENAME));
    let d = sha256(b"abc");
    s.wopen_done(1, &d, 3, 6);
    taken(&mut s);
    assert!(matches!(
        s.handle(&framed(|b| wire::encode_wabort_req(b, 1))),
        StoreAction::Discard { fd: 6, .. }
    ));
    assert_eq!(taken(&mut s), framed(|b| wire::encode_wabort_resp(b)));
    for wid in 0..WRITE_SESSIONS {
        s.wopen_done(wid, &d, 3, 6);
    }
    s.handle(&framed(|b| wire::encode_wopen_req(b, &d, 3)));
    assert_eq!(taken(&mut s), nak(wire::ERR_IO));
    for _ in 0..SESSION_REAP_TICKS {
        s.begin_step();
    }
    assert!(matches!(s.reap_stale_session(2), StoreAction::Done));
    s.begin_step();
    assert!(matches!(s.reap_stale_session(2), StoreAction::Discard { .. }));
    assert_eq!(s.counts().stream_aborts, 2);
}

#[test]
fn parts_of_a_body() {
    assert_eq!(range_take(0, 10, 4), 4);
    assert_eq!(range_take(2, 1, 4), 1);
    assert_eq!(range_take(4, 1, 4), 0);
    assert_eq!(range_take(0, u32::MAX, u32::MAX), 61_440);
    let mut s = store(Some(CAP_RENAME));
    match s.handle(&framed(|b| wire::encode_range_req(b, &[1u8; 32], 7, 9))) {
        StoreAction::ReadRange { off, want, .. } => assert_eq!((off, want), (7, 9)),
        _ => panic!("nothing to read"),
    }
    s.range_done(Ok(b"part"));
    assert_eq!(taken(&mut s), framed(|b| wire::encode_range_resp(b, b"part")));
    s.range_done(Err(wire::ERR_NOT_FOUND));
    assert_eq!(taken(&mut s), nak(wire::ERR_NOT_FOUND));
}

#[test]
fn the_directory_is_swept() {
    let mut s = store(Some(CAP_RENAME));
    assert!(matches!(
        s.handle(&framed(|b| wire::encode_scan_req(b, 0, 4))),
        StoreAction::Sweep { cursor: 0, max: 4 }
    ));
    let d = sha256(b"body");
    s.wopen_done(1, &d, 3, 6);
    taken(&mut s);
    let entry = |name: &[u8]| DirEntry { is_dir: false, name: name.to_vec() };
    assert!(matches!(s.sweep_entry(&entry(b".wip_1")), SweepAction::Skip));
    match s.sweep_entry(&entry(b".wip_2")) {
        SweepAction::Remove { path } => assert_eq!(path, b"/r/.wip_2".to_vec()),
        _ => panic!("nothing to remove"),
    }
    assert!(matches!(s.sweep_entry(&entry(b".pub_00ff")), SweepAction::Remove { .. }));
    assert!(matches!(s.sweep_entry(&entry(b"readme")), SweepAction::Skip));
    assert!(matches!(s.sweep_entry(&DirEntry { is_dir: true, name: b".pub_00".to_vec() }), SweepAction::Skip));
    let name = build_body_path(b"", &d);
    assert!(name.is_none());
    let path = build_body_path(b"/r", &d).unwrap();
    match s.sweep_entry(&entry(&path[3..])) {
        SweepAction::Look { digest, .. } => assert_eq!(digest, d),
        _ => panic!("nothing to look at"),
    }
    assert!(s.sweep_found(&d, Some((4, b"body"))));
    assert!(matches!(s.sweep_entry(&entry(&path[3..])), SweepAction::Skip));
    s.scan_page(0, 4);
    let mut digests = [[0u8; 32]; 4];
    let mut keyed = [0u8; 4];
    assert_eq!(wire::decode_scan_resp(s.answer(), &mut digests, &mut keyed), Ok((0, 1)));
    assert_eq!(digests[0], d);
    assert_eq!(s.counts().rehydrated, 1);
}

#[test]
fn a_body_that_was_streamed_is_known_after_the_sweep() {
    let mut s = store(Some(CAP_RENAME));
    let d = sha256(b"large");
    let size = wire::MAX_BODY as u32 + 1;
    assert!(s.sweep_found(&d, Some((size, b"LB"))));
    assert!(matches!(s.handle(&framed(|b| wire::encode_head_req(b, &d))), StoreAction::Done));
    assert_eq!(taken(&mut s), framed(|b| wire::encode_head_resp(b, size as u64)));
    assert_eq!(s.counts().rehydrated, 1);
}

#[test]
fn an_unknown_body_that_is_too_large_is_not_answered_for() {
    let mut s = store(Some(CAP_RENAME));
    let d = sha256(b"larger");
    let head = framed(|b| wire::encode_head_req(b, &d));
    let max = wire::MAX_BODY as u32;
    assert!(matches!(s.handle(&head), StoreAction::Stat { .. }));
    s.stat_done(&d, Some((max + 1, b"LB")));
    assert_eq!(taken(&mut s), nak(wire::ERR_TOO_LARGE));
    assert!(matches!(s.handle(&head), StoreAction::Stat { .. }));
    s.stat_done(&d, Some((max, b"LB")));
    assert_eq!(taken(&mut s), framed(|b| wire::encode_head_resp(b, max as u64)));
    assert!(matches!(s.handle(&head), StoreAction::Done));
    assert_eq!((s.counts().heads, s.counts().apply_errors), (2, 1));
}

#[test]
fn as_many_bodies_are_streamed_at_once_as_the_register_says() {
    assert_eq!(WRITE_SESSIONS, loam::loam_limits::WRITE_SESSIONS);
    assert_eq!(WRITE_SESSIONS, 8);
}

#[test]
fn a_step_of_the_store_takes_so_many_requests() {
    let mut s = store(Some(CAP_RENAME));
    s.begin_step();
    for _ in 0..4 {
        assert!(s.wants_input());
        assert!(matches!(s.handle(&[]), StoreAction::Done));
        assert!(!s.wants_input());
        taken(&mut s);
    }
    assert!(!s.wants_input());
    s.begin_step();
    assert!(s.wants_input());
}

#[test]
fn an_answer_goes_out_in_pieces() {
    let mut s = store(Some(CAP_RENAME));
    s.read_done(&[0u8; 32], Some(4), Some(b"body"));
    let whole = s.answer().to_vec();
    assert!(!s.wants_input());
    assert!(!s.flush_resp(3));
    assert_eq!(s.answer(), &whole[3..]);
    assert!(s.flush_resp(whole.len() - 3));
    assert!(s.wants_input());
}

#[test]
fn the_tier_is_told_once() {
    let mut s = store(Some(CAP_RENAME));
    assert!(s.take_tier_report().is_some());
    assert!(s.take_tier_report().is_none());
}
