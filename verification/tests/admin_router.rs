use loam::admin_frames::{digest_from_object_id, object_id};
use loam::admin_router_body::{ModuleState as AdminRouter, RouterAction};
use loam::admin_router_state::{PendingDownstream, Stream, MAX_OPS_PER_STEP, NS_ROOT_BUF, PENDING_CAP, PUTFILE_CAP};
use loam::admin_router_turn::{Source, Turn};
use loam::loam_admin_wire as admin;
use loam::loam_body_wire as body;
use loam::loam_object_wire::{decode_put, OP_OBJ_PUT};
use loam::loam_wire as ns;
use loam::sha256::sha256;

fn framed<E: std::fmt::Debug>(f: impl Fn(&mut [u8]) -> Result<usize, E>) -> Vec<u8> {
    let mut buf = vec![0u8; 70_000];
    let n = f(&mut buf).unwrap();
    buf.truncate(n);
    buf
}

fn forwarded(a: RouterAction) -> (Stream, Vec<u8>, PendingDownstream) {
    match a {
        RouterAction::Forward { stream, frame, entry } => (stream, frame, entry),
        RouterAction::Reply { .. } => panic!("answered"),
        RouterAction::Done => panic!("nothing to do"),
    }
}

fn sent(r: &mut AdminRouter, a: RouterAction) -> (Stream, Vec<u8>) {
    let (stream, frame, entry) = forwarded(a);
    assert!(matches!(r.forward_done(stream, entry, true), RouterAction::Done));
    (stream, frame)
}

fn answered(a: RouterAction) -> Vec<u8> {
    match a {
        RouterAction::Reply { frame } => frame,
        _ => panic!("no answer"),
    }
}

#[test]
fn an_id_leads_back_to_its_digest() {
    let d = sha256(b"x");
    let id = object_id(&d);
    assert_eq!(&id[..7], b"sha256:");
    assert_eq!(id.len(), 71);
    assert_eq!(digest_from_object_id(&id), Some(d));
    assert_eq!(digest_from_object_id(&id[1..]), None);
    assert_eq!(digest_from_object_id(b"sha256:zz"), None);
}

#[test]
fn a_file_is_stored_in_order() {
    let mut r = AdminRouter::new(true, true);
    let put = framed(|b| admin::encode_admin_put_file(b, 5, b"root", b"/f", 1, 9, b"data"));
    let a = r.handle(&put);
    let (stream, frame) = sent(&mut r, a);
    assert_eq!((stream, body::decode_put_req(&frame)), (Stream::Body, Ok(&b"data"[..])));
    assert!(r.storing());
    let d = sha256(b"data");
    let a = r.body_answer(&framed(|b| body::encode_put_resp(b, &d)));
    let (stream, frame) = sent(&mut r, a);
    assert_eq!(stream, Stream::Object);
    let p = decode_put(&frame).unwrap();
    assert_eq!((p.id, p.size_bytes, p.revision), (&object_id(&d)[..], 4, 9));
    let a = r.obj_answer(OP_OBJ_PUT);
    let (stream, frame) = sent(&mut r, a);
    assert_eq!(stream, Stream::Namespace);
    let bind = ns::decode_bind(&frame).unwrap();
    assert_eq!((bind.namespace_root, bind.path), (&b"root"[..], &b"/f"[..]));
    assert_eq!((bind.object_id, bind.kind, bind.revision), (&object_id(&d)[..], 1, 9));
    let ack = answered(r.ns_answer(&[ns::OP_BIND]));
    assert_eq!(admin::decode_admin_put_file_ack(&ack), Ok((5, admin::STATUS_OK, Some(&d[..]))));
    assert!(!r.storing());
    assert_eq!((r.counts().forwarded, r.counts().replied, r.counts().apply_errors), (3, 1, 0));
}

#[test]
fn a_file_that_cannot_be_stored() {
    let put = framed(|b| admin::encode_admin_put_file(b, 5, b"root", b"/f", 1, 9, b"data"));
    let nak = Ok((5, admin::STATUS_NAK, None));
    let mut r = AdminRouter::new(false, true);
    assert_eq!(admin::decode_admin_put_file_ack(&answered(r.handle(&put))), nak);
    let mut r = AdminRouter::new(true, true);
    let a = r.handle(&put);
    sent(&mut r, a);
    let refused = r.body_answer(&framed(|b| body::encode_nak(b, body::ERR_IO)));
    assert_eq!(admin::decode_admin_put_file_ack(&answered(refused)), nak);
    assert!(!r.storing());
    let a = r.handle(&put);
    sent(&mut r, a);
    let a = r.body_answer(&framed(|b| body::encode_put_resp(b, &[1u8; 32])));
    sent(&mut r, a);
    assert_eq!(admin::decode_admin_put_file_ack(&answered(r.obj_answer(0xFF))), nak);
    assert!(!r.storing());
    let mut long = vec![admin::OP_PUT_FILE, 5, 0, 0, 0, NS_ROOT_BUF as u8 + 1, 0, 2, 0, 1];
    long.extend_from_slice(&[9, 0, 0, 0, 0, 0, 0, 0, 4, 0, 0, 0]);
    long.extend_from_slice(&[b'r'; NS_ROOT_BUF + 1]);
    long.extend_from_slice(b"/fdata");
    let before = r.counts();
    assert_eq!(admin::decode_admin_put_file_ack(&answered(r.handle(&long))), nak);
    assert_eq!((r.counts().replied, r.counts().apply_errors), (before.replied + 1, before.apply_errors));
}

#[test]
fn the_longest_path_is_kept_whole() {
    let mut r = AdminRouter::new(true, true);
    let path = [b'p'; 1024];
    let a = r.handle(&framed(|b| admin::encode_admin_put_file(b, 5, b"root", &path, 1, 9, b"data")));
    sent(&mut r, a);
    let a = r.body_answer(&framed(|b| body::encode_put_resp(b, &[1u8; 32])));
    let (_, frame) = sent(&mut r, a);
    assert_eq!(decode_put(&frame).unwrap().key, &path[..]);
    let a = r.obj_answer(OP_OBJ_PUT);
    let (_, frame) = sent(&mut r, a);
    assert_eq!(ns::decode_bind(&frame).unwrap().path, &path[..]);
    let mut longer = vec![admin::OP_GET_FILE, 6, 0, 0, 0, 4, 0, 1, 4];
    longer.extend_from_slice(b"root");
    longer.extend_from_slice(&[b'p'; 1025]);
    assert_eq!(answered(r.handle(&longer))[5], admin::STATUS_NAK);
}

/// The beginning of a request, then a root of 65 bytes.
fn with_long_root(head: &[u8]) -> Vec<u8> {
    let mut request = head.to_vec();
    request.extend_from_slice(&[b'r'; NS_ROOT_BUF + 1]);
    request
}

#[test]
fn a_key_over_a_ceiling_is_refused_and_is_no_error() {
    let mut r = AdminRouter::new(true, true);
    let get = with_long_root(&[admin::OP_GET_FILE, 1, 0, 0, 0, 65, 0, 0, 0]);
    let stat = with_long_root(&[admin::OP_STAT_FILE, 1, 0, 0, 0, 65, 0, 0, 0]);
    let mut range = vec![0u8; 21];
    range[0] = admin::OP_READ_FILE_RANGE;
    range[1] = 1;
    range[17] = 65;
    for (k, request) in [get, stat, with_long_root(&range)].iter().enumerate() {
        assert_eq!(&answered(r.handle(request))[1..6], &[1, 0, 0, 0, admin::STATUS_NAK]);
        assert_eq!((r.counts().replied, r.counts().apply_errors), (k as u32 + 1, 0));
    }
    let delete = with_long_root(&[admin::OP_DELETE_FILE, 1, 0, 0, 0, 65, 0, 0, 0]);
    let list = with_long_root(&[admin::OP_LIST_FILES, 1, 0, 0, 0, 65, 0, 0, 0, 0, 0, 9]);
    let mut open = vec![0u8; 58];
    open[0] = admin::OP_PUT_FILE_OPEN;
    open[1] = 1;
    open[5] = 65;
    for request in [delete, list, with_long_root(&open)] {
        assert_eq!(&answered(r.handle(&request))[1..6], &[1, 0, 0, 0, admin::STATUS_NAK]);
        assert_eq!((r.counts().replied, r.counts().apply_errors), (3, 0));
    }
    assert!(matches!(r.handle(&[admin::OP_GET_FILE]), RouterAction::Done));
    assert_eq!((r.counts().replied, r.counts().apply_errors), (3, 1));
}

#[test]
fn a_step_takes_its_turns() {
    let mut t = Turn::begin();
    for _ in 0..MAX_OPS_PER_STEP {
        assert_eq!(t.source, Some(Source::Requests));
        t.read(true);
    }
    assert_eq!(t.source, Some(Source::Namespace));
    t.read(true);
    t.read(false);
    assert_eq!(t.source, Some(Source::Body));
    t.read(false);
    for _ in 0..MAX_OPS_PER_STEP {
        assert_eq!(t.source, Some(Source::Object));
        t.read(true);
    }
    assert_eq!(t.source, None);
    t.read(true);
    assert_eq!(t, Turn { source: None, taken: 0 });
}

#[test]
fn only_so_many_files_are_stored_at_once() {
    let mut r = AdminRouter::new(true, true);
    let put = framed(|b| admin::encode_admin_put_file(b, 5, b"root", b"/f", 1, 9, b"data"));
    for _ in 0..PUTFILE_CAP {
        let a = r.handle(&put);
        sent(&mut r, a);
    }
    assert_eq!(answered(r.handle(&put))[5], admin::STATUS_NAK);
}

#[test]
fn a_file_is_read_in_order() {
    let mut r = AdminRouter::new(true, true);
    let d = sha256(b"data");
    let a = r.handle(&framed(|b| admin::encode_admin_get_file(b, 6, b"root", b"/f")));
    let (stream, frame) = sent(&mut r, a);
    assert_eq!(stream, Stream::Namespace);
    assert_eq!(ns::decode_lookup_req(&frame).unwrap().path, b"/f");
    let a = r.ns_answer(&framed(|b| ns::encode_lookup_found(b, &object_id(&d), 9, 1)));
    let (stream, frame) = sent(&mut r, a);
    assert_eq!((stream, body::decode_get_req(&frame)), (Stream::Body, Ok(&d[..])));
    let ack = answered(r.body_answer(&framed(|b| body::encode_get_resp(b, b"data"))));
    assert_eq!(admin::decode_admin_get_file_ack(&ack), Ok((6, admin::STATUS_OK, Some(&b"data"[..]))));
    let a = r.handle(&framed(|b| admin::encode_admin_get_file(b, 7, b"root", b"/g")));
    sent(&mut r, a);
    let ack = answered(r.ns_answer(&framed(|b| ns::encode_lookup_not_found(b))));
    assert_eq!(admin::decode_admin_get_file_ack(&ack), Ok((7, admin::STATUS_NOT_FOUND, None)));
}

#[test]
fn a_file_is_streamed() {
    let mut r = AdminRouter::new(true, true);
    let d = sha256(b"abcdef");
    let a = r.handle(&framed(|b| admin::encode_put_file_open(b, 1, b"root", b"/s", 0, 2, &d, 6)));
    let (_, frame) = sent(&mut r, a);
    assert_eq!(body::decode_wopen_req(&frame), Ok((&d[..], 6)));
    let ack = answered(r.body_answer(&framed(|b| body::encode_wopen_resp(b, 3))));
    assert_eq!(admin::decode_put_file_open_ack(&ack), Ok((1, admin::STATUS_OK, 0)));
    let a = r.handle(&framed(|b| admin::encode_put_file_chunk(b, 2, 0, b"abcdef")));
    let (_, frame) = sent(&mut r, a);
    assert_eq!(body::decode_wappend_req(&frame), Ok((3, &b"abcdef"[..])));
    let ack = answered(r.body_answer(&framed(|b| body::encode_wappend_resp(b, 3))));
    assert_eq!(admin::decode_put_file_chunk_ack(&ack), Ok((2, admin::STATUS_OK)));
    let a = r.handle(&framed(|b| admin::encode_put_file_commit(b, 3, 0)));
    let (_, frame) = sent(&mut r, a);
    assert_eq!(body::decode_wid_req(&frame, body::OP_WCOMMIT), Ok(3));
    let a = r.body_answer(&framed(|b| body::encode_wcommit_resp(b, &d)));
    assert_eq!(sent(&mut r, a).0, Stream::Object);
    let a = r.obj_answer(OP_OBJ_PUT);
    assert_eq!(sent(&mut r, a).0, Stream::Namespace);
    let ack = answered(r.ns_answer(&[ns::OP_BIND]));
    assert_eq!(admin::decode_admin_put_file_ack(&ack), Ok((3, admin::STATUS_OK, Some(&d[..]))));
    let ack = answered(r.handle(&framed(|b| admin::encode_put_file_chunk(b, 4, 0, b"x"))));
    assert_eq!(admin::decode_put_file_chunk_ack(&ack), Ok((4, admin::STATUS_NAK)));
    let ack = answered(r.handle(&framed(|b| admin::encode_put_file_commit(b, 5, 9))));
    assert_eq!(admin::decode_admin_put_file_ack(&ack), Ok((5, admin::STATUS_NAK, None)));
}

#[test]
fn a_stream_under_another_digest_is_refused() {
    let mut r = AdminRouter::new(true, true);
    let d = sha256(b"abcdef");
    let a = r.handle(&framed(|b| admin::encode_put_file_open(b, 1, b"root", b"/s", 0, 2, &d, 6)));
    sent(&mut r, a);
    r.body_answer(&framed(|b| body::encode_wopen_resp(b, 3)));
    let a = r.handle(&framed(|b| admin::encode_put_file_commit(b, 3, 0)));
    sent(&mut r, a);
    let ack = answered(r.body_answer(&framed(|b| body::encode_wcommit_resp(b, &[0u8; 32]))));
    assert_eq!(admin::decode_admin_put_file_ack(&ack), Ok((3, admin::STATUS_NAK, None)));
}

#[test]
fn bodies_and_binds_are_passed_on() {
    let mut r = AdminRouter::new(true, true);
    let d = sha256(b"b");
    let a = r.handle(&framed(|b| admin::encode_admin_put_body(b, 1, b"b")));
    sent(&mut r, a);
    let a = r.handle(&framed(|b| admin::encode_admin_get_body(b, 2, &d)));
    sent(&mut r, a);
    let a = r.handle(&framed(|b| admin::encode_admin_put_body_keyed(b, 3, &d, b"k")));
    sent(&mut r, a);
    let a = r.handle(&framed(|b| admin::encode_admin_delete_body(b, 4, &d)));
    sent(&mut r, a);
    let ack = answered(r.body_answer(&framed(|b| body::encode_put_resp(b, &d))));
    assert_eq!(admin::decode_admin_put_body_ack(&ack).unwrap().digest, Some(&d[..]));
    let ack = answered(r.body_answer(&framed(|b| body::encode_nak(b, body::ERR_NOT_FOUND))));
    assert_eq!(admin::decode_admin_get_body_ack(&ack), Ok((2, admin::STATUS_NOT_FOUND, None)));
    let ack = answered(r.body_answer(&framed(|b| body::encode_put_keyed_resp(b, &d))));
    assert_eq!(admin::decode_admin_put_body_keyed_ack(&ack), Ok((3, admin::STATUS_OK)));
    let ack = answered(r.body_answer(&framed(|b| body::encode_delete_resp(b, true))));
    assert_eq!(admin::decode_admin_delete_body_ack(&ack), Ok((4, admin::STATUS_OK, true)));
    let a = r.handle(&framed(|b| admin::encode_admin_bind(b, 5, b"r", b"/p", b"o", 0, 1)));
    sent(&mut r, a);
    let ack = answered(r.ns_answer(&[0xFF]));
    assert_eq!(admin::decode_admin_bind_ack(&ack).unwrap().status, admin::STATUS_NAK);
}

#[test]
fn files_are_removed_listed_and_measured() {
    let mut r = AdminRouter::new(true, true);
    let d = sha256(b"b");
    let a = r.handle(&framed(|b| admin::encode_admin_delete_file(b, 1, b"r", b"/p")));
    sent(&mut r, a);
    assert_eq!(
        admin::decode_admin_delete_file_ack(&answered(r.ns_answer(&[ns::OP_UNBIND]))),
        Ok((1, admin::STATUS_OK))
    );
    let a = r.handle(&framed(|b| admin::encode_admin_list_files(b, 2, b"r", 0, 4)));
    sent(&mut r, a);
    let ack = answered(r.ns_answer(&framed(|b| ns::encode_list_resp(b, 9, &[b"/a", b"/b"]))));
    assert_eq!(
        admin::decode_admin_list_files_ack(&ack),
        Ok((2, admin::STATUS_OK, 9, vec![&b"/a"[..], &b"/b"[..]]))
    );
    let a = r.handle(&framed(|b| admin::encode_stat_file(b, 3, b"r", b"/p")));
    sent(&mut r, a);
    let a = r.ns_answer(&framed(|b| ns::encode_lookup_found(b, &object_id(&d), 1, 0)));
    assert_eq!(body::decode_head_req(&sent(&mut r, a).1), Ok(&d[..]));
    let ack = answered(r.body_answer(&framed(|b| body::encode_head_resp(b, 77))));
    assert_eq!(admin::decode_stat_file_ack(&ack), Ok((3, admin::STATUS_OK, 77)));
    let a = r.handle(&framed(|b| admin::encode_read_file_range(b, 4, 10, 20, b"r", b"/p")));
    sent(&mut r, a);
    let a = r.ns_answer(&framed(|b| ns::encode_lookup_found(b, &object_id(&d), 1, 0)));
    assert_eq!(body::decode_range_req(&sent(&mut r, a).1), Ok((&d[..], 10, 20)));
    let ack = answered(r.body_answer(&framed(|b| body::encode_range_resp(b, b"part"))));
    assert_eq!(admin::decode_read_file_range_ack(&ack), Ok((4, admin::STATUS_OK, Some(&b"part"[..]))));
}

#[test]
fn a_request_that_the_channel_did_not_take() {
    let mut r = AdminRouter::new(true, true);
    let get = |cid: u32| framed(|b| admin::encode_admin_get_file(b, cid, b"root", b"/f"));
    let a = r.handle(&get(1));
    sent(&mut r, a);
    let (stream, _, entry) = forwarded(r.handle(&get(2)));
    let ack = answered(r.forward_done(stream, entry, false));
    assert_eq!(admin::decode_admin_get_file_ack(&ack), Ok((2, admin::STATUS_NAK, None)));
    let ack = answered(r.ns_answer(&framed(|b| ns::encode_lookup_not_found(b))));
    assert_eq!(admin::decode_admin_get_file_ack(&ack), Ok((1, admin::STATUS_NOT_FOUND, None)));
}

#[test]
fn too_many_requests_wait() {
    let mut r = AdminRouter::new(true, true);
    let get = framed(|b| admin::encode_admin_get_file(b, 1, b"root", b"/f"));
    for _ in 0..PENDING_CAP - 1 {
        let a = r.handle(&get);
        sent(&mut r, a);
    }
    assert_eq!(answered(r.handle(&get))[5], admin::STATUS_NAK);
}

#[test]
fn answers_are_paired_with_requests_in_order() {
    let mut r = AdminRouter::new(true, true);
    for cid in 1..=3u32 {
        let a = r.handle(&framed(|b| admin::encode_admin_bind(b, cid, b"r", b"/f", b"o", 0, 1)));
        sent(&mut r, a);
        let a = r.handle(&framed(|b| admin::encode_admin_put_body(b, 10 + cid, b"x")));
        sent(&mut r, a);
    }
    for cid in 1..=3u32 {
        let body = answered(r.body_answer(&framed(|b| body::encode_put_resp(b, &[1u8; 32]))));
        assert_eq!(&body[1..5], &(10 + cid).to_le_bytes());
        let bound = answered(r.ns_answer(&[ns::OP_BIND]));
        assert_eq!(&bound[1..5], &cid.to_le_bytes());
    }
    assert!(matches!(r.ns_answer(&[ns::OP_BIND]), RouterAction::Done));
}

#[test]
fn answers_that_nobody_waits_for() {
    let mut r = AdminRouter::new(true, true);
    assert!(matches!(r.ns_answer(&[ns::OP_BIND]), RouterAction::Done));
    assert!(matches!(r.body_answer(&[body::OP_PUT]), RouterAction::Done));
    assert!(matches!(r.obj_answer(OP_OBJ_PUT), RouterAction::Done));
    assert!(matches!(r.handle(&[]), RouterAction::Done));
    assert!(matches!(r.handle(&[0xEE]), RouterAction::Done));
    assert_eq!(r.counts().apply_errors, 5);
}

#[test]
fn what_nothing_refers_to_is_collected() {
    let mut r = AdminRouter::new(true, true);
    assert!(matches!(r.begin_step(), RouterAction::Done));
    r.set_gc_interval(2);
    let a = r.begin_step();
    let (stream, frame) = sent(&mut r, a);
    assert_eq!((stream, body::decode_scan_req(&frame).unwrap().0), (Stream::Body, 0));
    let (a_digest, b_digest, keyed) = ([1u8; 32], [2u8; 32], [3u8; 32]);
    let page = framed(|b| body::encode_scan_resp(b, 0, &[a_digest, keyed, b_digest], &[0, 1, 0]));
    let a = r.body_answer(&page);
    let (stream, frame) = sent(&mut r, a);
    assert_eq!(stream, Stream::Namespace);
    assert_eq!(ns::decode_referenced_req(&frame), Ok((0, &object_id(&a_digest)[..])));
    let a = r.ns_answer(&framed(|b| ns::encode_referenced_resp(b, false, 40)));
    let (_, frame) = sent(&mut r, a);
    assert_eq!(ns::decode_referenced_req(&frame), Ok((40, &object_id(&a_digest)[..])));
    let a = r.ns_answer(&framed(|b| ns::encode_referenced_resp(b, false, 0)));
    let (stream, frame) = sent(&mut r, a);
    assert_eq!((stream, body::decode_delete_req(&frame)), (Stream::Body, Ok(&a_digest[..])));
    let a = r.body_answer(&framed(|b| body::encode_delete_resp(b, true)));
    let (_, frame) = sent(&mut r, a);
    assert_eq!(ns::decode_referenced_req(&frame), Ok((0, &object_id(&b_digest)[..])));
    assert!(matches!(
        r.ns_answer(&framed(|b| ns::encode_referenced_resp(b, true, 0))),
        RouterAction::Done
    ));
    let c = r.counts();
    assert_eq!((c.gc_scans, c.gc_checked, c.gc_deleted, c.gc_kept), (1, 3, 1, 1));
}

#[test]
fn nothing_is_collected_while_a_file_is_stored() {
    let mut r = AdminRouter::new(true, true);
    r.set_gc_interval(1);
    let a = r.begin_step();
    sent(&mut r, a);
    let a = r.body_answer(&framed(|b| body::encode_scan_resp(b, 0, &[[1u8; 32]], &[0])));
    sent(&mut r, a);
    let put = framed(|b| admin::encode_admin_put_file(b, 5, b"root", b"/f", 1, 9, b"data"));
    let a = r.handle(&put);
    sent(&mut r, a);
    assert!(matches!(
        r.ns_answer(&framed(|b| ns::encode_referenced_resp(b, false, 0))),
        RouterAction::Done
    ));
    assert_eq!(r.counts().gc_kept, 1);
    assert!(matches!(r.begin_step(), RouterAction::Done));
}

#[test]
fn nothing_is_collected_while_a_file_is_streamed() {
    let mut r = AdminRouter::new(true, true);
    r.set_gc_interval(1);
    let a = r.begin_step();
    sent(&mut r, a);
    let d = sha256(b"abcdef");
    let a = r.handle(&framed(|b| admin::encode_put_file_open(b, 1, b"root", b"/s", 0, 2, &d, 6)));
    sent(&mut r, a);
    assert!(r.storing());
    let a = r.body_answer(&framed(|b| body::encode_scan_resp(b, 0, &[[1u8; 32]], &[0])));
    sent(&mut r, a);
    assert!(matches!(
        r.ns_answer(&framed(|b| ns::encode_referenced_resp(b, false, 0))),
        RouterAction::Done
    ));
    assert_eq!((r.counts().gc_kept, r.counts().gc_deleted), (1, 0));
    let ack = answered(r.body_answer(&framed(|b| body::encode_nak(b, body::ERR_IO))));
    assert_eq!(admin::decode_put_file_open_ack(&ack), Ok((1, admin::STATUS_NAK, 0)));
    assert!(!r.storing());
}

#[test]
fn an_answer_that_cannot_be_read_keeps_the_blob() {
    let mut r = AdminRouter::new(true, true);
    r.set_gc_interval(1);
    let a = r.begin_step();
    sent(&mut r, a);
    let a = r.body_answer(&framed(|b| body::encode_scan_resp(b, 0, &[[1u8; 32]], &[0])));
    sent(&mut r, a);
    assert!(matches!(r.ns_answer(b"?"), RouterAction::Done));
    assert_eq!((r.counts().gc_kept, r.counts().gc_deleted), (1, 0));
}
