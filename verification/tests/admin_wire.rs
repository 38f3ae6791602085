use loam::loam_admin_wire as admin;
use loam::loam_admin_wire::WireError;

const D: [u8; 32] = [5u8; 32];

#[test]
fn admin_requests_come_back() {
    let mut buf = [0u8; 256];
    let n = admin::encode_admin_bind(&mut buf, 77, b"r", b"/p", b"oid", 1, 2).unwrap();
    let d = admin::decode_admin_bind(&buf[..n]).unwrap();
    assert_eq!((d.correlation_id, d.namespace_root, d.path), (77, &b"r"[..], &b"/p"[..]));
    assert_eq!((d.object_id, d.kind, d.revision), (&b"oid"[..], 1, 2));
    let n = admin::encode_admin_put_body(&mut buf, 78, b"abc").unwrap();
    assert_eq!(&buf[..n], &[admin::OP_PUT_BODY, 78, 0, 0, 0, 3, 0, 0, 0, b'a', b'b', b'c'][..]);
    assert_eq!(admin::decode_admin_put_body(&buf[..n]), Ok((78, &b"abc"[..])));
    let n = admin::encode_admin_get_body(&mut buf, 79, &D).unwrap();
    assert_eq!(admin::decode_admin_get_body(&buf[..n]), Ok((79, &D[..])));
    let n = admin::encode_admin_put_body_keyed(&mut buf, 80, &D, b"k").unwrap();
    assert_eq!(admin::decode_admin_put_body_keyed(&buf[..n]), Ok((80, &D[..], &b"k"[..])));
    let n = admin::encode_admin_delete_body(&mut buf, 81, &D).unwrap();
    assert_eq!(admin::decode_admin_delete_body(&buf[..n]), Ok((81, &D[..])));
}

#[test]
fn file_requests_come_back() {
    let mut buf = [0u8; 256];
    let n = admin::encode_admin_put_file(&mut buf, 1, b"r", b"/f", 0, 3, b"body").unwrap();
    let d = admin::decode_admin_put_file(&buf[..n]).unwrap();
    assert_eq!((d.correlation_id, d.namespace_root, d.path), (1, &b"r"[..], &b"/f"[..]));
    assert_eq!((d.kind, d.revision, d.body), (0, 3, &b"body"[..]));
    let n = admin::encode_admin_get_file(&mut buf, 2, b"r", b"/f").unwrap();
    assert_eq!(buf[0], admin::OP_GET_FILE);
    let d = admin::decode_admin_get_file(&buf[..n]).unwrap();
    assert_eq!((d.correlation_id, d.namespace_root, d.path), (2, &b"r"[..], &b"/f"[..]));
    let n = admin::encode_admin_delete_file(&mut buf, 3, b"r", b"/g").unwrap();
    assert_eq!(admin::decode_admin_delete_file(&buf[..n]).unwrap().path, b"/g");
    assert_eq!(
        admin::decode_stat_file(&buf[..n]),
        Err(WireError::BadOpcode { observed: admin::OP_DELETE_FILE })
    );
    let n = admin::encode_stat_file(&mut buf, 4, b"r", b"/h").unwrap();
    assert_eq!(admin::decode_stat_file(&buf[..n]).unwrap().path, b"/h");
    let n = admin::encode_admin_list_files(&mut buf, 5, b"r", 6, 7).unwrap();
    let d = admin::decode_admin_list_files(&buf[..n]).unwrap();
    assert_eq!((d.correlation_id, d.namespace_root, d.cursor, d.max), (5, &b"r"[..], 6, 7));
    let n = admin::encode_read_file_range(&mut buf, 6, 100, 200, b"r", b"/i").unwrap();
    let d = admin::decode_read_file_range(&buf[..n]).unwrap();
    assert_eq!((d.correlation_id, d.off, d.len, d.path), (6, 100, 200, &b"/i"[..]));
}

#[test]
fn streamed_file_requests_come_back() {
    let mut buf = [0u8; 256];
    let n = admin::encode_put_file_open(&mut buf, 1, b"r", b"/f", 2, 3, &D, 4).unwrap();
    let d = admin::decode_put_file_open(&buf[..n]).unwrap();
    assert_eq!((d.kind, d.revision, d.digest, d.total_len), (2, 3, &D[..], 4));
    let n = admin::encode_put_file_chunk(&mut buf, 2, 1, b"xy").unwrap();
    assert_eq!(admin::decode_put_file_chunk(&buf[..n]), Ok((2, 1, &b"xy"[..])));
    let n = admin::encode_put_file_commit(&mut buf, 3, 1).unwrap();
    assert_eq!(admin::decode_put_file_commit(&buf[..n]), Ok((3, 1)));
    let n = admin::encode_put_file_open_ack(&mut buf, 4, admin::STATUS_OK, 2).unwrap();
    assert_eq!(admin::decode_put_file_open_ack(&buf[..n]), Ok((4, admin::STATUS_OK, 2)));
    let n = admin::encode_put_file_chunk_ack(&mut buf, 5, admin::STATUS_NAK).unwrap();
    assert_eq!(admin::decode_put_file_chunk_ack(&buf[..n]), Ok((5, admin::STATUS_NAK)));
}

#[test]
fn admin_answers_come_back() {
    let mut buf = [0u8; 256];
    let n = admin::encode_admin_bind_ack(&mut buf, 9, admin::STATUS_OK).unwrap();
    assert_eq!(&buf[..n], &[admin::OP_BIND, 9, 0, 0, 0, admin::STATUS_OK][..]);
    assert_eq!(admin::decode_admin_bind_ack(&buf[..n]).unwrap().status, admin::STATUS_OK);
    let n = admin::encode_admin_put_body_ack(&mut buf, 9, admin::STATUS_OK, Some(&D)).unwrap();
    assert_eq!(admin::decode_admin_put_body_ack(&buf[..n]).unwrap().digest, Some(&D[..]));
    let n = admin::encode_admin_put_file_ack(&mut buf, 9, admin::STATUS_NAK, None).unwrap();
    assert_eq!(admin::decode_admin_put_file_ack(&buf[..n]), Ok((9, admin::STATUS_NAK, None)));
    let n = admin::encode_admin_get_body_ack(&mut buf, 9, admin::STATUS_OK, Some(b"b")).unwrap();
    assert_eq!(admin::decode_admin_get_body_ack(&buf[..n]), Ok((9, admin::STATUS_OK, Some(&b"b"[..]))));
    let n = admin::encode_admin_get_file_ack(&mut buf, 9, admin::STATUS_NOT_FOUND, None).unwrap();
    assert_eq!(admin::decode_admin_get_file_ack(&buf[..n]), Ok((9, admin::STATUS_NOT_FOUND, None)));
    let n = admin::encode_read_file_range_ack(&mut buf, 9, admin::STATUS_OK, Some(b"part")).unwrap();
    assert_eq!(
        admin::decode_read_file_range_ack(&buf[..n]),
        Ok((9, admin::STATUS_OK, Some(&b"part"[..])))
    );
    let n = admin::encode_stat_file_ack(&mut buf, 9, admin::STATUS_OK, 123).unwrap();
    assert_eq!(admin::decode_stat_file_ack(&buf[..n]), Ok((9, admin::STATUS_OK, 123)));
    let n = admin::encode_admin_delete_file_ack(&mut buf, 9, admin::STATUS_OK).unwrap();
    assert_eq!(admin::decode_admin_delete_file_ack(&buf[..n]), Ok((9, admin::STATUS_OK)));
    let n = admin::encode_admin_put_body_keyed_ack(&mut buf, 9, admin::STATUS_OK).unwrap();
    assert_eq!(admin::decode_admin_put_body_keyed_ack(&buf[..n]), Ok((9, admin::STATUS_OK)));
    let n = admin::encode_admin_delete_body_ack(&mut buf, 9, admin::STATUS_OK, true).unwrap();
    assert_eq!(admin::decode_admin_delete_body_ack(&buf[..n]), Ok((9, admin::STATUS_OK, true)));
    let n = admin::encode_admin_list_files_ack(&mut buf, 9, admin::STATUS_OK, 4, 1, &[2, 0, b'/', b'a']).unwrap();
    assert_eq!(
        admin::decode_admin_list_files_ack(&buf[..n]),
        Ok((9, admin::STATUS_OK, 4, vec![&b"/a"[..]]))
    );
    assert_eq!(admin::peek_opcode(&buf[..n]), Some(admin::OP_LIST_FILES));
}

#[test]
fn admin_errors_are_told_apart() {
    let mut small = [0u8; 3];
    assert_eq!(
        admin::encode_admin_bind_ack(&mut small, 1, 1),
        Err(WireError::BufferTooSmall { needed: 6, actual: 3 })
    );
    assert_eq!(
        admin::encode_admin_put_body_ack(&mut small, 1, admin::STATUS_OK, None),
        Err(WireError::BufferTooSmall { needed: 0, actual: 0 })
    );
    let long = vec![b'x'; admin::MAX_STRING + 1];
    let mut buf = vec![0u8; 4096];
    assert_eq!(
        admin::encode_admin_get_file(&mut buf, 1, b"r", &long),
        Err(WireError::StringTooLong { len: 1025, max: 1024 })
    );
    assert_eq!(admin::decode_admin_put_body(&[admin::OP_PUT_BODY]), Err(WireError::Truncated));
}
