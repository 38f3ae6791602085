use loam::loam_wire::{
    decode_bind, decode_list_req, decode_list_resp, decode_lookup_req, decode_lookup_resp, decode_referenced_req,
    decode_referenced_resp, decode_rename, decode_unbind, encode_bind, encode_list_req, encode_list_resp,
    encode_lookup_found, encode_lookup_not_found, encode_lookup_req, encode_referenced_req, encode_referenced_resp,
    encode_rename, encode_unbind, peek_opcode, request_record_len, DecodedLookupResp, WireError, OP_BIND,
    OP_LIST, OP_LOOKUP,
};

#[test]
fn a_bind_on_the_wire() {
    let mut buf = [0u8; 64];
    let n = encode_bind(&mut buf, b"ns", b"/a", b"o1", 2, 0x0102).unwrap();
    assert_eq!(n, 22);
    assert_eq!(
        &buf[..n],
        &[1, 2, 0, 2, 0, 2, 0, 2, 0x02, 0x01, 0, 0, 0, 0, 0, 0, b'n', b's', b'/', b'a', b'o', b'1'][..]
    );
    let d = decode_bind(&buf[..n]).unwrap();
    assert_eq!(d.namespace_root, b"ns");
    assert_eq!(d.path, b"/a");
    assert_eq!(d.object_id, b"o1");
    assert_eq!(d.kind, 2);
    assert_eq!(d.revision, 0x0102);
}

#[test]
fn a_bind_is_refused() {
    let mut buf = [0u8; 20];
    assert_eq!(
        encode_bind(&mut buf, b"ns", b"/a", b"o1", 0, 1),
        Err(WireError::BufferTooSmall { needed: 22, actual: 20 })
    );
    let long = vec![b'x'; 1025];
    assert_eq!(
        encode_bind(&mut buf, b"ns", &long, b"o1", 0, 1),
        Err(WireError::StringTooLong { len: 1025, max: 1024 })
    );
    assert_eq!(buf, [0u8; 20]);
    assert_eq!(decode_bind(&[1, 2, 3]), Err(WireError::Truncated));
    let mut wrong = [0u8; 22];
    wrong[0] = 9;
    assert_eq!(decode_bind(&wrong), Err(WireError::BadOpcode { observed: 9 }));
}

#[test]
fn the_ceilings_of_a_key_hold_on_both_sides() {
    let root = [b'r'; 65];
    let path = [b'p'; 1025];
    let id = [b'o'; 97];
    let mut buf = [0u8; 4096];
    let too_long = |len, max| WireError::StringTooLong { len, max };
    assert_eq!(encode_bind(&mut buf, &root, &path, &id, 0, 1), Err(too_long(65, 64)));
    assert_eq!(encode_bind(&mut buf, b"r", &path, &id, 0, 1), Err(too_long(1025, 1024)));
    assert_eq!(encode_bind(&mut buf, b"r", b"p", &id, 0, 1), Err(too_long(97, 96)));
    assert_eq!(encode_rename(&mut buf, b"r", b"p", &path, 1), Err(too_long(1025, 1024)));
    assert_eq!(encode_unbind(&mut buf, &root, b"p"), Err(too_long(65, 64)));
    assert_eq!(encode_lookup_req(&mut buf, b"r", &path), Err(too_long(1025, 1024)));
    assert_eq!(encode_list_req(&mut buf, &root, 0, 1), Err(too_long(65, 64)));
    assert_eq!(encode_referenced_req(&mut buf, 0, &id), Err(too_long(97, 96)));
    let mut frame = vec![OP_BIND, 65, 0, 2, 0, 2, 0, 0, 1, 0, 0, 0, 0, 0, 0, 0];
    frame.extend_from_slice(&root);
    frame.extend_from_slice(b"/ao1");
    assert_eq!(decode_bind(&frame), Err(too_long(65, 64)));
    let mut frame = vec![3, 1, 0, 1, 4, b'r'];
    frame.extend_from_slice(&path);
    assert_eq!(decode_unbind(&frame), Err(too_long(1025, 1024)));
    frame[0] = OP_LOOKUP;
    assert_eq!(decode_lookup_req(&frame), Err(too_long(1025, 1024)));
    assert_eq!(request_record_len(&frame), Ok(Some(frame.len())));
    let mut frame = vec![2, 1, 0, 1, 0, 1, 4, 1, 0, 0, 0, 0, 0, 0, 0, b'r', b'f'];
    frame.extend_from_slice(&path);
    assert_eq!(decode_rename(&frame), Err(too_long(1025, 1024)));
    let mut frame = vec![6, 0, 0, 0, 0, 97, 0];
    frame.extend_from_slice(&id);
    assert_eq!(decode_referenced_req(&frame), Err(too_long(97, 96)));
    let n = encode_bind(&mut buf, &root[..64], &path[..1024], &id[..96], 0, 1).unwrap();
    let d = decode_bind(&buf[..n]).unwrap();
    assert_eq!((d.namespace_root.len(), d.path.len(), d.object_id.len()), (64, 1024, 96));
}

#[test]
fn a_bind_of_an_unknown_kind_is_refused() {
    let mut buf = [0u8; 64];
    let n = encode_bind(&mut buf, b"ns", b"/a", b"o1", 5, 1).unwrap();
    assert_eq!(decode_bind(&buf[..n]), Err(WireError::BadKind { observed: 5 }));
}

#[test]
fn a_rename_and_an_unbind_come_back() {
    let mut buf = [0u8; 64];
    let n = encode_rename(&mut buf, b"r", b"/from", b"/to", 7).unwrap();
    let d = decode_rename(&buf[..n]).unwrap();
    assert_eq!((d.namespace_root, d.from, d.to, d.new_revision), (&b"r"[..], &b"/from"[..], &b"/to"[..], 7));
    let n = encode_unbind(&mut buf, b"r", b"/gone").unwrap();
    let d = decode_unbind(&buf[..n]).unwrap();
    assert_eq!((d.namespace_root, d.path), (&b"r"[..], &b"/gone"[..]));
}

#[test]
fn a_lookup_and_its_answers_come_back() {
    let mut buf = [0u8; 64];
    let n = encode_lookup_req(&mut buf, b"r", b"/p").unwrap();
    assert_eq!(&buf[..n], &[OP_LOOKUP, 1, 0, 2, 0, b'r', b'/', b'p'][..]);
    let d = decode_lookup_req(&buf[..n]).unwrap();
    assert_eq!((d.namespace_root, d.path), (&b"r"[..], &b"/p"[..]));
    let n = encode_lookup_found(&mut buf, b"oid", 9, 1).unwrap();
    match decode_lookup_resp(&buf[..n]) {
        Ok(DecodedLookupResp::Found { object_id, revision, kind }) => {
            assert_eq!((object_id, revision, kind), (&b"oid"[..], 9, 1));
        },
        _ => panic!("not found"),
    }
    let n = encode_lookup_not_found(&mut buf).unwrap();
    assert!(matches!(decode_lookup_resp(&buf[..n]), Ok(DecodedLookupResp::NotFound)));
    assert!(matches!(decode_lookup_resp(&[OP_LOOKUP, 7]), Err(WireError::BadKind { observed: 7 })));
    assert!(matches!(decode_lookup_resp(&[OP_LOOKUP]), Err(WireError::Truncated)));
}

#[test]
fn a_page_of_paths_comes_back() {
    let mut buf = [0u8; 64];
    let n = encode_list_req(&mut buf, b"r", 3, 16).unwrap();
    let d = decode_list_req(&buf[..n]).unwrap();
    assert_eq!((d.namespace_root, d.cursor, d.max), (&b"r"[..], 3, 16));
    let n = encode_list_resp(&mut buf, 4, &[b"/a", b"/bc"]).unwrap();
    assert_eq!(&buf[..n], &[OP_LIST, 4, 0, 0, 0, 2, 2, 0, b'/', b'a', 3, 0, b'/', b'b', b'c'][..]);
    let (next, paths) = decode_list_resp(&buf[..n]).unwrap();
    assert_eq!(next, 4);
    assert_eq!(paths, vec![&b"/a"[..], &b"/bc"[..]]);
}

#[test]
fn a_reference_query_comes_back() {
    let mut buf = [0u8; 64];
    let n = encode_referenced_req(&mut buf, 5, b"oid").unwrap();
    assert_eq!(decode_referenced_req(&buf[..n]), Ok((5, &b"oid"[..])));
    let n = encode_referenced_resp(&mut buf, true, 12).unwrap();
    assert_eq!(decode_referenced_resp(&buf[..n]), Ok((true, 12)));
}

#[test]
fn records_are_cut_off_a_stream() {
    let mut buf = [0u8; 64];
    let n = encode_unbind(&mut buf, b"r", b"/gone").unwrap();
    assert_eq!(request_record_len(&buf[..n]), Ok(Some(n)));
    assert_eq!(request_record_len(&buf[..n + 3]), Ok(Some(n)));
    assert_eq!(request_record_len(&buf[..n - 1]), Ok(None));
    assert_eq!(request_record_len(&[]), Ok(None));
    assert_eq!(request_record_len(&[0x77]), Err(WireError::BadOpcode { observed: 0x77 }));
    assert_eq!(peek_opcode(&[OP_BIND, 0]), Some(OP_BIND));
    assert_eq!(peek_opcode(&[]), None);
}
