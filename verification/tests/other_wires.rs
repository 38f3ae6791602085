use loam::loam_block_wire as block;
use loam::loam_change_wire as change;
use loam::loam_ec_wire as shard;
use loam::loam_extent_wire as extent;
use loam::loam_log_wire as log;
use loam::loam_manifest_wire as manifest;
use loam::loam_net_wire as net;
use loam::loam_object_wire as object;
use loam::sha256::sha256;

#[test]
fn volumes_on_the_wire() {
    let mut buf = [0u8; 64];
    let n = block::encode_create_volume(&mut buf, b"vol", block::CLASS_REPLICATED, 4096, 512, true).unwrap();
    let d = block::decode_create_volume(&buf[..n]).unwrap();
    assert_eq!((d.volume_id, d.class, d.logical_bytes), (&b"vol"[..], block::CLASS_REPLICATED, 4096));
    assert_eq!((d.block_size, d.thin_provisioned), (512, true));
    let n = block::encode_allocate(&mut buf, b"vol", 3).unwrap();
    assert_eq!(block::decode_allocate(&buf[..n]).unwrap().count, 3);
    assert_eq!(
        block::decode_release(&buf[..n]),
        Err(block::WireError::BadOpcode { observed: block::OP_ALLOCATE })
    );
    let n = block::encode_release(&mut buf, b"vol", 2).unwrap();
    assert_eq!(block::decode_release(&buf[..n]).unwrap().count, 2);
    assert_eq!(block::request_record_len(&buf[..n]), Ok(Some(n)));
    assert_eq!(block::request_record_len(&buf[..n - 1]), Ok(None));
    assert_eq!(block::peek_opcode(&buf[..n]), Some(block::OP_RELEASE));
}

#[test]
fn a_volume_of_an_unknown_class_is_refused() {
    let mut buf = [0u8; 64];
    assert_eq!(
        block::encode_create_volume(&mut buf, b"v", 9, 1, 1, false),
        Err(block::WireError::BadClass { observed: 9 })
    );
    let n = block::encode_create_volume(&mut buf, b"v", 3, 1, 1, false).unwrap();
    buf[3] = 9;
    assert_eq!(
        block::decode_create_volume(&buf[..n]),
        Err(block::WireError::BadClass { observed: 9 })
    );
}

#[test]
fn log_frames_come_back() {
    let mut buf = [0u8; 64];
    let n = log::encode_append_req(&mut buf, 4, b"rec").unwrap();
    assert_eq!(log::decode_append_req(&buf[..n]), Ok((4, &b"rec"[..])));
    let n = log::encode_append_resp(&mut buf, 4, Some(9)).unwrap();
    assert_eq!(log::decode_append_resp(&buf[..n]).unwrap().offset, Some(9));
    let n = log::encode_append_resp(&mut buf, 4, None).unwrap();
    assert_eq!(log::decode_append_resp(&buf[..n]).unwrap().offset, None);
    let n = log::encode_replay_req(&mut buf, 5).unwrap();
    assert_eq!(log::decode_replay_req(&buf[..n]), Ok(5));
    let n = log::encode_replay_record(&mut buf, 5, 16, b"r").unwrap();
    let d = log::decode_replay_record(&buf[..n]).unwrap();
    assert_eq!((d.correlation_id, d.offset, d.payload), (5, 16, &b"r"[..]));
    let n = log::encode_replay_end(&mut buf, 5, 2).unwrap();
    assert_eq!(log::decode_replay_end(&buf[..n]).unwrap().total_records, 2);
}

#[test]
fn object_frames_come_back() {
    let mut buf = [0u8; 128];
    let fields = object::PutFields {
        id: b"id",
        namespace: b"ns",
        key: b"key",
        content_hash: b"hash",
        size_bytes: 10,
        revision: 2,
        data_class: object::DATA_CLASS_ERASURE_CODED,
        replica_count: 3,
        erasure: Some((4, 2)),
    };
    let n = object::encode_put(&mut buf, &fields).unwrap();
    let d = object::decode_put(&buf[..n]).unwrap();
    assert_eq!((d.id, d.namespace, d.key, d.content_hash), (&b"id"[..], &b"ns"[..], &b"key"[..], &b"hash"[..]));
    assert_eq!((d.size_bytes, d.revision, d.replica_count, d.erasure), (10, 2, 3, Some((4, 2))));
    assert_eq!(object::request_record_len(&buf[..n]), Ok(Some(n)));
    let n = object::encode_update(&mut buf, &fields).unwrap();
    assert_eq!(object::decode_update(&buf[..n]).unwrap().id, b"id");
    let n = object::encode_remove(&mut buf, b"id").unwrap();
    assert_eq!(object::decode_remove(&buf[..n]).unwrap().id, b"id");
    let n = object::encode_get_req(&mut buf, b"id").unwrap();
    assert_eq!(object::decode_get_req(&buf[..n]), Ok(&b"id"[..]));
    let n = object::encode_get_not_found(&mut buf).unwrap();
    assert_eq!(object::decode_get_resp(&buf[..n]), Ok(object::DecodedGetResp::NotFound));
}

#[test]
fn an_object_of_an_unknown_class_is_refused() {
    let mut buf = [0u8; 128];
    let fields = object::PutFields {
        id: b"id",
        namespace: b"",
        key: b"",
        content_hash: b"",
        size_bytes: 0,
        revision: 0,
        data_class: 7,
        replica_count: 0,
        erasure: None,
    };
    let n = object::encode_put(&mut buf, &fields).unwrap();
    assert!(matches!(
        object::decode_put(&buf[..n]),
        Err(object::WireError::BadDataClass { observed: 7 })
    ));
}

#[test]
fn greetings_and_frame_headers() {
    let mut buf = [0u8; 16];
    let n = net::encode_hello(&mut buf, net::ROLE_BODY_CLIENT).unwrap();
    assert_eq!(&buf[..n], b"LOAM\x01");
    assert_eq!(net::decode_hello(&buf[..n]), Ok(net::ROLE_BODY_CLIENT));
    assert!(matches!(net::decode_hello(b"XXXX\x01"), Err(net::NetWireError::BadMagic { .. })));
    assert_eq!(net::decode_hello(b"LO"), Err(net::NetWireError::Truncated));
    let n = net::encode_frame_header(&mut buf, net::TAG_BODY_REQ, 300).unwrap();
    assert_eq!(net::decode_frame_header(&buf[..n]), Ok((net::TAG_BODY_REQ, 300)));
    assert_eq!(
        net::encode_frame_header(&mut buf, 1, net::MAX_FRAME_PAYLOAD + 1),
        Err(net::NetWireError::FrameTooLarge { len: 0x2_0001 })
    );
    let mut small = [0u8; 2];
    assert_eq!(
        net::encode_hello(&mut small, 1),
        Err(net::NetWireError::BufferTooSmall { needed: 5, actual: 2 })
    );
}

#[test]
fn changes_on_the_wire() {
    let mut buf = [0u8; 128];
    let n = change::encode_record(&mut buf, 5, change::KIND_MODIFIED, b"/k", b"v").unwrap();
    let (r, used) = change::decode_record(&buf[..n]).unwrap();
    assert_eq!(used, n);
    assert_eq!((r.revision, r.kind, r.key, r.value), (5, change::KIND_MODIFIED, &b"/k"[..], &b"v"[..]));
    assert!(!change::is_lost_sentinel(&r));
    for cut in 0..n {
        assert!(change::decode_record(&buf[..cut]).is_none());
    }
    assert_eq!(change::encode_record(&mut [0u8; 17], 5, 1, b"/k", b"v"), None);
    assert_eq!(change::encode_record(&mut [0u8; 18], 5, 1, b"/k", b"v"), Some(18));
    assert_eq!(change::encode_record(&mut vec![0u8; 70_000], 5, 1, &vec![1u8; 65_536], b""), None);
    let n = change::encode_event(&mut buf, 1, 5, change::KIND_ADDED, b"/k", b"v").unwrap();
    let payload = change::event_payload_len(&buf[..change::EVENT_HEADER_SIZE]).unwrap();
    assert_eq!(change::EVENT_HEADER_SIZE + payload, n);
    let (r, _) = change::decode_record(&buf[change::EVENT_HEADER_SIZE..n]).unwrap();
    assert_eq!(r.key, b"/k");
    let n = change::encode_lost_event(&mut buf, 2, 6).unwrap();
    let (r, _) = change::decode_record(&buf[change::EVENT_HEADER_SIZE..n]).unwrap();
    assert!(change::is_lost_sentinel(&r));
    assert!(change::under_prefix(b"/a/b", b"/a/"));
    assert!(!change::under_prefix(b"/b", b"/a/"));
    assert!(change::under_prefix(b"/b", b""));
    assert!(change::decode_record(&buf[..3]).is_none());
}

#[test]
fn a_manifest_comes_back() {
    let a = [1u8; 32];
    let b = [2u8; 32];
    let refs: Vec<(&[u8], [u8; 32])> = vec![(&b"/a"[..], a), (&b"/bb"[..], b)];
    let need = manifest::encoded_len(b"root", &refs);
    let mut buf = vec![0u8; need];
    assert_eq!(manifest::encode(&mut buf, b"root", &refs), Ok(need));
    assert_eq!(manifest::peek(&buf), Ok((&b"root"[..], 2)));
    let got = manifest::for_each(&buf).unwrap();
    assert_eq!(got, refs);
    let mut small = vec![0u8; need - 1];
    assert_eq!(
        manifest::encode(&mut small, b"root", &refs),
        Err(manifest::ManifestError::BufferTooSmall { needed: need, actual: need - 1 })
    );
    assert_eq!(manifest::peek(&buf[..5]), Err(manifest::ManifestError::Truncated));
    let mut wrong = buf.clone();
    wrong[0] ^= 1;
    assert_eq!(manifest::peek(&wrong), Err(manifest::ManifestError::BadMagic));
}

#[test]
fn shards_are_found_under_their_key() {
    let digest = sha256(b"body");
    let hdr = shard::ShardHeader { k: 2, m: 1, index: 1, body_len: 4, body_digest: digest, shard_len: 2 };
    let mut buf = [0u8; 64];
    let n = shard::encode_shard_blob(&mut buf, &hdr, b"dy").unwrap();
    assert_eq!(n, shard::SHARD_HDR + 2);
    assert_eq!(shard::shard_payload(&buf[..n]), Ok(&b"dy"[..]));
    let key = shard::derive_shard_key(&digest, 1);
    assert!(shard::shard_blob_matches_key(&buf[..n], &key));
    assert!(!shard::shard_blob_matches_key(&buf[..n], &shard::derive_shard_key(&digest, 0)));
    assert!(matches!(shard::decode_shard_header(&buf[..10]), Err(shard::ShardWireError::Truncated)));
    buf[0] ^= 0xFF;
    assert!(matches!(shard::decode_shard_header(&buf[..n]), Err(shard::ShardWireError::BadMagic { .. })));
}

#[test]
fn extents_are_found_under_their_key() {
    let id = extent::derive_volume_id(b"root", b"/vol");
    let key = extent::derive_extent_key(&id, 3);
    assert_ne!(key, extent::derive_extent_key(&id, 4));
    let mut buf = [0u8; 64];
    let n = extent::encode_extent_blob(&mut buf, &key, b"data").unwrap();
    assert_eq!(n, extent::EXT_HDR + 4);
    assert_eq!(extent::decode_extent_blob(&buf[..n]), Ok((&key[..], &b"data"[..])));
    assert!(extent::extent_blob_matches_key(&buf[..n], &key));
    assert!(!extent::extent_blob_matches_key(&buf[..n], &[0u8; 32]));
    assert!(extent::blob_is_keyed_magic(&buf[..4]));
    assert!(extent::blob_is_keyed_magic(&[0x5D, 0xEC, 0, 0]));
    assert!(!extent::blob_is_keyed_magic(b"body"));
    assert_eq!(extent::decode_extent_blob(b"nope"), Err(extent::ExtentError::Malformed));
    let mut small = [0u8; 8];
    assert_eq!(
        extent::encode_extent_blob(&mut small, &key, b"data"),
        Err(extent::ExtentError::BufferTooSmall)
    );
}

#[test]
fn a_volume_descriptor_comes_back() {
    let desc = extent::VolumeDesc { volume_id: [9u8; 16], size_bytes: 1 << 30, extent_size: 4096 };
    let mut buf = [0u8; 32];
    assert_eq!(extent::encode_volume_desc(&mut buf, &desc), Ok(32));
    assert_eq!(extent::decode_volume_desc(&buf), Ok(desc));
    let big = extent::VolumeDesc { volume_id: [9u8; 16], size_bytes: 1, extent_size: 61401 };
    assert_eq!(extent::encode_volume_desc(&mut buf, &big), Err(extent::ExtentError::TooLarge));
}
