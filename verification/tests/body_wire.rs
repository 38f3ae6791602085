use loam::loam_body_wire::{
    decode_delete_req, decode_delete_resp, decode_get_req, decode_get_resp, decode_head_req, decode_head_resp,
    decode_put_keyed_req, decode_put_keyed_resp, decode_put_req, decode_put_resp, decode_range_req, decode_range_resp,
    decode_scan_req, decode_scan_resp, decode_wappend_req, decode_wcommit_resp, decode_wid_req, decode_wopen_req,
    decode_wopen_resp, encode_delete_req, encode_delete_resp, encode_get_req, encode_get_resp, encode_head_req,
    encode_head_resp, encode_nak, encode_put_keyed_req, encode_put_keyed_resp, encode_put_req, encode_put_resp,
    encode_range_req, encode_range_resp, encode_scan_req, encode_scan_resp, encode_wabort_req, encode_wabort_resp,
    encode_wappend_req, encode_wappend_resp, encode_wcommit_req, encode_wcommit_resp, encode_wopen_req,
    encode_wopen_resp, hex_lower_into, peek_opcode, WireError, ERR_IO, MAX_BODY, OP_NAK, OP_PUT, OP_SCAN, OP_WABORT,
    OP_WAPPEND, OP_WCOMMIT,
};

const D: [u8; 32] = [7u8; 32];

#[test]
fn a_body_to_store_on_the_wire() {
    let mut buf = [0u8; 16];
    let n = encode_put_req(&mut buf, b"abc").unwrap();
    assert_eq!(&buf[..n], &[OP_PUT, 3, 0, 0, 0, b'a', b'b', b'c'][..]);
    assert_eq!(decode_put_req(&buf[..n]), Ok(&b"abc"[..]));
    assert_eq!(decode_put_req(&buf[..n - 1]), Err(WireError::Truncated));
    assert_eq!(decode_put_req(&[0x31, 0, 0, 0, 0]), Err(WireError::BadOpcode { observed: 0x31 }));
}

#[test]
fn a_body_that_is_too_large_is_refused() {
    let mut big = vec![0u8; MAX_BODY + 100];
    let body = vec![0u8; MAX_BODY + 1];
    assert_eq!(
        encode_put_req(&mut big, &body),
        Err(WireError::BodyTooLarge { len: 61441, max: 61440 })
    );
    let mut head = [0u8; 5];
    head[0] = OP_PUT;
    head[1..].copy_from_slice(&61441u32.to_le_bytes());
    assert_eq!(decode_put_req(&head), Err(WireError::BodyTooLarge { len: 61441, max: 61440 }));
    let mut small = [0u8; 4];
    assert_eq!(encode_put_req(&mut small, b""), Err(WireError::BufferTooSmall { needed: 5, actual: 4 }));
}

#[test]
fn requests_by_digest_come_back() {
    let mut buf = [0u8; 64];
    let n = encode_put_resp(&mut buf, &D).unwrap();
    assert_eq!(decode_put_resp(&buf[..n]), Ok(&D[..]));
    let n = encode_get_req(&mut buf, &D).unwrap();
    assert_eq!(n, 33);
    assert_eq!(decode_get_req(&buf[..n]), Ok(&D[..]));
    let n = encode_head_req(&mut buf, &D).unwrap();
    assert_eq!(decode_head_req(&buf[..n]), Ok(&D[..]));
    let n = encode_delete_req(&mut buf, &D).unwrap();
    assert_eq!(decode_delete_req(&buf[..n]), Ok(&D[..]));
    let n = encode_put_keyed_resp(&mut buf, &D).unwrap();
    assert_eq!(decode_put_keyed_resp(&buf[..n]), Ok(&D[..]));
    let n = encode_wcommit_resp(&mut buf, &D).unwrap();
    assert_eq!(decode_wcommit_resp(&buf[..n]), Ok(&D[..]));
}

#[test]
fn answers_come_back() {
    let mut buf = [0u8; 64];
    let n = encode_get_resp(&mut buf, b"xyz").unwrap();
    assert_eq!(decode_get_resp(&buf[..n]), Ok(&b"xyz"[..]));
    let n = encode_head_resp(&mut buf, 0x0102_0304_0506).unwrap();
    assert_eq!(decode_head_resp(&buf[..n]), Ok(0x0102_0304_0506));
    let n = encode_delete_resp(&mut buf, true).unwrap();
    assert_eq!(decode_delete_resp(&buf[..n]), Ok(true));
    let n = encode_delete_resp(&mut buf, false).unwrap();
    assert_eq!(decode_delete_resp(&buf[..n]), Ok(false));
    let n = encode_range_resp(&mut buf, b"").unwrap();
    assert_eq!(decode_range_resp(&buf[..n]), Ok(&b""[..]));
    let n = encode_nak(&mut buf, ERR_IO).unwrap();
    assert_eq!(&buf[..n], &[OP_NAK, ERR_IO][..]);
    assert_eq!(peek_opcode(&buf[..n]), Some(OP_NAK));
}

#[test]
fn keyed_bodies_and_ranges_come_back() {
    let mut buf = [0u8; 64];
    let n = encode_put_keyed_req(&mut buf, &D, b"ext").unwrap();
    assert_eq!(decode_put_keyed_req(&buf[..n]), Ok((&D[..], &b"ext"[..])));
    let n = encode_range_req(&mut buf, &D, 10, 20).unwrap();
    assert_eq!(decode_range_req(&buf[..n]), Ok((&D[..], 10, 20)));
}

#[test]
fn streamed_writes_come_back() {
    let mut buf = [0u8; 64];
    let n = encode_wopen_req(&mut buf, &D, 99).unwrap();
    assert_eq!(decode_wopen_req(&buf[..n]), Ok((&D[..], 99)));
    let n = encode_wopen_resp(&mut buf, 3).unwrap();
    assert_eq!(decode_wopen_resp(&buf[..n]), Ok(3));
    let n = encode_wappend_req(&mut buf, 3, b"chunk").unwrap();
    assert_eq!(decode_wappend_req(&buf[..n]), Ok((3, &b"chunk"[..])));
    let n = encode_wappend_resp(&mut buf, 3).unwrap();
    assert_eq!(buf[0], OP_WAPPEND);
    assert!(n >= 1);
    let n = encode_wcommit_req(&mut buf, 2).unwrap();
    assert_eq!(decode_wid_req(&buf[..n], OP_WCOMMIT), Ok(2));
    let n = encode_wabort_req(&mut buf, 1).unwrap();
    assert_eq!(decode_wid_req(&buf[..n], OP_WABORT), Ok(1));
    assert_eq!(decode_wid_req(&buf[..n], OP_WCOMMIT), Err(WireError::BadOpcode { observed: OP_WABORT }));
    let n = encode_wabort_resp(&mut buf).unwrap();
    assert_eq!(&buf[..n], &[OP_WABORT][..]);
}

#[test]
fn a_page_of_the_inventory_comes_back() {
    let mut buf = [0u8; 256];
    let n = encode_scan_req(&mut buf, 8, 4).unwrap();
    assert_eq!(decode_scan_req(&buf[..n]), Ok((8, 4)));
    let digests = [[1u8; 32], [2u8; 32]];
    let n = encode_scan_resp(&mut buf, 17, &digests, &[0, 1]).unwrap();
    assert_eq!(n, 6 + 2 * 33);
    let mut got = [[0u8; 32]; 4];
    let mut keyed = [9u8; 4];
    assert_eq!(decode_scan_resp(&buf[..n], &mut got, &mut keyed), Ok((17, 2)));
    assert_eq!(got[0], [1u8; 32]);
    assert_eq!(got[1], [2u8; 32]);
    assert_eq!(keyed, [0, 1, 9, 9]);
    let bad = [OP_SCAN, 0, 0, 0, 0, 5];
    assert_eq!(
        decode_scan_resp(&bad, &mut got, &mut keyed),
        Err(WireError::BodyTooLarge { len: 5, max: 4 })
    );
}

#[test]
fn a_digest_in_hex() {
    let mut d = [0u8; 32];
    d[0] = 0xAB;
    d[31] = 0x0F;
    let mut out = [0u8; 64];
    assert_eq!(hex_lower_into(&d, &mut out), 64);
    assert_eq!(&out[..4], b"ab00");
    assert_eq!(&out[60..], b"000f");
}
