//! The wire format of the body store.
//!
//! A body is addressed by the SHA-256 of its content, 32 bytes, or by an
//! explicit key of the same length. Integers are little-endian. Bodies longer
//! than `MAX_BODY` are streamed: the writer declares digest and length first,
//! and the store checks both at the end.
//!
//! ```text
//! PutReq       [30][len:u32][body]            PutResp      [30][digest:32]
//! GetReq       [31][digest:32]                GetResp      [31][len:u32][body]
//! HeadReq      [32][digest:32]                HeadResp     [32][size:u64]
//! DeleteReq    [33][digest:32]                DeleteResp   [33][existed]
//! ScanReq      [34][cursor:u32][max]          ScanResp     [34][next_cursor:u32][count:u8]([keyed][digest:32])*
//! PutKeyedReq  [35][key:32][len:u32][body]    PutKeyedResp [35][key:32]
//! WOpenReq     [36][digest:32][total:u64]     WOpenResp    [36][wid]
//! WAppendReq   [37][wid][len:u32][bytes]      WAppendResp  [37][wid]
//! WCommitReq   [38][wid]                      WCommitResp  [38][digest:32]
//! WAbortReq    [39][wid]                      WAbortResp   [39]
//! RangeReq     [3A][digest:32][off:u64][len:u32]
//! RangeResp    [3A][len:u32][bytes], empty at or past the end
//! NakResp      [FF][errno]
//! ```
use crate::bytes;
use crate::loam_hash;
use vstd::prelude::*;
use vstd::slice::slice_subrange;

verus! {

pub const OP_PUT: u8 = 0x30;

pub const OP_GET: u8 = 0x31;

pub const OP_HEAD: u8 = 0x32;

pub const OP_DELETE: u8 = 0x33;

pub const OP_SCAN: u8 = 0x34;

pub const OP_PUT_KEYED: u8 = 0x35;

pub const OP_WOPEN: u8 = 0x36;

pub const OP_WAPPEND: u8 = 0x37;

pub const OP_WCOMMIT: u8 = 0x38;

pub const OP_WABORT: u8 = 0x39;

pub const OP_RANGE: u8 = 0x3A;

/// Longest streamed body that a writer may declare: one gibibyte.
pub const MAX_STREAM_TOTAL: u64 = 0x4000_0000;

pub const OP_NAK: u8 = 0xFF;

/// Most entries on one page of the inventory.
pub const MAX_SCAN_DIGESTS: usize = 4;

pub const DIGEST_LEN: usize = 32;

/// Longest body in one message.
pub const MAX_BODY: usize = 61440;

pub const ERR_NOT_FOUND: u8 = 1;

pub const ERR_TOO_LARGE: u8 = 2;

pub const ERR_IO: u8 = 3;

pub const ERR_BAD_REQ: u8 = 4;

pub const ERR_NO_ROOT: u8 = 5;

#[derive(Debug, Clone, Copy, PartialEq, Eq, Structural)]
pub enum WireError {
    Truncated,
    BadOpcode { observed: u8 },
    BodyTooLarge { len: usize, max: usize },
    BufferTooSmall { needed: usize, actual: usize },
}

/// The refusal of a buffer with less room than needed.
pub open spec fn no_room(room: nat, needed: nat) -> Option<WireError> {
    if room < needed {
        Some(WireError::BufferTooSmall { needed: needed as usize, actual: room as usize })
    } else {
        None
    }
}

/// The bytes of a body to store.
pub open spec fn put_req_frame(body: Seq<u8>) -> Seq<u8> {
    seq![OP_PUT] + bytes::le32(body.len() as u32) + body
}

/// Why a body to store is not written to a buffer with this much room.
pub open spec fn put_req_refusal(room: nat, body: Seq<u8>) -> Option<WireError> {
    if body.len() > MAX_BODY {
        Some(WireError::BodyTooLarge { len: body.len() as usize, max: MAX_BODY })
    } else {
        no_room(room, put_req_frame(body).len())
    }
}

/// Write a body to store to the start of `dst`. Returns its length.
pub fn encode_put_req(dst: &mut [u8], body: &[u8]) -> (r: Result<usize, WireError>)
    ensures
        bytes::encodes(
            r,
            old(dst)@,
            final(dst)@,
            put_req_refusal(old(dst)@.len(), body@),
            put_req_frame(body@),
        ),
{
    broadcast use bytes::lemma_write_first, bytes::lemma_write_next;

    if body.len() > MAX_BODY {
        return Err(WireError::BodyTooLarge { len: body.len(), max: MAX_BODY });
    }
    let needed: usize = 5 + body.len();
    if dst.len() < needed {
        return Err(WireError::BufferTooSmall { needed, actual: dst.len() });
    }
    bytes::put_u8(dst, 0, OP_PUT);
    bytes::put_u32(dst, 1, body.len() as u32);
    bytes::put_bytes(dst, 5, body);
    Ok(needed)
}

/// What `decode_put_req` makes of `s`.
pub open spec fn put_req_parse(s: Seq<u8>) -> Result<Seq<u8>, WireError> {
    if s.len() < 5 {
        Err(WireError::Truncated)
    } else if s[0] != OP_PUT {
        Err(WireError::BadOpcode { observed: s[0] })
    } else if bytes::u32_at(s, 1) > MAX_BODY {
        Err(WireError::BodyTooLarge { len: bytes::u32_at(s, 1) as usize, max: MAX_BODY })
    } else {
        let body_end = 5 + bytes::u32_at(s, 1);
        if s.len() < body_end {
            Err(WireError::Truncated)
        } else {
            Ok(s.subrange(5, body_end))
        }
    }
}

/// Decode a body to store.
pub fn decode_put_req(src: &[u8]) -> (r: Result<&[u8], WireError>)
    ensures
        match r {
            Ok(d) => put_req_parse(src@) == Ok::<Seq<u8>, WireError>(d@),
            Err(e) => put_req_parse(src@) == Err::<Seq<u8>, WireError>(e),
        },
{
    if src.len() < 5 {
        return Err(WireError::Truncated);
    }
    if src[0] != OP_PUT {
        return Err(WireError::BadOpcode { observed: src[0] });
    }
    let len: u32 = bytes::get_u32(src, 1);
    if len as usize > MAX_BODY {
        return Err(WireError::BodyTooLarge { len: len as usize, max: MAX_BODY });
    }
    let body_end: u64 = 5 + bytes::get_u32(src, 1) as u64;
    if (src.len() as u64) < body_end {
        return Err(WireError::Truncated);
    }
    Ok(slice_subrange(src, 5, body_end as usize))
}

/// Decoding what was encoded, whatever follows it, gives the parts back.
pub proof fn lemma_put_req_round_trip(body: Seq<u8>, rest: Seq<u8>)
    requires
        body.len() <= MAX_BODY,
    ensures
        put_req_parse(put_req_frame(body) + rest) == Ok::<Seq<u8>, WireError>(body),
{
    broadcast use bytes::lemma_subrange_left, bytes::lemma_subrange_right;

    let s = put_req_frame(body) + rest;
    assert(s[0] == seq![OP_PUT][0]);
    assert(s.subrange(1, 5) == bytes::le32(body.len() as u32));
    bytes::lemma_u32_at(s, 1, body.len() as u32);
    assert(s.subrange(5, (5 + body.len()) as int) == body);
}

/// The bytes of the answer to a stored body.
pub open spec fn put_resp_frame(digest: Seq<u8>) -> Seq<u8> {
    seq![OP_PUT] + digest
}

/// Why the answer to a stored body is not written to a buffer with this much room.
pub open spec fn put_resp_refusal(room: nat, digest: Seq<u8>) -> Option<WireError> {
    no_room(room, put_resp_frame(digest).len())
}

/// Write the answer to a stored body to the start of `dst`. Returns its length.
pub fn encode_put_resp(dst: &mut [u8], digest: &[u8; DIGEST_LEN]) -> (r: Result<usize, WireError>)
    ensures
        bytes::encodes(
            r,
            old(dst)@,
            final(dst)@,
            put_resp_refusal(old(dst)@.len(), digest@),
            put_resp_frame(digest@),
        ),
{
    broadcast use bytes::lemma_write_first, bytes::lemma_write_next;

    let needed: usize = 33;
    if dst.len() < needed {
        return Err(WireError::BufferTooSmall { needed, actual: dst.len() });
    }
    bytes::put_u8(dst, 0, OP_PUT);
    bytes::put_bytes(dst, 1, digest.as_slice());
    Ok(needed)
}

/// What `decode_put_resp` makes of `s`.
pub open spec fn put_resp_parse(s: Seq<u8>) -> Result<Seq<u8>, WireError> {
    if s.len() < 33 {
        Err(WireError::Truncated)
    } else if s[0] != OP_PUT {
        Err(WireError::BadOpcode { observed: s[0] })
    } else {
        Ok(s.subrange(1, 33))
    }
}

/// Decode the answer to a stored body.
pub fn decode_put_resp(src: &[u8]) -> (r: Result<&[u8], WireError>)
    ensures
        match r {
            Ok(d) => put_resp_parse(src@) == Ok::<Seq<u8>, WireError>(d@),
            Err(e) => put_resp_parse(src@) == Err::<Seq<u8>, WireError>(e),
        },
{
    if src.len() < 33 {
        return Err(WireError::Truncated);
    }
    if src[0] != OP_PUT {
        return Err(WireError::BadOpcode { observed: src[0] });
    }
    Ok(slice_subrange(src, 1, 33))
}

/// Decoding what was encoded, whatever follows it, gives the parts back.
pub proof fn lemma_put_resp_round_trip(digest: Seq<u8>, rest: Seq<u8>)
    requires
        digest.len() == DIGEST_LEN,
    ensures
        put_resp_parse(put_resp_frame(digest) + rest) == Ok::<Seq<u8>, WireError>(digest),
{
    broadcast use bytes::lemma_subrange_left, bytes::lemma_subrange_right;

    let s = put_resp_frame(digest) + rest;
    assert(s[0] == seq![OP_PUT][0]);
    assert(s.subrange(1, 33) == digest);
}

/// The bytes of a request for a body.
pub open spec fn get_req_frame(digest: Seq<u8>) -> Seq<u8> {
    seq![OP_GET] + digest
}

/// Why a request for a body is not written to a buffer with this much room.
pub open spec fn get_req_refusal(room: nat, digest: Seq<u8>) -> Option<WireError> {
    no_room(room, get_req_frame(digest).len())
}

/// Write a request for a body to the start of `dst`. Returns its length.
pub fn encode_get_req(dst: &mut [u8], digest: &[u8; DIGEST_LEN]) -> (r: Result<usize, WireError>)
    ensures
        bytes::encodes(
            r,
            old(dst)@,
            final(dst)@,
            get_req_refusal(old(dst)@.len(), digest@),
            get_req_frame(digest@),
        ),
{
    broadcast use bytes::lemma_write_first, bytes::lemma_write_next;

    let needed: usize = 33;
    if dst.len() < needed {
        return Err(WireError::BufferTooSmall { needed, actual: dst.len() });
    }
    bytes::put_u8(dst, 0, OP_GET);
    bytes::put_bytes(dst, 1, digest.as_slice());
    Ok(needed)
}

/// What `decode_get_req` makes of `s`.
pub open spec fn get_req_parse(s: Seq<u8>) -> Result<Seq<u8>, WireError> {
    if s.len() < 33 {
        Err(WireError::Truncated)
    } else if s[0] != OP_GET {
        Err(WireError::BadOpcode { observed: s[0] })
    } else {
        Ok(s.subrange(1, 33))
    }
}

/// Decode a request for a body.
pub fn decode_get_req(src: &[u8]) -> (r: Result<&[u8], WireError>)
    ensures
        match r {
            Ok(d) => get_req_parse(src@) == Ok::<Seq<u8>, WireError>(d@),
            Err(e) => get_req_parse(src@) == Err::<Seq<u8>, WireError>(e),
        },
{
    if src.len() < 33 {
        return Err(WireError::Truncated);
    }
    if src[0] != OP_GET {
        return Err(WireError::BadOpcode { observed: src[0] });
    }
    Ok(slice_subrange(src, 1, 33))
}

/// Decoding what was encoded, whatever follows it, gives the parts back.
pub proof fn lemma_get_req_round_trip(digest: Seq<u8>, rest: Seq<u8>)
    requires
        digest.len() == DIGEST_LEN,
    ensures
        get_req_parse(get_req_frame(digest) + rest) == Ok::<Seq<u8>, WireError>(digest),
{
    broadcast use bytes::lemma_subrange_left, bytes::lemma_subrange_right;

    let s = get_req_frame(digest) + rest;
    assert(s[0] == seq![OP_GET][0]);
    assert(s.subrange(1, 33) == digest);
}

/// The bytes of a requested body.
pub open spec fn get_resp_frame(body: Seq<u8>) -> Seq<u8> {
    seq![OP_GET] + bytes::le32(body.len() as u32) + body
}

/// Why a requested body is not written to a buffer with this much room.
pub open spec fn get_resp_refusal(room: nat, body: Seq<u8>) -> Option<WireError> {
    if body.len() > MAX_BODY {
        Some(WireError::BodyTooLarge { len: body.len() as usize, max: MAX_BODY })
    } else {
        no_room(room, get_resp_frame(body).len())
    }
}

/// Write a requested body to the start of `dst`. Returns its length.
pub fn encode_get_resp(dst: &mut [u8], body: &[u8]) -> (r: Result<usize, WireError>)
    ensures
        bytes::encodes(
            r,
            old(dst)@,
            final(dst)@,
            get_resp_refusal(old(dst)@.len(), body@),
            get_resp_frame(body@),
        ),
{
    broadcast use bytes::lemma_write_first, bytes::lemma_write_next;

    if body.len() > MAX_BODY {
        return Err(WireError::BodyTooLarge { len: body.len(), max: MAX_BODY });
    }
    let needed: usize = 5 + body.len();
    if dst.len() < needed {
        return Err(WireError::BufferTooSmall { needed, actual: dst.len() });
    }
    bytes::put_u8(dst, 0, OP_GET);
    bytes::put_u32(dst, 1, body.len() as u32);
    bytes::put_bytes(dst, 5, body);
    Ok(needed)
}

/// What `decode_get_resp` makes of `s`.
pub open spec fn get_resp_parse(s: Seq<u8>) -> Result<Seq<u8>, WireError> {
    if s.len() < 5 {
        Err(WireError::Truncated)
    } else if s[0] != OP_GET {
        Err(WireError::BadOpcode { observed: s[0] })
    } else {
        let body_end = 5 + bytes::u32_at(s, 1);
        if s.len() < body_end {
            Err(WireError::Truncated)
        } else {
            Ok(s.subrange(5, body_end))
        }
    }
}

/// Decode a requested body.
pub fn decode_get_resp(src: &[u8]) -> (r: Result<&[u8], WireError>)
    ensures
        match r {
            Ok(d) => get_resp_parse(src@) == Ok::<Seq<u8>, WireError>(d@),
            Err(e) => get_resp_parse(src@) == Err::<Seq<u8>, WireError>(e),
        },
{
    if src.len() < 5 {
        return Err(WireError::Truncated);
    }
    if src[0] != OP_GET {
        return Err(WireError::BadOpcode { observed: src[0] });
    }
    let body_end: u64 = 5 + bytes::get_u32(src, 1) as u64;
    if (src.len() as u64) < body_end {
        return Err(WireError::Truncated);
    }
    Ok(slice_subrange(src, 5, body_end as usize))
}

/// Decoding what was encoded, whatever follows it, gives the parts back.
pub proof fn lemma_get_resp_round_trip(body: Seq<u8>, rest: Seq<u8>)
    requires
        body.len() <= u32::MAX,
    ensures
        get_resp_parse(get_resp_frame(body) + rest) == Ok::<Seq<u8>, WireError>(body),
{
    broadcast use bytes::lemma_subrange_left, bytes::lemma_subrange_right;

    let s = get_resp_frame(body) + rest;
    assert(s[0] == seq![OP_GET][0]);
    assert(s.subrange(1, 5) == bytes::le32(body.len() as u32));
    bytes::lemma_u32_at(s, 1, body.len() as u32);
    assert(s.subrange(5, (5 + body.len()) as int) == body);
}

/// The bytes of a request for the size of a body.
pub open spec fn head_req_frame(digest: Seq<u8>) -> Seq<u8> {
    seq![OP_HEAD] + digest
}

/// Why a request for the size of a body is not written to a buffer with this much room.
pub open spec fn head_req_refusal(room: nat, digest: Seq<u8>) -> Option<WireError> {
    no_room(room, head_req_frame(digest).len())
}

/// Write a request for the size of a body to the start of `dst`. Returns its length.
pub fn encode_head_req(dst: &mut [u8], digest: &[u8; DIGEST_LEN]) -> (r: Result<usize, WireError>)
    ensures
        bytes::encodes(
            r,
            old(dst)@,
            final(dst)@,
            head_req_refusal(old(dst)@.len(), digest@),
            head_req_frame(digest@),
        ),
{
    broadcast use bytes::lemma_write_first, bytes::lemma_write_next;

    let needed: usize = 33;
    if dst.len() < needed {
        return Err(WireError::BufferTooSmall { needed, actual: dst.len() });
    }
    bytes::put_u8(dst, 0, OP_HEAD);
    bytes::put_bytes(dst, 1, digest.as_slice());
    Ok(needed)
}

/// What `decode_head_req` makes of `s`.
pub open spec fn head_req_parse(s: Seq<u8>) -> Result<Seq<u8>, WireError> {
    if s.len() < 33 {
        Err(WireError::Truncated)
    } else if s[0] != OP_HEAD {
        Err(WireError::BadOpcode { observed: s[0] })
    } else {
        Ok(s.subrange(1, 33))
    }
}

/// Decode a request for the size of a body.
pub fn decode_head_req(src: &[u8]) -> (r: Result<&[u8], WireError>)
    ensures
        match r {
            Ok(d) => head_req_parse(src@) == Ok::<Seq<u8>, WireError>(d@),
            Err(e) => head_req_parse(src@) == Err::<Seq<u8>, WireError>(e),
        },
{
    if src.len() < 33 {
        return Err(WireError::Truncated);
    }
    if src[0] != OP_HEAD {
        return Err(WireError::BadOpcode { observed: src[0] });
    }
    Ok(slice_subrange(src, 1, 33))
}

/// Decoding what was encoded, whatever follows it, gives the parts back.
pub proof fn lemma_head_req_round_trip(digest: Seq<u8>, rest: Seq<u8>)
    requires
        digest.len() == DIGEST_LEN,
    ensures
        head_req_parse(head_req_frame(digest) + rest) == Ok::<Seq<u8>, WireError>(digest),
{
    broadcast use bytes::lemma_subrange_left, bytes::lemma_subrange_right;

    let s = head_req_frame(digest) + rest;
    assert(s[0] == seq![OP_HEAD][0]);
    assert(s.subrange(1, 33) == digest);
}

/// The bytes of the size of a body.
pub open spec fn head_resp_frame(size: u64) -> Seq<u8> {
    seq![OP_HEAD] + bytes::le64(size)
}

/// Why the size of a body is not written to a buffer with this much room.
pub open spec fn head_resp_refusal(room: nat, size: u64) -> Option<WireError> {
    no_room(room, head_resp_frame(size).len())
}

/// Write the size of a body to the start of `dst`. Returns its length.
pub fn encode_head_resp(dst: &mut [u8], size: u64) -> (r: Result<usize, WireError>)
    ensures
        bytes::encodes(
            r,
            old(dst)@,
            final(dst)@,
            head_resp_refusal(old(dst)@.len(), size),
            head_resp_frame(size),
        ),
{
    broadcast use bytes::lemma_write_first, bytes::lemma_write_next;

    let needed: usize = 9;
    if dst.len() < needed {
        return Err(WireError::BufferTooSmall { needed, actual: dst.len() });
    }
    bytes::put_u8(dst, 0, OP_HEAD);
    bytes::put_u64(dst, 1, size);
    Ok(needed)
}

/// What `decode_head_resp` makes of `s`.
pub open spec fn head_resp_parse(s: Seq<u8>) -> Result<u64, WireError> {
    if s.len() < 9 {
        Err(WireError::Truncated)
    } else if s[0] != OP_HEAD {
        Err(WireError::BadOpcode { observed: s[0] })
    } else {
        Ok(bytes::u64_at(s, 1))
    }
}

/// Decode the size of a body.
pub fn decode_head_resp(src: &[u8]) -> (r: Result<u64, WireError>)
    ensures
        match r {
            Ok(d) => head_resp_parse(src@) == Ok::<u64, WireError>(d),
            Err(e) => head_resp_parse(src@) == Err::<u64, WireError>(e),
        },
{
    if src.len() < 9 {
        return Err(WireError::Truncated);
    }
    if src[0] != OP_HEAD {
        return Err(WireError::BadOpcode { observed: src[0] });
    }
    Ok(bytes::get_u64(src, 1))
}

/// Decoding what was encoded, whatever follows it, gives the parts back.
pub proof fn lemma_head_resp_round_trip(size: u64, rest: Seq<u8>)
    ensures
        head_resp_parse(head_resp_frame(size) + rest) == Ok::<u64, WireError>(size),
{
    broadcast use bytes::lemma_subrange_left, bytes::lemma_subrange_right;

    let s = head_resp_frame(size) + rest;
    assert(s[0] == seq![OP_HEAD][0]);
    assert(s.subrange(1, 9) == bytes::le64(size));
    bytes::lemma_u64_at(s, 1, size);
}

/// The bytes of a request to delete a body.
pub open spec fn delete_req_frame(digest: Seq<u8>) -> Seq<u8> {
    seq![OP_DELETE] + digest
}

/// Why a request to delete a body is not written to a buffer with this much room.
pub open spec fn delete_req_refusal(room: nat, digest: Seq<u8>) -> Option<WireError> {
    no_room(room, delete_req_frame(digest).len())
}

/// Write a request to delete a body to the start of `dst`. Returns its length.
pub fn encode_delete_req(dst: &mut [u8], digest: &[u8; DIGEST_LEN]) -> (r: Result<usize, WireError>)
    ensures
        bytes::encodes(
            r,
            old(dst)@,
            final(dst)@,
            delete_req_refusal(old(dst)@.len(), digest@),
            delete_req_frame(digest@),
        ),
{
    broadcast use bytes::lemma_write_first, bytes::lemma_write_next;

    let needed: usize = 33;
    if dst.len() < needed {
        return Err(WireError::BufferTooSmall { needed, actual: dst.len() });
    }
    bytes::put_u8(dst, 0, OP_DELETE);
    bytes::put_bytes(dst, 1, digest.as_slice());
    Ok(needed)
}

/// What `decode_delete_req` makes of `s`.
pub open spec fn delete_req_parse(s: Seq<u8>) -> Result<Seq<u8>, WireError> {
    if s.len() < 33 {
        Err(WireError::Truncated)
    } else if s[0] != OP_DELETE {
        Err(WireError::BadOpcode { observed: s[0] })
    } else {
        Ok(s.subrange(1, 33))
    }
}

/// Decode a request to delete a body.
pub fn decode_delete_req(src: &[u8]) -> (r: Result<&[u8], WireError>)
    ensures
        match r {
            Ok(d) => delete_req_parse(src@) == Ok::<Seq<u8>, WireError>(d@),
            Err(e) => delete_req_parse(src@) == Err::<Seq<u8>, WireError>(e),
        },
{
    if src.len() < 33 {
        return Err(WireError::Truncated);
    }
    if src[0] != OP_DELETE {
        return Err(WireError::BadOpcode { observed: src[0] });
    }
    Ok(slice_subrange(src, 1, 33))
}

/// Decoding what was encoded, whatever follows it, gives the parts back.
pub proof fn lemma_delete_req_round_trip(digest: Seq<u8>, rest: Seq<u8>)
    requires
        digest.len() == DIGEST_LEN,
    ensures
        delete_req_parse(delete_req_frame(digest) + rest) == Ok::<Seq<u8>, WireError>(digest),
{
    broadcast use bytes::lemma_subrange_left, bytes::lemma_subrange_right;

    let s = delete_req_frame(digest) + rest;
    assert(s[0] == seq![OP_DELETE][0]);
    assert(s.subrange(1, 33) == digest);
}

/// The bytes of the answer to a deletion.
pub open spec fn delete_resp_frame(existed: bool) -> Seq<u8> {
    seq![OP_DELETE] + seq![if existed { 1u8 } else { 0u8 }]
}

/// Why the answer to a deletion is not written to a buffer with this much room.
pub open spec fn delete_resp_refusal(room: nat, existed: bool) -> Option<WireError> {
    no_room(room, delete_resp_frame(existed).len())
}

/// Write the answer to a deletion to the start of `dst`. Returns its length.
pub fn encode_delete_resp(dst: &mut [u8], existed: bool) -> (r: Result<usize, WireError>)
    ensures
        bytes::encodes(
            r,
            old(dst)@,
            final(dst)@,
            delete_resp_refusal(old(dst)@.len(), existed),
            delete_resp_frame(existed),
        ),
{
    broadcast use bytes::lemma_write_first, bytes::lemma_write_next;

    let needed: usize = 2;
    if dst.len() < needed {
        return Err(WireError::BufferTooSmall { needed, actual: dst.len() });
    }
    bytes::put_u8(dst, 0, OP_DELETE);
    bytes::put_u8(dst, 1, if existed { 1 } else { 0 });
    Ok(needed)
}

/// What `decode_delete_resp` makes of `s`.
pub open spec fn delete_resp_parse(s: Seq<u8>) -> Result<bool, WireError> {
    if s.len() < 2 {
        Err(WireError::Truncated)
    } else if s[0] != OP_DELETE {
        Err(WireError::BadOpcode { observed: s[0] })
    } else {
        Ok(s[1] != 0)
    }
}

/// Decode the answer to a deletion.
pub fn decode_delete_resp(src: &[u8]) -> (r: Result<bool, WireError>)
    ensures
        match r {
            Ok(d) => delete_resp_parse(src@) == Ok::<bool, WireError>(d),
            Err(e) => delete_resp_parse(src@) == Err::<bool, WireError>(e),
        },
{
    if src.len() < 2 {
        return Err(WireError::Truncated);
    }
    if src[0] != OP_DELETE {
        return Err(WireError::BadOpcode { observed: src[0] });
    }
    Ok(src[1] != 0)
}

/// Decoding what was encoded, whatever follows it, gives the parts back.
pub proof fn lemma_delete_resp_round_trip(existed: bool, rest: Seq<u8>)
    ensures
        delete_resp_parse(delete_resp_frame(existed) + rest) == Ok::<bool, WireError>(existed),
{
    broadcast use bytes::lemma_subrange_left, bytes::lemma_subrange_right;

    let s = delete_resp_frame(existed) + rest;
    assert(s[0] == seq![OP_DELETE][0]);
    assert(s[1] == seq![if existed { 1u8 } else { 0u8 }][0]);
}

/// The bytes of a body to store under a key.
pub open spec fn put_keyed_req_frame(key: Seq<u8>, body: Seq<u8>) -> Seq<u8> {
    seq![OP_PUT_KEYED] + key + bytes::le32(body.len() as u32) + body
}

/// Why a body to store under a key is not written to a buffer with this much room.
pub open spec fn put_keyed_req_refusal(room: nat, key: Seq<u8>, body: Seq<u8>) -> Option<WireError> {
    if body.len() > MAX_BODY {
        Some(WireError::BodyTooLarge { len: body.len() as usize, max: MAX_BODY })
    } else {
        no_room(room, put_keyed_req_frame(key, body).len())
    }
}

/// Write a body to store under a key to the start of `dst`. Returns its length.
pub fn encode_put_keyed_req(dst: &mut [u8], key: &[u8; DIGEST_LEN], body: &[u8]) -> (r: Result<usize, WireError>)
    ensures
        bytes::encodes(
            r,
            old(dst)@,
            final(dst)@,
            put_keyed_req_refusal(old(dst)@.len(), key@, body@),
            put_keyed_req_frame(key@, body@),
        ),
{
    broadcast use bytes::lemma_write_first, bytes::lemma_write_next;

    if body.len() > MAX_BODY {
        return Err(WireError::BodyTooLarge { len: body.len(), max: MAX_BODY });
    }
    let needed: usize = 37 + body.len();
    if dst.len() < needed {
        return Err(WireError::BufferTooSmall { needed, actual: dst.len() });
    }
    bytes::put_u8(dst, 0, OP_PUT_KEYED);
    bytes::put_bytes(dst, 1, key.as_slice());
    bytes::put_u32(dst, 33, body.len() as u32);
    bytes::put_bytes(dst, 37, body);
    Ok(needed)
}

/// What `decode_put_keyed_req` makes of `s`.
pub open spec fn put_keyed_req_parse(s: Seq<u8>) -> Result<(Seq<u8>, Seq<u8>), WireError> {
    if s.len() < 37 {
        Err(WireError::Truncated)
    } else if s[0] != OP_PUT_KEYED {
        Err(WireError::BadOpcode { observed: s[0] })
    } else if bytes::u32_at(s, 33) > MAX_BODY {
        Err(WireError::BodyTooLarge { len: bytes::u32_at(s, 33) as usize, max: MAX_BODY })
    } else {
        let body_end = 37 + bytes::u32_at(s, 33);
        if s.len() < body_end {
            Err(WireError::Truncated)
        } else {
            Ok((s.subrange(1, 33), s.subrange(37, body_end)))
        }
    }
}

/// Decode a body to store under a key.
pub fn decode_put_keyed_req(src: &[u8]) -> (r: Result<(&[u8], &[u8]), WireError>)
    ensures
        match r {
            Ok(d) => put_keyed_req_parse(src@) == Ok::<(Seq<u8>, Seq<u8>), WireError>((d.0@, d.1@)),
            Err(e) => put_keyed_req_parse(src@) == Err::<(Seq<u8>, Seq<u8>), WireError>(e),
        },
{
    if src.len() < 37 {
        return Err(WireError::Truncated);
    }
    if src[0] != OP_PUT_KEYED {
        return Err(WireError::BadOpcode { observed: src[0] });
    }
    let len: u32 = bytes::get_u32(src, 33);
    if len as usize > MAX_BODY {
        return Err(WireError::BodyTooLarge { len: len as usize, max: MAX_BODY });
    }
    let body_end: u64 = 37 + bytes::get_u32(src, 33) as u64;
    if (src.len() as u64) < body_end {
        return Err(WireError::Truncated);
    }
    Ok((slice_subrange(src, 1, 33), slice_subrange(src, 37, body_end as usize)))
}

/// Decoding what was encoded, whatever follows it, gives the parts back.
pub proof fn lemma_put_keyed_req_round_trip(key: Seq<u8>, body: Seq<u8>, rest: Seq<u8>)
    requires
        body.len() <= MAX_BODY,
        key.len() == DIGEST_LEN,
    ensures
        put_keyed_req_parse(put_keyed_req_frame(key, body) + rest) == Ok::<(Seq<u8>, Seq<u8>), WireError>((key, body)),
{
    broadcast use bytes::lemma_subrange_left, bytes::lemma_subrange_right;

    let s = put_keyed_req_frame(key, body) + rest;
    assert(s[0] == seq![OP_PUT_KEYED][0]);
    assert(s.subrange(1, 33) == key);
    assert(s.subrange(33, 37) == bytes::le32(body.len() as u32));
    bytes::lemma_u32_at(s, 33, body.len() as u32);
    assert(s.subrange(37, (37 + body.len()) as int) == body);
}

/// The bytes of the answer to a body stored under a key.
pub open spec fn put_keyed_resp_frame(key: Seq<u8>) -> Seq<u8> {
    seq![OP_PUT_KEYED] + key
}

/// Why the answer to a body stored under a key is not written to a buffer with this much room.
pub open spec fn put_keyed_resp_refusal(room: nat, key: Seq<u8>) -> Option<WireError> {
    no_room(room, put_keyed_resp_frame(key).len())
}

/// Write the answer to a body stored under a key to the start of `dst`. Returns its length.
pub fn encode_put_keyed_resp(dst: &mut [u8], key: &[u8; DIGEST_LEN]) -> (r: Result<usize, WireError>)
    ensures
        bytes::encodes(
            r,
            old(dst)@,
            final(dst)@,
            put_keyed_resp_refusal(old(dst)@.len(), key@),
            put_keyed_resp_frame(key@),
        ),
{
    broadcast use bytes::lemma_write_first, bytes::lemma_write_next;

    let needed: usize = 33;
    if dst.len() < needed {
        return Err(WireError::BufferTooSmall { needed, actual: dst.len() });
    }
    bytes::put_u8(dst, 0, OP_PUT_KEYED);
    bytes::put_bytes(dst, 1, key.as_slice());
    Ok(needed)
}

/// What `decode_put_keyed_resp` makes of `s`.
pub open spec fn put_keyed_resp_parse(s: Seq<u8>) -> Result<Seq<u8>, WireError> {
    if s.len() < 33 {
        Err(WireError::Truncated)
    } else if s[0] != OP_PUT_KEYED {
        Err(WireError::BadOpcode { observed: s[0] })
    } else {
        Ok(s.subrange(1, 33))
    }
}

/// Decode the answer to a body stored under a key.
pub fn decode_put_keyed_resp(src: &[u8]) -> (r: Result<&[u8], WireError>)
    ensures
        match r {
            Ok(d) => put_keyed_resp_parse(src@) == Ok::<Seq<u8>, WireError>(d@),
            Err(e) => put_keyed_resp_parse(src@) == Err::<Seq<u8>, WireError>(e),
        },
{
    if src.len() < 33 {
        return Err(WireError::Truncated);
    }
    if src[0] != OP_PUT_KEYED {
        return Err(WireError::BadOpcode { observed: src[0] });
    }
    Ok(slice_subrange(src, 1, 33))
}

/// Decoding what was encoded, whatever follows it, gives the parts back.
pub proof fn lemma_put_keyed_resp_round_trip(key: Seq<u8>, rest: Seq<u8>)
    requires
        key.len() == DIGEST_LEN,
    ensures
        put_keyed_resp_parse(put_keyed_resp_frame(key) + rest) == Ok::<Seq<u8>, WireError>(key),
{
    broadcast use bytes::lemma_subrange_left, bytes::lemma_subrange_right;

    let s = put_keyed_resp_frame(key) + rest;
    assert(s[0] == seq![OP_PUT_KEYED][0]);
    assert(s.subrange(1, 33) == key);
}

/// The bytes of a request for a page of the inventory.
pub open spec fn scan_req_frame(cursor: u32, max: u8) -> Seq<u8> {
    seq![OP_SCAN] + bytes::le32(cursor) + seq![max]
}

/// Why a request for a page of the inventory is not written to a buffer with this much room.
pub open spec fn scan_req_refusal(room: nat, cursor: u32, max: u8) -> Option<WireError> {
    no_room(room, scan_req_frame(cursor, max).len())
}

/// Write a request for a page of the inventory to the start of `dst`. Returns its length.
pub fn encode_scan_req(dst: &mut [u8], cursor: u32, max: u8) -> (r: Result<usize, WireError>)
    ensures
        bytes::encodes(
            r,
            old(dst)@,
            final(dst)@,
            scan_req_refusal(old(dst)@.len(), cursor, max),
            scan_req_frame(cursor, max),
        ),
{
    broadcast use bytes::lemma_write_first, bytes::lemma_write_next;

    let needed: usize = 6;
    if dst.len() < needed {
        return Err(WireError::BufferTooSmall { needed, actual: dst.len() });
    }
    bytes::put_u8(dst, 0, OP_SCAN);
    bytes::put_u32(dst, 1, cursor);
    bytes::put_u8(dst, 5, max);
    Ok(needed)
}

/// What `decode_scan_req` makes of `s`.
pub open spec fn scan_req_parse(s: Seq<u8>) -> Result<(u32, u8), WireError> {
    if s.len() < 6 {
        Err(WireError::Truncated)
    } else if s[0] != OP_SCAN {
        Err(WireError::BadOpcode { observed: s[0] })
    } else {
        Ok((bytes::u32_at(s, 1), s[5]))
    }
}

/// Decode a request for a page of the inventory.
pub fn decode_scan_req(src: &[u8]) -> (r: Result<(u32, u8), WireError>)
    ensures
        match r {
            Ok(d) => scan_req_parse(src@) == Ok::<(u32, u8), WireError>((d.0, d.1)),
            Err(e) => scan_req_parse(src@) == Err::<(u32, u8), WireError>(e),
        },
{
    if src.len() < 6 {
        return Err(WireError::Truncated);
    }
    if src[0] != OP_SCAN {
        return Err(WireError::BadOpcode { observed: src[0] });
    }
    Ok((bytes::get_u32(src, 1), src[5]))
}

/// Decoding what was encoded, whatever follows it, gives the parts back.
pub proof fn lemma_scan_req_round_trip(cursor: u32, max: u8, rest: Seq<u8>)
    ensures
        scan_req_parse(scan_req_frame(cursor, max) + rest) == Ok::<(u32, u8), WireError>((cursor, max)),
{
    broadcast use bytes::lemma_subrange_left, bytes::lemma_subrange_right;

    let s = scan_req_frame(cursor, max) + rest;
    assert(s[0] == seq![OP_SCAN][0]);
    assert(s.subrange(1, 5) == bytes::le32(cursor));
    bytes::lemma_u32_at(s, 1, cursor);
    assert(s[5] == seq![max][0]);
}

/// The bytes of the start of a streamed body.
pub open spec fn wopen_req_frame(digest: Seq<u8>, total_len: u64) -> Seq<u8> {
    seq![OP_WOPEN] + digest + bytes::le64(total_len)
}

/// Why the start of a streamed body is not written to a buffer with this much room.
pub open spec fn wopen_req_refusal(room: nat, digest: Seq<u8>, total_len: u64) -> Option<WireError> {
    no_room(room, wopen_req_frame(digest, total_len).len())
}

/// Write the start of a streamed body to the start of `dst`. Returns its length.
pub fn encode_wopen_req(dst: &mut [u8], digest: &[u8; DIGEST_LEN], total_len: u64) -> (r: Result<usize, WireError>)
    ensures
        bytes::encodes(
            r,
            old(dst)@,
            final(dst)@,
            wopen_req_refusal(old(dst)@.len(), digest@, total_len),
            wopen_req_frame(digest@, total_len),
        ),
{
    broadcast use bytes::lemma_write_first, bytes::lemma_write_next;

    let needed: usize = 41;
    if dst.len() < needed {
        return Err(WireError::BufferTooSmall { needed, actual: dst.len() });
    }
    bytes::put_u8(dst, 0, OP_WOPEN);
    bytes::put_bytes(dst, 1, digest.as_slice());
    bytes::put_u64(dst, 33, total_len);
    Ok(needed)
}

/// What `decode_wopen_req` makes of `s`.
pub open spec fn wopen_req_parse(s: Seq<u8>) -> Result<(Seq<u8>, u64), WireError> {
    if s.len() < 41 {
        Err(WireError::Truncated)
    } else if s[0] != OP_WOPEN {
        Err(WireError::BadOpcode { observed: s[0] })
    } else {
        Ok((s.subrange(1, 33), bytes::u64_at(s, 33)))
    }
}

/// Decode the start of a streamed body.
pub fn decode_wopen_req(src: &[u8]) -> (r: Result<(&[u8], u64), WireError>)
    ensures
        match r {
            Ok(d) => wopen_req_parse(src@) == Ok::<(Seq<u8>, u64), WireError>((d.0@, d.1)),
            Err(e) => wopen_req_parse(src@) == Err::<(Seq<u8>, u64), WireError>(e),
        },
{
    if src.len() < 41 {
        return Err(WireError::Truncated);
    }
    if src[0] != OP_WOPEN {
        return Err(WireError::BadOpcode { observed: src[0] });
    }
    Ok((slice_subrange(src, 1, 33), bytes::get_u64(src, 33)))
}

/// Decoding what was encoded, whatever follows it, gives the parts back.
pub proof fn lemma_wopen_req_round_trip(digest: Seq<u8>, total_len: u64, rest: Seq<u8>)
    requires
        digest.len() == DIGEST_LEN,
    ensures
        wopen_req_parse(wopen_req_frame(digest, total_len) + rest) == Ok::<(Seq<u8>, u64), WireError>((digest, total_len)),
{
    broadcast use bytes::lemma_subrange_left, bytes::lemma_subrange_right;

    let s = wopen_req_frame(digest, total_len) + rest;
    assert(s[0] == seq![OP_WOPEN][0]);
    assert(s.subrange(1, 33) == digest);
    assert(s.subrange(33, 41) == bytes::le64(total_len));
    bytes::lemma_u64_at(s, 33, total_len);
}

/// The bytes of the answer to the start of a streamed body.
pub open spec fn wopen_resp_frame(wid: u8) -> Seq<u8> {
    seq![OP_WOPEN] + seq![wid]
}

/// Why the answer to the start of a streamed body is not written to a buffer with this much room.
pub open spec fn wopen_resp_refusal(room: nat, wid: u8) -> Option<WireError> {
    no_room(room, wopen_resp_frame(wid).len())
}

/// Write the answer to the start of a streamed body to the start of `dst`. Returns its length.
pub fn encode_wopen_resp(dst: &mut [u8], wid: u8) -> (r: Result<usize, WireError>)
    ensures
        bytes::encodes(
            r,
            old(dst)@,
            final(dst)@,
            wopen_resp_refusal(old(dst)@.len(), wid),
            wopen_resp_frame(wid),
        ),
{
    broadcast use bytes::lemma_write_first, bytes::lemma_write_next;

    let needed: usize = 2;
    if dst.len() < needed {
        return Err(WireError::BufferTooSmall { needed, actual: dst.len() });
    }
    bytes::put_u8(dst, 0, OP_WOPEN);
    bytes::put_u8(dst, 1, wid);
    Ok(needed)
}

/// What `decode_wopen_resp` makes of `s`.
pub open spec fn wopen_resp_parse(s: Seq<u8>) -> Result<u8, WireError> {
    if s.len() < 2 {
        Err(WireError::Truncated)
    } else if s[0] != OP_WOPEN {
        Err(WireError::BadOpcode { observed: s[0] })
    } else {
        Ok(s[1])
    }
}

/// Decode the answer to the start of a streamed body.
pub fn decode_wopen_resp(src: &[u8]) -> (r: Result<u8, WireError>)
    ensures
        match r {
            Ok(d) => wopen_resp_parse(src@) == Ok::<u8, WireError>(d),
            Err(e) => wopen_resp_parse(src@) == Err::<u8, WireError>(e),
        },
{
    if src.len() < 2 {
        return Err(WireError::Truncated);
    }
    if src[0] != OP_WOPEN {
        return Err(WireError::BadOpcode { observed: src[0] });
    }
    Ok(src[1])
}

/// Decoding what was encoded, whatever follows it, gives the parts back.
pub proof fn lemma_wopen_resp_round_trip(wid: u8, rest: Seq<u8>)
    ensures
        wopen_resp_parse(wopen_resp_frame(wid) + rest) == Ok::<u8, WireError>(wid),
{
    broadcast use bytes::lemma_subrange_left, bytes::lemma_subrange_right;

    let s = wopen_resp_frame(wid) + rest;
    assert(s[0] == seq![OP_WOPEN][0]);
    assert(s[1] == seq![wid][0]);
}

/// The bytes of a chunk of a streamed body.
pub open spec fn wappend_req_frame(wid: u8, chunk: Seq<u8>) -> Seq<u8> {
    seq![OP_WAPPEND] + seq![wid] + bytes::le32(chunk.len() as u32) + chunk
}

/// Why a chunk of a streamed body is not written to a buffer with this much room.
pub open spec fn wappend_req_refusal(room: nat, wid: u8, chunk: Seq<u8>) -> Option<WireError> {
    if chunk.len() > MAX_BODY {
        Some(WireError::BodyTooLarge { len: chunk.len() as usize, max: MAX_BODY })
    } else {
        no_room(room, wappend_req_frame(wid, chunk).len())
    }
}

/// Write a chunk of a streamed body to the start of `dst`. Returns its length.
pub fn encode_wappend_req(dst: &mut [u8], wid: u8, chunk: &[u8]) -> (r: Result<usize, WireError>)
    ensures
        bytes::encodes(
            r,
            old(dst)@,
            final(dst)@,
            wappend_req_refusal(old(dst)@.len(), wid, chunk@),
            wappend_req_frame(wid, chunk@),
        ),
{
    broadcast use bytes::lemma_write_first, bytes::lemma_write_next;

    if chunk.len() > MAX_BODY {
        return Err(WireError::BodyTooLarge { len: chunk.len(), max: MAX_BODY });
    }
    let needed: usize = 6 + chunk.len();
    if dst.len() < needed {
        return Err(WireError::BufferTooSmall { needed, actual: dst.len() });
    }
    bytes::put_u8(dst, 0, OP_WAPPEND);
    bytes::put_u8(dst, 1, wid);
    bytes::put_u32(dst, 2, chunk.len() as u32);
    bytes::put_bytes(dst, 6, chunk);
    Ok(needed)
}

/// What `decode_wappend_req` makes of `s`.
pub open spec fn wappend_req_parse(s: Seq<u8>) -> Result<(u8, Seq<u8>), WireError> {
    if s.len() < 6 {
        Err(WireError::Truncated)
    } else if s[0] != OP_WAPPEND {
        Err(WireError::BadOpcode { observed: s[0] })
    } else if bytes::u32_at(s, 2) > MAX_BODY {
        Err(WireError::BodyTooLarge { len: bytes::u32_at(s, 2) as usize, max: MAX_BODY })
    } else {
        let chunk_end = 6 + bytes::u32_at(s, 2);
        if s.len() < chunk_end {
            Err(WireError::Truncated)
        } else {
            Ok((s[1], s.subrange(6, chunk_end)))
        }
    }
}

/// Decode a chunk of a streamed body.
pub fn decode_wappend_req(src: &[u8]) -> (r: Result<(u8, &[u8]), WireError>)
    ensures
        match r {
            Ok(d) => wappend_req_parse(src@) == Ok::<(u8, Seq<u8>), WireError>((d.0, d.1@)),
            Err(e) => wappend_req_parse(src@) == Err::<(u8, Seq<u8>), WireError>(e),
        },
{
    if src.len() < 6 {
        return Err(WireError::Truncated);
    }
    if src[0] != OP_WAPPEND {
        return Err(WireError::BadOpcode { observed: src[0] });
    }
    let len: u32 = bytes::get_u32(src, 2);
    if len as usize > MAX_BODY {
        return Err(WireError::BodyTooLarge { len: len as usize, max: MAX_BODY });
    }
    let chunk_end: u64 = 6 + bytes::get_u32(src, 2) as u64;
    if (src.len() as u64) < chunk_end {
        return Err(WireError::Truncated);
    }
    Ok((src[1], slice_subrange(src, 6, chunk_end as usize)))
}

/// Decoding what was encoded, whatever follows it, gives the parts back.
pub proof fn lemma_wappend_req_round_trip(wid: u8, chunk: Seq<u8>, rest: Seq<u8>)
    requires
        chunk.len() <= MAX_BODY,
    ensures
        wappend_req_parse(wappend_req_frame(wid, chunk) + rest) == Ok::<(u8, Seq<u8>), WireError>((wid, chunk)),
{
    broadcast use bytes::lemma_subrange_left, bytes::lemma_subrange_right;

    let s = wappend_req_frame(wid, chunk) + rest;
    assert(s[0] == seq![OP_WAPPEND][0]);
    assert(s[1] == seq![wid][0]);
    assert(s.subrange(2, 6) == bytes::le32(chunk.len() as u32));
    bytes::lemma_u32_at(s, 2, chunk.len() as u32);
    assert(s.subrange(6, (6 + chunk.len()) as int) == chunk);
}

/// The bytes of the answer to a chunk.
pub open spec fn wappend_resp_frame(wid: u8) -> Seq<u8> {
    seq![OP_WAPPEND] + seq![wid]
}

/// Why the answer to a chunk is not written to a buffer with this much room.
pub open spec fn wappend_resp_refusal(room: nat, wid: u8) -> Option<WireError> {
    no_room(room, wappend_resp_frame(wid).len())
}

/// Write the answer to a chunk to the start of `dst`. Returns its length.
pub fn encode_wappend_resp(dst: &mut [u8], wid: u8) -> (r: Result<usize, WireError>)
    ensures
        bytes::encodes(
            r,
            old(dst)@,
            final(dst)@,
            wappend_resp_refusal(old(dst)@.len(), wid),
            wappend_resp_frame(wid),
        ),
{
    broadcast use bytes::lemma_write_first, bytes::lemma_write_next;

    let needed: usize = 2;
    if dst.len() < needed {
        return Err(WireError::BufferTooSmall { needed, actual: dst.len() });
    }
    bytes::put_u8(dst, 0, OP_WAPPEND);
    bytes::put_u8(dst, 1, wid);
    Ok(needed)
}

/// The bytes of the end of a streamed body.
pub open spec fn wcommit_req_frame(wid: u8) -> Seq<u8> {
    seq![OP_WCOMMIT] + seq![wid]
}

/// Why the end of a streamed body is not written to a buffer with this much room.
pub open spec fn wcommit_req_refusal(room: nat, wid: u8) -> Option<WireError> {
    no_room(room, wcommit_req_frame(wid).len())
}

/// Write the end of a streamed body to the start of `dst`. Returns its length.
pub fn encode_wcommit_req(dst: &mut [u8], wid: u8) -> (r: Result<usize, WireError>)
    ensures
        bytes::encodes(
            r,
            old(dst)@,
            final(dst)@,
            wcommit_req_refusal(old(dst)@.len(), wid),
            wcommit_req_frame(wid),
        ),
{
    broadcast use bytes::lemma_write_first, bytes::lemma_write_next;

    let needed: usize = 2;
    if dst.len() < needed {
        return Err(WireError::BufferTooSmall { needed, actual: dst.len() });
    }
    bytes::put_u8(dst, 0, OP_WCOMMIT);
    bytes::put_u8(dst, 1, wid);
    Ok(needed)
}

/// The bytes of the answer to the end of a streamed body.
pub open spec fn wcommit_resp_frame(digest: Seq<u8>) -> Seq<u8> {
    seq![OP_WCOMMIT] + digest
}

/// Why the answer to the end of a streamed body is not written to a buffer with this much room.
pub open spec fn wcommit_resp_refusal(room: nat, digest: Seq<u8>) -> Option<WireError> {
    no_room(room, wcommit_resp_frame(digest).len())
}

/// Write the answer to the end of a streamed body to the start of `dst`. Returns its length.
pub fn encode_wcommit_resp(dst: &mut [u8], digest: &[u8; DIGEST_LEN]) -> (r: Result<usize, WireError>)
    ensures
        bytes::encodes(
            r,
            old(dst)@,
            final(dst)@,
            wcommit_resp_refusal(old(dst)@.len(), digest@),
            wcommit_resp_frame(digest@),
        ),
{
    broadcast use bytes::lemma_write_first, bytes::lemma_write_next;

    let needed: usize = 33;
    if dst.len() < needed {
        return Err(WireError::BufferTooSmall { needed, actual: dst.len() });
    }
    bytes::put_u8(dst, 0, OP_WCOMMIT);
    bytes::put_bytes(dst, 1, digest.as_slice());
    Ok(needed)
}

/// What `decode_wcommit_resp` makes of `s`.
pub open spec fn wcommit_resp_parse(s: Seq<u8>) -> Result<Seq<u8>, WireError> {
    if s.len() < 33 {
        Err(WireError::Truncated)
    } else if s[0] != OP_WCOMMIT {
        Err(WireError::BadOpcode { observed: s[0] })
    } else {
        Ok(s.subrange(1, 33))
    }
}

/// Decode the answer to the end of a streamed body.
pub fn decode_wcommit_resp(src: &[u8]) -> (r: Result<&[u8], WireError>)
    ensures
        match r {
            Ok(d) => wcommit_resp_parse(src@) == Ok::<Seq<u8>, WireError>(d@),
            Err(e) => wcommit_resp_parse(src@) == Err::<Seq<u8>, WireError>(e),
        },
{
    if src.len() < 33 {
        return Err(WireError::Truncated);
    }
    if src[0] != OP_WCOMMIT {
        return Err(WireError::BadOpcode { observed: src[0] });
    }
    Ok(slice_subrange(src, 1, 33))
}

/// Decoding what was encoded, whatever follows it, gives the parts back.
pub proof fn lemma_wcommit_resp_round_trip(digest: Seq<u8>, rest: Seq<u8>)
    requires
        digest.len() == DIGEST_LEN,
    ensures
        wcommit_resp_parse(wcommit_resp_frame(digest) + rest) == Ok::<Seq<u8>, WireError>(digest),
{
    broadcast use bytes::lemma_subrange_left, bytes::lemma_subrange_right;

    let s = wcommit_resp_frame(digest) + rest;
    assert(s[0] == seq![OP_WCOMMIT][0]);
    assert(s.subrange(1, 33) == digest);
}

/// The bytes of the abandonment of a streamed body.
pub open spec fn wabort_req_frame(wid: u8) -> Seq<u8> {
    seq![OP_WABORT] + seq![wid]
}

/// Why the abandonment of a streamed body is not written to a buffer with this much room.
pub open spec fn wabort_req_refusal(room: nat, wid: u8) -> Option<WireError> {
    no_room(room, wabort_req_frame(wid).len())
}

/// Write the abandonment of a streamed body to the start of `dst`. Returns its length.
pub fn encode_wabort_req(dst: &mut [u8], wid: u8) -> (r: Result<usize, WireError>)
    ensures
        bytes::encodes(
            r,
            old(dst)@,
            final(dst)@,
            wabort_req_refusal(old(dst)@.len(), wid),
            wabort_req_frame(wid),
        ),
{
    broadcast use bytes::lemma_write_first, bytes::lemma_write_next;

    let needed: usize = 2;
    if dst.len() < needed {
        return Err(WireError::BufferTooSmall { needed, actual: dst.len() });
    }
    bytes::put_u8(dst, 0, OP_WABORT);
    bytes::put_u8(dst, 1, wid);
    Ok(needed)
}

/// The bytes of the answer to an abandonment.
pub open spec fn wabort_resp_frame() -> Seq<u8> {
    seq![OP_WABORT]
}

/// Why the answer to an abandonment is not written to a buffer with this much room.
pub open spec fn wabort_resp_refusal(room: nat) -> Option<WireError> {
    no_room(room, wabort_resp_frame().len())
}

/// Write the answer to an abandonment to the start of `dst`. Returns its length.
pub fn encode_wabort_resp(dst: &mut [u8]) -> (r: Result<usize, WireError>)
    ensures
        bytes::encodes(
            r,
            old(dst)@,
            final(dst)@,
            wabort_resp_refusal(old(dst)@.len()),
            wabort_resp_frame(),
        ),
{
    broadcast use bytes::lemma_write_first, bytes::lemma_write_next;

    let needed: usize = 1;
    if dst.len() < needed {
        return Err(WireError::BufferTooSmall { needed, actual: dst.len() });
    }
    bytes::put_u8(dst, 0, OP_WABORT);
    Ok(needed)
}

/// The bytes of a request for a part of a body.
pub open spec fn range_req_frame(digest: Seq<u8>, off: u64, len: u32) -> Seq<u8> {
    seq![OP_RANGE] + digest + bytes::le64(off) + bytes::le32(len)
}

/// Why a request for a part of a body is not written to a buffer with this much room.
pub open spec fn range_req_refusal(room: nat, digest: Seq<u8>, off: u64, len: u32) -> Option<WireError> {
    no_room(room, range_req_frame(digest, off, len).len())
}

/// Write a request for a part of a body to the start of `dst`. Returns its length.
pub fn encode_range_req(dst: &mut [u8], digest: &[u8; DIGEST_LEN], off: u64, len: u32) -> (r: Result<usize, WireError>)
    ensures
        bytes::encodes(
            r,
            old(dst)@,
            final(dst)@,
            range_req_refusal(old(dst)@.len(), digest@, off, len),
            range_req_frame(digest@, off, len),
        ),
{
    broadcast use bytes::lemma_write_first, bytes::lemma_write_next;

    let needed: usize = 45;
    if dst.len() < needed {
        return Err(WireError::BufferTooSmall { needed, actual: dst.len() });
    }
    bytes::put_u8(dst, 0, OP_RANGE);
    bytes::put_bytes(dst, 1, digest.as_slice());
    bytes::put_u64(dst, 33, off);
    bytes::put_u32(dst, 41, len);
    Ok(needed)
}

/// What `decode_range_req` makes of `s`.
pub open spec fn range_req_parse(s: Seq<u8>) -> Result<(Seq<u8>, u64, u32), WireError> {
    if s.len() < 45 {
        Err(WireError::Truncated)
    } else if s[0] != OP_RANGE {
        Err(WireError::BadOpcode { observed: s[0] })
    } else {
        Ok((s.subrange(1, 33), bytes::u64_at(s, 33), bytes::u32_at(s, 41)))
    }
}

/// Decode a request for a part of a body.
pub fn decode_range_req(src: &[u8]) -> (r: Result<(&[u8], u64, u32), WireError>)
    ensures
        match r {
            Ok(d) => range_req_parse(src@) == Ok::<(Seq<u8>, u64, u32), WireError>((d.0@, d.1, d.2)),
            Err(e) => range_req_parse(src@) == Err::<(Seq<u8>, u64, u32), WireError>(e),
        },
{
    if src.len() < 45 {
        return Err(WireError::Truncated);
    }
    if src[0] != OP_RANGE {
        return Err(WireError::BadOpcode { observed: src[0] });
    }
    Ok((slice_subrange(src, 1, 33), bytes::get_u64(src, 33), bytes::get_u32(src, 41)))
}

/// Decoding what was encoded, whatever follows it, gives the parts back.
pub proof fn lemma_range_req_round_trip(digest: Seq<u8>, off: u64, len: u32, rest: Seq<u8>)
    requires
        digest.len() == DIGEST_LEN,
    ensures
        range_req_parse(range_req_frame(digest, off, len) + rest) == Ok::<(Seq<u8>, u64, u32), WireError>((digest, off, len)),
{
    broadcast use bytes::lemma_subrange_left, bytes::lemma_subrange_right;

    let s = range_req_frame(digest, off, len) + rest;
    assert(s[0] == seq![OP_RANGE][0]);
    assert(s.subrange(1, 33) == digest);
    assert(s.subrange(33, 41) == bytes::le64(off));
    bytes::lemma_u64_at(s, 33, off);
    assert(s.subrange(41, 45) == bytes::le32(len));
    bytes::lemma_u32_at(s, 41, len);
}

/// The bytes of a requested part.
pub open spec fn range_resp_frame(part: Seq<u8>) -> Seq<u8> {
    seq![OP_RANGE] + bytes::le32(part.len() as u32) + part
}

/// Why a requested part is not written to a buffer with this much room.
pub open spec fn range_resp_refusal(room: nat, part: Seq<u8>) -> Option<WireError> {
    if part.len() > MAX_BODY {
        Some(WireError::BodyTooLarge { len: part.len() as usize, max: MAX_BODY })
    } else {
        no_room(room, range_resp_frame(part).len())
    }
}

/// Write a requested part to the start of `dst`. Returns its length.
pub fn encode_range_resp(dst: &mut [u8], part: &[u8]) -> (r: Result<usize, WireError>)
    ensures
        bytes::encodes(
            r,
            old(dst)@,
            final(dst)@,
            range_resp_refusal(old(dst)@.len(), part@),
            range_resp_frame(part@),
        ),
{
    broadcast use bytes::lemma_write_first, bytes::lemma_write_next;

    if part.len() > MAX_BODY {
        return Err(WireError::BodyTooLarge { len: part.len(), max: MAX_BODY });
    }
    let needed: usize = 5 + part.len();
    if dst.len() < needed {
        return Err(WireError::BufferTooSmall { needed, actual: dst.len() });
    }
    bytes::put_u8(dst, 0, OP_RANGE);
    bytes::put_u32(dst, 1, part.len() as u32);
    bytes::put_bytes(dst, 5, part);
    Ok(needed)
}

/// What `decode_range_resp` makes of `s`.
pub open spec fn range_resp_parse(s: Seq<u8>) -> Result<Seq<u8>, WireError> {
    if s.len() < 5 {
        Err(WireError::Truncated)
    } else if s[0] != OP_RANGE {
        Err(WireError::BadOpcode { observed: s[0] })
    } else {
        let part_end = 5 + bytes::u32_at(s, 1);
        if s.len() < part_end {
            Err(WireError::Truncated)
        } else {
            Ok(s.subrange(5, part_end))
        }
    }
}

/// Decode a requested part.
pub fn decode_range_resp(src: &[u8]) -> (r: Result<&[u8], WireError>)
    ensures
        match r {
            Ok(d) => range_resp_parse(src@) == Ok::<Seq<u8>, WireError>(d@),
            Err(e) => range_resp_parse(src@) == Err::<Seq<u8>, WireError>(e),
        },
{
    if src.len() < 5 {
        return Err(WireError::Truncated);
    }
    if src[0] != OP_RANGE {
        return Err(WireError::BadOpcode { observed: src[0] });
    }
    let part_end: u64 = 5 + bytes::get_u32(src, 1) as u64;
    if (src.len() as u64) < part_end {
        return Err(WireError::Truncated);
    }
    Ok(slice_subrange(src, 5, part_end as usize))
}

/// Decoding what was encoded, whatever follows it, gives the parts back.
pub proof fn lemma_range_resp_round_trip(part: Seq<u8>, rest: Seq<u8>)
    requires
        part.len() <= u32::MAX,
    ensures
        range_resp_parse(range_resp_frame(part) + rest) == Ok::<Seq<u8>, WireError>(part),
{
    broadcast use bytes::lemma_subrange_left, bytes::lemma_subrange_right;

    let s = range_resp_frame(part) + rest;
    assert(s[0] == seq![OP_RANGE][0]);
    assert(s.subrange(1, 5) == bytes::le32(part.len() as u32));
    bytes::lemma_u32_at(s, 1, part.len() as u32);
    assert(s.subrange(5, (5 + part.len()) as int) == part);
}

/// The bytes of a refusal.
pub open spec fn nak_frame(errno: u8) -> Seq<u8> {
    seq![OP_NAK] + seq![errno]
}

/// Why a refusal is not written to a buffer with this much room.
pub open spec fn nak_refusal(room: nat, errno: u8) -> Option<WireError> {
    no_room(room, nak_frame(errno).len())
}

/// Write a refusal to the start of `dst`. Returns its length.
pub fn encode_nak(dst: &mut [u8], errno: u8) -> (r: Result<usize, WireError>)
    ensures
        bytes::encodes(
            r,
            old(dst)@,
            final(dst)@,
            nak_refusal(old(dst)@.len(), errno),
            nak_frame(errno),
        ),
{
    broadcast use bytes::lemma_write_first, bytes::lemma_write_next;

    let needed: usize = 2;
    if dst.len() < needed {
        return Err(WireError::BufferTooSmall { needed, actual: dst.len() });
    }
    bytes::put_u8(dst, 0, OP_NAK);
    bytes::put_u8(dst, 1, errno);
    Ok(needed)
}

/// What is made of a message that only names a streamed body.
pub open spec fn wid_parse(s: Seq<u8>, op: u8) -> Result<u8, WireError> {
    if s.len() < 2 {
        Err(WireError::Truncated)
    } else if s[0] != op {
        Err(WireError::BadOpcode { observed: s[0] })
    } else {
        Ok(s[1])
    }
}

/// Decode a message with the given opcode that only names a streamed body.
pub fn decode_wid_req(src: &[u8], op: u8) -> (r: Result<u8, WireError>)
    ensures
        r == wid_parse(src@, op),
{
    if src.len() < 2 {
        return Err(WireError::Truncated);
    }
    if src[0] != op {
        return Err(WireError::BadOpcode { observed: src[0] });
    }
    Ok(src[1])
}

/// Decoding a message that only names a streamed body gives the name back.
pub proof fn lemma_wid_round_trip(wid: u8, rest: Seq<u8>)
    ensures
        wid_parse(wcommit_req_frame(wid) + rest, OP_WCOMMIT) == Ok::<u8, WireError>(wid),
        wid_parse(wabort_req_frame(wid) + rest, OP_WABORT) == Ok::<u8, WireError>(wid),
        wid_parse(wappend_resp_frame(wid) + rest, OP_WAPPEND) == Ok::<u8, WireError>(wid),
{
}

/// The bytes of arrays.
pub open spec fn digest_list(d: Seq<[u8; DIGEST_LEN]>) -> Seq<Seq<u8>> {
    Seq::new(d.len(), |i: int| d[i]@)
}

/// The first `n` entries of a page: a flag for a blob stored under an explicit
/// key, and the digest or key.
pub open spec fn scan_entries(digests: Seq<Seq<u8>>, keyed: Seq<u8>, n: nat) -> Seq<u8>
    decreases n,
{
    if n == 0 {
        Seq::empty()
    } else {
        scan_entries(digests, keyed, (n - 1) as nat) + seq![if keyed[n - 1] != 0 { 1u8 } else { 0u8 }] + digests[n - 1]
    }
}

/// The bytes of a page of the inventory.
pub open spec fn scan_resp_frame(next_cursor: u32, digests: Seq<Seq<u8>>, keyed: Seq<u8>) -> Seq<u8> {
    seq![OP_SCAN] + bytes::le32(next_cursor) + seq![digests.len() as u8] + scan_entries(digests, keyed, digests.len())
}

/// Why a page is not written to a buffer with this much room.
pub open spec fn scan_resp_refusal(room: nat, next_cursor: u32, digests: Seq<Seq<u8>>, keyed: Seq<u8>) -> Option<
    WireError,
> {
    if digests.len() > MAX_SCAN_DIGESTS || keyed.len() != digests.len() {
        Some(WireError::BodyTooLarge { len: digests.len() as usize, max: MAX_SCAN_DIGESTS })
    } else {
        no_room(room, (6 + digests.len() * 33) as nat)
    }
}

proof fn lemma_scan_entries_len(digests: Seq<Seq<u8>>, keyed: Seq<u8>, n: nat)
    requires
        n <= digests.len(),
        forall|i: int| 0 <= i < digests.len() ==> (#[trigger] digests[i]).len() == DIGEST_LEN,
    ensures
        scan_entries(digests, keyed, n).len() == n * 33,
    decreases n,
{
    if n > 0 {
        lemma_scan_entries_len(digests, keyed, (n - 1) as nat);
    }
}

/// The length of a page of the inventory.
pub proof fn lemma_scan_frame_len(next_cursor: u32, digests: Seq<Seq<u8>>, keyed: Seq<u8>)
    requires
        forall|i: int| 0 <= i < digests.len() ==> (#[trigger] digests[i]).len() == DIGEST_LEN,
    ensures
        scan_resp_frame(next_cursor, digests, keyed).len() == 6 + 33 * digests.len(),
{
    lemma_scan_entries_len(digests, keyed, digests.len());
}

/// Write a page of the inventory.
pub fn encode_scan_resp(dst: &mut [u8], next_cursor: u32, digests: &[[u8; DIGEST_LEN]], keyed: &[u8]) -> (r: Result<
    usize,
    WireError,
>)
    ensures
        bytes::encodes(
            r,
            old(dst)@,
            final(dst)@,
            scan_resp_refusal(old(dst)@.len(), next_cursor, digest_list(digests@), keyed@),
            scan_resp_frame(next_cursor, digest_list(digests@), keyed@),
        ),
{
    broadcast use bytes::lemma_write_first, bytes::lemma_write_next;

    let ghost all = digest_list(digests@);
    if digests.len() > MAX_SCAN_DIGESTS || keyed.len() != digests.len() {
        return Err(WireError::BodyTooLarge { len: digests.len(), max: MAX_SCAN_DIGESTS });
    }
    proof {
        lemma_scan_entries_len(all, keyed@, digests@.len());
    }
    let needed: usize = 6 + digests.len() * 33;
    if dst.len() < needed {
        return Err(WireError::BufferTooSmall { needed, actual: dst.len() });
    }
    let ghost before = dst@;
    bytes::put_u8(dst, 0, OP_SCAN);
    bytes::put_u32(dst, 1, next_cursor);
    bytes::put_u8(dst, 5, digests.len() as u8);
    let ghost head = seq![OP_SCAN] + bytes::le32(next_cursor) + seq![digests@.len() as u8];
    let mut i: usize = 0;
    assert(head + scan_entries(all, keyed@, 0) =~= head);
    while i < digests.len()
        invariant
            i <= digests.len() <= MAX_SCAN_DIGESTS,
            keyed.len() == digests.len(),
            all == digest_list(digests@),
            needed == 6 + digests.len() * 33,
            needed <= before.len(),
            dst@.len() == before.len(),
            head.len() == 6,
            dst@ == bytes::written(before, head + scan_entries(all, keyed@, i as nat)),
        decreases digests.len() - i,
    {
        broadcast use bytes::lemma_write_next;

        proof {
            lemma_scan_entries_len(all, keyed@, i as nat);
        }
        let off: usize = 6 + i * 33;
        let flag: u8 = if keyed[i] != 0 { 1 } else { 0 };
        let ghost done = head + scan_entries(all, keyed@, i as nat);
        assert(all[i as int] == digests@[i as int]@);
        bytes::put_u8(dst, off, flag);
        bytes::put_bytes(dst, off + 1, digests[i].as_slice());
        assert(done + seq![flag] + all[i as int] =~= head + scan_entries(all, keyed@, (i + 1) as nat));
        i += 1;
    }
    Ok(needed)
}

/// What is made of a page of the inventory: the next cursor, and each entry's
/// flag and digest.
pub open spec fn scan_resp_parse(s: Seq<u8>) -> Result<(u32, Seq<(u8, Seq<u8>)>), WireError> {
    if s.len() < 6 {
        Err(WireError::Truncated)
    } else if s[0] != OP_SCAN {
        Err(WireError::BadOpcode { observed: s[0] })
    } else if s[5] > MAX_SCAN_DIGESTS {
        Err(WireError::BodyTooLarge { len: s[5] as usize, max: MAX_SCAN_DIGESTS })
    } else if s.len() < 6 + s[5] * 33 {
        Err(WireError::Truncated)
    } else {
        Ok(
            (
                bytes::u32_at(s, 1),
                Seq::new(s[5] as nat, |i: int| (s[6 + i * 33], s.subrange(7 + i * 33, 39 + i * 33))),
            ),
        )
    }
}

/// Decode a page of the inventory into fixed buffers: the next cursor and how
/// many entries were filled. A refused page leaves the buffers alone.
pub fn decode_scan_resp(
    src: &[u8],
    digests: &mut [[u8; DIGEST_LEN]; MAX_SCAN_DIGESTS],
    keyed: &mut [u8; MAX_SCAN_DIGESTS],
) -> (r: Result<(u32, usize), WireError>)
    ensures
        match r {
            Ok((next_cursor, count)) => {
                &&& scan_resp_parse(src@) matches Ok(p) && p.0 == next_cursor && p.1.len() == count && forall|i: int|
                    0 <= i < count ==> #[trigger] p.1[i] == (final(keyed)@[i], final(digests)@[i]@)
                &&& count <= MAX_SCAN_DIGESTS
                &&& forall|i: int|
                    count <= i < MAX_SCAN_DIGESTS ==> #[trigger] final(keyed)@[i] == old(keyed)@[i]
                &&& forall|i: int|
                    count <= i < MAX_SCAN_DIGESTS ==> #[trigger] final(digests)@[i] == old(digests)@[i]
            },
            Err(e) => scan_resp_parse(src@) == Err::<(u32, Seq<(u8, Seq<u8>)>), WireError>(e) && final(keyed)@ == old(
                keyed,
            )@ && final(digests)@ == old(digests)@,
        },
{
    if src.len() < 6 {
        return Err(WireError::Truncated);
    }
    if src[0] != OP_SCAN {
        return Err(WireError::BadOpcode { observed: src[0] });
    }
    let next_cursor: u32 = bytes::get_u32(src, 1);
    let count: usize = src[5] as usize;
    if count > MAX_SCAN_DIGESTS {
        return Err(WireError::BodyTooLarge { len: count, max: MAX_SCAN_DIGESTS });
    }
    if src.len() < 6 + count * 33 {
        return Err(WireError::Truncated);
    }
    let mut i: usize = 0;
    while i < count
        invariant
            i <= count <= MAX_SCAN_DIGESTS,
            6 + count * 33 <= src.len(),
            forall|j: int| 0 <= j < i ==> #[trigger] keyed@[j] == src@[6 + j * 33],
            forall|j: int|
                0 <= j < i ==> (#[trigger] digests@[j])@ == src@.subrange(7 + j * 33, 39 + j * 33),
            forall|j: int| i <= j < MAX_SCAN_DIGESTS ==> #[trigger] keyed@[j] == old(keyed)@[j],
            forall|j: int| i <= j < MAX_SCAN_DIGESTS ==> #[trigger] digests@[j] == old(digests)@[j],
        decreases count - i,
    {
        let off: usize = 6 + i * 33;
        assert(off + 33 <= 6 + count * 33);
        keyed[i] = src[off];
        digests[i] = digest_at(src, off + 1);
        i += 1;
    }
    Ok((next_cursor, count))
}

/// The 32 bytes from `at` on.
pub fn digest_at(src: &[u8], at: usize) -> (r: [u8; DIGEST_LEN])
    requires
        at + DIGEST_LEN <= src@.len(),
    ensures
        r@ == src@.subrange(at as int, at + DIGEST_LEN),
{
    let mut r: [u8; DIGEST_LEN] = [0u8; DIGEST_LEN];
    let size: usize = src.len();
    let mut i: usize = 0;
    while i < DIGEST_LEN
        invariant
            i <= DIGEST_LEN,
            size == src@.len(),
            at + DIGEST_LEN <= size,
            forall|j: int| 0 <= j < i ==> #[trigger] r@[j] == src@[at + j],
        decreases DIGEST_LEN - i,
    {
        r[i] = src[at + i];
        i += 1;
    }
    assert(r@ =~= src@.subrange(at as int, at + DIGEST_LEN));
    r
}

proof fn lemma_scan_entry_at(head: Seq<u8>, digests: Seq<Seq<u8>>, keyed: Seq<u8>, n: nat, i: int, rest: Seq<u8>)
    requires
        0 <= i < n <= digests.len(),
        keyed.len() == digests.len(),
        forall|i: int| 0 <= i < digests.len() ==> (#[trigger] digests[i]).len() == DIGEST_LEN,
    ensures
        ({
            let s = head + scan_entries(digests, keyed, n) + rest;
            let off = head.len() + i * 33;
            s[off] == (if keyed[i] != 0 { 1u8 } else { 0u8 }) && s.subrange(off + 1, off + 33) == digests[i]
        }),
    decreases n,
{
    let s = head + scan_entries(digests, keyed, n) + rest;
    let off = head.len() + i * 33;
    let prev = scan_entries(digests, keyed, (n - 1) as nat);
    let flag = seq![if keyed[n - 1] != 0 { 1u8 } else { 0u8 }];
    lemma_scan_entries_len(digests, keyed, (n - 1) as nat);
    if i == n - 1 {
        assert(s.subrange(off + 1, off + 33) =~= digests[i]);
    } else {
        lemma_scan_entry_at(head, digests, keyed, (n - 1) as nat, i, flag + digests[n - 1] + rest);
        assert(s =~= head + prev + (flag + digests[n - 1] + rest));
    }
}

/// Decoding a page of the inventory, whatever follows it, gives its entries back.
pub proof fn lemma_scan_resp_round_trip(next_cursor: u32, digests: Seq<Seq<u8>>, keyed: Seq<u8>, rest: Seq<u8>)
    requires
        digests.len() <= MAX_SCAN_DIGESTS,
        keyed.len() == digests.len(),
        forall|i: int| 0 <= i < digests.len() ==> (#[trigger] digests[i]).len() == DIGEST_LEN,
    ensures
        scan_resp_parse(scan_resp_frame(next_cursor, digests, keyed) + rest) == Ok::<
            (u32, Seq<(u8, Seq<u8>)>),
            WireError,
        >(
            (
                next_cursor,
                Seq::new(digests.len(), |i: int| (if keyed[i] != 0 { 1u8 } else { 0u8 }, digests[i])),
            ),
        ),
{
    let head = seq![OP_SCAN] + bytes::le32(next_cursor) + seq![digests.len() as u8];
    let s = scan_resp_frame(next_cursor, digests, keyed) + rest;
    lemma_scan_entries_len(digests, keyed, digests.len());
    assert(s =~= head + scan_entries(digests, keyed, digests.len()) + rest);
    assert(s[0] == OP_SCAN && s[5] == digests.len());
    assert(s.subrange(1, 5) =~= bytes::le32(next_cursor));
    bytes::lemma_u32_at(s, 1, next_cursor);
    let want = Seq::new(digests.len(), |i: int| (if keyed[i] != 0 { 1u8 } else { 0u8 }, digests[i]));
    let got = Seq::new(s[5] as nat, |i: int| (s[6 + i * 33], s.subrange(7 + i * 33, 39 + i * 33)));
    assert forall|i: int| 0 <= i < digests.len() implies #[trigger] got[i] == want[i] by {
        lemma_scan_entry_at(head, digests, keyed, digests.len(), i, rest);
    }
    assert(got =~= want);
}

/// The lowercase hex digits of `b`, two for each byte.
pub open spec fn hex_of(b: Seq<u8>) -> Seq<u8> {
    Seq::new(
        2 * b.len(),
        |i: int|
            if i % 2 == 0 {
                loam_hash::hex_digit(b[i / 2] as int / 16)
            } else {
                loam_hash::hex_digit(b[i / 2] as int % 16)
            },
    )
}

/// Write a digest as 64 lowercase hex digits to the start of `out`. Returns how many
/// digits were written.
pub fn hex_lower_into(digest: &[u8; DIGEST_LEN], out: &mut [u8]) -> (r: usize)
    requires
        old(out)@.len() >= 64,
    ensures
        r == 64,
        final(out)@ == hex_of(digest@) + old(out)@.skip(64),
{
    let ghost before = out@;
    let mut i: usize = 0;
    let mut o: usize = 0;
    while i < DIGEST_LEN
        invariant
            o == 2 * i,
            i <= DIGEST_LEN,
            64 <= before.len(),
            out@.len() == before.len(),
            forall|j: int| 0 <= j < o ==> #[trigger] out@[j] == hex_of(digest@)[j],
            forall|j: int| o <= j < before.len() ==> #[trigger] out@[j] == before[j],
        decreases DIGEST_LEN - i,
    {
        let b: u8 = digest[i];
        out[o] = loam_hash::hex_char(b / 16);
        out[o + 1] = loam_hash::hex_char(b % 16);
        assert(o as int / 2 == i && (o + 1) as int / 2 == i);
        i += 1;
        o += 2;
    }
    assert(out@ =~= hex_of(digest@) + before.skip(64));
    o
}

/// The opcode of a record, if there is one.
pub fn peek_opcode(src: &[u8]) -> (r: Option<u8>)
    ensures
        r == if src@.len() == 0 {
            None::<u8>
        } else {
            Some(src@[0])
        },
{
    if src.len() == 0 {
        None
    } else {
        Some(src[0])
    }
}

} // verus!
