//! The admin wire format, spoken with clients at the front door.
//!
//! Every record carries an opcode and a correlation id, which its answer
//! repeats. Integers are little-endian.
//!
//! ```text
//! Bind           [40][cid:u32][root_len:u16][path_len:u16][id_len:u16][kind][revision:u64][root][path][id]
//! BindAck        [40][cid][status]
//! PutBody        [41][cid][len:u32][body]
//! PutBodyAck     [41][cid][1][digest:32]  or  [41][cid][status]
//! GetBody        [42][cid][digest:32]
//! GetBodyAck     [42][cid][1][len:u32][body]  or  [42][cid][status]
//! PutFile        [43][cid][root_len:u16][path_len:u16][kind][revision:u64][len:u32][root][path][body]
//! PutFileAck     [43][cid][1][digest:32]  or  [43][cid][status]
//! GetFile        [44][cid][root_len:u16][path_len:u16][root][path]
//! GetFileAck     [44][cid][1][len:u32][body]  or  [44][cid][status]
//! DeleteFile     [45][cid][root_len:u16][path_len:u16][root][path]
//! DeleteFileAck  [45][cid][status]
//! ListFiles      [46][cid][root_len:u16][cursor:u32][max][root]
//! ListFilesAck   [46][cid][1][next_cursor:u32][count:u8]([path_len:u16][path])*  or  [46][cid][status]
//! PutFileOpen    [47][cid][root_len:u16][path_len:u16][kind][revision:u64][digest:32][total:u64][root][path]
//! PutFileOpenAck [47][cid][status][pfid]
//! PutFileChunk   [48][cid][pfid][len:u32][bytes]
//! PutFileChunkAck[48][cid][status]
//! PutFileCommit  [49][cid][pfid]
//! ReadFileRange  [4A][cid][off:u64][len:u32][root_len:u16][path_len:u16][root][path]
//! ReadRangeAck   [4A][cid][1][len:u32][bytes]  or  [4A][cid][status]
//! StatFile       [4B][cid][root_len:u16][path_len:u16][root][path]
//! StatFileAck    [4B][cid][status][size:u64]
//! PutBodyKeyed   [4C][cid][key:32][len:u32][body]
//! PutBodyKeyedAck[4C][cid][status]
//! DeleteBody     [4D][cid][key:32]
//! DeleteBodyAck  [4D][cid][status][existed]
//! ```
use crate::bytes;
use crate::loam_limits;
use crate::path_list;
use vstd::prelude::*;
use vstd::slice::slice_subrange;

verus! {

pub const OP_BIND: u8 = 0x40;

pub const OP_PUT_BODY: u8 = 0x41;

pub const OP_GET_BODY: u8 = 0x42;

pub const OP_PUT_FILE: u8 = 0x43;

pub const OP_GET_FILE: u8 = 0x44;

pub const OP_DELETE_FILE: u8 = 0x45;

pub const OP_LIST_FILES: u8 = 0x46;

pub const OP_PUT_FILE_OPEN: u8 = 0x47;

pub const OP_PUT_FILE_CHUNK: u8 = 0x48;

pub const OP_PUT_FILE_COMMIT: u8 = 0x49;

pub const OP_READ_FILE_RANGE: u8 = 0x4A;

pub const OP_STAT_FILE: u8 = 0x4B;

pub const OP_PUT_BODY_KEYED: u8 = 0x4C;

pub const OP_DELETE_BODY: u8 = 0x4D;

pub const STATUS_OK: u8 = 0x01;

pub const STATUS_NAK: u8 = 0xFF;

pub const STATUS_NOT_FOUND: u8 = 0x02;

/// Longest string of this format; a root and an object id have lower ceilings.
pub const MAX_STRING: usize = 1024;

pub const DIGEST_LEN: usize = 32;

#[derive(Debug, Clone, Copy, PartialEq, Eq, Structural)]
pub enum WireError {
    Truncated,
    BadOpcode { observed: u8 },
    BufferTooSmall { needed: usize, actual: usize },
    StringTooLong { len: usize, max: usize },
}

/// The refusal of a key with components of these lengths.
pub open spec fn key_refusal(root: nat, path: nat, object_id: nat) -> Option<WireError> {
    match loam_limits::key_verdict(root, path, object_id) {
        Ok(_) => None,
        Err(e) => Some(WireError::StringTooLong { len: e.len, max: e.max }),
    }
}

/// Refuse a key with a component over its ceiling.
fn check_key(root: usize, path: usize, object_id: usize) -> (r: Result<(), WireError>)
    ensures
        r == match key_refusal(root as nat, path as nat, object_id as nat) {
            None => Ok::<(), WireError>(()),
            Some(e) => Err::<(), WireError>(e),
        },
{
    match loam_limits::check_lengths(root, path, object_id) {
        Ok(()) => Ok(()),
        Err(e) => Err(WireError::StringTooLong { len: e.len, max: e.max }),
    }
}

/// The refusal of a buffer with less room than needed.
pub open spec fn no_room(room: nat, needed: nat) -> Option<WireError> {
    if room < needed {
        Some(WireError::BufferTooSmall { needed: needed as usize, actual: room as usize })
    } else {
        None
    }
}

/// The bytes of an admin bind.
pub open spec fn admin_bind_frame(correlation_id: u32, namespace_root: Seq<u8>, path: Seq<u8>, object_id: Seq<u8>, kind: u8, revision: u64) -> Seq<u8> {
    seq![OP_BIND] + bytes::le32(correlation_id) + bytes::le16(namespace_root.len() as u16) + bytes::le16(path.len() as u16) + bytes::le16(object_id.len() as u16) + seq![kind] + bytes::le64(revision) + namespace_root + path + object_id
}

/// Why an admin bind is not written to a buffer with this much room.
pub open spec fn admin_bind_refusal(room: nat, correlation_id: u32, namespace_root: Seq<u8>, path: Seq<u8>, object_id: Seq<u8>, kind: u8, revision: u64) -> Option<WireError> {
    match key_refusal(namespace_root.len(), path.len(), object_id.len()) {
        Some(e) => Some(e),
        None => no_room(room, admin_bind_frame(correlation_id, namespace_root, path, object_id, kind, revision).len()),
    }
}

/// Write an admin bind to the start of `dst`. Returns its length.
pub fn encode_admin_bind(dst: &mut [u8], correlation_id: u32, namespace_root: &[u8], path: &[u8], object_id: &[u8], kind: u8, revision: u64) -> (r: Result<usize, WireError>)
    ensures
        bytes::encodes(
            r,
            old(dst)@,
            final(dst)@,
            admin_bind_refusal(old(dst)@.len(), correlation_id, namespace_root@, path@, object_id@, kind, revision),
            admin_bind_frame(correlation_id, namespace_root@, path@, object_id@, kind, revision),
        ),
{
    broadcast use bytes::lemma_write_first, bytes::lemma_write_next;

    match check_key(namespace_root.len(), path.len(), object_id.len()) {
        Ok(()) => {},
        Err(e) => {
            return Err(e);
        },
    }
    let needed: usize = 20 + namespace_root.len() + path.len() + object_id.len();
    if dst.len() < needed {
        return Err(WireError::BufferTooSmall { needed, actual: dst.len() });
    }
    bytes::put_u8(dst, 0, OP_BIND);
    bytes::put_u32(dst, 1, correlation_id);
    bytes::put_u16(dst, 5, namespace_root.len() as u16);
    bytes::put_u16(dst, 7, path.len() as u16);
    bytes::put_u16(dst, 9, object_id.len() as u16);
    bytes::put_u8(dst, 11, kind);
    bytes::put_u64(dst, 12, revision);
    bytes::put_bytes(dst, 20, namespace_root);
    bytes::put_bytes(dst, 20 + namespace_root.len(), path);
    bytes::put_bytes(dst, 20 + namespace_root.len() + path.len(), object_id);
    Ok(needed)
}

/// An admin bind, decoded.
#[derive(Debug, Clone, Copy, PartialEq, Eq)]
pub struct DecodedAdminBind<'a> {
    pub correlation_id: u32,
    pub namespace_root: &'a [u8],
    pub path: &'a [u8],
    pub object_id: &'a [u8],
    pub kind: u8,
    pub revision: u64,
}

/// What `decode_admin_bind` makes of `s`.
pub open spec fn admin_bind_parse(s: Seq<u8>) -> Result<(u32, Seq<u8>, Seq<u8>, Seq<u8>, u8, u64), WireError> {
    if s.len() < 20 {
        Err(WireError::Truncated)
    } else if s[0] != OP_BIND {
        Err(WireError::BadOpcode { observed: s[0] })
    } else {
        let namespace_root_end = 20 + bytes::u16_at(s, 5);
        let path_end = namespace_root_end + bytes::u16_at(s, 7);
        let object_id_end = path_end + bytes::u16_at(s, 9);
        if s.len() < object_id_end {
            Err(WireError::Truncated)
        } else {
            match key_refusal(bytes::u16_at(s, 5) as nat, bytes::u16_at(s, 7) as nat, bytes::u16_at(s, 9) as nat) {
                Some(e) => Err(e),
                None => Ok((bytes::u32_at(s, 1), s.subrange(20, namespace_root_end), s.subrange(namespace_root_end, path_end), s.subrange(path_end, object_id_end), s[11], bytes::u64_at(s, 12))),
            }
        }
    }
}

/// Decode an admin bind.
pub fn decode_admin_bind(src: &[u8]) -> (r: Result<DecodedAdminBind<'_>, WireError>)
    ensures
        match r {
            Ok(d) => admin_bind_parse(src@) == Ok::<(u32, Seq<u8>, Seq<u8>, Seq<u8>, u8, u64), WireError>((d.correlation_id, d.namespace_root@, d.path@, d.object_id@, d.kind, d.revision)),
            Err(e) => admin_bind_parse(src@) == Err::<(u32, Seq<u8>, Seq<u8>, Seq<u8>, u8, u64), WireError>(e),
        },
{
    if src.len() < 20 {
        return Err(WireError::Truncated);
    }
    if src[0] != OP_BIND {
        return Err(WireError::BadOpcode { observed: src[0] });
    }
    let namespace_root_end: usize = 20 + bytes::get_u16(src, 5) as usize;
    let path_end: usize = namespace_root_end + bytes::get_u16(src, 7) as usize;
    let object_id_end: usize = path_end + bytes::get_u16(src, 9) as usize;
    if src.len() < object_id_end {
        return Err(WireError::Truncated);
    }
    match check_key(bytes::get_u16(src, 5) as usize, bytes::get_u16(src, 7) as usize, bytes::get_u16(src, 9) as usize) {
        Ok(()) => {},
        Err(e) => {
            return Err(e);
        },
    }
    Ok(
        DecodedAdminBind {
            correlation_id: bytes::get_u32(src, 1),
            namespace_root: slice_subrange(src, 20, namespace_root_end),
            path: slice_subrange(src, namespace_root_end, path_end),
            object_id: slice_subrange(src, path_end, object_id_end),
            kind: src[11],
            revision: bytes::get_u64(src, 12),
        },
    )
}

/// Decoding what was encoded, whatever follows it, gives the parts back.
pub proof fn lemma_admin_bind_round_trip(correlation_id: u32, namespace_root: Seq<u8>, path: Seq<u8>, object_id: Seq<u8>, kind: u8, revision: u64, rest: Seq<u8>)
    requires
        loam_limits::key_verdict(namespace_root.len(), path.len(), object_id.len()) is Ok,
    ensures
        admin_bind_parse(admin_bind_frame(correlation_id, namespace_root, path, object_id, kind, revision) + rest) == Ok::<(u32, Seq<u8>, Seq<u8>, Seq<u8>, u8, u64), WireError>((correlation_id, namespace_root, path, object_id, kind, revision)),
{
    broadcast use bytes::lemma_subrange_left, bytes::lemma_subrange_right;

    let s = admin_bind_frame(correlation_id, namespace_root, path, object_id, kind, revision) + rest;
    assert(s[0] == seq![OP_BIND][0]);
    assert(s.subrange(1, 5) == bytes::le32(correlation_id));
    bytes::lemma_u32_at(s, 1, correlation_id);
    assert(s.subrange(5, 7) == bytes::le16(namespace_root.len() as u16));
    bytes::lemma_u16_at(s, 5, namespace_root.len() as u16);
    assert(s.subrange(7, 9) == bytes::le16(path.len() as u16));
    bytes::lemma_u16_at(s, 7, path.len() as u16);
    assert(s.subrange(9, 11) == bytes::le16(object_id.len() as u16));
    bytes::lemma_u16_at(s, 9, object_id.len() as u16);
    assert(s[11] == seq![kind][0]);
    assert(s.subrange(12, 20) == bytes::le64(revision));
    bytes::lemma_u64_at(s, 12, revision);
    assert(s.subrange(20, (20 + namespace_root.len()) as int) == namespace_root);
    assert(s.subrange((20 + namespace_root.len()) as int, (20 + namespace_root.len() + path.len()) as int) == path);
    assert(s.subrange((20 + namespace_root.len() + path.len()) as int, (20 + namespace_root.len() + path.len() + object_id.len()) as int) == object_id);
}

/// The bytes of the answer to an admin bind.
pub open spec fn admin_bind_ack_frame(correlation_id: u32, status: u8) -> Seq<u8> {
    seq![OP_BIND] + bytes::le32(correlation_id) + seq![status]
}

/// Why the answer to an admin bind is not written to a buffer with this much room.
pub open spec fn admin_bind_ack_refusal(room: nat, correlation_id: u32, status: u8) -> Option<WireError> {
    no_room(room, admin_bind_ack_frame(correlation_id, status).len())
}

/// Write the answer to an admin bind to the start of `dst`. Returns its length.
pub fn encode_admin_bind_ack(dst: &mut [u8], correlation_id: u32, status: u8) -> (r: Result<usize, WireError>)
    ensures
        bytes::encodes(
            r,
            old(dst)@,
            final(dst)@,
            admin_bind_ack_refusal(old(dst)@.len(), correlation_id, status),
            admin_bind_ack_frame(correlation_id, status),
        ),
{
    broadcast use bytes::lemma_write_first, bytes::lemma_write_next;

    let needed: usize = 6;
    if dst.len() < needed {
        return Err(WireError::BufferTooSmall { needed, actual: dst.len() });
    }
    bytes::put_u8(dst, 0, OP_BIND);
    bytes::put_u32(dst, 1, correlation_id);
    bytes::put_u8(dst, 5, status);
    Ok(needed)
}

/// The answer to an admin bind, decoded.
#[derive(Debug, Clone, Copy, PartialEq, Eq)]
pub struct DecodedAdminBindAck {
    pub correlation_id: u32,
    pub status: u8,
}

/// What `decode_admin_bind_ack` makes of `s`.
pub open spec fn admin_bind_ack_parse(s: Seq<u8>) -> Result<(u32, u8), WireError> {
    if s.len() < 6 {
        Err(WireError::Truncated)
    } else if s[0] != OP_BIND {
        Err(WireError::BadOpcode { observed: s[0] })
    } else {
        Ok((bytes::u32_at(s, 1), s[5]))
    }
}

/// Decode the answer to an admin bind.
pub fn decode_admin_bind_ack(src: &[u8]) -> (r: Result<DecodedAdminBindAck, WireError>)
    ensures
        match r {
            Ok(d) => admin_bind_ack_parse(src@) == Ok::<(u32, u8), WireError>((d.correlation_id, d.status)),
            Err(e) => admin_bind_ack_parse(src@) == Err::<(u32, u8), WireError>(e),
        },
{
    if src.len() < 6 {
        return Err(WireError::Truncated);
    }
    if src[0] != OP_BIND {
        return Err(WireError::BadOpcode { observed: src[0] });
    }
    Ok(
        DecodedAdminBindAck {
            correlation_id: bytes::get_u32(src, 1),
            status: src[5],
        },
    )
}

/// Decoding what was encoded, whatever follows it, gives the parts back.
pub proof fn lemma_admin_bind_ack_round_trip(correlation_id: u32, status: u8, rest: Seq<u8>)
    ensures
        admin_bind_ack_parse(admin_bind_ack_frame(correlation_id, status) + rest) == Ok::<(u32, u8), WireError>((correlation_id, status)),
{
    broadcast use bytes::lemma_subrange_left, bytes::lemma_subrange_right;

    let s = admin_bind_ack_frame(correlation_id, status) + rest;
    assert(s[0] == seq![OP_BIND][0]);
    assert(s.subrange(1, 5) == bytes::le32(correlation_id));
    bytes::lemma_u32_at(s, 1, correlation_id);
    assert(s[5] == seq![status][0]);
}

/// The bytes of a body to store.
pub open spec fn admin_put_body_frame(correlation_id: u32, body: Seq<u8>) -> Seq<u8> {
    seq![OP_PUT_BODY] + bytes::le32(correlation_id) + bytes::le32(body.len() as u32) + body
}

/// Why a body to store is not written to a buffer with this much room.
pub open spec fn admin_put_body_refusal(room: nat, correlation_id: u32, body: Seq<u8>) -> Option<WireError> {
    no_room(room, admin_put_body_frame(correlation_id, body).len())
}

/// Write a body to store to the start of `dst`. Returns its length.
pub fn encode_admin_put_body(dst: &mut [u8], correlation_id: u32, body: &[u8]) -> (r: Result<usize, WireError>)
    requires
        body@.len() <= u32::MAX,
        9 + body@.len() <= usize::MAX,
    ensures
        bytes::encodes(
            r,
            old(dst)@,
            final(dst)@,
            admin_put_body_refusal(old(dst)@.len(), correlation_id, body@),
            admin_put_body_frame(correlation_id, body@),
        ),
{
    broadcast use bytes::lemma_write_first, bytes::lemma_write_next;

    let needed: usize = 9 + body.len();
    if dst.len() < needed {
        return Err(WireError::BufferTooSmall { needed, actual: dst.len() });
    }
    bytes::put_u8(dst, 0, OP_PUT_BODY);
    bytes::put_u32(dst, 1, correlation_id);
    bytes::put_u32(dst, 5, body.len() as u32);
    bytes::put_bytes(dst, 9, body);
    Ok(needed)
}

/// What `decode_admin_put_body` makes of `s`.
pub open spec fn admin_put_body_parse(s: Seq<u8>) -> Result<(u32, Seq<u8>), WireError> {
    if s.len() < 9 {
        Err(WireError::Truncated)
    } else if s[0] != OP_PUT_BODY {
        Err(WireError::BadOpcode { observed: s[0] })
    } else {
        let body_end = 9 + bytes::u32_at(s, 5);
        if s.len() < body_end {
            Err(WireError::Truncated)
        } else {
            Ok((bytes::u32_at(s, 1), s.subrange(9, body_end)))
        }
    }
}

/// Decode a body to store.
pub fn decode_admin_put_body(src: &[u8]) -> (r: Result<(u32, &[u8]), WireError>)
    ensures
        match r {
            Ok(d) => admin_put_body_parse(src@) == Ok::<(u32, Seq<u8>), WireError>((d.0, d.1@)),
            Err(e) => admin_put_body_parse(src@) == Err::<(u32, Seq<u8>), WireError>(e),
        },
{
    if src.len() < 9 {
        return Err(WireError::Truncated);
    }
    if src[0] != OP_PUT_BODY {
        return Err(WireError::BadOpcode { observed: src[0] });
    }
    let body_end: u64 = 9 + bytes::get_u32(src, 5) as u64;
    if (src.len() as u64) < body_end {
        return Err(WireError::Truncated);
    }
    Ok((bytes::get_u32(src, 1), slice_subrange(src, 9, body_end as usize)))
}

/// Decoding what was encoded, whatever follows it, gives the parts back.
pub proof fn lemma_admin_put_body_round_trip(correlation_id: u32, body: Seq<u8>, rest: Seq<u8>)
    requires
        body.len() <= u32::MAX,
    ensures
        admin_put_body_parse(admin_put_body_frame(correlation_id, body) + rest) == Ok::<(u32, Seq<u8>), WireError>((correlation_id, body)),
{
    broadcast use bytes::lemma_subrange_left, bytes::lemma_subrange_right;

    let s = admin_put_body_frame(correlation_id, body) + rest;
    assert(s[0] == seq![OP_PUT_BODY][0]);
    assert(s.subrange(1, 5) == bytes::le32(correlation_id));
    bytes::lemma_u32_at(s, 1, correlation_id);
    assert(s.subrange(5, 9) == bytes::le32(body.len() as u32));
    bytes::lemma_u32_at(s, 5, body.len() as u32);
    assert(s.subrange(9, (9 + body.len()) as int) == body);
}

/// The bytes of a request for a body.
pub open spec fn admin_get_body_frame(correlation_id: u32, digest: Seq<u8>) -> Seq<u8> {
    seq![OP_GET_BODY] + bytes::le32(correlation_id) + digest
}

/// Why a request for a body is not written to a buffer with this much room.
pub open spec fn admin_get_body_refusal(room: nat, correlation_id: u32, digest: Seq<u8>) -> Option<WireError> {
    no_room(room, admin_get_body_frame(correlation_id, digest).len())
}

/// Write a request for a body to the start of `dst`. Returns its length.
pub fn encode_admin_get_body(dst: &mut [u8], correlation_id: u32, digest: &[u8; DIGEST_LEN]) -> (r: Result<usize, WireError>)
    ensures
        bytes::encodes(
            r,
            old(dst)@,
            final(dst)@,
            admin_get_body_refusal(old(dst)@.len(), correlation_id, digest@),
            admin_get_body_frame(correlation_id, digest@),
        ),
{
    broadcast use bytes::lemma_write_first, bytes::lemma_write_next;

    let needed: usize = 37;
    if dst.len() < needed {
        return Err(WireError::BufferTooSmall { needed, actual: dst.len() });
    }
    bytes::put_u8(dst, 0, OP_GET_BODY);
    bytes::put_u32(dst, 1, correlation_id);
    bytes::put_bytes(dst, 5, digest.as_slice());
    Ok(needed)
}

/// What `decode_admin_get_body` makes of `s`.
pub open spec fn admin_get_body_parse(s: Seq<u8>) -> Result<(u32, Seq<u8>), WireError> {
    if s.len() < 37 {
        Err(WireError::Truncated)
    } else if s[0] != OP_GET_BODY {
        Err(WireError::BadOpcode { observed: s[0] })
    } else {
        Ok((bytes::u32_at(s, 1), s.subrange(5, 37)))
    }
}

/// Decode a request for a body.
pub fn decode_admin_get_body(src: &[u8]) -> (r: Result<(u32, &[u8]), WireError>)
    ensures
        match r {
            Ok(d) => admin_get_body_parse(src@) == Ok::<(u32, Seq<u8>), WireError>((d.0, d.1@)),
            Err(e) => admin_get_body_parse(src@) == Err::<(u32, Seq<u8>), WireError>(e),
        },
{
    if src.len() < 37 {
        return Err(WireError::Truncated);
    }
    if src[0] != OP_GET_BODY {
        return Err(WireError::BadOpcode { observed: src[0] });
    }
    Ok((bytes::get_u32(src, 1), slice_subrange(src, 5, 37)))
}

/// Decoding what was encoded, whatever follows it, gives the parts back.
pub proof fn lemma_admin_get_body_round_trip(correlation_id: u32, digest: Seq<u8>, rest: Seq<u8>)
    requires
        digest.len() == DIGEST_LEN,
    ensures
        admin_get_body_parse(admin_get_body_frame(correlation_id, digest) + rest) == Ok::<(u32, Seq<u8>), WireError>((correlation_id, digest)),
{
    broadcast use bytes::lemma_subrange_left, bytes::lemma_subrange_right;

    let s = admin_get_body_frame(correlation_id, digest) + rest;
    assert(s[0] == seq![OP_GET_BODY][0]);
    assert(s.subrange(1, 5) == bytes::le32(correlation_id));
    bytes::lemma_u32_at(s, 1, correlation_id);
    assert(s.subrange(5, 37) == digest);
}

/// The bytes of a file to store.
pub open spec fn admin_put_file_frame(correlation_id: u32, namespace_root: Seq<u8>, path: Seq<u8>, kind: u8, revision: u64, body: Seq<u8>) -> Seq<u8> {
    seq![OP_PUT_FILE] + bytes::le32(correlation_id) + bytes::le16(namespace_root.len() as u16) + bytes::le16(path.len() as u16) + seq![kind] + bytes::le64(revision) + bytes::le32(body.len() as u32) + namespace_root + path + body
}

/// Why a file to store is not written to a buffer with this much room.
pub open spec fn admin_put_file_refusal(room: nat, correlation_id: u32, namespace_root: Seq<u8>, path: Seq<u8>, kind: u8, revision: u64, body: Seq<u8>) -> Option<WireError> {
    match key_refusal(namespace_root.len(), path.len(), 0) {
        Some(e) => Some(e),
        None => no_room(room, admin_put_file_frame(correlation_id, namespace_root, path, kind, revision, body).len()),
    }
}

/// Write a file to store to the start of `dst`. Returns its length.
pub fn encode_admin_put_file(dst: &mut [u8], correlation_id: u32, namespace_root: &[u8], path: &[u8], kind: u8, revision: u64, body: &[u8]) -> (r: Result<usize, WireError>)
    requires
        body@.len() <= u32::MAX,
        22 + namespace_root@.len() + path@.len() + body@.len() <= usize::MAX,
    ensures
        bytes::encodes(
            r,
            old(dst)@,
            final(dst)@,
            admin_put_file_refusal(old(dst)@.len(), correlation_id, namespace_root@, path@, kind, revision, body@),
            admin_put_file_frame(correlation_id, namespace_root@, path@, kind, revision, body@),
        ),
{
    broadcast use bytes::lemma_write_first, bytes::lemma_write_next;

    match check_key(namespace_root.len(), path.len(), 0) {
        Ok(()) => {},
        Err(e) => {
            return Err(e);
        },
    }
    let needed: usize = 22 + namespace_root.len() + path.len() + body.len();
    if dst.len() < needed {
        return Err(WireError::BufferTooSmall { needed, actual: dst.len() });
    }
    bytes::put_u8(dst, 0, OP_PUT_FILE);
    bytes::put_u32(dst, 1, correlation_id);
    bytes::put_u16(dst, 5, namespace_root.len() as u16);
    bytes::put_u16(dst, 7, path.len() as u16);
    bytes::put_u8(dst, 9, kind);
    bytes::put_u64(dst, 10, revision);
    bytes::put_u32(dst, 18, body.len() as u32);
    bytes::put_bytes(dst, 22, namespace_root);
    bytes::put_bytes(dst, 22 + namespace_root.len(), path);
    bytes::put_bytes(dst, 22 + namespace_root.len() + path.len(), body);
    Ok(needed)
}

/// A file to store, decoded.
#[derive(Debug, Clone, Copy, PartialEq, Eq)]
pub struct DecodedAdminPutFile<'a> {
    pub correlation_id: u32,
    pub namespace_root: &'a [u8],
    pub path: &'a [u8],
    pub kind: u8,
    pub revision: u64,
    pub body: &'a [u8],
}

/// What `decode_admin_put_file` makes of `s`.
pub open spec fn admin_put_file_parse(s: Seq<u8>) -> Result<(u32, Seq<u8>, Seq<u8>, u8, u64, Seq<u8>), WireError> {
    if s.len() < 22 {
        Err(WireError::Truncated)
    } else if s[0] != OP_PUT_FILE {
        Err(WireError::BadOpcode { observed: s[0] })
    } else {
        let namespace_root_end = 22 + bytes::u16_at(s, 5);
        let path_end = namespace_root_end + bytes::u16_at(s, 7);
        let body_end = path_end + bytes::u32_at(s, 18);
        if s.len() < body_end {
            Err(WireError::Truncated)
        } else {
            match key_refusal(bytes::u16_at(s, 5) as nat, bytes::u16_at(s, 7) as nat, 0) {
                Some(e) => Err(e),
                None => Ok((bytes::u32_at(s, 1), s.subrange(22, namespace_root_end), s.subrange(namespace_root_end, path_end), s[9], bytes::u64_at(s, 10), s.subrange(path_end, body_end))),
            }
        }
    }
}

/// Decode a file to store.
pub fn decode_admin_put_file(src: &[u8]) -> (r: Result<DecodedAdminPutFile<'_>, WireError>)
    ensures
        match r {
            Ok(d) => admin_put_file_parse(src@) == Ok::<(u32, Seq<u8>, Seq<u8>, u8, u64, Seq<u8>), WireError>((d.correlation_id, d.namespace_root@, d.path@, d.kind, d.revision, d.body@)),
            Err(e) => admin_put_file_parse(src@) == Err::<(u32, Seq<u8>, Seq<u8>, u8, u64, Seq<u8>), WireError>(e),
        },
{
    if src.len() < 22 {
        return Err(WireError::Truncated);
    }
    if src[0] != OP_PUT_FILE {
        return Err(WireError::BadOpcode { observed: src[0] });
    }
    let namespace_root_end: u64 = 22 + bytes::get_u16(src, 5) as u64;
    let path_end: u64 = namespace_root_end + bytes::get_u16(src, 7) as u64;
    let body_end: u64 = path_end + bytes::get_u32(src, 18) as u64;
    if (src.len() as u64) < body_end {
        return Err(WireError::Truncated);
    }
    match check_key(bytes::get_u16(src, 5) as usize, bytes::get_u16(src, 7) as usize, 0) {
        Ok(()) => {},
        Err(e) => {
            return Err(e);
        },
    }
    Ok(
        DecodedAdminPutFile {
            correlation_id: bytes::get_u32(src, 1),
            namespace_root: slice_subrange(src, 22, namespace_root_end as usize),
            path: slice_subrange(src, namespace_root_end as usize, path_end as usize),
            kind: src[9],
            revision: bytes::get_u64(src, 10),
            body: slice_subrange(src, path_end as usize, body_end as usize),
        },
    )
}

/// Decoding what was encoded, whatever follows it, gives the parts back.
pub proof fn lemma_admin_put_file_round_trip(correlation_id: u32, namespace_root: Seq<u8>, path: Seq<u8>, kind: u8, revision: u64, body: Seq<u8>, rest: Seq<u8>)
    requires
        loam_limits::key_verdict(namespace_root.len(), path.len(), 0) is Ok,
        body.len() <= u32::MAX,
    ensures
        admin_put_file_parse(admin_put_file_frame(correlation_id, namespace_root, path, kind, revision, body) + rest) == Ok::<(u32, Seq<u8>, Seq<u8>, u8, u64, Seq<u8>), WireError>((correlation_id, namespace_root, path, kind, revision, body)),
{
    broadcast use bytes::lemma_subrange_left, bytes::lemma_subrange_right;

    let s = admin_put_file_frame(correlation_id, namespace_root, path, kind, revision, body) + rest;
    assert(s[0] == seq![OP_PUT_FILE][0]);
    assert(s.subrange(1, 5) == bytes::le32(correlation_id));
    bytes::lemma_u32_at(s, 1, correlation_id);
    assert(s.subrange(5, 7) == bytes::le16(namespace_root.len() as u16));
    bytes::lemma_u16_at(s, 5, namespace_root.len() as u16);
    assert(s.subrange(7, 9) == bytes::le16(path.len() as u16));
    bytes::lemma_u16_at(s, 7, path.len() as u16);
    assert(s[9] == seq![kind][0]);
    assert(s.subrange(10, 18) == bytes::le64(revision));
    bytes::lemma_u64_at(s, 10, revision);
    assert(s.subrange(18, 22) == bytes::le32(body.len() as u32));
    bytes::lemma_u32_at(s, 18, body.len() as u32);
    assert(s.subrange(22, (22 + namespace_root.len()) as int) == namespace_root);
    assert(s.subrange((22 + namespace_root.len()) as int, (22 + namespace_root.len() + path.len()) as int) == path);
    assert(s.subrange((22 + namespace_root.len() + path.len()) as int, (22 + namespace_root.len() + path.len() + body.len()) as int) == body);
}

/// The bytes of a request about a path.
pub open spec fn path_req_frame(op: u8, correlation_id: u32, namespace_root: Seq<u8>, path: Seq<u8>) -> Seq<u8> {
    seq![op] + bytes::le32(correlation_id) + bytes::le16(namespace_root.len() as u16) + bytes::le16(path.len() as u16) + namespace_root + path
}

/// Why a request about a path is not written to a buffer with this much room.
pub open spec fn path_req_refusal(room: nat, op: u8, correlation_id: u32, namespace_root: Seq<u8>, path: Seq<u8>) -> Option<WireError> {
    match key_refusal(namespace_root.len(), path.len(), 0) {
        Some(e) => Some(e),
        None => no_room(room, path_req_frame(op, correlation_id, namespace_root, path).len()),
    }
}

/// Write a request about a path to the start of `dst`. Returns its length.
fn encode_path_req(dst: &mut [u8], op: u8, correlation_id: u32, namespace_root: &[u8], path: &[u8]) -> (r: Result<usize, WireError>)
    ensures
        bytes::encodes(
            r,
            old(dst)@,
            final(dst)@,
            path_req_refusal(old(dst)@.len(), op, correlation_id, namespace_root@, path@),
            path_req_frame(op, correlation_id, namespace_root@, path@),
        ),
{
    broadcast use bytes::lemma_write_first, bytes::lemma_write_next;

    match check_key(namespace_root.len(), path.len(), 0) {
        Ok(()) => {},
        Err(e) => {
            return Err(e);
        },
    }
    let needed: usize = 9 + namespace_root.len() + path.len();
    if dst.len() < needed {
        return Err(WireError::BufferTooSmall { needed, actual: dst.len() });
    }
    bytes::put_u8(dst, 0, op);
    bytes::put_u32(dst, 1, correlation_id);
    bytes::put_u16(dst, 5, namespace_root.len() as u16);
    bytes::put_u16(dst, 7, path.len() as u16);
    bytes::put_bytes(dst, 9, namespace_root);
    bytes::put_bytes(dst, 9 + namespace_root.len(), path);
    Ok(needed)
}

/// A request about a path, decoded.
#[derive(Debug, Clone, Copy, PartialEq, Eq)]
pub struct DecodedAdminPathReq<'a> {
    pub correlation_id: u32,
    pub namespace_root: &'a [u8],
    pub path: &'a [u8],
}

/// What `decode_path_req` makes of `s`.
pub open spec fn path_req_parse(s: Seq<u8>, op: u8) -> Result<(u32, Seq<u8>, Seq<u8>), WireError> {
    if s.len() < 9 {
        Err(WireError::Truncated)
    } else if s[0] != op {
        Err(WireError::BadOpcode { observed: s[0] })
    } else {
        let namespace_root_end = 9 + bytes::u16_at(s, 5);
        let path_end = namespace_root_end + bytes::u16_at(s, 7);
        if s.len() < path_end {
            Err(WireError::Truncated)
        } else {
            match key_refusal(bytes::u16_at(s, 5) as nat, bytes::u16_at(s, 7) as nat, 0) {
                Some(e) => Err(e),
                None => Ok((bytes::u32_at(s, 1), s.subrange(9, namespace_root_end), s.subrange(namespace_root_end, path_end))),
            }
        }
    }
}

/// Decode a request about a path.
fn decode_path_req(src: &[u8], op: u8) -> (r: Result<DecodedAdminPathReq<'_>, WireError>)
    ensures
        match r {
            Ok(d) => path_req_parse(src@, op) == Ok::<(u32, Seq<u8>, Seq<u8>), WireError>((d.correlation_id, d.namespace_root@, d.path@)),
            Err(e) => path_req_parse(src@, op) == Err::<(u32, Seq<u8>, Seq<u8>), WireError>(e),
        },
{
    if src.len() < 9 {
        return Err(WireError::Truncated);
    }
    if src[0] != op {
        return Err(WireError::BadOpcode { observed: src[0] });
    }
    let namespace_root_end: usize = 9 + bytes::get_u16(src, 5) as usize;
    let path_end: usize = namespace_root_end + bytes::get_u16(src, 7) as usize;
    if src.len() < path_end {
        return Err(WireError::Truncated);
    }
    match check_key(bytes::get_u16(src, 5) as usize, bytes::get_u16(src, 7) as usize, 0) {
        Ok(()) => {},
        Err(e) => {
            return Err(e);
        },
    }
    Ok(
        DecodedAdminPathReq {
            correlation_id: bytes::get_u32(src, 1),
            namespace_root: slice_subrange(src, 9, namespace_root_end),
            path: slice_subrange(src, namespace_root_end, path_end),
        },
    )
}

/// Decoding what was encoded, whatever follows it, gives the parts back.
pub proof fn lemma_path_req_round_trip(op: u8, correlation_id: u32, namespace_root: Seq<u8>, path: Seq<u8>, rest: Seq<u8>)
    requires
        loam_limits::key_verdict(namespace_root.len(), path.len(), 0) is Ok,
    ensures
        path_req_parse(path_req_frame(op, correlation_id, namespace_root, path) + rest, op) == Ok::<(u32, Seq<u8>, Seq<u8>), WireError>((correlation_id, namespace_root, path)),
{
    broadcast use bytes::lemma_subrange_left, bytes::lemma_subrange_right;

    let s = path_req_frame(op, correlation_id, namespace_root, path) + rest;
    assert(s[0] == seq![op][0]);
    assert(s.subrange(1, 5) == bytes::le32(correlation_id));
    bytes::lemma_u32_at(s, 1, correlation_id);
    assert(s.subrange(5, 7) == bytes::le16(namespace_root.len() as u16));
    bytes::lemma_u16_at(s, 5, namespace_root.len() as u16);
    assert(s.subrange(7, 9) == bytes::le16(path.len() as u16));
    bytes::lemma_u16_at(s, 7, path.len() as u16);
    assert(s.subrange(9, (9 + namespace_root.len()) as int) == namespace_root);
    assert(s.subrange((9 + namespace_root.len()) as int, (9 + namespace_root.len() + path.len()) as int) == path);
}

/// Write a request for a file to the start of `dst`. Returns its length.
pub fn encode_admin_get_file(dst: &mut [u8], correlation_id: u32, namespace_root: &[u8], path: &[u8]) -> (r: Result<
    usize,
    WireError,
>)
    ensures
        bytes::encodes(
            r,
            old(dst)@,
            final(dst)@,
            path_req_refusal(old(dst)@.len(), OP_GET_FILE, correlation_id, namespace_root@, path@),
            path_req_frame(OP_GET_FILE, correlation_id, namespace_root@, path@),
        ),
{
    encode_path_req(dst, OP_GET_FILE, correlation_id, namespace_root, path)
}

/// Decode a request for a file.
pub fn decode_admin_get_file(src: &[u8]) -> (r: Result<DecodedAdminPathReq<'_>, WireError>)
    ensures
        match r {
            Ok(d) => path_req_parse(src@, OP_GET_FILE) == Ok::<(u32, Seq<u8>, Seq<u8>), WireError>(
                (d.correlation_id, d.namespace_root@, d.path@),
            ),
            Err(e) => path_req_parse(src@, OP_GET_FILE) == Err::<(u32, Seq<u8>, Seq<u8>), WireError>(e),
        },
{
    decode_path_req(src, OP_GET_FILE)
}

/// Write a request to delete a file to the start of `dst`. Returns its length.
pub fn encode_admin_delete_file(dst: &mut [u8], correlation_id: u32, namespace_root: &[u8], path: &[u8]) -> (r: Result<
    usize,
    WireError,
>)
    ensures
        bytes::encodes(
            r,
            old(dst)@,
            final(dst)@,
            path_req_refusal(old(dst)@.len(), OP_DELETE_FILE, correlation_id, namespace_root@, path@),
            path_req_frame(OP_DELETE_FILE, correlation_id, namespace_root@, path@),
        ),
{
    encode_path_req(dst, OP_DELETE_FILE, correlation_id, namespace_root, path)
}

/// Decode a request to delete a file.
pub fn decode_admin_delete_file(src: &[u8]) -> (r: Result<DecodedAdminPathReq<'_>, WireError>)
    ensures
        match r {
            Ok(d) => path_req_parse(src@, OP_DELETE_FILE) == Ok::<(u32, Seq<u8>, Seq<u8>), WireError>(
                (d.correlation_id, d.namespace_root@, d.path@),
            ),
            Err(e) => path_req_parse(src@, OP_DELETE_FILE) == Err::<(u32, Seq<u8>, Seq<u8>), WireError>(e),
        },
{
    decode_path_req(src, OP_DELETE_FILE)
}

/// Write a request for the size of a file to the start of `dst`. Returns its length.
pub fn encode_stat_file(dst: &mut [u8], correlation_id: u32, namespace_root: &[u8], path: &[u8]) -> (r: Result<
    usize,
    WireError,
>)
    ensures
        bytes::encodes(
            r,
            old(dst)@,
            final(dst)@,
            path_req_refusal(old(dst)@.len(), OP_STAT_FILE, correlation_id, namespace_root@, path@),
            path_req_frame(OP_STAT_FILE, correlation_id, namespace_root@, path@),
        ),
{
    encode_path_req(dst, OP_STAT_FILE, correlation_id, namespace_root, path)
}

/// Decode a request for the size of a file.
pub fn decode_stat_file(src: &[u8]) -> (r: Result<DecodedAdminPathReq<'_>, WireError>)
    ensures
        match r {
            Ok(d) => path_req_parse(src@, OP_STAT_FILE) == Ok::<(u32, Seq<u8>, Seq<u8>), WireError>(
                (d.correlation_id, d.namespace_root@, d.path@),
            ),
            Err(e) => path_req_parse(src@, OP_STAT_FILE) == Err::<(u32, Seq<u8>, Seq<u8>), WireError>(e),
        },
{
    decode_path_req(src, OP_STAT_FILE)
}

/// The bytes of the answer to a deletion.
pub open spec fn admin_delete_file_ack_frame(correlation_id: u32, status: u8) -> Seq<u8> {
    seq![OP_DELETE_FILE] + bytes::le32(correlation_id) + seq![status]
}

/// Why the answer to a deletion is not written to a buffer with this much room.
pub open spec fn admin_delete_file_ack_refusal(room: nat, correlation_id: u32, status: u8) -> Option<WireError> {
    no_room(room, admin_delete_file_ack_frame(correlation_id, status).len())
}

/// Write the answer to a deletion to the start of `dst`. Returns its length.
pub fn encode_admin_delete_file_ack(dst: &mut [u8], correlation_id: u32, status: u8) -> (r: Result<usize, WireError>)
    ensures
        bytes::encodes(
            r,
            old(dst)@,
            final(dst)@,
            admin_delete_file_ack_refusal(old(dst)@.len(), correlation_id, status),
            admin_delete_file_ack_frame(correlation_id, status),
        ),
{
    broadcast use bytes::lemma_write_first, bytes::lemma_write_next;

    let needed: usize = 6;
    if dst.len() < needed {
        return Err(WireError::BufferTooSmall { needed, actual: dst.len() });
    }
    bytes::put_u8(dst, 0, OP_DELETE_FILE);
    bytes::put_u32(dst, 1, correlation_id);
    bytes::put_u8(dst, 5, status);
    Ok(needed)
}

/// What `decode_admin_delete_file_ack` makes of `s`.
pub open spec fn admin_delete_file_ack_parse(s: Seq<u8>) -> Result<(u32, u8), WireError> {
    if s.len() < 6 {
        Err(WireError::Truncated)
    } else if s[0] != OP_DELETE_FILE {
        Err(WireError::BadOpcode { observed: s[0] })
    } else {
        Ok((bytes::u32_at(s, 1), s[5]))
    }
}

/// Decode the answer to a deletion.
pub fn decode_admin_delete_file_ack(src: &[u8]) -> (r: Result<(u32, u8), WireError>)
    ensures
        match r {
            Ok(d) => admin_delete_file_ack_parse(src@) == Ok::<(u32, u8), WireError>((d.0, d.1)),
            Err(e) => admin_delete_file_ack_parse(src@) == Err::<(u32, u8), WireError>(e),
        },
{
    if src.len() < 6 {
        return Err(WireError::Truncated);
    }
    if src[0] != OP_DELETE_FILE {
        return Err(WireError::BadOpcode { observed: src[0] });
    }
    Ok((bytes::get_u32(src, 1), src[5]))
}

/// Decoding what was encoded, whatever follows it, gives the parts back.
pub proof fn lemma_admin_delete_file_ack_round_trip(correlation_id: u32, status: u8, rest: Seq<u8>)
    ensures
        admin_delete_file_ack_parse(admin_delete_file_ack_frame(correlation_id, status) + rest) == Ok::<(u32, u8), WireError>((correlation_id, status)),
{
    broadcast use bytes::lemma_subrange_left, bytes::lemma_subrange_right;

    let s = admin_delete_file_ack_frame(correlation_id, status) + rest;
    assert(s[0] == seq![OP_DELETE_FILE][0]);
    assert(s.subrange(1, 5) == bytes::le32(correlation_id));
    bytes::lemma_u32_at(s, 1, correlation_id);
    assert(s[5] == seq![status][0]);
}

/// The bytes of a request for a page of files.
pub open spec fn admin_list_files_frame(correlation_id: u32, namespace_root: Seq<u8>, cursor: u32, max: u8) -> Seq<u8> {
    seq![OP_LIST_FILES] + bytes::le32(correlation_id) + bytes::le16(namespace_root.len() as u16) + bytes::le32(cursor) + seq![max] + namespace_root
}

/// Why a request for a page of files is not written to a buffer with this much room.
pub open spec fn admin_list_files_refusal(room: nat, correlation_id: u32, namespace_root: Seq<u8>, cursor: u32, max: u8) -> Option<WireError> {
    match key_refusal(namespace_root.len(), 0, 0) {
        Some(e) => Some(e),
        None => no_room(room, admin_list_files_frame(correlation_id, namespace_root, cursor, max).len()),
    }
}

/// Write a request for a page of files to the start of `dst`. Returns its length.
pub fn encode_admin_list_files(dst: &mut [u8], correlation_id: u32, namespace_root: &[u8], cursor: u32, max: u8) -> (r: Result<usize, WireError>)
    ensures
        bytes::encodes(
            r,
            old(dst)@,
            final(dst)@,
            admin_list_files_refusal(old(dst)@.len(), correlation_id, namespace_root@, cursor, max),
            admin_list_files_frame(correlation_id, namespace_root@, cursor, max),
        ),
{
    broadcast use bytes::lemma_write_first, bytes::lemma_write_next;

    match check_key(namespace_root.len(), 0, 0) {
        Ok(()) => {},
        Err(e) => {
            return Err(e);
        },
    }
    let needed: usize = 12 + namespace_root.len();
    if dst.len() < needed {
        return Err(WireError::BufferTooSmall { needed, actual: dst.len() });
    }
    bytes::put_u8(dst, 0, OP_LIST_FILES);
    bytes::put_u32(dst, 1, correlation_id);
    bytes::put_u16(dst, 5, namespace_root.len() as u16);
    bytes::put_u32(dst, 7, cursor);
    bytes::put_u8(dst, 11, max);
    bytes::put_bytes(dst, 12, namespace_root);
    Ok(needed)
}

/// A request for a page of files, decoded.
#[derive(Debug, Clone, Copy, PartialEq, Eq)]
pub struct DecodedAdminListFiles<'a> {
    pub correlation_id: u32,
    pub namespace_root: &'a [u8],
    pub cursor: u32,
    pub max: u8,
}

/// What `decode_admin_list_files` makes of `s`.
pub open spec fn admin_list_files_parse(s: Seq<u8>) -> Result<(u32, Seq<u8>, u32, u8), WireError> {
    if s.len() < 12 {
        Err(WireError::Truncated)
    } else if s[0] != OP_LIST_FILES {
        Err(WireError::BadOpcode { observed: s[0] })
    } else {
        let namespace_root_end = 12 + bytes::u16_at(s, 5);
        if s.len() < namespace_root_end {
            Err(WireError::Truncated)
        } else {
            match key_refusal(bytes::u16_at(s, 5) as nat, 0, 0) {
                Some(e) => Err(e),
                None => Ok((bytes::u32_at(s, 1), s.subrange(12, namespace_root_end), bytes::u32_at(s, 7), s[11])),
            }
        }
    }
}

/// Decode a request for a page of files.
pub fn decode_admin_list_files(src: &[u8]) -> (r: Result<DecodedAdminListFiles<'_>, WireError>)
    ensures
        match r {
            Ok(d) => admin_list_files_parse(src@) == Ok::<(u32, Seq<u8>, u32, u8), WireError>((d.correlation_id, d.namespace_root@, d.cursor, d.max)),
            Err(e) => admin_list_files_parse(src@) == Err::<(u32, Seq<u8>, u32, u8), WireError>(e),
        },
{
    if src.len() < 12 {
        return Err(WireError::Truncated);
    }
    if src[0] != OP_LIST_FILES {
        return Err(WireError::BadOpcode { observed: src[0] });
    }
    let namespace_root_end: usize = 12 + bytes::get_u16(src, 5) as usize;
    if src.len() < namespace_root_end {
        return Err(WireError::Truncated);
    }
    match check_key(bytes::get_u16(src, 5) as usize, 0, 0) {
        Ok(()) => {},
        Err(e) => {
            return Err(e);
        },
    }
    Ok(
        DecodedAdminListFiles {
            correlation_id: bytes::get_u32(src, 1),
            namespace_root: slice_subrange(src, 12, namespace_root_end),
            cursor: bytes::get_u32(src, 7),
            max: src[11],
        },
    )
}

/// Decoding what was encoded, whatever follows it, gives the parts back.
pub proof fn lemma_admin_list_files_round_trip(correlation_id: u32, namespace_root: Seq<u8>, cursor: u32, max: u8, rest: Seq<u8>)
    requires
        loam_limits::key_verdict(namespace_root.len(), 0, 0) is Ok,
    ensures
        admin_list_files_parse(admin_list_files_frame(correlation_id, namespace_root, cursor, max) + rest) == Ok::<(u32, Seq<u8>, u32, u8), WireError>((correlation_id, namespace_root, cursor, max)),
{
    broadcast use bytes::lemma_subrange_left, bytes::lemma_subrange_right;

    let s = admin_list_files_frame(correlation_id, namespace_root, cursor, max) + rest;
    assert(s[0] == seq![OP_LIST_FILES][0]);
    assert(s.subrange(1, 5) == bytes::le32(correlation_id));
    bytes::lemma_u32_at(s, 1, correlation_id);
    assert(s.subrange(5, 7) == bytes::le16(namespace_root.len() as u16));
    bytes::lemma_u16_at(s, 5, namespace_root.len() as u16);
    assert(s.subrange(7, 11) == bytes::le32(cursor));
    bytes::lemma_u32_at(s, 7, cursor);
    assert(s[11] == seq![max][0]);
    assert(s.subrange(12, (12 + namespace_root.len()) as int) == namespace_root);
}

/// The bytes of the start of a streamed file.
pub open spec fn put_file_open_frame(correlation_id: u32, namespace_root: Seq<u8>, path: Seq<u8>, kind: u8, revision: u64, digest: Seq<u8>, total_len: u64) -> Seq<u8> {
    seq![OP_PUT_FILE_OPEN] + bytes::le32(correlation_id) + bytes::le16(namespace_root.len() as u16) + bytes::le16(path.len() as u16) + seq![kind] + bytes::le64(revision) + digest + bytes::le64(total_len) + namespace_root + path
}

/// Why the start of a streamed file is not written to a buffer with this much room.
pub open spec fn put_file_open_refusal(room: nat, correlation_id: u32, namespace_root: Seq<u8>, path: Seq<u8>, kind: u8, revision: u64, digest: Seq<u8>, total_len: u64) -> Option<WireError> {
    match key_refusal(namespace_root.len(), path.len(), 0) {
        Some(e) => Some(e),
        None => no_room(room, put_file_open_frame(correlation_id, namespace_root, path, kind, revision, digest, total_len).len()),
    }
}

/// Write the start of a streamed file to the start of `dst`. Returns its length.
pub fn encode_put_file_open(dst: &mut [u8], correlation_id: u32, namespace_root: &[u8], path: &[u8], kind: u8, revision: u64, digest: &[u8; DIGEST_LEN], total_len: u64) -> (r: Result<usize, WireError>)
    ensures
        bytes::encodes(
            r,
            old(dst)@,
            final(dst)@,
            put_file_open_refusal(old(dst)@.len(), correlation_id, namespace_root@, path@, kind, revision, digest@, total_len),
            put_file_open_frame(correlation_id, namespace_root@, path@, kind, revision, digest@, total_len),
        ),
{
    broadcast use bytes::lemma_write_first, bytes::lemma_write_next;

    match check_key(namespace_root.len(), path.len(), 0) {
        Ok(()) => {},
        Err(e) => {
            return Err(e);
        },
    }
    let needed: usize = 58 + namespace_root.len() + path.len();
    if dst.len() < needed {
        return Err(WireError::BufferTooSmall { needed, actual: dst.len() });
    }
    bytes::put_u8(dst, 0, OP_PUT_FILE_OPEN);
    bytes::put_u32(dst, 1, correlation_id);
    bytes::put_u16(dst, 5, namespace_root.len() as u16);
    bytes::put_u16(dst, 7, path.len() as u16);
    bytes::put_u8(dst, 9, kind);
    bytes::put_u64(dst, 10, revision);
    bytes::put_bytes(dst, 18, digest.as_slice());
    bytes::put_u64(dst, 50, total_len);
    bytes::put_bytes(dst, 58, namespace_root);
    bytes::put_bytes(dst, 58 + namespace_root.len(), path);
    Ok(needed)
}

/// The start of a streamed file, decoded.
#[derive(Debug, Clone, Copy, PartialEq, Eq)]
pub struct DecodedPutFileOpen<'a> {
    pub correlation_id: u32,
    pub namespace_root: &'a [u8],
    pub path: &'a [u8],
    pub kind: u8,
    pub revision: u64,
    pub digest: &'a [u8],
    pub total_len: u64,
}

/// What `decode_put_file_open` makes of `s`.
pub open spec fn put_file_open_parse(s: Seq<u8>) -> Result<(u32, Seq<u8>, Seq<u8>, u8, u64, Seq<u8>, u64), WireError> {
    if s.len() < 58 {
        Err(WireError::Truncated)
    } else if s[0] != OP_PUT_FILE_OPEN {
        Err(WireError::BadOpcode { observed: s[0] })
    } else {
        let namespace_root_end = 58 + bytes::u16_at(s, 5);
        let path_end = namespace_root_end + bytes::u16_at(s, 7);
        if s.len() < path_end {
            Err(WireError::Truncated)
        } else {
            match key_refusal(bytes::u16_at(s, 5) as nat, bytes::u16_at(s, 7) as nat, 0) {
                Some(e) => Err(e),
                None => Ok((bytes::u32_at(s, 1), s.subrange(58, namespace_root_end), s.subrange(namespace_root_end, path_end), s[9], bytes::u64_at(s, 10), s.subrange(18, 50), bytes::u64_at(s, 50))),
            }
        }
    }
}

/// Decode the start of a streamed file.
pub fn decode_put_file_open(src: &[u8]) -> (r: Result<DecodedPutFileOpen<'_>, WireError>)
    ensures
        match r {
            Ok(d) => put_file_open_parse(src@) == Ok::<(u32, Seq<u8>, Seq<u8>, u8, u64, Seq<u8>, u64), WireError>((d.correlation_id, d.namespace_root@, d.path@, d.kind, d.revision, d.digest@, d.total_len)),
            Err(e) => put_file_open_parse(src@) == Err::<(u32, Seq<u8>, Seq<u8>, u8, u64, Seq<u8>, u64), WireError>(e),
        },
{
    if src.len() < 58 {
        return Err(WireError::Truncated);
    }
    if src[0] != OP_PUT_FILE_OPEN {
        return Err(WireError::BadOpcode { observed: src[0] });
    }
    let namespace_root_end: usize = 58 + bytes::get_u16(src, 5) as usize;
    let path_end: usize = namespace_root_end + bytes::get_u16(src, 7) as usize;
    if src.len() < path_end {
        return Err(WireError::Truncated);
    }
    match check_key(bytes::get_u16(src, 5) as usize, bytes::get_u16(src, 7) as usize, 0) {
        Ok(()) => {},
        Err(e) => {
            return Err(e);
        },
    }
    Ok(
        DecodedPutFileOpen {
            correlation_id: bytes::get_u32(src, 1),
            namespace_root: slice_subrange(src, 58, namespace_root_end),
            path: slice_subrange(src, namespace_root_end, path_end),
            kind: src[9],
            revision: bytes::get_u64(src, 10),
            digest: slice_subrange(src, 18, 50),
            total_len: bytes::get_u64(src, 50),
        },
    )
}

/// Decoding what was encoded, whatever follows it, gives the parts back.
pub proof fn lemma_put_file_open_round_trip(correlation_id: u32, namespace_root: Seq<u8>, path: Seq<u8>, kind: u8, revision: u64, digest: Seq<u8>, total_len: u64, rest: Seq<u8>)
    requires
        loam_limits::key_verdict(namespace_root.len(), path.len(), 0) is Ok,
        digest.len() == DIGEST_LEN,
    ensures
        put_file_open_parse(put_file_open_frame(correlation_id, namespace_root, path, kind, revision, digest, total_len) + rest) == Ok::<(u32, Seq<u8>, Seq<u8>, u8, u64, Seq<u8>, u64), WireError>((correlation_id, namespace_root, path, kind, revision, digest, total_len)),
{
    broadcast use bytes::lemma_subrange_left, bytes::lemma_subrange_right;

    let s = put_file_open_frame(correlation_id, namespace_root, path, kind, revision, digest, total_len) + rest;
    assert(s[0] == seq![OP_PUT_FILE_OPEN][0]);
    assert(s.subrange(1, 5) == bytes::le32(correlation_id));
    bytes::lemma_u32_at(s, 1, correlation_id);
    assert(s.subrange(5, 7) == bytes::le16(namespace_root.len() as u16));
    bytes::lemma_u16_at(s, 5, namespace_root.len() as u16);
    assert(s.subrange(7, 9) == bytes::le16(path.len() as u16));
    bytes::lemma_u16_at(s, 7, path.len() as u16);
    assert(s[9] == seq![kind][0]);
    assert(s.subrange(10, 18) == bytes::le64(revision));
    bytes::lemma_u64_at(s, 10, revision);
    assert(s.subrange(18, 50) == digest);
    assert(s.subrange(50, 58) == bytes::le64(total_len));
    bytes::lemma_u64_at(s, 50, total_len);
    assert(s.subrange(58, (58 + namespace_root.len()) as int) == namespace_root);
    assert(s.subrange((58 + namespace_root.len()) as int, (58 + namespace_root.len() + path.len()) as int) == path);
}

/// The bytes of the answer to the start of a streamed file.
pub open spec fn put_file_open_ack_frame(correlation_id: u32, status: u8, pfid: u8) -> Seq<u8> {
    seq![OP_PUT_FILE_OPEN] + bytes::le32(correlation_id) + seq![status] + seq![pfid]
}

/// Why the answer to the start of a streamed file is not written to a buffer with this much room.
pub open spec fn put_file_open_ack_refusal(room: nat, correlation_id: u32, status: u8, pfid: u8) -> Option<WireError> {
    no_room(room, put_file_open_ack_frame(correlation_id, status, pfid).len())
}

/// Write the answer to the start of a streamed file to the start of `dst`. Returns its length.
pub fn encode_put_file_open_ack(dst: &mut [u8], correlation_id: u32, status: u8, pfid: u8) -> (r: Result<usize, WireError>)
    ensures
        bytes::encodes(
            r,
            old(dst)@,
            final(dst)@,
            put_file_open_ack_refusal(old(dst)@.len(), correlation_id, status, pfid),
            put_file_open_ack_frame(correlation_id, status, pfid),
        ),
{
    broadcast use bytes::lemma_write_first, bytes::lemma_write_next;

    let needed: usize = 7;
    if dst.len() < needed {
        return Err(WireError::BufferTooSmall { needed, actual: dst.len() });
    }
    bytes::put_u8(dst, 0, OP_PUT_FILE_OPEN);
    bytes::put_u32(dst, 1, correlation_id);
    bytes::put_u8(dst, 5, status);
    bytes::put_u8(dst, 6, pfid);
    Ok(needed)
}

/// What `decode_put_file_open_ack` makes of `s`.
pub open spec fn put_file_open_ack_parse(s: Seq<u8>) -> Result<(u32, u8, u8), WireError> {
    if s.len() < 7 {
        Err(WireError::Truncated)
    } else if s[0] != OP_PUT_FILE_OPEN {
        Err(WireError::BadOpcode { observed: s[0] })
    } else {
        Ok((bytes::u32_at(s, 1), s[5], s[6]))
    }
}

/// Decode the answer to the start of a streamed file.
pub fn decode_put_file_open_ack(src: &[u8]) -> (r: Result<(u32, u8, u8), WireError>)
    ensures
        match r {
            Ok(d) => put_file_open_ack_parse(src@) == Ok::<(u32, u8, u8), WireError>((d.0, d.1, d.2)),
            Err(e) => put_file_open_ack_parse(src@) == Err::<(u32, u8, u8), WireError>(e),
        },
{
    if src.len() < 7 {
        return Err(WireError::Truncated);
    }
    if src[0] != OP_PUT_FILE_OPEN {
        return Err(WireError::BadOpcode { observed: src[0] });
    }
    Ok((bytes::get_u32(src, 1), src[5], src[6]))
}

/// Decoding what was encoded, whatever follows it, gives the parts back.
pub proof fn lemma_put_file_open_ack_round_trip(correlation_id: u32, status: u8, pfid: u8, rest: Seq<u8>)
    ensures
        put_file_open_ack_parse(put_file_open_ack_frame(correlation_id, status, pfid) + rest) == Ok::<(u32, u8, u8), WireError>((correlation_id, status, pfid)),
{
    broadcast use bytes::lemma_subrange_left, bytes::lemma_subrange_right;

    let s = put_file_open_ack_frame(correlation_id, status, pfid) + rest;
    assert(s[0] == seq![OP_PUT_FILE_OPEN][0]);
    assert(s.subrange(1, 5) == bytes::le32(correlation_id));
    bytes::lemma_u32_at(s, 1, correlation_id);
    assert(s[5] == seq![status][0]);
    assert(s[6] == seq![pfid][0]);
}

/// The bytes of a chunk of a streamed file.
pub open spec fn put_file_chunk_frame(correlation_id: u32, pfid: u8, chunk: Seq<u8>) -> Seq<u8> {
    seq![OP_PUT_FILE_CHUNK] + bytes::le32(correlation_id) + seq![pfid] + bytes::le32(chunk.len() as u32) + chunk
}

/// Why a chunk of a streamed file is not written to a buffer with this much room.
pub open spec fn put_file_chunk_refusal(room: nat, correlation_id: u32, pfid: u8, chunk: Seq<u8>) -> Option<WireError> {
    no_room(room, put_file_chunk_frame(correlation_id, pfid, chunk).len())
}

/// Write a chunk of a streamed file to the start of `dst`. Returns its length.
pub fn encode_put_file_chunk(dst: &mut [u8], correlation_id: u32, pfid: u8, chunk: &[u8]) -> (r: Result<usize, WireError>)
    requires
        chunk@.len() <= u32::MAX,
        10 + chunk@.len() <= usize::MAX,
    ensures
        bytes::encodes(
            r,
            old(dst)@,
            final(dst)@,
            put_file_chunk_refusal(old(dst)@.len(), correlation_id, pfid, chunk@),
            put_file_chunk_frame(correlation_id, pfid, chunk@),
        ),
{
    broadcast use bytes::lemma_write_first, bytes::lemma_write_next;

    let needed: usize = 10 + chunk.len();
    if dst.len() < needed {
        return Err(WireError::BufferTooSmall { needed, actual: dst.len() });
    }
    bytes::put_u8(dst, 0, OP_PUT_FILE_CHUNK);
    bytes::put_u32(dst, 1, correlation_id);
    bytes::put_u8(dst, 5, pfid);
    bytes::put_u32(dst, 6, chunk.len() as u32);
    bytes::put_bytes(dst, 10, chunk);
    Ok(needed)
}

/// What `decode_put_file_chunk` makes of `s`.
pub open spec fn put_file_chunk_parse(s: Seq<u8>) -> Result<(u32, u8, Seq<u8>), WireError> {
    if s.len() < 10 {
        Err(WireError::Truncated)
    } else if s[0] != OP_PUT_FILE_CHUNK {
        Err(WireError::BadOpcode { observed: s[0] })
    } else {
        let chunk_end = 10 + bytes::u32_at(s, 6);
        if s.len() < chunk_end {
            Err(WireError::Truncated)
        } else {
            Ok((bytes::u32_at(s, 1), s[5], s.subrange(10, chunk_end)))
        }
    }
}

/// Decode a chunk of a streamed file.
pub fn decode_put_file_chunk(src: &[u8]) -> (r: Result<(u32, u8, &[u8]), WireError>)
    ensures
        match r {
            Ok(d) => put_file_chunk_parse(src@) == Ok::<(u32, u8, Seq<u8>), WireError>((d.0, d.1, d.2@)),
            Err(e) => put_file_chunk_parse(src@) == Err::<(u32, u8, Seq<u8>), WireError>(e),
        },
{
    if src.len() < 10 {
        return Err(WireError::Truncated);
    }
    if src[0] != OP_PUT_FILE_CHUNK {
        return Err(WireError::BadOpcode { observed: src[0] });
    }
    let chunk_end: u64 = 10 + bytes::get_u32(src, 6) as u64;
    if (src.len() as u64) < chunk_end {
        return Err(WireError::Truncated);
    }
    Ok((bytes::get_u32(src, 1), src[5], slice_subrange(src, 10, chunk_end as usize)))
}

/// Decoding what was encoded, whatever follows it, gives the parts back.
pub proof fn lemma_put_file_chunk_round_trip(correlation_id: u32, pfid: u8, chunk: Seq<u8>, rest: Seq<u8>)
    requires
        chunk.len() <= u32::MAX,
    ensures
        put_file_chunk_parse(put_file_chunk_frame(correlation_id, pfid, chunk) + rest) == Ok::<(u32, u8, Seq<u8>), WireError>((correlation_id, pfid, chunk)),
{
    broadcast use bytes::lemma_subrange_left, bytes::lemma_subrange_right;

    let s = put_file_chunk_frame(correlation_id, pfid, chunk) + rest;
    assert(s[0] == seq![OP_PUT_FILE_CHUNK][0]);
    assert(s.subrange(1, 5) == bytes::le32(correlation_id));
    bytes::lemma_u32_at(s, 1, correlation_id);
    assert(s[5] == seq![pfid][0]);
    assert(s.subrange(6, 10) == bytes::le32(chunk.len() as u32));
    bytes::lemma_u32_at(s, 6, chunk.len() as u32);
    assert(s.subrange(10, (10 + chunk.len()) as int) == chunk);
}

/// The bytes of the answer to a chunk.
pub open spec fn put_file_chunk_ack_frame(correlation_id: u32, status: u8) -> Seq<u8> {
    seq![OP_PUT_FILE_CHUNK] + bytes::le32(correlation_id) + seq![status]
}

/// Why the answer to a chunk is not written to a buffer with this much room.
pub open spec fn put_file_chunk_ack_refusal(room: nat, correlation_id: u32, status: u8) -> Option<WireError> {
    no_room(room, put_file_chunk_ack_frame(correlation_id, status).len())
}

/// Write the answer to a chunk to the start of `dst`. Returns its length.
pub fn encode_put_file_chunk_ack(dst: &mut [u8], correlation_id: u32, status: u8) -> (r: Result<usize, WireError>)
    ensures
        bytes::encodes(
            r,
            old(dst)@,
            final(dst)@,
            put_file_chunk_ack_refusal(old(dst)@.len(), correlation_id, status),
            put_file_chunk_ack_frame(correlation_id, status),
        ),
{
    broadcast use bytes::lemma_write_first, bytes::lemma_write_next;

    let needed: usize = 6;
    if dst.len() < needed {
        return Err(WireError::BufferTooSmall { needed, actual: dst.len() });
    }
    bytes::put_u8(dst, 0, OP_PUT_FILE_CHUNK);
    bytes::put_u32(dst, 1, correlation_id);
    bytes::put_u8(dst, 5, status);
    Ok(needed)
}

/// What `decode_put_file_chunk_ack` makes of `s`.
pub open spec fn put_file_chunk_ack_parse(s: Seq<u8>) -> Result<(u32, u8), WireError> {
    if s.len() < 6 {
        Err(WireError::Truncated)
    } else if s[0] != OP_PUT_FILE_CHUNK {
        Err(WireError::BadOpcode { observed: s[0] })
    } else {
        Ok((bytes::u32_at(s, 1), s[5]))
    }
}

/// Decode the answer to a chunk.
pub fn decode_put_file_chunk_ack(src: &[u8]) -> (r: Result<(u32, u8), WireError>)
    ensures
        match r {
            Ok(d) => put_file_chunk_ack_parse(src@) == Ok::<(u32, u8), WireError>((d.0, d.1)),
            Err(e) => put_file_chunk_ack_parse(src@) == Err::<(u32, u8), WireError>(e),
        },
{
    if src.len() < 6 {
        return Err(WireError::Truncated);
    }
    if src[0] != OP_PUT_FILE_CHUNK {
        return Err(WireError::BadOpcode { observed: src[0] });
    }
    Ok((bytes::get_u32(src, 1), src[5]))
}

/// Decoding what was encoded, whatever follows it, gives the parts back.
pub proof fn lemma_put_file_chunk_ack_round_trip(correlation_id: u32, status: u8, rest: Seq<u8>)
    ensures
        put_file_chunk_ack_parse(put_file_chunk_ack_frame(correlation_id, status) + rest) == Ok::<(u32, u8), WireError>((correlation_id, status)),
{
    broadcast use bytes::lemma_subrange_left, bytes::lemma_subrange_right;

    let s = put_file_chunk_ack_frame(correlation_id, status) + rest;
    assert(s[0] == seq![OP_PUT_FILE_CHUNK][0]);
    assert(s.subrange(1, 5) == bytes::le32(correlation_id));
    bytes::lemma_u32_at(s, 1, correlation_id);
    assert(s[5] == seq![status][0]);
}

/// The bytes of the end of a streamed file.
pub open spec fn put_file_commit_frame(correlation_id: u32, pfid: u8) -> Seq<u8> {
    seq![OP_PUT_FILE_COMMIT] + bytes::le32(correlation_id) + seq![pfid]
}

/// Why the end of a streamed file is not written to a buffer with this much room.
pub open spec fn put_file_commit_refusal(room: nat, correlation_id: u32, pfid: u8) -> Option<WireError> {
    no_room(room, put_file_commit_frame(correlation_id, pfid).len())
}

/// Write the end of a streamed file to the start of `dst`. Returns its length.
pub fn encode_put_file_commit(dst: &mut [u8], correlation_id: u32, pfid: u8) -> (r: Result<usize, WireError>)
    ensures
        bytes::encodes(
            r,
            old(dst)@,
            final(dst)@,
            put_file_commit_refusal(old(dst)@.len(), correlation_id, pfid),
            put_file_commit_frame(correlation_id, pfid),
        ),
{
    broadcast use bytes::lemma_write_first, bytes::lemma_write_next;

    let needed: usize = 6;
    if dst.len() < needed {
        return Err(WireError::BufferTooSmall { needed, actual: dst.len() });
    }
    bytes::put_u8(dst, 0, OP_PUT_FILE_COMMIT);
    bytes::put_u32(dst, 1, correlation_id);
    bytes::put_u8(dst, 5, pfid);
    Ok(needed)
}

/// What `decode_put_file_commit` makes of `s`.
pub open spec fn put_file_commit_parse(s: Seq<u8>) -> Result<(u32, u8), WireError> {
    if s.len() < 6 {
        Err(WireError::Truncated)
    } else if s[0] != OP_PUT_FILE_COMMIT {
        Err(WireError::BadOpcode { observed: s[0] })
    } else {
        Ok((bytes::u32_at(s, 1), s[5]))
    }
}

/// Decode the end of a streamed file.
pub fn decode_put_file_commit(src: &[u8]) -> (r: Result<(u32, u8), WireError>)
    ensures
        match r {
            Ok(d) => put_file_commit_parse(src@) == Ok::<(u32, u8), WireError>((d.0, d.1)),
            Err(e) => put_file_commit_parse(src@) == Err::<(u32, u8), WireError>(e),
        },
{
    if src.len() < 6 {
        return Err(WireError::Truncated);
    }
    if src[0] != OP_PUT_FILE_COMMIT {
        return Err(WireError::BadOpcode { observed: src[0] });
    }
    Ok((bytes::get_u32(src, 1), src[5]))
}

/// Decoding what was encoded, whatever follows it, gives the parts back.
pub proof fn lemma_put_file_commit_round_trip(correlation_id: u32, pfid: u8, rest: Seq<u8>)
    ensures
        put_file_commit_parse(put_file_commit_frame(correlation_id, pfid) + rest) == Ok::<(u32, u8), WireError>((correlation_id, pfid)),
{
    broadcast use bytes::lemma_subrange_left, bytes::lemma_subrange_right;

    let s = put_file_commit_frame(correlation_id, pfid) + rest;
    assert(s[0] == seq![OP_PUT_FILE_COMMIT][0]);
    assert(s.subrange(1, 5) == bytes::le32(correlation_id));
    bytes::lemma_u32_at(s, 1, correlation_id);
    assert(s[5] == seq![pfid][0]);
}

/// The bytes of a request for a part of a file.
pub open spec fn read_file_range_frame(correlation_id: u32, off: u64, len: u32, namespace_root: Seq<u8>, path: Seq<u8>) -> Seq<u8> {
    seq![OP_READ_FILE_RANGE] + bytes::le32(correlation_id) + bytes::le64(off) + bytes::le32(len) + bytes::le16(namespace_root.len() as u16) + bytes::le16(path.len() as u16) + namespace_root + path
}

/// Why a request for a part of a file is not written to a buffer with this much room.
pub open spec fn read_file_range_refusal(room: nat, correlation_id: u32, off: u64, len: u32, namespace_root: Seq<u8>, path: Seq<u8>) -> Option<WireError> {
    match key_refusal(namespace_root.len(), path.len(), 0) {
        Some(e) => Some(e),
        None => no_room(room, read_file_range_frame(correlation_id, off, len, namespace_root, path).len()),
    }
}

/// Write a request for a part of a file to the start of `dst`. Returns its length.
pub fn encode_read_file_range(dst: &mut [u8], correlation_id: u32, off: u64, len: u32, namespace_root: &[u8], path: &[u8]) -> (r: Result<usize, WireError>)
    ensures
        bytes::encodes(
            r,
            old(dst)@,
            final(dst)@,
            read_file_range_refusal(old(dst)@.len(), correlation_id, off, len, namespace_root@, path@),
            read_file_range_frame(correlation_id, off, len, namespace_root@, path@),
        ),
{
    broadcast use bytes::lemma_write_first, bytes::lemma_write_next;

    match check_key(namespace_root.len(), path.len(), 0) {
        Ok(()) => {},
        Err(e) => {
            return Err(e);
        },
    }
    let needed: usize = 21 + namespace_root.len() + path.len();
    if dst.len() < needed {
        return Err(WireError::BufferTooSmall { needed, actual: dst.len() });
    }
    bytes::put_u8(dst, 0, OP_READ_FILE_RANGE);
    bytes::put_u32(dst, 1, correlation_id);
    bytes::put_u64(dst, 5, off);
    bytes::put_u32(dst, 13, len);
    bytes::put_u16(dst, 17, namespace_root.len() as u16);
    bytes::put_u16(dst, 19, path.len() as u16);
    bytes::put_bytes(dst, 21, namespace_root);
    bytes::put_bytes(dst, 21 + namespace_root.len(), path);
    Ok(needed)
}

/// A request for a part of a file, decoded.
#[derive(Debug, Clone, Copy, PartialEq, Eq)]
pub struct DecodedReadFileRange<'a> {
    pub correlation_id: u32,
    pub off: u64,
    pub len: u32,
    pub namespace_root: &'a [u8],
    pub path: &'a [u8],
}

/// What `decode_read_file_range` makes of `s`.
pub open spec fn read_file_range_parse(s: Seq<u8>) -> Result<(u32, u64, u32, Seq<u8>, Seq<u8>), WireError> {
    if s.len() < 21 {
        Err(WireError::Truncated)
    } else if s[0] != OP_READ_FILE_RANGE {
        Err(WireError::BadOpcode { observed: s[0] })
    } else {
        let namespace_root_end = 21 + bytes::u16_at(s, 17);
        let path_end = namespace_root_end + bytes::u16_at(s, 19);
        if s.len() < path_end {
            Err(WireError::Truncated)
        } else {
            match key_refusal(bytes::u16_at(s, 17) as nat, bytes::u16_at(s, 19) as nat, 0) {
                Some(e) => Err(e),
                None => Ok((bytes::u32_at(s, 1), bytes::u64_at(s, 5), bytes::u32_at(s, 13), s.subrange(21, namespace_root_end), s.subrange(namespace_root_end, path_end))),
            }
        }
    }
}

/// Decode a request for a part of a file.
pub fn decode_read_file_range(src: &[u8]) -> (r: Result<DecodedReadFileRange<'_>, WireError>)
    ensures
        match r {
            Ok(d) => read_file_range_parse(src@) == Ok::<(u32, u64, u32, Seq<u8>, Seq<u8>), WireError>((d.correlation_id, d.off, d.len, d.namespace_root@, d.path@)),
            Err(e) => read_file_range_parse(src@) == Err::<(u32, u64, u32, Seq<u8>, Seq<u8>), WireError>(e),
        },
{
    if src.len() < 21 {
        return Err(WireError::Truncated);
    }
    if src[0] != OP_READ_FILE_RANGE {
        return Err(WireError::BadOpcode { observed: src[0] });
    }
    let namespace_root_end: usize = 21 + bytes::get_u16(src, 17) as usize;
    let path_end: usize = namespace_root_end + bytes::get_u16(src, 19) as usize;
    if src.len() < path_end {
        return Err(WireError::Truncated);
    }
    match check_key(bytes::get_u16(src, 17) as usize, bytes::get_u16(src, 19) as usize, 0) {
        Ok(()) => {},
        Err(e) => {
            return Err(e);
        },
    }
    Ok(
        DecodedReadFileRange {
            correlation_id: bytes::get_u32(src, 1),
            off: bytes::get_u64(src, 5),
            len: bytes::get_u32(src, 13),
            namespace_root: slice_subrange(src, 21, namespace_root_end),
            path: slice_subrange(src, namespace_root_end, path_end),
        },
    )
}

/// Decoding what was encoded, whatever follows it, gives the parts back.
pub proof fn lemma_read_file_range_round_trip(correlation_id: u32, off: u64, len: u32, namespace_root: Seq<u8>, path: Seq<u8>, rest: Seq<u8>)
    requires
        loam_limits::key_verdict(namespace_root.len(), path.len(), 0) is Ok,
    ensures
        read_file_range_parse(read_file_range_frame(correlation_id, off, len, namespace_root, path) + rest) == Ok::<(u32, u64, u32, Seq<u8>, Seq<u8>), WireError>((correlation_id, off, len, namespace_root, path)),
{
    broadcast use bytes::lemma_subrange_left, bytes::lemma_subrange_right;

    let s = read_file_range_frame(correlation_id, off, len, namespace_root, path) + rest;
    assert(s[0] == seq![OP_READ_FILE_RANGE][0]);
    assert(s.subrange(1, 5) == bytes::le32(correlation_id));
    bytes::lemma_u32_at(s, 1, correlation_id);
    assert(s.subrange(5, 13) == bytes::le64(off));
    bytes::lemma_u64_at(s, 5, off);
    assert(s.subrange(13, 17) == bytes::le32(len));
    bytes::lemma_u32_at(s, 13, len);
    assert(s.subrange(17, 19) == bytes::le16(namespace_root.len() as u16));
    bytes::lemma_u16_at(s, 17, namespace_root.len() as u16);
    assert(s.subrange(19, 21) == bytes::le16(path.len() as u16));
    bytes::lemma_u16_at(s, 19, path.len() as u16);
    assert(s.subrange(21, (21 + namespace_root.len()) as int) == namespace_root);
    assert(s.subrange((21 + namespace_root.len()) as int, (21 + namespace_root.len() + path.len()) as int) == path);
}

/// The bytes of the size of a file.
pub open spec fn stat_file_ack_frame(correlation_id: u32, status: u8, size: u64) -> Seq<u8> {
    seq![OP_STAT_FILE] + bytes::le32(correlation_id) + seq![status] + bytes::le64(size)
}

/// Why the size of a file is not written to a buffer with this much room.
pub open spec fn stat_file_ack_refusal(room: nat, correlation_id: u32, status: u8, size: u64) -> Option<WireError> {
    no_room(room, stat_file_ack_frame(correlation_id, status, size).len())
}

/// Write the size of a file to the start of `dst`. Returns its length.
pub fn encode_stat_file_ack(dst: &mut [u8], correlation_id: u32, status: u8, size: u64) -> (r: Result<usize, WireError>)
    ensures
        bytes::encodes(
            r,
            old(dst)@,
            final(dst)@,
            stat_file_ack_refusal(old(dst)@.len(), correlation_id, status, size),
            stat_file_ack_frame(correlation_id, status, size),
        ),
{
    broadcast use bytes::lemma_write_first, bytes::lemma_write_next;

    let needed: usize = 14;
    if dst.len() < needed {
        return Err(WireError::BufferTooSmall { needed, actual: dst.len() });
    }
    bytes::put_u8(dst, 0, OP_STAT_FILE);
    bytes::put_u32(dst, 1, correlation_id);
    bytes::put_u8(dst, 5, status);
    bytes::put_u64(dst, 6, size);
    Ok(needed)
}

/// What `decode_stat_file_ack` makes of `s`.
pub open spec fn stat_file_ack_parse(s: Seq<u8>) -> Result<(u32, u8, u64), WireError> {
    if s.len() < 14 {
        Err(WireError::Truncated)
    } else if s[0] != OP_STAT_FILE {
        Err(WireError::BadOpcode { observed: s[0] })
    } else {
        Ok((bytes::u32_at(s, 1), s[5], bytes::u64_at(s, 6)))
    }
}

/// Decode the size of a file.
pub fn decode_stat_file_ack(src: &[u8]) -> (r: Result<(u32, u8, u64), WireError>)
    ensures
        match r {
            Ok(d) => stat_file_ack_parse(src@) == Ok::<(u32, u8, u64), WireError>((d.0, d.1, d.2)),
            Err(e) => stat_file_ack_parse(src@) == Err::<(u32, u8, u64), WireError>(e),
        },
{
    if src.len() < 14 {
        return Err(WireError::Truncated);
    }
    if src[0] != OP_STAT_FILE {
        return Err(WireError::BadOpcode { observed: src[0] });
    }
    Ok((bytes::get_u32(src, 1), src[5], bytes::get_u64(src, 6)))
}

/// Decoding what was encoded, whatever follows it, gives the parts back.
pub proof fn lemma_stat_file_ack_round_trip(correlation_id: u32, status: u8, size: u64, rest: Seq<u8>)
    ensures
        stat_file_ack_parse(stat_file_ack_frame(correlation_id, status, size) + rest) == Ok::<(u32, u8, u64), WireError>((correlation_id, status, size)),
{
    broadcast use bytes::lemma_subrange_left, bytes::lemma_subrange_right;

    let s = stat_file_ack_frame(correlation_id, status, size) + rest;
    assert(s[0] == seq![OP_STAT_FILE][0]);
    assert(s.subrange(1, 5) == bytes::le32(correlation_id));
    bytes::lemma_u32_at(s, 1, correlation_id);
    assert(s[5] == seq![status][0]);
    assert(s.subrange(6, 14) == bytes::le64(size));
    bytes::lemma_u64_at(s, 6, size);
}

/// The bytes of a body to store under a key.
pub open spec fn admin_put_body_keyed_frame(correlation_id: u32, key: Seq<u8>, body: Seq<u8>) -> Seq<u8> {
    seq![OP_PUT_BODY_KEYED] + bytes::le32(correlation_id) + key + bytes::le32(body.len() as u32) + body
}

/// Why a body to store under a key is not written to a buffer with this much room.
pub open spec fn admin_put_body_keyed_refusal(room: nat, correlation_id: u32, key: Seq<u8>, body: Seq<u8>) -> Option<WireError> {
    no_room(room, admin_put_body_keyed_frame(correlation_id, key, body).len())
}

/// Write a body to store under a key to the start of `dst`. Returns its length.
pub fn encode_admin_put_body_keyed(dst: &mut [u8], correlation_id: u32, key: &[u8; DIGEST_LEN], body: &[u8]) -> (r: Result<usize, WireError>)
    requires
        body@.len() <= u32::MAX,
        41 + body@.len() <= usize::MAX,
    ensures
        bytes::encodes(
            r,
            old(dst)@,
            final(dst)@,
            admin_put_body_keyed_refusal(old(dst)@.len(), correlation_id, key@, body@),
            admin_put_body_keyed_frame(correlation_id, key@, body@),
        ),
{
    broadcast use bytes::lemma_write_first, bytes::lemma_write_next;

    let needed: usize = 41 + body.len();
    if dst.len() < needed {
        return Err(WireError::BufferTooSmall { needed, actual: dst.len() });
    }
    bytes::put_u8(dst, 0, OP_PUT_BODY_KEYED);
    bytes::put_u32(dst, 1, correlation_id);
    bytes::put_bytes(dst, 5, key.as_slice());
    bytes::put_u32(dst, 37, body.len() as u32);
    bytes::put_bytes(dst, 41, body);
    Ok(needed)
}

/// What `decode_admin_put_body_keyed` makes of `s`.
pub open spec fn admin_put_body_keyed_parse(s: Seq<u8>) -> Result<(u32, Seq<u8>, Seq<u8>), WireError> {
    if s.len() < 41 {
        Err(WireError::Truncated)
    } else if s[0] != OP_PUT_BODY_KEYED {
        Err(WireError::BadOpcode { observed: s[0] })
    } else {
        let body_end = 41 + bytes::u32_at(s, 37);
        if s.len() < body_end {
            Err(WireError::Truncated)
        } else {
            Ok((bytes::u32_at(s, 1), s.subrange(5, 37), s.subrange(41, body_end)))
        }
    }
}

/// Decode a body to store under a key.
pub fn decode_admin_put_body_keyed(src: &[u8]) -> (r: Result<(u32, &[u8], &[u8]), WireError>)
    ensures
        match r {
            Ok(d) => admin_put_body_keyed_parse(src@) == Ok::<(u32, Seq<u8>, Seq<u8>), WireError>((d.0, d.1@, d.2@)),
            Err(e) => admin_put_body_keyed_parse(src@) == Err::<(u32, Seq<u8>, Seq<u8>), WireError>(e),
        },
{
    if src.len() < 41 {
        return Err(WireError::Truncated);
    }
    if src[0] != OP_PUT_BODY_KEYED {
        return Err(WireError::BadOpcode { observed: src[0] });
    }
    let body_end: u64 = 41 + bytes::get_u32(src, 37) as u64;
    if (src.len() as u64) < body_end {
        return Err(WireError::Truncated);
    }
    Ok((bytes::get_u32(src, 1), slice_subrange(src, 5, 37), slice_subrange(src, 41, body_end as usize)))
}

/// Decoding what was encoded, whatever follows it, gives the parts back.
pub proof fn lemma_admin_put_body_keyed_round_trip(correlation_id: u32, key: Seq<u8>, body: Seq<u8>, rest: Seq<u8>)
    requires
        body.len() <= u32::MAX,
        key.len() == DIGEST_LEN,
    ensures
        admin_put_body_keyed_parse(admin_put_body_keyed_frame(correlation_id, key, body) + rest) == Ok::<(u32, Seq<u8>, Seq<u8>), WireError>((correlation_id, key, body)),
{
    broadcast use bytes::lemma_subrange_left, bytes::lemma_subrange_right;

    let s = admin_put_body_keyed_frame(correlation_id, key, body) + rest;
    assert(s[0] == seq![OP_PUT_BODY_KEYED][0]);
    assert(s.subrange(1, 5) == bytes::le32(correlation_id));
    bytes::lemma_u32_at(s, 1, correlation_id);
    assert(s.subrange(5, 37) == key);
    assert(s.subrange(37, 41) == bytes::le32(body.len() as u32));
    bytes::lemma_u32_at(s, 37, body.len() as u32);
    assert(s.subrange(41, (41 + body.len()) as int) == body);
}

/// The bytes of the answer to a body under a key.
pub open spec fn admin_put_body_keyed_ack_frame(correlation_id: u32, status: u8) -> Seq<u8> {
    seq![OP_PUT_BODY_KEYED] + bytes::le32(correlation_id) + seq![status]
}

/// Why the answer to a body under a key is not written to a buffer with this much room.
pub open spec fn admin_put_body_keyed_ack_refusal(room: nat, correlation_id: u32, status: u8) -> Option<WireError> {
    no_room(room, admin_put_body_keyed_ack_frame(correlation_id, status).len())
}

/// Write the answer to a body under a key to the start of `dst`. Returns its length.
pub fn encode_admin_put_body_keyed_ack(dst: &mut [u8], correlation_id: u32, status: u8) -> (r: Result<usize, WireError>)
    ensures
        bytes::encodes(
            r,
            old(dst)@,
            final(dst)@,
            admin_put_body_keyed_ack_refusal(old(dst)@.len(), correlation_id, status),
            admin_put_body_keyed_ack_frame(correlation_id, status),
        ),
{
    broadcast use bytes::lemma_write_first, bytes::lemma_write_next;

    let needed: usize = 6;
    if dst.len() < needed {
        return Err(WireError::BufferTooSmall { needed, actual: dst.len() });
    }
    bytes::put_u8(dst, 0, OP_PUT_BODY_KEYED);
    bytes::put_u32(dst, 1, correlation_id);
    bytes::put_u8(dst, 5, status);
    Ok(needed)
}

/// What `decode_admin_put_body_keyed_ack` makes of `s`.
pub open spec fn admin_put_body_keyed_ack_parse(s: Seq<u8>) -> Result<(u32, u8), WireError> {
    if s.len() < 6 {
        Err(WireError::Truncated)
    } else if s[0] != OP_PUT_BODY_KEYED {
        Err(WireError::BadOpcode { observed: s[0] })
    } else {
        Ok((bytes::u32_at(s, 1), s[5]))
    }
}

/// Decode the answer to a body under a key.
pub fn decode_admin_put_body_keyed_ack(src: &[u8]) -> (r: Result<(u32, u8), WireError>)
    ensures
        match r {
            Ok(d) => admin_put_body_keyed_ack_parse(src@) == Ok::<(u32, u8), WireError>((d.0, d.1)),
            Err(e) => admin_put_body_keyed_ack_parse(src@) == Err::<(u32, u8), WireError>(e),
        },
{
    if src.len() < 6 {
        return Err(WireError::Truncated);
    }
    if src[0] != OP_PUT_BODY_KEYED {
        return Err(WireError::BadOpcode { observed: src[0] });
    }
    Ok((bytes::get_u32(src, 1), src[5]))
}

/// Decoding what was encoded, whatever follows it, gives the parts back.
pub proof fn lemma_admin_put_body_keyed_ack_round_trip(correlation_id: u32, status: u8, rest: Seq<u8>)
    ensures
        admin_put_body_keyed_ack_parse(admin_put_body_keyed_ack_frame(correlation_id, status) + rest) == Ok::<(u32, u8), WireError>((correlation_id, status)),
{
    broadcast use bytes::lemma_subrange_left, bytes::lemma_subrange_right;

    let s = admin_put_body_keyed_ack_frame(correlation_id, status) + rest;
    assert(s[0] == seq![OP_PUT_BODY_KEYED][0]);
    assert(s.subrange(1, 5) == bytes::le32(correlation_id));
    bytes::lemma_u32_at(s, 1, correlation_id);
    assert(s[5] == seq![status][0]);
}

/// The bytes of a request to delete a body.
pub open spec fn admin_delete_body_frame(correlation_id: u32, key: Seq<u8>) -> Seq<u8> {
    seq![OP_DELETE_BODY] + bytes::le32(correlation_id) + key
}

/// Why a request to delete a body is not written to a buffer with this much room.
pub open spec fn admin_delete_body_refusal(room: nat, correlation_id: u32, key: Seq<u8>) -> Option<WireError> {
    no_room(room, admin_delete_body_frame(correlation_id, key).len())
}

/// Write a request to delete a body to the start of `dst`. Returns its length.
pub fn encode_admin_delete_body(dst: &mut [u8], correlation_id: u32, key: &[u8; DIGEST_LEN]) -> (r: Result<usize, WireError>)
    ensures
        bytes::encodes(
            r,
            old(dst)@,
            final(dst)@,
            admin_delete_body_refusal(old(dst)@.len(), correlation_id, key@),
            admin_delete_body_frame(correlation_id, key@),
        ),
{
    broadcast use bytes::lemma_write_first, bytes::lemma_write_next;

    let needed: usize = 37;
    if dst.len() < needed {
        return Err(WireError::BufferTooSmall { needed, actual: dst.len() });
    }
    bytes::put_u8(dst, 0, OP_DELETE_BODY);
    bytes::put_u32(dst, 1, correlation_id);
    bytes::put_bytes(dst, 5, key.as_slice());
    Ok(needed)
}

/// What `decode_admin_delete_body` makes of `s`.
pub open spec fn admin_delete_body_parse(s: Seq<u8>) -> Result<(u32, Seq<u8>), WireError> {
    if s.len() < 37 {
        Err(WireError::Truncated)
    } else if s[0] != OP_DELETE_BODY {
        Err(WireError::BadOpcode { observed: s[0] })
    } else {
        Ok((bytes::u32_at(s, 1), s.subrange(5, 37)))
    }
}

/// Decode a request to delete a body.
pub fn decode_admin_delete_body(src: &[u8]) -> (r: Result<(u32, &[u8]), WireError>)
    ensures
        match r {
            Ok(d) => admin_delete_body_parse(src@) == Ok::<(u32, Seq<u8>), WireError>((d.0, d.1@)),
            Err(e) => admin_delete_body_parse(src@) == Err::<(u32, Seq<u8>), WireError>(e),
        },
{
    if src.len() < 37 {
        return Err(WireError::Truncated);
    }
    if src[0] != OP_DELETE_BODY {
        return Err(WireError::BadOpcode { observed: src[0] });
    }
    Ok((bytes::get_u32(src, 1), slice_subrange(src, 5, 37)))
}

/// Decoding what was encoded, whatever follows it, gives the parts back.
pub proof fn lemma_admin_delete_body_round_trip(correlation_id: u32, key: Seq<u8>, rest: Seq<u8>)
    requires
        key.len() == DIGEST_LEN,
    ensures
        admin_delete_body_parse(admin_delete_body_frame(correlation_id, key) + rest) == Ok::<(u32, Seq<u8>), WireError>((correlation_id, key)),
{
    broadcast use bytes::lemma_subrange_left, bytes::lemma_subrange_right;

    let s = admin_delete_body_frame(correlation_id, key) + rest;
    assert(s[0] == seq![OP_DELETE_BODY][0]);
    assert(s.subrange(1, 5) == bytes::le32(correlation_id));
    bytes::lemma_u32_at(s, 1, correlation_id);
    assert(s.subrange(5, 37) == key);
}

/// The bytes of the answer to a deletion of a body.
pub open spec fn admin_delete_body_ack_frame(correlation_id: u32, status: u8, existed: bool) -> Seq<u8> {
    seq![OP_DELETE_BODY] + bytes::le32(correlation_id) + seq![status] + seq![if existed { 1u8 } else { 0u8 }]
}

/// Why the answer to a deletion of a body is not written to a buffer with this much room.
pub open spec fn admin_delete_body_ack_refusal(room: nat, correlation_id: u32, status: u8, existed: bool) -> Option<WireError> {
    no_room(room, admin_delete_body_ack_frame(correlation_id, status, existed).len())
}

/// Write the answer to a deletion of a body to the start of `dst`. Returns its length.
pub fn encode_admin_delete_body_ack(dst: &mut [u8], correlation_id: u32, status: u8, existed: bool) -> (r: Result<usize, WireError>)
    ensures
        bytes::encodes(
            r,
            old(dst)@,
            final(dst)@,
            admin_delete_body_ack_refusal(old(dst)@.len(), correlation_id, status, existed),
            admin_delete_body_ack_frame(correlation_id, status, existed),
        ),
{
    broadcast use bytes::lemma_write_first, bytes::lemma_write_next;

    let needed: usize = 7;
    if dst.len() < needed {
        return Err(WireError::BufferTooSmall { needed, actual: dst.len() });
    }
    bytes::put_u8(dst, 0, OP_DELETE_BODY);
    bytes::put_u32(dst, 1, correlation_id);
    bytes::put_u8(dst, 5, status);
    bytes::put_u8(dst, 6, if existed { 1 } else { 0 });
    Ok(needed)
}

/// What `decode_admin_delete_body_ack` makes of `s`.
pub open spec fn admin_delete_body_ack_parse(s: Seq<u8>) -> Result<(u32, u8, bool), WireError> {
    if s.len() < 7 {
        Err(WireError::Truncated)
    } else if s[0] != OP_DELETE_BODY {
        Err(WireError::BadOpcode { observed: s[0] })
    } else {
        Ok((bytes::u32_at(s, 1), s[5], s[6] != 0))
    }
}

/// Decode the answer to a deletion of a body.
pub fn decode_admin_delete_body_ack(src: &[u8]) -> (r: Result<(u32, u8, bool), WireError>)
    ensures
        match r {
            Ok(d) => admin_delete_body_ack_parse(src@) == Ok::<(u32, u8, bool), WireError>((d.0, d.1, d.2)),
            Err(e) => admin_delete_body_ack_parse(src@) == Err::<(u32, u8, bool), WireError>(e),
        },
{
    if src.len() < 7 {
        return Err(WireError::Truncated);
    }
    if src[0] != OP_DELETE_BODY {
        return Err(WireError::BadOpcode { observed: src[0] });
    }
    Ok((bytes::get_u32(src, 1), src[5], src[6] != 0))
}

/// Decoding what was encoded, whatever follows it, gives the parts back.
pub proof fn lemma_admin_delete_body_ack_round_trip(correlation_id: u32, status: u8, existed: bool, rest: Seq<u8>)
    ensures
        admin_delete_body_ack_parse(admin_delete_body_ack_frame(correlation_id, status, existed) + rest) == Ok::<(u32, u8, bool), WireError>((correlation_id, status, existed)),
{
    broadcast use bytes::lemma_subrange_left, bytes::lemma_subrange_right;

    let s = admin_delete_body_ack_frame(correlation_id, status, existed) + rest;
    assert(s[0] == seq![OP_DELETE_BODY][0]);
    assert(s.subrange(1, 5) == bytes::le32(correlation_id));
    bytes::lemma_u32_at(s, 1, correlation_id);
    assert(s[5] == seq![status][0]);
    assert(s[6] == seq![if existed { 1u8 } else { 0u8 }][0]);
}

/// The start of every answer.
pub open spec fn ack_frame(op: u8, correlation_id: u32, status: u8) -> Seq<u8> {
    seq![op] + bytes::le32(correlation_id) + seq![status]
}

/// An answer that brings a digest where it reports success.
pub open spec fn digest_ack_frame(op: u8, correlation_id: u32, status: u8, digest: Option<Seq<u8>>) -> Seq<u8> {
    if status == STATUS_OK {
        ack_frame(op, correlation_id, status) + digest.unwrap()
    } else {
        ack_frame(op, correlation_id, status)
    }
}

/// Success without a digest has no encoding.
pub open spec fn digest_ack_refusal(
    room: nat,
    op: u8,
    correlation_id: u32,
    status: u8,
    digest: Option<Seq<u8>>,
) -> Option<WireError> {
    if status == STATUS_OK && digest is None {
        Some(WireError::BufferTooSmall { needed: 0, actual: 0 })
    } else {
        no_room(room, digest_ack_frame(op, correlation_id, status, digest).len())
    }
}

/// The bytes of an optional digest.
pub open spec fn digest_bytes(digest: Option<&[u8; DIGEST_LEN]>) -> Option<Seq<u8>> {
    match digest {
        Some(d) => Some(d@),
        None => None,
    }
}

/// The bytes of an optional slice.
pub open spec fn slice_bytes(body: Option<&[u8]>) -> Option<Seq<u8>> {
    match body {
        Some(b) => Some(b@),
        None => None,
    }
}

fn encode_digest_ack(dst: &mut [u8], op: u8, correlation_id: u32, status: u8, digest: Option<&[u8; DIGEST_LEN]>) -> (r:
    Result<usize, WireError>)
    ensures
        bytes::encodes(
            r,
            old(dst)@,
            final(dst)@,
            digest_ack_refusal(old(dst)@.len(), op, correlation_id, status, digest_bytes(digest)),
            digest_ack_frame(op, correlation_id, status, digest_bytes(digest)),
        ),
{
    broadcast use bytes::lemma_write_first, bytes::lemma_write_next;

    if status == STATUS_OK {
        match digest {
            None => Err(WireError::BufferTooSmall { needed: 0, actual: 0 }),
            Some(d) => {
                if dst.len() < 38 {
                    return Err(WireError::BufferTooSmall { needed: 38, actual: dst.len() });
                }
                bytes::put_u8(dst, 0, op);
                bytes::put_u32(dst, 1, correlation_id);
                bytes::put_u8(dst, 5, status);
                bytes::put_bytes(dst, 6, d.as_slice());
                Ok(38)
            },
        }
    } else {
        if dst.len() < 6 {
            return Err(WireError::BufferTooSmall { needed: 6, actual: dst.len() });
        }
        bytes::put_u8(dst, 0, op);
        bytes::put_u32(dst, 1, correlation_id);
        bytes::put_u8(dst, 5, status);
        Ok(6)
    }
}

/// What is made of an answer that may bring a digest.
pub open spec fn digest_ack_parse(s: Seq<u8>, op: u8) -> Result<(u32, u8, Option<Seq<u8>>), WireError> {
    if s.len() < 6 {
        Err(WireError::Truncated)
    } else if s[0] != op {
        Err(WireError::BadOpcode { observed: s[0] })
    } else if s[5] != STATUS_OK {
        Ok((bytes::u32_at(s, 1), s[5], None))
    } else if s.len() < 38 {
        Err(WireError::Truncated)
    } else {
        Ok((bytes::u32_at(s, 1), s[5], Some(s.subrange(6, 38))))
    }
}

fn decode_digest_ack(src: &[u8], op: u8) -> (r: Result<(u32, u8, Option<&[u8]>), WireError>)
    ensures
        match r {
            Ok(d) => digest_ack_parse(src@, op) == Ok::<(u32, u8, Option<Seq<u8>>), WireError>(
                (d.0, d.1, slice_bytes(d.2)),
            ),
            Err(e) => digest_ack_parse(src@, op) == Err::<(u32, u8, Option<Seq<u8>>), WireError>(e),
        },
{
    if src.len() < 6 {
        return Err(WireError::Truncated);
    }
    if src[0] != op {
        return Err(WireError::BadOpcode { observed: src[0] });
    }
    let cid: u32 = bytes::get_u32(src, 1);
    let status: u8 = src[5];
    if status != STATUS_OK {
        return Ok((cid, status, None));
    }
    if src.len() < 38 {
        return Err(WireError::Truncated);
    }
    Ok((cid, status, Some(slice_subrange(src, 6, 38))))
}

/// Decoding an answer with a digest, whatever follows it, gives it back.
pub proof fn lemma_digest_ack_round_trip(
    op: u8,
    correlation_id: u32,
    status: u8,
    digest: Option<Seq<u8>>,
    rest: Seq<u8>,
)
    requires
        status == STATUS_OK ==> digest.is_some() && digest.unwrap().len() == DIGEST_LEN,
    ensures
        digest_ack_parse(digest_ack_frame(op, correlation_id, status, digest) + rest, op) == Ok::<
            (u32, u8, Option<Seq<u8>>),
            WireError,
        >((correlation_id, status, if status == STATUS_OK { digest } else { None })),
{
    let s = digest_ack_frame(op, correlation_id, status, digest) + rest;
    assert(s[0] == op && s[5] == status);
    assert(s.subrange(1, 5) =~= bytes::le32(correlation_id));
    bytes::lemma_u32_at(s, 1, correlation_id);
    if status == STATUS_OK {
        assert(s.subrange(6, 38) =~= digest.unwrap());
    }
}

/// Write the answer to a stored body.
pub fn encode_admin_put_body_ack(
    dst: &mut [u8],
    correlation_id: u32,
    status: u8,
    digest: Option<&[u8; DIGEST_LEN]>,
) -> (r: Result<usize, WireError>)
    ensures
        bytes::encodes(
            r,
            old(dst)@,
            final(dst)@,
            digest_ack_refusal(old(dst)@.len(), OP_PUT_BODY, correlation_id, status, digest_bytes(digest)),
            digest_ack_frame(OP_PUT_BODY, correlation_id, status, digest_bytes(digest)),
        ),
{
    encode_digest_ack(dst, OP_PUT_BODY, correlation_id, status, digest)
}

/// The answer to a stored body, decoded.
#[derive(Debug, Clone, Copy, PartialEq, Eq)]
pub struct DecodedAdminPutBodyAck<'a> {
    pub correlation_id: u32,
    pub status: u8,
    pub digest: Option<&'a [u8]>,
}

/// Decode the answer to a stored body.
pub fn decode_admin_put_body_ack(src: &[u8]) -> (r: Result<DecodedAdminPutBodyAck<'_>, WireError>)
    ensures
        match r {
            Ok(d) => digest_ack_parse(src@, OP_PUT_BODY) == Ok::<(u32, u8, Option<Seq<u8>>), WireError>(
                (d.correlation_id, d.status, slice_bytes(d.digest)),
            ),
            Err(e) => digest_ack_parse(src@, OP_PUT_BODY) == Err::<(u32, u8, Option<Seq<u8>>), WireError>(e),
        },
{
    match decode_digest_ack(src, OP_PUT_BODY) {
        Ok((correlation_id, status, digest)) => Ok(DecodedAdminPutBodyAck { correlation_id, status, digest }),
        Err(e) => Err(e),
    }
}

/// Write the answer to a stored file.
pub fn encode_admin_put_file_ack(
    dst: &mut [u8],
    correlation_id: u32,
    status: u8,
    digest: Option<&[u8; DIGEST_LEN]>,
) -> (r: Result<usize, WireError>)
    ensures
        bytes::encodes(
            r,
            old(dst)@,
            final(dst)@,
            digest_ack_refusal(old(dst)@.len(), OP_PUT_FILE, correlation_id, status, digest_bytes(digest)),
            digest_ack_frame(OP_PUT_FILE, correlation_id, status, digest_bytes(digest)),
        ),
{
    encode_digest_ack(dst, OP_PUT_FILE, correlation_id, status, digest)
}

/// Decode the answer to a stored file.
pub fn decode_admin_put_file_ack(src: &[u8]) -> (r: Result<(u32, u8, Option<&[u8]>), WireError>)
    ensures
        match r {
            Ok(d) => digest_ack_parse(src@, OP_PUT_FILE) == Ok::<(u32, u8, Option<Seq<u8>>), WireError>(
                (d.0, d.1, slice_bytes(d.2)),
            ),
            Err(e) => digest_ack_parse(src@, OP_PUT_FILE) == Err::<(u32, u8, Option<Seq<u8>>), WireError>(e),
        },
{
    decode_digest_ack(src, OP_PUT_FILE)
}

/// An answer that brings bytes, or only a status.
pub open spec fn body_ack_frame(op: u8, correlation_id: u32, status: u8, body: Option<Seq<u8>>) -> Seq<u8> {
    match body {
        Some(b) => ack_frame(op, correlation_id, STATUS_OK) + bytes::le32(b.len() as u32) + b,
        None => ack_frame(op, correlation_id, status),
    }
}

/// The body that a get answer brings: none unless it reports success.
pub open spec fn body_if_ok(status: u8, body: Option<Seq<u8>>) -> Option<Seq<u8>> {
    if status == STATUS_OK {
        body
    } else {
        None
    }
}

fn encode_body_ack(dst: &mut [u8], op: u8, correlation_id: u32, status: u8, body: Option<&[u8]>) -> (r: Result<
    usize,
    WireError,
>)
    requires
        body matches Some(b) ==> b@.len() <= u32::MAX && 10 + b@.len() <= usize::MAX,
    ensures
        bytes::encodes(
            r,
            old(dst)@,
            final(dst)@,
            no_room(old(dst)@.len(), body_ack_frame(op, correlation_id, status, slice_bytes(body)).len()),
            body_ack_frame(op, correlation_id, status, slice_bytes(body)),
        ),
{
    broadcast use bytes::lemma_write_first, bytes::lemma_write_next;

    match body {
        Some(b) => {
            let needed: usize = 10 + b.len();
            if dst.len() < needed {
                return Err(WireError::BufferTooSmall { needed, actual: dst.len() });
            }
            bytes::put_u8(dst, 0, op);
            bytes::put_u32(dst, 1, correlation_id);
            bytes::put_u8(dst, 5, STATUS_OK);
            bytes::put_u32(dst, 6, b.len() as u32);
            bytes::put_bytes(dst, 10, b);
            Ok(needed)
        },
        None => {
            if dst.len() < 6 {
                return Err(WireError::BufferTooSmall { needed: 6, actual: dst.len() });
            }
            bytes::put_u8(dst, 0, op);
            bytes::put_u32(dst, 1, correlation_id);
            bytes::put_u8(dst, 5, status);
            Ok(6)
        },
    }
}

/// What is made of an answer that may bring bytes.
pub open spec fn body_ack_parse(s: Seq<u8>, op: u8) -> Result<(u32, u8, Option<Seq<u8>>), WireError> {
    if s.len() < 6 {
        Err(WireError::Truncated)
    } else if s[0] != op {
        Err(WireError::BadOpcode { observed: s[0] })
    } else if s[5] != STATUS_OK {
        Ok((bytes::u32_at(s, 1), s[5], None))
    } else if s.len() < 10 || s.len() < 10 + bytes::u32_at(s, 6) {
        Err(WireError::Truncated)
    } else {
        Ok((bytes::u32_at(s, 1), s[5], Some(s.subrange(10, 10 + bytes::u32_at(s, 6)))))
    }
}

fn decode_body_ack(src: &[u8], op: u8) -> (r: Result<(u32, u8, Option<&[u8]>), WireError>)
    ensures
        match r {
            Ok(d) => body_ack_parse(src@, op) == Ok::<(u32, u8, Option<Seq<u8>>), WireError>(
                (d.0, d.1, slice_bytes(d.2)),
            ),
            Err(e) => body_ack_parse(src@, op) == Err::<(u32, u8, Option<Seq<u8>>), WireError>(e),
        },
{
    if src.len() < 6 {
        return Err(WireError::Truncated);
    }
    if src[0] != op {
        return Err(WireError::BadOpcode { observed: src[0] });
    }
    let cid: u32 = bytes::get_u32(src, 1);
    let status: u8 = src[5];
    if status != STATUS_OK {
        return Ok((cid, status, None));
    }
    if src.len() < 10 {
        return Err(WireError::Truncated);
    }
    let end: u64 = 10 + bytes::get_u32(src, 6) as u64;
    if (src.len() as u64) < end {
        return Err(WireError::Truncated);
    }
    Ok((cid, status, Some(slice_subrange(src, 10, end as usize))))
}

/// Decoding an answer with bytes, whatever follows it, gives it back. An answer
/// with bytes reports success; one without must not.
pub proof fn lemma_body_ack_round_trip(op: u8, correlation_id: u32, status: u8, body: Option<Seq<u8>>, rest: Seq<u8>)
    requires
        body matches Some(b) ==> b.len() <= u32::MAX,
        body is None ==> status != STATUS_OK,
    ensures
        body_ack_parse(body_ack_frame(op, correlation_id, status, body) + rest, op) == Ok::<
            (u32, u8, Option<Seq<u8>>),
            WireError,
        >((correlation_id, if body.is_some() { STATUS_OK } else { status }, body)),
{
    let s = body_ack_frame(op, correlation_id, status, body) + rest;
    assert(s[0] == op);
    assert(s.subrange(1, 5) =~= bytes::le32(correlation_id));
    bytes::lemma_u32_at(s, 1, correlation_id);
    match body {
        Some(b) => {
            assert(s[5] == STATUS_OK);
            assert(s.subrange(6, 10) =~= bytes::le32(b.len() as u32));
            bytes::lemma_u32_at(s, 6, b.len() as u32);
            assert(s.subrange(10, (10 + b.len()) as int) =~= b);
        },
        None => {
            assert(s[5] == status);
        },
    }
}

/// Why the answer to a get is not written: success without a body has no encoding.
pub open spec fn get_body_ack_refusal(room: nat, correlation_id: u32, status: u8, body: Option<Seq<u8>>) -> Option<
    WireError,
> {
    if status == STATUS_OK && body is None {
        Some(WireError::BufferTooSmall { needed: 0, actual: 0 })
    } else {
        no_room(room, body_ack_frame(OP_GET_BODY, correlation_id, status, body_if_ok(status, body)).len())
    }
}

/// Write the answer to a request for a body. Without success no body is sent.
pub fn encode_admin_get_body_ack(dst: &mut [u8], correlation_id: u32, status: u8, body: Option<&[u8]>) -> (r: Result<
    usize,
    WireError,
>)
    requires
        body matches Some(b) ==> b@.len() <= u32::MAX && 10 + b@.len() <= usize::MAX,
    ensures
        bytes::encodes(
            r,
            old(dst)@,
            final(dst)@,
            get_body_ack_refusal(old(dst)@.len(), correlation_id, status, slice_bytes(body)),
            body_ack_frame(OP_GET_BODY, correlation_id, status, body_if_ok(status, slice_bytes(body))),
        ),
{
    if status == STATUS_OK {
        match body {
            Some(b) => encode_body_ack(dst, OP_GET_BODY, correlation_id, status, Some(b)),
            None => Err(WireError::BufferTooSmall { needed: 0, actual: 0 }),
        }
    } else {
        encode_body_ack(dst, OP_GET_BODY, correlation_id, status, None)
    }
}

/// Decode the answer to a request for a body.
pub fn decode_admin_get_body_ack(src: &[u8]) -> (r: Result<(u32, u8, Option<&[u8]>), WireError>)
    ensures
        match r {
            Ok(d) => body_ack_parse(src@, OP_GET_BODY) == Ok::<(u32, u8, Option<Seq<u8>>), WireError>(
                (d.0, d.1, slice_bytes(d.2)),
            ),
            Err(e) => body_ack_parse(src@, OP_GET_BODY) == Err::<(u32, u8, Option<Seq<u8>>), WireError>(e),
        },
{
    decode_body_ack(src, OP_GET_BODY)
}

/// Write the answer to a request for a file. The status counts only without a body.
pub fn encode_admin_get_file_ack(dst: &mut [u8], correlation_id: u32, status: u8, body: Option<&[u8]>) -> (r: Result<
    usize,
    WireError,
>)
    requires
        body matches Some(b) ==> b@.len() <= u32::MAX && 10 + b@.len() <= usize::MAX,
    ensures
        bytes::encodes(
            r,
            old(dst)@,
            final(dst)@,
            no_room(old(dst)@.len(), body_ack_frame(OP_GET_FILE, correlation_id, status, slice_bytes(body)).len()),
            body_ack_frame(OP_GET_FILE, correlation_id, status, slice_bytes(body)),
        ),
{
    encode_body_ack(dst, OP_GET_FILE, correlation_id, status, body)
}

/// Decode the answer to a request for a file.
pub fn decode_admin_get_file_ack(src: &[u8]) -> (r: Result<(u32, u8, Option<&[u8]>), WireError>)
    ensures
        match r {
            Ok(d) => body_ack_parse(src@, OP_GET_FILE) == Ok::<(u32, u8, Option<Seq<u8>>), WireError>(
                (d.0, d.1, slice_bytes(d.2)),
            ),
            Err(e) => body_ack_parse(src@, OP_GET_FILE) == Err::<(u32, u8, Option<Seq<u8>>), WireError>(e),
        },
{
    decode_body_ack(src, OP_GET_FILE)
}

/// Write the answer to a request for a part of a file. The status counts only
/// without bytes.
pub fn encode_read_file_range_ack(dst: &mut [u8], correlation_id: u32, status: u8, part: Option<&[u8]>) -> (r: Result<
    usize,
    WireError,
>)
    requires
        part matches Some(b) ==> b@.len() <= u32::MAX && 10 + b@.len() <= usize::MAX,
    ensures
        bytes::encodes(
            r,
            old(dst)@,
            final(dst)@,
            no_room(
                old(dst)@.len(),
                body_ack_frame(OP_READ_FILE_RANGE, correlation_id, status, slice_bytes(part)).len(),
            ),
            body_ack_frame(OP_READ_FILE_RANGE, correlation_id, status, slice_bytes(part)),
        ),
{
    encode_body_ack(dst, OP_READ_FILE_RANGE, correlation_id, status, part)
}

/// Decode the answer to a request for a part of a file.
pub fn decode_read_file_range_ack(src: &[u8]) -> (r: Result<(u32, u8, Option<&[u8]>), WireError>)
    ensures
        match r {
            Ok(d) => body_ack_parse(src@, OP_READ_FILE_RANGE) == Ok::<(u32, u8, Option<Seq<u8>>), WireError>(
                (d.0, d.1, slice_bytes(d.2)),
            ),
            Err(e) => body_ack_parse(src@, OP_READ_FILE_RANGE) == Err::<(u32, u8, Option<Seq<u8>>), WireError>(e),
        },
{
    decode_body_ack(src, OP_READ_FILE_RANGE)
}

/// The bytes of a page of files: `entries` are the paths, each behind its length.
pub open spec fn list_files_ack_frame(
    correlation_id: u32,
    status: u8,
    next_cursor: u32,
    count: u8,
    entries: Seq<u8>,
) -> Seq<u8> {
    if status != STATUS_OK {
        ack_frame(OP_LIST_FILES, correlation_id, status)
    } else {
        ack_frame(OP_LIST_FILES, correlation_id, STATUS_OK) + bytes::le32(next_cursor) + seq![count] + entries
    }
}

/// Write a page of files. Without success no page is sent.
pub fn encode_admin_list_files_ack(
    dst: &mut [u8],
    correlation_id: u32,
    status: u8,
    next_cursor: u32,
    count: u8,
    entries: &[u8],
) -> (r: Result<usize, WireError>)
    requires
        status == STATUS_OK ==> 11 + entries@.len() <= usize::MAX,
    ensures
        bytes::encodes(
            r,
            old(dst)@,
            final(dst)@,
            no_room(
                old(dst)@.len(),
                list_files_ack_frame(correlation_id, status, next_cursor, count, entries@).len(),
            ),
            list_files_ack_frame(correlation_id, status, next_cursor, count, entries@),
        ),
{
    broadcast use bytes::lemma_write_first, bytes::lemma_write_next;

    if status != STATUS_OK {
        return encode_body_ack(dst, OP_LIST_FILES, correlation_id, status, None);
    }
    let needed: usize = 11 + entries.len();
    if dst.len() < needed {
        return Err(WireError::BufferTooSmall { needed, actual: dst.len() });
    }
    bytes::put_u8(dst, 0, OP_LIST_FILES);
    bytes::put_u32(dst, 1, correlation_id);
    bytes::put_u8(dst, 5, STATUS_OK);
    bytes::put_u32(dst, 6, next_cursor);
    bytes::put_u8(dst, 10, count);
    bytes::put_bytes(dst, 11, entries);
    Ok(needed)
}

/// What `decode_admin_list_files_ack` makes of `s`.
pub open spec fn list_files_ack_parse(s: Seq<u8>) -> Result<(u32, u8, u32, Seq<Seq<u8>>), WireError> {
    if s.len() < 6 {
        Err(WireError::Truncated)
    } else if s[0] != OP_LIST_FILES {
        Err(WireError::BadOpcode { observed: s[0] })
    } else if s[5] != STATUS_OK {
        Ok((bytes::u32_at(s, 1), s[5], 0, Seq::empty()))
    } else if s.len() < 11 {
        Err(WireError::Truncated)
    } else {
        match path_list::entries_parse(s, 11, s[10] as nat) {
            Some(paths) => Ok((bytes::u32_at(s, 1), s[5], bytes::u32_at(s, 6), paths)),
            None => Err(WireError::Truncated),
        }
    }
}

/// Decode a page of files: correlation id, status, next cursor, and the paths in order.
pub fn decode_admin_list_files_ack(src: &[u8]) -> (r: Result<(u32, u8, u32, Vec<&[u8]>), WireError>)
    ensures
        match r {
            Ok(d) => list_files_ack_parse(src@) == Ok::<(u32, u8, u32, Seq<Seq<u8>>), WireError>(
                (d.0, d.1, d.2, path_list::contents(d.3@)),
            ),
            Err(e) => list_files_ack_parse(src@) == Err::<(u32, u8, u32, Seq<Seq<u8>>), WireError>(e),
        },
{
    if src.len() < 6 {
        return Err(WireError::Truncated);
    }
    if src[0] != OP_LIST_FILES {
        return Err(WireError::BadOpcode { observed: src[0] });
    }
    let cid: u32 = bytes::get_u32(src, 1);
    let status: u8 = src[5];
    if status != STATUS_OK {
        let none: Vec<&[u8]> = Vec::new();
        assert(path_list::contents(none@) =~= Seq::empty());
        return Ok((cid, status, 0, none));
    }
    if src.len() < 11 {
        return Err(WireError::Truncated);
    }
    match path_list::get_entries(src, 11, src[10] as usize) {
        Some(paths) => Ok((cid, status, bytes::get_u32(src, 6), paths)),
        None => Err(WireError::Truncated),
    }
}

/// Decoding a page of files, whatever follows it, gives its cursor and paths back.
pub proof fn lemma_list_files_ack_round_trip(
    correlation_id: u32,
    status: u8,
    next_cursor: u32,
    paths: Seq<Seq<u8>>,
    rest: Seq<u8>,
)
    requires
        paths.len() <= 255,
        path_list::all_short(paths),
    ensures
        list_files_ack_parse(
            list_files_ack_frame(
                correlation_id,
                status,
                next_cursor,
                paths.len() as u8,
                path_list::entries(paths),
            ) + rest,
        ) == Ok::<(u32, u8, u32, Seq<Seq<u8>>), WireError>(
            if status == STATUS_OK {
                (correlation_id, status, next_cursor, paths)
            } else {
                (correlation_id, status, 0u32, Seq::empty())
            },
        ),
{
    let f = list_files_ack_frame(correlation_id, status, next_cursor, paths.len() as u8, path_list::entries(paths));
    let s = f + rest;
    assert(s[0] == OP_LIST_FILES && s[5] == status);
    assert(s.subrange(1, 5) =~= bytes::le32(correlation_id));
    bytes::lemma_u32_at(s, 1, correlation_id);
    if status == STATUS_OK {
        let head = ack_frame(OP_LIST_FILES, correlation_id, STATUS_OK) + bytes::le32(next_cursor) + seq![
            paths.len() as u8,
        ];
        assert(s =~= head + path_list::entries(paths) + rest);
        assert(s.subrange(6, 10) =~= bytes::le32(next_cursor));
        bytes::lemma_u32_at(s, 6, next_cursor);
        assert(s[10] == paths.len());
        path_list::lemma_entries_round_trip(head, paths, rest);
    }
}

/// The opcode of a record, if there is one.
pub fn peek_opcode(src: &[u8]) -> (r: Option<u8>)
    ensures
        r == if src@.len() == 0 {
            None::<u8>
        } else {
            Some(src@[0])
        },
{
    if src.len() == 0 {
        None
    } else {
        Some(src[0])
    }
}

} // verus!
