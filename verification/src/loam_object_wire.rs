//! The object wire format: descriptions of objects.
//!
//! ```text
//! Put, Update  [4 or 5][id_len:u16][ns_len:u16][key_len:u16][hash_len:u16][size:u64][revision:u64]
//!              [data_class][replicas][has_erasure][data][parity][id][ns][key][hash]
//! Remove       [6][id_len:u16][id]
//! GetReq       [7][id_len:u16][id]
//! GetResp      [7][1][size:u64][revision:u64][data_class][replicas][has_erasure][data][parity]  or  [7][0]
//! ```
use crate::bytes;
use crate::loam_limits;
use vstd::prelude::*;
use vstd::slice::slice_subrange;

verus! {

pub const OP_OBJ_PUT: u8 = 4;

pub const OP_OBJ_UPDATE: u8 = 5;

pub const OP_OBJ_REMOVE: u8 = 6;

pub const OP_OBJ_GET: u8 = 7;

pub const OBJ_FOUND: u8 = 1;

pub const OBJ_NOT_FOUND: u8 = 0;

pub const DATA_CLASS_LOCAL: u8 = 0;

pub const DATA_CLASS_REPLICATED: u8 = 1;

pub const DATA_CLASS_ERASURE_CODED: u8 = 2;

pub const DATA_CLASS_REMOTE_CACHED: u8 = 3;

/// Longest string of this format; the parts of a key have lower ceilings.
pub const MAX_STRING: usize = 4096;

/// Length of the fixed part of a description.
pub const PUT_HEADER: usize = 30;

#[derive(Debug, Clone, Copy, PartialEq, Eq, Structural)]
pub enum WireError {
    BufferTooSmall { needed: usize, actual: usize },
    Truncated,
    BadOpcode { observed: u8 },
    BadDataClass { observed: u8 },
    StringTooLong { len: usize, max: usize },
}

/// The refusal of a key with components of these lengths.
pub open spec fn key_refusal(root: nat, path: nat, object_id: nat) -> Option<WireError> {
    match loam_limits::key_verdict(root, path, object_id) {
        Ok(_) => None,
        Err(e) => Some(WireError::StringTooLong { len: e.len, max: e.max }),
    }
}

/// Refuse a key with a component over its ceiling.
fn check_key(root: usize, path: usize, object_id: usize) -> (r: Result<(), WireError>)
    ensures
        r == match key_refusal(root as nat, path as nat, object_id as nat) {
            None => Ok::<(), WireError>(()),
            Some(e) => Err::<(), WireError>(e),
        },
{
    match loam_limits::check_lengths(root, path, object_id) {
        Ok(()) => Ok(()),
        Err(e) => Err(WireError::StringTooLong { len: e.len, max: e.max }),
    }
}

/// The refusal of a buffer with less room than needed.
pub open spec fn no_room(room: nat, needed: nat) -> Option<WireError> {
    if room < needed {
        Some(WireError::BufferTooSmall { needed: needed as usize, actual: room as usize })
    } else {
        None
    }
}

/// A flag, and the two numbers where it is set.
pub open spec fn optional_pair(v: Option<(u8, u8)>) -> Seq<u8> {
    match v {
        Some((a, b)) => seq![1u8, a, b],
        None => seq![0u8, 0u8, 0u8],
    }
}

/// The optional pair that stands at `i`.
pub open spec fn optional_pair_at(s: Seq<u8>, i: int) -> Option<(u8, u8)> {
    if s[i] != 0 {
        Some((s[i + 1], s[i + 2]))
    } else {
        None
    }
}

proof fn lemma_optional_pair_at(s: Seq<u8>, i: int, v: Option<(u8, u8)>)
    requires
        0 <= i,
        i + 3 <= s.len(),
        s.subrange(i, i + 3) == optional_pair(v),
    ensures
        optional_pair_at(s, i) == v,
{
    let t = s.subrange(i, i + 3);
    assert(t[0] == s[i] && t[1] == s[i + 1] && t[2] == s[i + 2]);
}

fn put_optional_pair(dst: &mut [u8], at: usize, v: Option<(u8, u8)>)
    requires
        at + 3 <= old(dst)@.len(),
    ensures
        final(dst)@.len() == old(dst)@.len(),
        final(dst)@ == bytes::splice(old(dst)@, at as int, optional_pair(v)),
{
    let b: [u8; 3] = match v {
        Some((d, p)) => [1, d, p],
        None => [0, 0, 0],
    };
    assert(b@ =~= optional_pair(v));
    bytes::put_bytes(dst, at, b.as_slice());
}

fn get_optional_pair(src: &[u8], i: usize) -> (r: Option<(u8, u8)>)
    requires
        i + 3 <= src@.len(),
    ensures
        r == optional_pair_at(src@, i as int),
{
    let size: usize = src.len();
    assert(i + 3 <= size);
    if src[i] != 0 {
        Some((src[i + 1], src[i + 2]))
    } else {
        None
    }
}

/// The bytes of a description of an object.
pub open spec fn put_frame(op: u8, id: Seq<u8>, namespace: Seq<u8>, key: Seq<u8>, content_hash: Seq<u8>, size_bytes: u64, revision: u64, data_class: u8, replica_count: u8, erasure: Option<(u8, u8)>) -> Seq<u8> {
    seq![op] + bytes::le16(id.len() as u16) + bytes::le16(namespace.len() as u16) + bytes::le16(key.len() as u16) + bytes::le16(content_hash.len() as u16) + bytes::le64(size_bytes) + bytes::le64(revision) + seq![data_class] + seq![replica_count] + optional_pair(erasure) + id + namespace + key + content_hash
}

/// Why a description of an object is not written to a buffer with this much room.
pub open spec fn put_refusal(room: nat, op: u8, id: Seq<u8>, namespace: Seq<u8>, key: Seq<u8>, content_hash: Seq<u8>, size_bytes: u64, revision: u64, data_class: u8, replica_count: u8, erasure: Option<(u8, u8)>) -> Option<WireError> {
    match key_refusal(namespace.len(), key.len(), id.len()) {
        Some(e) => Some(e),
        None => if content_hash.len() > MAX_STRING {
            Some(WireError::StringTooLong { len: content_hash.len() as usize, max: MAX_STRING })
        } else {
            no_room(room, put_frame(op, id, namespace, key, content_hash, size_bytes, revision, data_class, replica_count, erasure).len())
        },
    }
}

/// Write a description of an object to the start of `dst`. Returns its length.
fn encode_put_inner(dst: &mut [u8], op: u8, id: &[u8], namespace: &[u8], key: &[u8], content_hash: &[u8], size_bytes: u64, revision: u64, data_class: u8, replica_count: u8, erasure: Option<(u8, u8)>) -> (r: Result<usize, WireError>)
    ensures
        bytes::encodes(
            r,
            old(dst)@,
            final(dst)@,
            put_refusal(old(dst)@.len(), op, id@, namespace@, key@, content_hash@, size_bytes, revision, data_class, replica_count, erasure),
            put_frame(op, id@, namespace@, key@, content_hash@, size_bytes, revision, data_class, replica_count, erasure),
        ),
{
    broadcast use bytes::lemma_write_first, bytes::lemma_write_next;

    match check_key(namespace.len(), key.len(), id.len()) {
        Ok(()) => {},
        Err(e) => {
            return Err(e);
        },
    }
    if content_hash.len() > MAX_STRING {
        return Err(WireError::StringTooLong { len: content_hash.len(), max: MAX_STRING });
    }
    let needed: usize = 30 + id.len() + namespace.len() + key.len() + content_hash.len();
    if dst.len() < needed {
        return Err(WireError::BufferTooSmall { needed, actual: dst.len() });
    }
    bytes::put_u8(dst, 0, op);
    bytes::put_u16(dst, 1, id.len() as u16);
    bytes::put_u16(dst, 3, namespace.len() as u16);
    bytes::put_u16(dst, 5, key.len() as u16);
    bytes::put_u16(dst, 7, content_hash.len() as u16);
    bytes::put_u64(dst, 9, size_bytes);
    bytes::put_u64(dst, 17, revision);
    bytes::put_u8(dst, 25, data_class);
    bytes::put_u8(dst, 26, replica_count);
    put_optional_pair(dst, 27, erasure);
    bytes::put_bytes(dst, 30, id);
    bytes::put_bytes(dst, 30 + id.len(), namespace);
    bytes::put_bytes(dst, 30 + id.len() + namespace.len(), key);
    bytes::put_bytes(dst, 30 + id.len() + namespace.len() + key.len(), content_hash);
    Ok(needed)
}

/// The description of an object.
#[derive(Debug, Clone, Copy, PartialEq, Eq)]
pub struct PutFields<'a> {
    pub id: &'a [u8],
    pub namespace: &'a [u8],
    pub key: &'a [u8],
    pub content_hash: &'a [u8],
    pub size_bytes: u64,
    pub revision: u64,
    pub data_class: u8,
    pub replica_count: u8,
    pub erasure: Option<(u8, u8)>,
}

/// What `decode_put_inner` makes of `s`.
pub open spec fn put_parse(s: Seq<u8>, op: u8) -> Result<(Seq<u8>, Seq<u8>, Seq<u8>, Seq<u8>, u64, u64, u8, u8, Option<(u8, u8)>), WireError> {
    if s.len() < 30 {
        Err(WireError::Truncated)
    } else if s[0] != op {
        Err(WireError::BadOpcode { observed: s[0] })
    } else if s[25] > DATA_CLASS_REMOTE_CACHED {
        Err(WireError::BadDataClass { observed: s[25] })
    } else {
        let id_end = 30 + bytes::u16_at(s, 1);
        let namespace_end = id_end + bytes::u16_at(s, 3);
        let key_end = namespace_end + bytes::u16_at(s, 5);
        let content_hash_end = key_end + bytes::u16_at(s, 7);
        if s.len() < content_hash_end {
            Err(WireError::Truncated)
        } else {
            match key_refusal(bytes::u16_at(s, 3) as nat, bytes::u16_at(s, 5) as nat, bytes::u16_at(s, 1) as nat) {
                Some(e) => Err(e),
                None => Ok((s.subrange(30, id_end), s.subrange(id_end, namespace_end), s.subrange(namespace_end, key_end), s.subrange(key_end, content_hash_end), bytes::u64_at(s, 9), bytes::u64_at(s, 17), s[25], s[26], optional_pair_at(s, 27))),
            }
        }
    }
}

/// Decode a description of an object.
fn decode_put_inner(src: &[u8], op: u8) -> (r: Result<PutFields<'_>, WireError>)
    ensures
        match r {
            Ok(d) => put_parse(src@, op) == Ok::<(Seq<u8>, Seq<u8>, Seq<u8>, Seq<u8>, u64, u64, u8, u8, Option<(u8, u8)>), WireError>((d.id@, d.namespace@, d.key@, d.content_hash@, d.size_bytes, d.revision, d.data_class, d.replica_count, d.erasure)),
            Err(e) => put_parse(src@, op) == Err::<(Seq<u8>, Seq<u8>, Seq<u8>, Seq<u8>, u64, u64, u8, u8, Option<(u8, u8)>), WireError>(e),
        },
{
    if src.len() < 30 {
        return Err(WireError::Truncated);
    }
    if src[0] != op {
        return Err(WireError::BadOpcode { observed: src[0] });
    }
    if src[25] > DATA_CLASS_REMOTE_CACHED {
        return Err(WireError::BadDataClass { observed: src[25] });
    }
    let id_end: usize = 30 + bytes::get_u16(src, 1) as usize;
    let namespace_end: usize = id_end + bytes::get_u16(src, 3) as usize;
    let key_end: usize = namespace_end + bytes::get_u16(src, 5) as usize;
    let content_hash_end: usize = key_end + bytes::get_u16(src, 7) as usize;
    if src.len() < content_hash_end {
        return Err(WireError::Truncated);
    }
    match check_key(bytes::get_u16(src, 3) as usize, bytes::get_u16(src, 5) as usize, bytes::get_u16(src, 1) as usize) {
        Ok(()) => {},
        Err(e) => {
            return Err(e);
        },
    }
    Ok(
        PutFields {
            id: slice_subrange(src, 30, id_end),
            namespace: slice_subrange(src, id_end, namespace_end),
            key: slice_subrange(src, namespace_end, key_end),
            content_hash: slice_subrange(src, key_end, content_hash_end),
            size_bytes: bytes::get_u64(src, 9),
            revision: bytes::get_u64(src, 17),
            data_class: src[25],
            replica_count: src[26],
            erasure: get_optional_pair(src, 27),
        },
    )
}

/// Decoding what was encoded, whatever follows it, gives the parts back.
#[verifier::rlimit(60)]
pub proof fn lemma_put_round_trip(op: u8, id: Seq<u8>, namespace: Seq<u8>, key: Seq<u8>, content_hash: Seq<u8>, size_bytes: u64, revision: u64, data_class: u8, replica_count: u8, erasure: Option<(u8, u8)>, rest: Seq<u8>)
    requires
        loam_limits::key_verdict(namespace.len(), key.len(), id.len()) is Ok,
        content_hash.len() <= u16::MAX,
        data_class <= DATA_CLASS_REMOTE_CACHED,
    ensures
        put_parse(put_frame(op, id, namespace, key, content_hash, size_bytes, revision, data_class, replica_count, erasure) + rest, op) == Ok::<(Seq<u8>, Seq<u8>, Seq<u8>, Seq<u8>, u64, u64, u8, u8, Option<(u8, u8)>), WireError>((id, namespace, key, content_hash, size_bytes, revision, data_class, replica_count, erasure)),
{
    broadcast use bytes::lemma_subrange_left, bytes::lemma_subrange_right;

    let s = put_frame(op, id, namespace, key, content_hash, size_bytes, revision, data_class, replica_count, erasure) + rest;
    assert(s[0] == seq![op][0]);
    assert(s.subrange(1, 3) == bytes::le16(id.len() as u16));
    bytes::lemma_u16_at(s, 1, id.len() as u16);
    assert(s.subrange(3, 5) == bytes::le16(namespace.len() as u16));
    bytes::lemma_u16_at(s, 3, namespace.len() as u16);
    assert(s.subrange(5, 7) == bytes::le16(key.len() as u16));
    bytes::lemma_u16_at(s, 5, key.len() as u16);
    assert(s.subrange(7, 9) == bytes::le16(content_hash.len() as u16));
    bytes::lemma_u16_at(s, 7, content_hash.len() as u16);
    assert(s.subrange(9, 17) == bytes::le64(size_bytes));
    bytes::lemma_u64_at(s, 9, size_bytes);
    assert(s.subrange(17, 25) == bytes::le64(revision));
    bytes::lemma_u64_at(s, 17, revision);
    assert(s[25] == seq![data_class][0]);
    assert(s[26] == seq![replica_count][0]);
    assert(s.subrange(27, 30) == optional_pair(erasure));
    lemma_optional_pair_at(s, 27, erasure);
    assert(s.subrange(30, (30 + id.len()) as int) == id);
    assert(s.subrange((30 + id.len()) as int, (30 + id.len() + namespace.len()) as int) == namespace);
    assert(s.subrange((30 + id.len() + namespace.len()) as int, (30 + id.len() + namespace.len() + key.len()) as int) == key);
    assert(s.subrange((30 + id.len() + namespace.len() + key.len()) as int, (30 + id.len() + namespace.len() + key.len() + content_hash.len()) as int) == content_hash);
}

/// The bytes of a removal.
pub open spec fn remove_frame(id: Seq<u8>) -> Seq<u8> {
    seq![OP_OBJ_REMOVE] + bytes::le16(id.len() as u16) + id
}

/// Why a removal is not written to a buffer with this much room.
pub open spec fn remove_refusal(room: nat, id: Seq<u8>) -> Option<WireError> {
    match key_refusal(0, 0, id.len()) {
        Some(e) => Some(e),
        None => no_room(room, remove_frame(id).len()),
    }
}

/// Write a removal to the start of `dst`. Returns its length.
pub fn encode_remove(dst: &mut [u8], id: &[u8]) -> (r: Result<usize, WireError>)
    ensures
        bytes::encodes(
            r,
            old(dst)@,
            final(dst)@,
            remove_refusal(old(dst)@.len(), id@),
            remove_frame(id@),
        ),
{
    broadcast use bytes::lemma_write_first, bytes::lemma_write_next;

    match check_key(0, 0, id.len()) {
        Ok(()) => {},
        Err(e) => {
            return Err(e);
        },
    }
    let needed: usize = 3 + id.len();
    if dst.len() < needed {
        return Err(WireError::BufferTooSmall { needed, actual: dst.len() });
    }
    bytes::put_u8(dst, 0, OP_OBJ_REMOVE);
    bytes::put_u16(dst, 1, id.len() as u16);
    bytes::put_bytes(dst, 3, id);
    Ok(needed)
}

/// A removal, decoded.
#[derive(Debug, Clone, Copy, PartialEq, Eq)]
pub struct DecodedRemove<'a> {
    pub id: &'a [u8],
}

/// What `decode_remove` makes of `s`.
pub open spec fn remove_parse(s: Seq<u8>) -> Result<Seq<u8>, WireError> {
    if s.len() < 3 {
        Err(WireError::Truncated)
    } else if s[0] != OP_OBJ_REMOVE {
        Err(WireError::BadOpcode { observed: s[0] })
    } else {
        let id_end = 3 + bytes::u16_at(s, 1);
        if s.len() < id_end {
            Err(WireError::Truncated)
        } else {
            match key_refusal(0, 0, bytes::u16_at(s, 1) as nat) {
                Some(e) => Err(e),
                None => Ok(s.subrange(3, id_end)),
            }
        }
    }
}

/// Decode a removal.
pub fn decode_remove(src: &[u8]) -> (r: Result<DecodedRemove<'_>, WireError>)
    ensures
        match r {
            Ok(d) => remove_parse(src@) == Ok::<Seq<u8>, WireError>(d.id@),
            Err(e) => remove_parse(src@) == Err::<Seq<u8>, WireError>(e),
        },
{
    if src.len() < 3 {
        return Err(WireError::Truncated);
    }
    if src[0] != OP_OBJ_REMOVE {
        return Err(WireError::BadOpcode { observed: src[0] });
    }
    let id_end: usize = 3 + bytes::get_u16(src, 1) as usize;
    if src.len() < id_end {
        return Err(WireError::Truncated);
    }
    match check_key(0, 0, bytes::get_u16(src, 1) as usize) {
        Ok(()) => {},
        Err(e) => {
            return Err(e);
        },
    }
    Ok(
        DecodedRemove {
            id: slice_subrange(src, 3, id_end),
        },
    )
}

/// Decoding what was encoded, whatever follows it, gives the parts back.
pub proof fn lemma_remove_round_trip(id: Seq<u8>, rest: Seq<u8>)
    requires
        loam_limits::key_verdict(0, 0, id.len()) is Ok,
    ensures
        remove_parse(remove_frame(id) + rest) == Ok::<Seq<u8>, WireError>(id),
{
    broadcast use bytes::lemma_subrange_left, bytes::lemma_subrange_right;

    let s = remove_frame(id) + rest;
    assert(s[0] == seq![OP_OBJ_REMOVE][0]);
    assert(s.subrange(1, 3) == bytes::le16(id.len() as u16));
    bytes::lemma_u16_at(s, 1, id.len() as u16);
    assert(s.subrange(3, (3 + id.len()) as int) == id);
}

/// The bytes of a request for a description.
pub open spec fn get_req_frame(id: Seq<u8>) -> Seq<u8> {
    seq![OP_OBJ_GET] + bytes::le16(id.len() as u16) + id
}

/// Why a request for a description is not written to a buffer with this much room.
pub open spec fn get_req_refusal(room: nat, id: Seq<u8>) -> Option<WireError> {
    match key_refusal(0, 0, id.len()) {
        Some(e) => Some(e),
        None => no_room(room, get_req_frame(id).len()),
    }
}

/// Write a request for a description to the start of `dst`. Returns its length.
pub fn encode_get_req(dst: &mut [u8], id: &[u8]) -> (r: Result<usize, WireError>)
    ensures
        bytes::encodes(
            r,
            old(dst)@,
            final(dst)@,
            get_req_refusal(old(dst)@.len(), id@),
            get_req_frame(id@),
        ),
{
    broadcast use bytes::lemma_write_first, bytes::lemma_write_next;

    match check_key(0, 0, id.len()) {
        Ok(()) => {},
        Err(e) => {
            return Err(e);
        },
    }
    let needed: usize = 3 + id.len();
    if dst.len() < needed {
        return Err(WireError::BufferTooSmall { needed, actual: dst.len() });
    }
    bytes::put_u8(dst, 0, OP_OBJ_GET);
    bytes::put_u16(dst, 1, id.len() as u16);
    bytes::put_bytes(dst, 3, id);
    Ok(needed)
}

/// What `decode_get_req` makes of `s`.
pub open spec fn get_req_parse(s: Seq<u8>) -> Result<Seq<u8>, WireError> {
    if s.len() < 3 {
        Err(WireError::Truncated)
    } else if s[0] != OP_OBJ_GET {
        Err(WireError::BadOpcode { observed: s[0] })
    } else {
        let id_end = 3 + bytes::u16_at(s, 1);
        if s.len() < id_end {
            Err(WireError::Truncated)
        } else {
            match key_refusal(0, 0, bytes::u16_at(s, 1) as nat) {
                Some(e) => Err(e),
                None => Ok(s.subrange(3, id_end)),
            }
        }
    }
}

/// Decode a request for a description.
pub fn decode_get_req(src: &[u8]) -> (r: Result<&[u8], WireError>)
    ensures
        match r {
            Ok(d) => get_req_parse(src@) == Ok::<Seq<u8>, WireError>(d@),
            Err(e) => get_req_parse(src@) == Err::<Seq<u8>, WireError>(e),
        },
{
    if src.len() < 3 {
        return Err(WireError::Truncated);
    }
    if src[0] != OP_OBJ_GET {
        return Err(WireError::BadOpcode { observed: src[0] });
    }
    let id_end: usize = 3 + bytes::get_u16(src, 1) as usize;
    if src.len() < id_end {
        return Err(WireError::Truncated);
    }
    match check_key(0, 0, bytes::get_u16(src, 1) as usize) {
        Ok(()) => {},
        Err(e) => {
            return Err(e);
        },
    }
    Ok(slice_subrange(src, 3, id_end))
}

/// Decoding what was encoded, whatever follows it, gives the parts back.
pub proof fn lemma_get_req_round_trip(id: Seq<u8>, rest: Seq<u8>)
    requires
        loam_limits::key_verdict(0, 0, id.len()) is Ok,
    ensures
        get_req_parse(get_req_frame(id) + rest) == Ok::<Seq<u8>, WireError>(id),
{
    broadcast use bytes::lemma_subrange_left, bytes::lemma_subrange_right;

    let s = get_req_frame(id) + rest;
    assert(s[0] == seq![OP_OBJ_GET][0]);
    assert(s.subrange(1, 3) == bytes::le16(id.len() as u16));
    bytes::lemma_u16_at(s, 1, id.len() as u16);
    assert(s.subrange(3, (3 + id.len()) as int) == id);
}

/// Write a description to put.
pub fn encode_put(dst: &mut [u8], p: &PutFields<'_>) -> (r: Result<usize, WireError>)
    ensures
        bytes::encodes(
            r,
            old(dst)@,
            final(dst)@,
            put_refusal(
                old(dst)@.len(),
                OP_OBJ_PUT,
                p.id@,
                p.namespace@,
                p.key@,
                p.content_hash@,
                p.size_bytes,
                p.revision,
                p.data_class,
                p.replica_count,
                p.erasure,
            ),
            put_frame(
                OP_OBJ_PUT,
                p.id@,
                p.namespace@,
                p.key@,
                p.content_hash@,
                p.size_bytes,
                p.revision,
                p.data_class,
                p.replica_count,
                p.erasure,
            ),
        ),
{
    encode_put_inner(
        dst,
        OP_OBJ_PUT,
        p.id,
        p.namespace,
        p.key,
        p.content_hash,
        p.size_bytes,
        p.revision,
        p.data_class,
        p.replica_count,
        p.erasure,
    )
}

/// Decode a description to put.
pub fn decode_put(src: &[u8]) -> (r: Result<PutFields<'_>, WireError>)
    ensures
        match r {
            Ok(d) => put_parse(src@, OP_OBJ_PUT) == Ok::<
                (Seq<u8>, Seq<u8>, Seq<u8>, Seq<u8>, u64, u64, u8, u8, Option<(u8, u8)>),
                WireError,
            >(
                (
                    d.id@,
                    d.namespace@,
                    d.key@,
                    d.content_hash@,
                    d.size_bytes,
                    d.revision,
                    d.data_class,
                    d.replica_count,
                    d.erasure,
                ),
            ),
            Err(e) => put_parse(src@, OP_OBJ_PUT) == Err::<
                (Seq<u8>, Seq<u8>, Seq<u8>, Seq<u8>, u64, u64, u8, u8, Option<(u8, u8)>),
                WireError,
            >(e),
        },
{
    decode_put_inner(src, OP_OBJ_PUT)
}

/// Write a description to update.
pub fn encode_update(dst: &mut [u8], p: &PutFields<'_>) -> (r: Result<usize, WireError>)
    ensures
        bytes::encodes(
            r,
            old(dst)@,
            final(dst)@,
            put_refusal(
                old(dst)@.len(),
                OP_OBJ_UPDATE,
                p.id@,
                p.namespace@,
                p.key@,
                p.content_hash@,
                p.size_bytes,
                p.revision,
                p.data_class,
                p.replica_count,
                p.erasure,
            ),
            put_frame(
                OP_OBJ_UPDATE,
                p.id@,
                p.namespace@,
                p.key@,
                p.content_hash@,
                p.size_bytes,
                p.revision,
                p.data_class,
                p.replica_count,
                p.erasure,
            ),
        ),
{
    encode_put_inner(
        dst,
        OP_OBJ_UPDATE,
        p.id,
        p.namespace,
        p.key,
        p.content_hash,
        p.size_bytes,
        p.revision,
        p.data_class,
        p.replica_count,
        p.erasure,
    )
}

/// Decode a description to update.
pub fn decode_update(src: &[u8]) -> (r: Result<PutFields<'_>, WireError>)
    ensures
        match r {
            Ok(d) => put_parse(src@, OP_OBJ_UPDATE) == Ok::<
                (Seq<u8>, Seq<u8>, Seq<u8>, Seq<u8>, u64, u64, u8, u8, Option<(u8, u8)>),
                WireError,
            >(
                (
                    d.id@,
                    d.namespace@,
                    d.key@,
                    d.content_hash@,
                    d.size_bytes,
                    d.revision,
                    d.data_class,
                    d.replica_count,
                    d.erasure,
                ),
            ),
            Err(e) => put_parse(src@, OP_OBJ_UPDATE) == Err::<
                (Seq<u8>, Seq<u8>, Seq<u8>, Seq<u8>, u64, u64, u8, u8, Option<(u8, u8)>),
                WireError,
            >(e),
        },
{
    decode_put_inner(src, OP_OBJ_UPDATE)
}

/// The bytes of a found description.
pub open spec fn get_found_frame(
    size_bytes: u64,
    revision: u64,
    data_class: u8,
    replica_count: u8,
    erasure: Option<(u8, u8)>,
) -> Seq<u8> {
    seq![OP_OBJ_GET] + seq![OBJ_FOUND] + bytes::le64(size_bytes) + bytes::le64(revision) + seq![data_class] + seq![
        replica_count,
    ] + optional_pair(erasure)
}

/// Write a found description.
pub fn encode_get_found(
    dst: &mut [u8],
    size_bytes: u64,
    revision: u64,
    data_class: u8,
    replica_count: u8,
    erasure: Option<(u8, u8)>,
) -> (r: Result<usize, WireError>)
    ensures
        bytes::encodes(
            r,
            old(dst)@,
            final(dst)@,
            no_room(old(dst)@.len(), 23),
            get_found_frame(size_bytes, revision, data_class, replica_count, erasure),
        ),
{
    broadcast use bytes::lemma_write_first, bytes::lemma_write_next;

    if dst.len() < 23 {
        return Err(WireError::BufferTooSmall { needed: 23, actual: dst.len() });
    }
    bytes::put_u8(dst, 0, OP_OBJ_GET);
    bytes::put_u8(dst, 1, OBJ_FOUND);
    bytes::put_u64(dst, 2, size_bytes);
    bytes::put_u64(dst, 10, revision);
    bytes::put_u8(dst, 18, data_class);
    bytes::put_u8(dst, 19, replica_count);
    put_optional_pair(dst, 20, erasure);
    Ok(23)
}

/// Write that no description was found.
pub fn encode_get_not_found(dst: &mut [u8]) -> (r: Result<usize, WireError>)
    ensures
        bytes::encodes(
            r,
            old(dst)@,
            final(dst)@,
            no_room(old(dst)@.len(), 2),
            seq![OP_OBJ_GET] + seq![OBJ_NOT_FOUND],
        ),
{
    broadcast use bytes::lemma_write_first, bytes::lemma_write_next;

    if dst.len() < 2 {
        return Err(WireError::BufferTooSmall { needed: 2, actual: dst.len() });
    }
    bytes::put_u8(dst, 0, OP_OBJ_GET);
    bytes::put_u8(dst, 1, OBJ_NOT_FOUND);
    Ok(2)
}

/// The answer to a request for a description, decoded.
#[derive(Debug, Clone, Copy, PartialEq, Eq)]
pub enum DecodedGetResp {
    Found { size_bytes: u64, revision: u64, data_class: u8, replica_count: u8, erasure: Option<(u8, u8)> },
    NotFound,
}

/// What is made of the answer to a request for a description.
pub open spec fn get_resp_parse(s: Seq<u8>) -> Result<DecodedGetResp, WireError> {
    if s.len() < 2 {
        Err(WireError::Truncated)
    } else if s[0] != OP_OBJ_GET {
        Err(WireError::BadOpcode { observed: s[0] })
    } else if s[1] == OBJ_NOT_FOUND {
        Ok(DecodedGetResp::NotFound)
    } else if s[1] != OBJ_FOUND {
        Err(WireError::BadDataClass { observed: s[1] })
    } else if s.len() < 23 {
        Err(WireError::Truncated)
    } else {
        Ok(
            DecodedGetResp::Found {
                size_bytes: bytes::u64_at(s, 2),
                revision: bytes::u64_at(s, 10),
                data_class: s[18],
                replica_count: s[19],
                erasure: optional_pair_at(s, 20),
            },
        )
    }
}

/// Decode the answer to a request for a description.
pub fn decode_get_resp(src: &[u8]) -> (r: Result<DecodedGetResp, WireError>)
    ensures
        r == get_resp_parse(src@),
{
    if src.len() < 2 {
        return Err(WireError::Truncated);
    }
    if src[0] != OP_OBJ_GET {
        return Err(WireError::BadOpcode { observed: src[0] });
    }
    if src[1] == OBJ_NOT_FOUND {
        return Ok(DecodedGetResp::NotFound);
    }
    if src[1] != OBJ_FOUND {
        return Err(WireError::BadDataClass { observed: src[1] });
    }
    if src.len() < 23 {
        return Err(WireError::Truncated);
    }
    Ok(
        DecodedGetResp::Found {
            size_bytes: bytes::get_u64(src, 2),
            revision: bytes::get_u64(src, 10),
            data_class: src[18],
            replica_count: src[19],
            erasure: get_optional_pair(src, 20),
        },
    )
}

/// Decoding an answer, whatever follows it, gives it back.
pub proof fn lemma_get_resp_round_trip(
    size_bytes: u64,
    revision: u64,
    data_class: u8,
    replica_count: u8,
    erasure: Option<(u8, u8)>,
    rest: Seq<u8>,
)
    ensures
        get_resp_parse(get_found_frame(size_bytes, revision, data_class, replica_count, erasure) + rest) == Ok::<
            DecodedGetResp,
            WireError,
        >(DecodedGetResp::Found { size_bytes, revision, data_class, replica_count, erasure }),
        get_resp_parse(seq![OP_OBJ_GET] + seq![OBJ_NOT_FOUND] + rest) == Ok::<DecodedGetResp, WireError>(
            DecodedGetResp::NotFound,
        ),
{
    broadcast use bytes::lemma_subrange_left, bytes::lemma_subrange_right;

    let s = get_found_frame(size_bytes, revision, data_class, replica_count, erasure) + rest;
    assert(s[0] == OP_OBJ_GET && s[1] == OBJ_FOUND && s[18] == data_class && s[19] == replica_count);
    assert(s.subrange(2, 10) == bytes::le64(size_bytes));
    bytes::lemma_u64_at(s, 2, size_bytes);
    assert(s.subrange(10, 18) == bytes::le64(revision));
    bytes::lemma_u64_at(s, 10, revision);
    assert(s.subrange(20, 23) == optional_pair(erasure));
    lemma_optional_pair_at(s, 20, erasure);
}

/// The length of the request at the front of `s`: `None` while it is not whole.
pub open spec fn record_len(s: Seq<u8>) -> Result<Option<int>, WireError> {
    if s.len() == 0 {
        Ok(None)
    } else if s[0] == OP_OBJ_PUT || s[0] == OP_OBJ_UPDATE {
        if s.len() < 30 {
            Ok(None)
        } else {
            let total = 30 + bytes::u16_at(s, 1) + bytes::u16_at(s, 3) + bytes::u16_at(s, 5) + bytes::u16_at(s, 7);
            if s.len() >= total {
                Ok(Some(total))
            } else {
                Ok(None)
            }
        }
    } else if s[0] == OP_OBJ_REMOVE || s[0] == OP_OBJ_GET {
        if s.len() < 3 || s.len() < 3 + bytes::u16_at(s, 1) {
            Ok(None)
        } else {
            Ok(Some(3 + bytes::u16_at(s, 1)))
        }
    } else {
        Err(WireError::BadOpcode { observed: s[0] })
    }
}

/// The length of the request record at the front of `src`, or `None` when `src`
/// does not yet hold a whole one.
pub fn request_record_len(src: &[u8]) -> (r: Result<Option<usize>, WireError>)
    ensures
        match r {
            Ok(Some(n)) => record_len(src@) == Ok::<Option<int>, WireError>(Some(n as int)) && 0 < n <= src@.len(),
            Ok(None) => record_len(src@) == Ok::<Option<int>, WireError>(None),
            Err(e) => record_len(src@) == Err::<Option<int>, WireError>(e),
        },
{
    if src.len() == 0 {
        return Ok(None);
    }
    let opcode: u8 = src[0];
    let total: usize = if opcode == OP_OBJ_PUT || opcode == OP_OBJ_UPDATE {
        if src.len() < 30 {
            return Ok(None);
        }
        30 + bytes::get_u16(src, 1) as usize + bytes::get_u16(src, 3) as usize + bytes::get_u16(src, 5) as usize
            + bytes::get_u16(src, 7) as usize
    } else if opcode == OP_OBJ_REMOVE || opcode == OP_OBJ_GET {
        if src.len() < 3 {
            return Ok(None);
        }
        3 + bytes::get_u16(src, 1) as usize
    } else {
        return Err(WireError::BadOpcode { observed: opcode });
    };
    if src.len() >= total {
        Ok(Some(total))
    } else {
        Ok(None)
    }
}

/// A description is cut off a stream exactly where it ends, whatever follows it.
pub proof fn lemma_put_cut(
    op: u8,
    id: Seq<u8>,
    namespace: Seq<u8>,
    key: Seq<u8>,
    content_hash: Seq<u8>,
    size_bytes: u64,
    revision: u64,
    data_class: u8,
    replica_count: u8,
    erasure: Option<(u8, u8)>,
    rest: Seq<u8>,
)
    requires
        op == OP_OBJ_PUT || op == OP_OBJ_UPDATE,
        id.len() <= u16::MAX,
        namespace.len() <= u16::MAX,
        key.len() <= u16::MAX,
        content_hash.len() <= u16::MAX,
    ensures
        record_len(
            put_frame(
                op,
                id,
                namespace,
                key,
                content_hash,
                size_bytes,
                revision,
                data_class,
                replica_count,
                erasure,
            ) + rest,
        ) == Ok::<Option<int>, WireError>(Some((30 + id.len() + namespace.len() + key.len() + content_hash.len()) as int)),
        put_frame(
            op,
            id,
            namespace,
            key,
            content_hash,
            size_bytes,
            revision,
            data_class,
            replica_count,
            erasure,
        ).len() == 30 + id.len() + namespace.len() + key.len() + content_hash.len(),
{
    broadcast use bytes::lemma_subrange_left, bytes::lemma_subrange_right;

    let s = put_frame(
        op,
        id,
        namespace,
        key,
        content_hash,
        size_bytes,
        revision,
        data_class,
        replica_count,
        erasure,
    ) + rest;
    assert(s[0] == op);
    assert(s.subrange(1, 3) == bytes::le16(id.len() as u16));
    bytes::lemma_u16_at(s, 1, id.len() as u16);
    assert(s.subrange(3, 5) == bytes::le16(namespace.len() as u16));
    bytes::lemma_u16_at(s, 3, namespace.len() as u16);
    assert(s.subrange(5, 7) == bytes::le16(key.len() as u16));
    bytes::lemma_u16_at(s, 5, key.len() as u16);
    assert(s.subrange(7, 9) == bytes::le16(content_hash.len() as u16));
    bytes::lemma_u16_at(s, 7, content_hash.len() as u16);
}

/// A removal is cut off a stream exactly where it ends, whatever follows it.
pub proof fn lemma_remove_cut(id: Seq<u8>, rest: Seq<u8>)
    requires
        id.len() <= u16::MAX,
    ensures
        record_len(remove_frame(id) + rest) == Ok::<Option<int>, WireError>(Some(remove_frame(id).len() as int)),
{
    broadcast use bytes::lemma_subrange_left, bytes::lemma_subrange_right;

    let s = remove_frame(id) + rest;
    assert(s[0] == OP_OBJ_REMOVE);
    assert(s.subrange(1, 3) == bytes::le16(id.len() as u16));
    bytes::lemma_u16_at(s, 1, id.len() as u16);
}

/// A request for a description is cut off a stream exactly where it ends, whatever follows it.
pub proof fn lemma_get_req_cut(id: Seq<u8>, rest: Seq<u8>)
    requires
        id.len() <= u16::MAX,
    ensures
        record_len(get_req_frame(id) + rest) == Ok::<Option<int>, WireError>(Some(get_req_frame(id).len() as int)),
{
    broadcast use bytes::lemma_subrange_left, bytes::lemma_subrange_right;

    let s = get_req_frame(id) + rest;
    assert(s[0] == OP_OBJ_GET);
    assert(s.subrange(1, 3) == bytes::le16(id.len() as u16));
    bytes::lemma_u16_at(s, 1, id.len() as u16);
}

/// The opcode of a record, if there is one.
pub fn peek_opcode(src: &[u8]) -> (r: Option<u8>)
    ensures
        r == if src@.len() == 0 {
            None::<u8>
        } else {
            Some(src@[0])
        },
{
    if src.len() == 0 {
        None
    } else {
        Some(src[0])
    }
}

} // verus!
