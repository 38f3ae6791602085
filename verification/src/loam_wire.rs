//! The namespace wire format: requests and answers, on channels and in the log.
//!
//! Integers are little-endian. A variable-length string is announced by its
//! length in the fixed header and stands behind it. Opcode zero is not used, so
//! a zeroed buffer is no record.
//!
//! ```text
//! Bind            [1][root_len:u16][path_len:u16][id_len:u16][kind][revision:u64][root][path][id]
//! Rename          [2][root_len:u16][from_len:u16][to_len:u16][revision:u64][root][from][to]
//! Unbind          [3][root_len:u16][path_len:u16][root][path]
//! LookupReq       [4][root_len:u16][path_len:u16][root][path]
//! LookupResp      [4][1][id_len:u8][id][revision:u64][kind]  or  [4][0]
//! ListReq         [5][root_len:u16][cursor:u32][max][root]
//! ListResp        [5][next_cursor:u32][count:u8]([path_len:u16][path])*
//! ReferencedReq   [6][cursor:u32][id_len:u16][id]
//! ReferencedResp  [6][flag][next_cursor:u32]
//! ```
use crate::bytes;
use crate::loam_limits;
use crate::path_list;
use vstd::prelude::*;
use vstd::slice::slice_subrange;

verus! {

pub const OP_BIND: u8 = 1;

pub const OP_RENAME: u8 = 2;

pub const OP_UNBIND: u8 = 3;

pub const OP_LOOKUP: u8 = 4;

pub const OP_LIST: u8 = 5;

pub const OP_REFERENCED: u8 = 6;

/// Most paths on one page of a listing.
pub const MAX_LIST_PAGE: usize = 16;

pub const LOOKUP_FOUND: u8 = 1;

pub const LOOKUP_NOT_FOUND: u8 = 0;

pub const KIND_FILE: u8 = 0;

pub const KIND_DIRECTORY: u8 = 1;

pub const KIND_OBJECT: u8 = 2;

pub const KIND_VOLUME: u8 = 3;

pub const KIND_SYMLINK: u8 = 4;

/// Longest string of this format; the parts of a key have lower ceilings.
pub const MAX_STRING: usize = 4096;

#[derive(Debug, Clone, Copy, PartialEq, Eq, Structural)]
pub enum WireError {
    BufferTooSmall { needed: usize, actual: usize },
    Truncated,
    BadOpcode { observed: u8 },
    BadKind { observed: u8 },
    StringTooLong { len: usize, max: usize },
}

/// The refusal of a key with components of these lengths.
pub open spec fn key_refusal(root: nat, path: nat, object_id: nat) -> Option<WireError> {
    match loam_limits::key_verdict(root, path, object_id) {
        Ok(_) => None,
        Err(e) => Some(WireError::StringTooLong { len: e.len, max: e.max }),
    }
}

/// Refuse a key with a component over its ceiling.
fn check_key(root: usize, path: usize, object_id: usize) -> (r: Result<(), WireError>)
    ensures
        r == match key_refusal(root as nat, path as nat, object_id as nat) {
            None => Ok::<(), WireError>(()),
            Some(e) => Err::<(), WireError>(e),
        },
{
    match loam_limits::check_lengths(root, path, object_id) {
        Ok(()) => Ok(()),
        Err(e) => Err(WireError::StringTooLong { len: e.len, max: e.max }),
    }
}

/// The refusal of a buffer with less room than needed.
pub open spec fn no_room(room: nat, needed: nat) -> Option<WireError> {
    if room < needed {
        Some(WireError::BufferTooSmall { needed: needed as usize, actual: room as usize })
    } else {
        None
    }
}

/// The bytes of a bind.
pub open spec fn bind_frame(namespace_root: Seq<u8>, path: Seq<u8>, object_id: Seq<u8>, kind: u8, revision: u64) -> Seq<u8> {
    seq![OP_BIND] + bytes::le16(namespace_root.len() as u16) + bytes::le16(path.len() as u16) + bytes::le16(object_id.len() as u16) + seq![kind] + bytes::le64(revision) + namespace_root + path + object_id
}

/// Why a bind is not written to a buffer with this much room.
pub open spec fn bind_refusal(room: nat, namespace_root: Seq<u8>, path: Seq<u8>, object_id: Seq<u8>, kind: u8, revision: u64) -> Option<WireError> {
    match key_refusal(namespace_root.len(), path.len(), object_id.len()) {
        Some(e) => Some(e),
        None => no_room(room, bind_frame(namespace_root, path, object_id, kind, revision).len()),
    }
}

/// Write a bind to the start of `dst`. Returns its length.
pub fn encode_bind(dst: &mut [u8], namespace_root: &[u8], path: &[u8], object_id: &[u8], kind: u8, revision: u64) -> (r: Result<usize, WireError>)
    ensures
        bytes::encodes(
            r,
            old(dst)@,
            final(dst)@,
            bind_refusal(old(dst)@.len(), namespace_root@, path@, object_id@, kind, revision),
            bind_frame(namespace_root@, path@, object_id@, kind, revision),
        ),
{
    broadcast use bytes::lemma_write_first, bytes::lemma_write_next;

    match check_key(namespace_root.len(), path.len(), object_id.len()) {
        Ok(()) => {},
        Err(e) => {
            return Err(e);
        },
    }
    let needed: usize = 16 + namespace_root.len() + path.len() + object_id.len();
    if dst.len() < needed {
        return Err(WireError::BufferTooSmall { needed, actual: dst.len() });
    }
    bytes::put_u8(dst, 0, OP_BIND);
    bytes::put_u16(dst, 1, namespace_root.len() as u16);
    bytes::put_u16(dst, 3, path.len() as u16);
    bytes::put_u16(dst, 5, object_id.len() as u16);
    bytes::put_u8(dst, 7, kind);
    bytes::put_u64(dst, 8, revision);
    bytes::put_bytes(dst, 16, namespace_root);
    bytes::put_bytes(dst, 16 + namespace_root.len(), path);
    bytes::put_bytes(dst, 16 + namespace_root.len() + path.len(), object_id);
    Ok(needed)
}

/// A bind, decoded.
#[derive(Debug, Clone, Copy, PartialEq, Eq)]
pub struct DecodedBind<'a> {
    pub namespace_root: &'a [u8],
    pub path: &'a [u8],
    pub object_id: &'a [u8],
    pub kind: u8,
    pub revision: u64,
}

/// What `decode_bind` makes of `s`.
pub open spec fn bind_parse(s: Seq<u8>) -> Result<(Seq<u8>, Seq<u8>, Seq<u8>, u8, u64), WireError> {
    if s.len() < 16 {
        Err(WireError::Truncated)
    } else if s[0] != OP_BIND {
        Err(WireError::BadOpcode { observed: s[0] })
    } else if s[7] > KIND_SYMLINK {
        Err(WireError::BadKind { observed: s[7] })
    } else {
        let namespace_root_end = 16 + bytes::u16_at(s, 1);
        let path_end = namespace_root_end + bytes::u16_at(s, 3);
        let object_id_end = path_end + bytes::u16_at(s, 5);
        if s.len() < object_id_end {
            Err(WireError::Truncated)
        } else {
            match key_refusal(bytes::u16_at(s, 1) as nat, bytes::u16_at(s, 3) as nat, bytes::u16_at(s, 5) as nat) {
                Some(e) => Err(e),
                None => Ok((s.subrange(16, namespace_root_end), s.subrange(namespace_root_end, path_end), s.subrange(path_end, object_id_end), s[7], bytes::u64_at(s, 8))),
            }
        }
    }
}

/// Decode a bind.
pub fn decode_bind(src: &[u8]) -> (r: Result<DecodedBind<'_>, WireError>)
    ensures
        match r {
            Ok(d) => bind_parse(src@) == Ok::<(Seq<u8>, Seq<u8>, Seq<u8>, u8, u64), WireError>((d.namespace_root@, d.path@, d.object_id@, d.kind, d.revision)),
            Err(e) => bind_parse(src@) == Err::<(Seq<u8>, Seq<u8>, Seq<u8>, u8, u64), WireError>(e),
        },
{
    if src.len() < 16 {
        return Err(WireError::Truncated);
    }
    if src[0] != OP_BIND {
        return Err(WireError::BadOpcode { observed: src[0] });
    }
    if src[7] > KIND_SYMLINK {
        return Err(WireError::BadKind { observed: src[7] });
    }
    let namespace_root_end: usize = 16 + bytes::get_u16(src, 1) as usize;
    let path_end: usize = namespace_root_end + bytes::get_u16(src, 3) as usize;
    let object_id_end: usize = path_end + bytes::get_u16(src, 5) as usize;
    if src.len() < object_id_end {
        return Err(WireError::Truncated);
    }
    match check_key(bytes::get_u16(src, 1) as usize, bytes::get_u16(src, 3) as usize, bytes::get_u16(src, 5) as usize) {
        Ok(()) => {},
        Err(e) => {
            return Err(e);
        },
    }
    Ok(
        DecodedBind {
            namespace_root: slice_subrange(src, 16, namespace_root_end),
            path: slice_subrange(src, namespace_root_end, path_end),
            object_id: slice_subrange(src, path_end, object_id_end),
            kind: src[7],
            revision: bytes::get_u64(src, 8),
        },
    )
}

/// Decoding what was encoded, whatever follows it, gives the parts back.
pub proof fn lemma_bind_round_trip(namespace_root: Seq<u8>, path: Seq<u8>, object_id: Seq<u8>, kind: u8, revision: u64, rest: Seq<u8>)
    requires
        loam_limits::key_verdict(namespace_root.len(), path.len(), object_id.len()) is Ok,
        kind <= KIND_SYMLINK,
    ensures
        bind_parse(bind_frame(namespace_root, path, object_id, kind, revision) + rest) == Ok::<(Seq<u8>, Seq<u8>, Seq<u8>, u8, u64), WireError>((namespace_root, path, object_id, kind, revision)),
{
    broadcast use bytes::lemma_subrange_left, bytes::lemma_subrange_right;

    let s = bind_frame(namespace_root, path, object_id, kind, revision) + rest;
    assert(s[0] == seq![OP_BIND][0]);
    assert(s.subrange(1, 3) == bytes::le16(namespace_root.len() as u16));
    bytes::lemma_u16_at(s, 1, namespace_root.len() as u16);
    assert(s.subrange(3, 5) == bytes::le16(path.len() as u16));
    bytes::lemma_u16_at(s, 3, path.len() as u16);
    assert(s.subrange(5, 7) == bytes::le16(object_id.len() as u16));
    bytes::lemma_u16_at(s, 5, object_id.len() as u16);
    assert(s[7] == seq![kind][0]);
    assert(s.subrange(8, 16) == bytes::le64(revision));
    bytes::lemma_u64_at(s, 8, revision);
    assert(s.subrange(16, (16 + namespace_root.len()) as int) == namespace_root);
    assert(s.subrange((16 + namespace_root.len()) as int, (16 + namespace_root.len() + path.len()) as int) == path);
    assert(s.subrange((16 + namespace_root.len() + path.len()) as int, (16 + namespace_root.len() + path.len() + object_id.len()) as int) == object_id);
}

/// The bytes of a rename.
pub open spec fn rename_frame(namespace_root: Seq<u8>, from: Seq<u8>, to: Seq<u8>, new_revision: u64) -> Seq<u8> {
    seq![OP_RENAME] + bytes::le16(namespace_root.len() as u16) + bytes::le16(from.len() as u16) + bytes::le16(to.len() as u16) + bytes::le64(new_revision) + namespace_root + from + to
}

/// Why a rename is not written to a buffer with this much room.
pub open spec fn rename_refusal(room: nat, namespace_root: Seq<u8>, from: Seq<u8>, to: Seq<u8>, new_revision: u64) -> Option<WireError> {
    match key_refusal(namespace_root.len(), from.len(), 0) {
        Some(e) => Some(e),
        None => match key_refusal(0, to.len(), 0) {
            Some(e) => Some(e),
            None => no_room(room, rename_frame(namespace_root, from, to, new_revision).len()),
        },
    }
}

/// Write a rename to the start of `dst`. Returns its length.
pub fn encode_rename(dst: &mut [u8], namespace_root: &[u8], from: &[u8], to: &[u8], new_revision: u64) -> (r: Result<usize, WireError>)
    ensures
        bytes::encodes(
            r,
            old(dst)@,
            final(dst)@,
            rename_refusal(old(dst)@.len(), namespace_root@, from@, to@, new_revision),
            rename_frame(namespace_root@, from@, to@, new_revision),
        ),
{
    broadcast use bytes::lemma_write_first, bytes::lemma_write_next;

    match check_key(namespace_root.len(), from.len(), 0) {
        Ok(()) => {},
        Err(e) => {
            return Err(e);
        },
    }
    match check_key(0, to.len(), 0) {
        Ok(()) => {},
        Err(e) => {
            return Err(e);
        },
    }
    let needed: usize = 15 + namespace_root.len() + from.len() + to.len();
    if dst.len() < needed {
        return Err(WireError::BufferTooSmall { needed, actual: dst.len() });
    }
    bytes::put_u8(dst, 0, OP_RENAME);
    bytes::put_u16(dst, 1, namespace_root.len() as u16);
    bytes::put_u16(dst, 3, from.len() as u16);
    bytes::put_u16(dst, 5, to.len() as u16);
    bytes::put_u64(dst, 7, new_revision);
    bytes::put_bytes(dst, 15, namespace_root);
    bytes::put_bytes(dst, 15 + namespace_root.len(), from);
    bytes::put_bytes(dst, 15 + namespace_root.len() + from.len(), to);
    Ok(needed)
}

/// A rename, decoded.
#[derive(Debug, Clone, Copy, PartialEq, Eq)]
pub struct DecodedRename<'a> {
    pub namespace_root: &'a [u8],
    pub from: &'a [u8],
    pub to: &'a [u8],
    pub new_revision: u64,
}

/// What `decode_rename` makes of `s`.
pub open spec fn rename_parse(s: Seq<u8>) -> Result<(Seq<u8>, Seq<u8>, Seq<u8>, u64), WireError> {
    if s.len() < 15 {
        Err(WireError::Truncated)
    } else if s[0] != OP_RENAME {
        Err(WireError::BadOpcode { observed: s[0] })
    } else {
        let namespace_root_end = 15 + bytes::u16_at(s, 1);
        let from_end = namespace_root_end + bytes::u16_at(s, 3);
        let to_end = from_end + bytes::u16_at(s, 5);
        if s.len() < to_end {
            Err(WireError::Truncated)
        } else {
            match key_refusal(bytes::u16_at(s, 1) as nat, bytes::u16_at(s, 3) as nat, 0) {
                Some(e) => Err(e),
                None => match key_refusal(0, bytes::u16_at(s, 5) as nat, 0) {
                    Some(e) => Err(e),
                    None => Ok((s.subrange(15, namespace_root_end), s.subrange(namespace_root_end, from_end), s.subrange(from_end, to_end), bytes::u64_at(s, 7))),
                },
            }
        }
    }
}

/// Decode a rename.
pub fn decode_rename(src: &[u8]) -> (r: Result<DecodedRename<'_>, WireError>)
    ensures
        match r {
            Ok(d) => rename_parse(src@) == Ok::<(Seq<u8>, Seq<u8>, Seq<u8>, u64), WireError>((d.namespace_root@, d.from@, d.to@, d.new_revision)),
            Err(e) => rename_parse(src@) == Err::<(Seq<u8>, Seq<u8>, Seq<u8>, u64), WireError>(e),
        },
{
    if src.len() < 15 {
        return Err(WireError::Truncated);
    }
    if src[0] != OP_RENAME {
        return Err(WireError::BadOpcode { observed: src[0] });
    }
    let namespace_root_end: usize = 15 + bytes::get_u16(src, 1) as usize;
    let from_end: usize = namespace_root_end + bytes::get_u16(src, 3) as usize;
    let to_end: usize = from_end + bytes::get_u16(src, 5) as usize;
    if src.len() < to_end {
        return Err(WireError::Truncated);
    }
    match check_key(bytes::get_u16(src, 1) as usize, bytes::get_u16(src, 3) as usize, 0) {
        Ok(()) => {},
        Err(e) => {
            return Err(e);
        },
    }
    match check_key(0, bytes::get_u16(src, 5) as usize, 0) {
        Ok(()) => {},
        Err(e) => {
            return Err(e);
        },
    }
    Ok(
        DecodedRename {
            namespace_root: slice_subrange(src, 15, namespace_root_end),
            from: slice_subrange(src, namespace_root_end, from_end),
            to: slice_subrange(src, from_end, to_end),
            new_revision: bytes::get_u64(src, 7),
        },
    )
}

/// Decoding what was encoded, whatever follows it, gives the parts back.
pub proof fn lemma_rename_round_trip(namespace_root: Seq<u8>, from: Seq<u8>, to: Seq<u8>, new_revision: u64, rest: Seq<u8>)
    requires
        loam_limits::key_verdict(namespace_root.len(), from.len(), 0) is Ok,
        loam_limits::key_verdict(0, to.len(), 0) is Ok,
    ensures
        rename_parse(rename_frame(namespace_root, from, to, new_revision) + rest) == Ok::<(Seq<u8>, Seq<u8>, Seq<u8>, u64), WireError>((namespace_root, from, to, new_revision)),
{
    broadcast use bytes::lemma_subrange_left, bytes::lemma_subrange_right;

    let s = rename_frame(namespace_root, from, to, new_revision) + rest;
    assert(s[0] == seq![OP_RENAME][0]);
    assert(s.subrange(1, 3) == bytes::le16(namespace_root.len() as u16));
    bytes::lemma_u16_at(s, 1, namespace_root.len() as u16);
    assert(s.subrange(3, 5) == bytes::le16(from.len() as u16));
    bytes::lemma_u16_at(s, 3, from.len() as u16);
    assert(s.subrange(5, 7) == bytes::le16(to.len() as u16));
    bytes::lemma_u16_at(s, 5, to.len() as u16);
    assert(s.subrange(7, 15) == bytes::le64(new_revision));
    bytes::lemma_u64_at(s, 7, new_revision);
    assert(s.subrange(15, (15 + namespace_root.len()) as int) == namespace_root);
    assert(s.subrange((15 + namespace_root.len()) as int, (15 + namespace_root.len() + from.len()) as int) == from);
    assert(s.subrange((15 + namespace_root.len() + from.len()) as int, (15 + namespace_root.len() + from.len() + to.len()) as int) == to);
}

/// The bytes of an unbind.
pub open spec fn unbind_frame(namespace_root: Seq<u8>, path: Seq<u8>) -> Seq<u8> {
    seq![OP_UNBIND] + bytes::le16(namespace_root.len() as u16) + bytes::le16(path.len() as u16) + namespace_root + path
}

/// Why an unbind is not written to a buffer with this much room.
pub open spec fn unbind_refusal(room: nat, namespace_root: Seq<u8>, path: Seq<u8>) -> Option<WireError> {
    match key_refusal(namespace_root.len(), path.len(), 0) {
        Some(e) => Some(e),
        None => no_room(room, unbind_frame(namespace_root, path).len()),
    }
}

/// Write an unbind to the start of `dst`. Returns its length.
pub fn encode_unbind(dst: &mut [u8], namespace_root: &[u8], path: &[u8]) -> (r: Result<usize, WireError>)
    ensures
        bytes::encodes(
            r,
            old(dst)@,
            final(dst)@,
            unbind_refusal(old(dst)@.len(), namespace_root@, path@),
            unbind_frame(namespace_root@, path@),
        ),
{
    broadcast use bytes::lemma_write_first, bytes::lemma_write_next;

    match check_key(namespace_root.len(), path.len(), 0) {
        Ok(()) => {},
        Err(e) => {
            return Err(e);
        },
    }
    let needed: usize = 5 + namespace_root.len() + path.len();
    if dst.len() < needed {
        return Err(WireError::BufferTooSmall { needed, actual: dst.len() });
    }
    bytes::put_u8(dst, 0, OP_UNBIND);
    bytes::put_u16(dst, 1, namespace_root.len() as u16);
    bytes::put_u16(dst, 3, path.len() as u16);
    bytes::put_bytes(dst, 5, namespace_root);
    bytes::put_bytes(dst, 5 + namespace_root.len(), path);
    Ok(needed)
}

/// An unbind, decoded.
#[derive(Debug, Clone, Copy, PartialEq, Eq)]
pub struct DecodedUnbind<'a> {
    pub namespace_root: &'a [u8],
    pub path: &'a [u8],
}

/// What `decode_unbind` makes of `s`.
pub open spec fn unbind_parse(s: Seq<u8>) -> Result<(Seq<u8>, Seq<u8>), WireError> {
    if s.len() < 5 {
        Err(WireError::Truncated)
    } else if s[0] != OP_UNBIND {
        Err(WireError::BadOpcode { observed: s[0] })
    } else {
        let namespace_root_end = 5 + bytes::u16_at(s, 1);
        let path_end = namespace_root_end + bytes::u16_at(s, 3);
        if s.len() < path_end {
            Err(WireError::Truncated)
        } else {
            match key_refusal(bytes::u16_at(s, 1) as nat, bytes::u16_at(s, 3) as nat, 0) {
                Some(e) => Err(e),
                None => Ok((s.subrange(5, namespace_root_end), s.subrange(namespace_root_end, path_end))),
            }
        }
    }
}

/// Decode an unbind.
pub fn decode_unbind(src: &[u8]) -> (r: Result<DecodedUnbind<'_>, WireError>)
    ensures
        match r {
            Ok(d) => unbind_parse(src@) == Ok::<(Seq<u8>, Seq<u8>), WireError>((d.namespace_root@, d.path@)),
            Err(e) => unbind_parse(src@) == Err::<(Seq<u8>, Seq<u8>), WireError>(e),
        },
{
    if src.len() < 5 {
        return Err(WireError::Truncated);
    }
    if src[0] != OP_UNBIND {
        return Err(WireError::BadOpcode { observed: src[0] });
    }
    let namespace_root_end: usize = 5 + bytes::get_u16(src, 1) as usize;
    let path_end: usize = namespace_root_end + bytes::get_u16(src, 3) as usize;
    if src.len() < path_end {
        return Err(WireError::Truncated);
    }
    match check_key(bytes::get_u16(src, 1) as usize, bytes::get_u16(src, 3) as usize, 0) {
        Ok(()) => {},
        Err(e) => {
            return Err(e);
        },
    }
    Ok(
        DecodedUnbind {
            namespace_root: slice_subrange(src, 5, namespace_root_end),
            path: slice_subrange(src, namespace_root_end, path_end),
        },
    )
}

/// Decoding what was encoded, whatever follows it, gives the parts back.
pub proof fn lemma_unbind_round_trip(namespace_root: Seq<u8>, path: Seq<u8>, rest: Seq<u8>)
    requires
        loam_limits::key_verdict(namespace_root.len(), path.len(), 0) is Ok,
    ensures
        unbind_parse(unbind_frame(namespace_root, path) + rest) == Ok::<(Seq<u8>, Seq<u8>), WireError>((namespace_root, path)),
{
    broadcast use bytes::lemma_subrange_left, bytes::lemma_subrange_right;

    let s = unbind_frame(namespace_root, path) + rest;
    assert(s[0] == seq![OP_UNBIND][0]);
    assert(s.subrange(1, 3) == bytes::le16(namespace_root.len() as u16));
    bytes::lemma_u16_at(s, 1, namespace_root.len() as u16);
    assert(s.subrange(3, 5) == bytes::le16(path.len() as u16));
    bytes::lemma_u16_at(s, 3, path.len() as u16);
    assert(s.subrange(5, (5 + namespace_root.len()) as int) == namespace_root);
    assert(s.subrange((5 + namespace_root.len()) as int, (5 + namespace_root.len() + path.len()) as int) == path);
}

/// The bytes of a lookup request.
pub open spec fn lookup_req_frame(namespace_root: Seq<u8>, path: Seq<u8>) -> Seq<u8> {
    seq![OP_LOOKUP] + bytes::le16(namespace_root.len() as u16) + bytes::le16(path.len() as u16) + namespace_root + path
}

/// Why a lookup request is not written to a buffer with this much room.
pub open spec fn lookup_req_refusal(room: nat, namespace_root: Seq<u8>, path: Seq<u8>) -> Option<WireError> {
    match key_refusal(namespace_root.len(), path.len(), 0) {
        Some(e) => Some(e),
        None => no_room(room, lookup_req_frame(namespace_root, path).len()),
    }
}

/// Write a lookup request to the start of `dst`. Returns its length.
pub fn encode_lookup_req(dst: &mut [u8], namespace_root: &[u8], path: &[u8]) -> (r: Result<usize, WireError>)
    ensures
        bytes::encodes(
            r,
            old(dst)@,
            final(dst)@,
            lookup_req_refusal(old(dst)@.len(), namespace_root@, path@),
            lookup_req_frame(namespace_root@, path@),
        ),
{
    broadcast use bytes::lemma_write_first, bytes::lemma_write_next;

    match check_key(namespace_root.len(), path.len(), 0) {
        Ok(()) => {},
        Err(e) => {
            return Err(e);
        },
    }
    let needed: usize = 5 + namespace_root.len() + path.len();
    if dst.len() < needed {
        return Err(WireError::BufferTooSmall { needed, actual: dst.len() });
    }
    bytes::put_u8(dst, 0, OP_LOOKUP);
    bytes::put_u16(dst, 1, namespace_root.len() as u16);
    bytes::put_u16(dst, 3, path.len() as u16);
    bytes::put_bytes(dst, 5, namespace_root);
    bytes::put_bytes(dst, 5 + namespace_root.len(), path);
    Ok(needed)
}

/// A lookup request, decoded.
#[derive(Debug, Clone, Copy, PartialEq, Eq)]
pub struct DecodedLookupReq<'a> {
    pub namespace_root: &'a [u8],
    pub path: &'a [u8],
}

/// What `decode_lookup_req` makes of `s`.
pub open spec fn lookup_req_parse(s: Seq<u8>) -> Result<(Seq<u8>, Seq<u8>), WireError> {
    if s.len() < 5 {
        Err(WireError::Truncated)
    } else if s[0] != OP_LOOKUP {
        Err(WireError::BadOpcode { observed: s[0] })
    } else {
        let namespace_root_end = 5 + bytes::u16_at(s, 1);
        let path_end = namespace_root_end + bytes::u16_at(s, 3);
        if s.len() < path_end {
            Err(WireError::Truncated)
        } else {
            match key_refusal(bytes::u16_at(s, 1) as nat, bytes::u16_at(s, 3) as nat, 0) {
                Some(e) => Err(e),
                None => Ok((s.subrange(5, namespace_root_end), s.subrange(namespace_root_end, path_end))),
            }
        }
    }
}

/// Decode a lookup request.
pub fn decode_lookup_req(src: &[u8]) -> (r: Result<DecodedLookupReq<'_>, WireError>)
    ensures
        match r {
            Ok(d) => lookup_req_parse(src@) == Ok::<(Seq<u8>, Seq<u8>), WireError>((d.namespace_root@, d.path@)),
            Err(e) => lookup_req_parse(src@) == Err::<(Seq<u8>, Seq<u8>), WireError>(e),
        },
{
    if src.len() < 5 {
        return Err(WireError::Truncated);
    }
    if src[0] != OP_LOOKUP {
        return Err(WireError::BadOpcode { observed: src[0] });
    }
    let namespace_root_end: usize = 5 + bytes::get_u16(src, 1) as usize;
    let path_end: usize = namespace_root_end + bytes::get_u16(src, 3) as usize;
    if src.len() < path_end {
        return Err(WireError::Truncated);
    }
    match check_key(bytes::get_u16(src, 1) as usize, bytes::get_u16(src, 3) as usize, 0) {
        Ok(()) => {},
        Err(e) => {
            return Err(e);
        },
    }
    Ok(
        DecodedLookupReq {
            namespace_root: slice_subrange(src, 5, namespace_root_end),
            path: slice_subrange(src, namespace_root_end, path_end),
        },
    )
}

/// Decoding what was encoded, whatever follows it, gives the parts back.
pub proof fn lemma_lookup_req_round_trip(namespace_root: Seq<u8>, path: Seq<u8>, rest: Seq<u8>)
    requires
        loam_limits::key_verdict(namespace_root.len(), path.len(), 0) is Ok,
    ensures
        lookup_req_parse(lookup_req_frame(namespace_root, path) + rest) == Ok::<(Seq<u8>, Seq<u8>), WireError>((namespace_root, path)),
{
    broadcast use bytes::lemma_subrange_left, bytes::lemma_subrange_right;

    let s = lookup_req_frame(namespace_root, path) + rest;
    assert(s[0] == seq![OP_LOOKUP][0]);
    assert(s.subrange(1, 3) == bytes::le16(namespace_root.len() as u16));
    bytes::lemma_u16_at(s, 1, namespace_root.len() as u16);
    assert(s.subrange(3, 5) == bytes::le16(path.len() as u16));
    bytes::lemma_u16_at(s, 3, path.len() as u16);
    assert(s.subrange(5, (5 + namespace_root.len()) as int) == namespace_root);
    assert(s.subrange((5 + namespace_root.len()) as int, (5 + namespace_root.len() + path.len()) as int) == path);
}

/// The bytes of a list request.
pub open spec fn list_req_frame(namespace_root: Seq<u8>, cursor: u32, max: u8) -> Seq<u8> {
    seq![OP_LIST] + bytes::le16(namespace_root.len() as u16) + bytes::le32(cursor) + seq![max] + namespace_root
}

/// Why a list request is not written to a buffer with this much room.
pub open spec fn list_req_refusal(room: nat, namespace_root: Seq<u8>, cursor: u32, max: u8) -> Option<WireError> {
    match key_refusal(namespace_root.len(), 0, 0) {
        Some(e) => Some(e),
        None => no_room(room, list_req_frame(namespace_root, cursor, max).len()),
    }
}

/// Write a list request to the start of `dst`. Returns its length.
pub fn encode_list_req(dst: &mut [u8], namespace_root: &[u8], cursor: u32, max: u8) -> (r: Result<usize, WireError>)
    ensures
        bytes::encodes(
            r,
            old(dst)@,
            final(dst)@,
            list_req_refusal(old(dst)@.len(), namespace_root@, cursor, max),
            list_req_frame(namespace_root@, cursor, max),
        ),
{
    broadcast use bytes::lemma_write_first, bytes::lemma_write_next;

    match check_key(namespace_root.len(), 0, 0) {
        Ok(()) => {},
        Err(e) => {
            return Err(e);
        },
    }
    let needed: usize = 8 + namespace_root.len();
    if dst.len() < needed {
        return Err(WireError::BufferTooSmall { needed, actual: dst.len() });
    }
    bytes::put_u8(dst, 0, OP_LIST);
    bytes::put_u16(dst, 1, namespace_root.len() as u16);
    bytes::put_u32(dst, 3, cursor);
    bytes::put_u8(dst, 7, max);
    bytes::put_bytes(dst, 8, namespace_root);
    Ok(needed)
}

/// A list request, decoded.
#[derive(Debug, Clone, Copy, PartialEq, Eq)]
pub struct DecodedListReq<'a> {
    pub namespace_root: &'a [u8],
    pub cursor: u32,
    pub max: u8,
}

/// What `decode_list_req` makes of `s`.
pub open spec fn list_req_parse(s: Seq<u8>) -> Result<(Seq<u8>, u32, u8), WireError> {
    if s.len() < 8 {
        Err(WireError::Truncated)
    } else if s[0] != OP_LIST {
        Err(WireError::BadOpcode { observed: s[0] })
    } else {
        let namespace_root_end = 8 + bytes::u16_at(s, 1);
        if s.len() < namespace_root_end {
            Err(WireError::Truncated)
        } else {
            match key_refusal(bytes::u16_at(s, 1) as nat, 0, 0) {
                Some(e) => Err(e),
                None => Ok((s.subrange(8, namespace_root_end), bytes::u32_at(s, 3), s[7])),
            }
        }
    }
}

/// Decode a list request.
pub fn decode_list_req(src: &[u8]) -> (r: Result<DecodedListReq<'_>, WireError>)
    ensures
        match r {
            Ok(d) => list_req_parse(src@) == Ok::<(Seq<u8>, u32, u8), WireError>((d.namespace_root@, d.cursor, d.max)),
            Err(e) => list_req_parse(src@) == Err::<(Seq<u8>, u32, u8), WireError>(e),
        },
{
    if src.len() < 8 {
        return Err(WireError::Truncated);
    }
    if src[0] != OP_LIST {
        return Err(WireError::BadOpcode { observed: src[0] });
    }
    let namespace_root_end: usize = 8 + bytes::get_u16(src, 1) as usize;
    if src.len() < namespace_root_end {
        return Err(WireError::Truncated);
    }
    match check_key(bytes::get_u16(src, 1) as usize, 0, 0) {
        Ok(()) => {},
        Err(e) => {
            return Err(e);
        },
    }
    Ok(
        DecodedListReq {
            namespace_root: slice_subrange(src, 8, namespace_root_end),
            cursor: bytes::get_u32(src, 3),
            max: src[7],
        },
    )
}

/// Decoding what was encoded, whatever follows it, gives the parts back.
pub proof fn lemma_list_req_round_trip(namespace_root: Seq<u8>, cursor: u32, max: u8, rest: Seq<u8>)
    requires
        loam_limits::key_verdict(namespace_root.len(), 0, 0) is Ok,
    ensures
        list_req_parse(list_req_frame(namespace_root, cursor, max) + rest) == Ok::<(Seq<u8>, u32, u8), WireError>((namespace_root, cursor, max)),
{
    broadcast use bytes::lemma_subrange_left, bytes::lemma_subrange_right;

    let s = list_req_frame(namespace_root, cursor, max) + rest;
    assert(s[0] == seq![OP_LIST][0]);
    assert(s.subrange(1, 3) == bytes::le16(namespace_root.len() as u16));
    bytes::lemma_u16_at(s, 1, namespace_root.len() as u16);
    assert(s.subrange(3, 7) == bytes::le32(cursor));
    bytes::lemma_u32_at(s, 3, cursor);
    assert(s[7] == seq![max][0]);
    assert(s.subrange(8, (8 + namespace_root.len()) as int) == namespace_root);
}

/// The bytes of a reference query.
pub open spec fn referenced_req_frame(cursor: u32, object_id: Seq<u8>) -> Seq<u8> {
    seq![OP_REFERENCED] + bytes::le32(cursor) + bytes::le16(object_id.len() as u16) + object_id
}

/// Why a reference query is not written to a buffer with this much room.
pub open spec fn referenced_req_refusal(room: nat, cursor: u32, object_id: Seq<u8>) -> Option<WireError> {
    match key_refusal(0, 0, object_id.len()) {
        Some(e) => Some(e),
        None => no_room(room, referenced_req_frame(cursor, object_id).len()),
    }
}

/// Write a reference query to the start of `dst`. Returns its length.
pub fn encode_referenced_req(dst: &mut [u8], cursor: u32, object_id: &[u8]) -> (r: Result<usize, WireError>)
    ensures
        bytes::encodes(
            r,
            old(dst)@,
            final(dst)@,
            referenced_req_refusal(old(dst)@.len(), cursor, object_id@),
            referenced_req_frame(cursor, object_id@),
        ),
{
    broadcast use bytes::lemma_write_first, bytes::lemma_write_next;

    match check_key(0, 0, object_id.len()) {
        Ok(()) => {},
        Err(e) => {
            return Err(e);
        },
    }
    let needed: usize = 7 + object_id.len();
    if dst.len() < needed {
        return Err(WireError::BufferTooSmall { needed, actual: dst.len() });
    }
    bytes::put_u8(dst, 0, OP_REFERENCED);
    bytes::put_u32(dst, 1, cursor);
    bytes::put_u16(dst, 5, object_id.len() as u16);
    bytes::put_bytes(dst, 7, object_id);
    Ok(needed)
}

/// What `decode_referenced_req` makes of `s`.
pub open spec fn referenced_req_parse(s: Seq<u8>) -> Result<(u32, Seq<u8>), WireError> {
    if s.len() < 7 {
        Err(WireError::Truncated)
    } else if s[0] != OP_REFERENCED {
        Err(WireError::BadOpcode { observed: s[0] })
    } else {
        let object_id_end = 7 + bytes::u16_at(s, 5);
        if s.len() < object_id_end {
            Err(WireError::Truncated)
        } else {
            match key_refusal(0, 0, bytes::u16_at(s, 5) as nat) {
                Some(e) => Err(e),
                None => Ok((bytes::u32_at(s, 1), s.subrange(7, object_id_end))),
            }
        }
    }
}

/// Decode a reference query.
pub fn decode_referenced_req(src: &[u8]) -> (r: Result<(u32, &[u8]), WireError>)
    ensures
        match r {
            Ok(d) => referenced_req_parse(src@) == Ok::<(u32, Seq<u8>), WireError>((d.0, d.1@)),
            Err(e) => referenced_req_parse(src@) == Err::<(u32, Seq<u8>), WireError>(e),
        },
{
    if src.len() < 7 {
        return Err(WireError::Truncated);
    }
    if src[0] != OP_REFERENCED {
        return Err(WireError::BadOpcode { observed: src[0] });
    }
    let object_id_end: usize = 7 + bytes::get_u16(src, 5) as usize;
    if src.len() < object_id_end {
        return Err(WireError::Truncated);
    }
    match check_key(0, 0, bytes::get_u16(src, 5) as usize) {
        Ok(()) => {},
        Err(e) => {
            return Err(e);
        },
    }
    Ok((bytes::get_u32(src, 1), slice_subrange(src, 7, object_id_end)))
}

/// Decoding what was encoded, whatever follows it, gives the parts back.
pub proof fn lemma_referenced_req_round_trip(cursor: u32, object_id: Seq<u8>, rest: Seq<u8>)
    requires
        loam_limits::key_verdict(0, 0, object_id.len()) is Ok,
    ensures
        referenced_req_parse(referenced_req_frame(cursor, object_id) + rest) == Ok::<(u32, Seq<u8>), WireError>((cursor, object_id)),
{
    broadcast use bytes::lemma_subrange_left, bytes::lemma_subrange_right;

    let s = referenced_req_frame(cursor, object_id) + rest;
    assert(s[0] == seq![OP_REFERENCED][0]);
    assert(s.subrange(1, 5) == bytes::le32(cursor));
    bytes::lemma_u32_at(s, 1, cursor);
    assert(s.subrange(5, 7) == bytes::le16(object_id.len() as u16));
    bytes::lemma_u16_at(s, 5, object_id.len() as u16);
    assert(s.subrange(7, (7 + object_id.len()) as int) == object_id);
}

/// The bytes of the answer to a reference query.
pub open spec fn referenced_resp_frame(referenced: bool, next_cursor: u32) -> Seq<u8> {
    seq![OP_REFERENCED] + seq![if referenced { 1u8 } else { 0u8 }] + bytes::le32(next_cursor)
}

/// Why the answer to a reference query is not written to a buffer with this much room.
pub open spec fn referenced_resp_refusal(room: nat, referenced: bool, next_cursor: u32) -> Option<WireError> {
    no_room(room, referenced_resp_frame(referenced, next_cursor).len())
}

/// Write the answer to a reference query to the start of `dst`. Returns its length.
pub fn encode_referenced_resp(dst: &mut [u8], referenced: bool, next_cursor: u32) -> (r: Result<usize, WireError>)
    ensures
        bytes::encodes(
            r,
            old(dst)@,
            final(dst)@,
            referenced_resp_refusal(old(dst)@.len(), referenced, next_cursor),
            referenced_resp_frame(referenced, next_cursor),
        ),
{
    broadcast use bytes::lemma_write_first, bytes::lemma_write_next;

    let needed: usize = 6;
    if dst.len() < needed {
        return Err(WireError::BufferTooSmall { needed, actual: dst.len() });
    }
    bytes::put_u8(dst, 0, OP_REFERENCED);
    bytes::put_u8(dst, 1, if referenced { 1 } else { 0 });
    bytes::put_u32(dst, 2, next_cursor);
    Ok(needed)
}

/// What `decode_referenced_resp` makes of `s`.
pub open spec fn referenced_resp_parse(s: Seq<u8>) -> Result<(bool, u32), WireError> {
    if s.len() < 6 {
        Err(WireError::Truncated)
    } else if s[0] != OP_REFERENCED {
        Err(WireError::BadOpcode { observed: s[0] })
    } else {
        Ok((s[1] != 0, bytes::u32_at(s, 2)))
    }
}

/// Decode the answer to a reference query.
pub fn decode_referenced_resp(src: &[u8]) -> (r: Result<(bool, u32), WireError>)
    ensures
        match r {
            Ok(d) => referenced_resp_parse(src@) == Ok::<(bool, u32), WireError>((d.0, d.1)),
            Err(e) => referenced_resp_parse(src@) == Err::<(bool, u32), WireError>(e),
        },
{
    if src.len() < 6 {
        return Err(WireError::Truncated);
    }
    if src[0] != OP_REFERENCED {
        return Err(WireError::BadOpcode { observed: src[0] });
    }
    Ok((src[1] != 0, bytes::get_u32(src, 2)))
}

/// Decoding what was encoded, whatever follows it, gives the parts back.
pub proof fn lemma_referenced_resp_round_trip(referenced: bool, next_cursor: u32, rest: Seq<u8>)
    ensures
        referenced_resp_parse(referenced_resp_frame(referenced, next_cursor) + rest) == Ok::<(bool, u32), WireError>((referenced, next_cursor)),
{
    broadcast use bytes::lemma_subrange_left, bytes::lemma_subrange_right;

    let s = referenced_resp_frame(referenced, next_cursor) + rest;
    assert(s[0] == seq![OP_REFERENCED][0]);
    assert(s[1] == seq![if referenced { 1u8 } else { 0u8 }][0]);
    assert(s.subrange(2, 6) == bytes::le32(next_cursor));
    bytes::lemma_u32_at(s, 2, next_cursor);
}

/// The bytes of the answer to a lookup that found a binding.
pub open spec fn lookup_found_frame(object_id: Seq<u8>, revision: u64, kind: u8) -> Seq<u8> {
    seq![OP_LOOKUP] + seq![LOOKUP_FOUND] + seq![object_id.len() as u8] + object_id + bytes::le64(revision) + seq![kind]
}

/// Why the answer is not written to a buffer with this much room.
pub open spec fn lookup_found_refusal(room: nat, object_id: Seq<u8>, revision: u64, kind: u8) -> Option<WireError> {
    if object_id.len() > 255 {
        Some(WireError::StringTooLong { len: object_id.len() as usize, max: 255 })
    } else {
        no_room(room, lookup_found_frame(object_id, revision, kind).len())
    }
}

/// Write the answer to a lookup that found a binding.
pub fn encode_lookup_found(dst: &mut [u8], object_id: &[u8], revision: u64, kind: u8) -> (r: Result<usize, WireError>)
    ensures
        bytes::encodes(
            r,
            old(dst)@,
            final(dst)@,
            lookup_found_refusal(old(dst)@.len(), object_id@, revision, kind),
            lookup_found_frame(object_id@, revision, kind),
        ),
{
    broadcast use bytes::lemma_write_first, bytes::lemma_write_next;

    if object_id.len() > 255 {
        return Err(WireError::StringTooLong { len: object_id.len(), max: 255 });
    }
    let needed: usize = 12 + object_id.len();
    if dst.len() < needed {
        return Err(WireError::BufferTooSmall { needed, actual: dst.len() });
    }
    bytes::put_u8(dst, 0, OP_LOOKUP);
    bytes::put_u8(dst, 1, LOOKUP_FOUND);
    bytes::put_u8(dst, 2, object_id.len() as u8);
    bytes::put_bytes(dst, 3, object_id);
    bytes::put_u64(dst, 3 + object_id.len(), revision);
    bytes::put_u8(dst, 11 + object_id.len(), kind);
    Ok(needed)
}

/// Write the answer to a lookup that found nothing.
pub fn encode_lookup_not_found(dst: &mut [u8]) -> (r: Result<usize, WireError>)
    ensures
        bytes::encodes(
            r,
            old(dst)@,
            final(dst)@,
            no_room(old(dst)@.len(), 2),
            seq![OP_LOOKUP, LOOKUP_NOT_FOUND],
        ),
{
    if dst.len() < 2 {
        return Err(WireError::BufferTooSmall { needed: 2, actual: dst.len() });
    }
    dst[0] = OP_LOOKUP;
    dst[1] = LOOKUP_NOT_FOUND;
    proof {
        reveal(bytes::written);
    }
    assert(dst@ =~= bytes::written(old(dst)@, seq![OP_LOOKUP, LOOKUP_NOT_FOUND]));
    Ok(2)
}

/// The answer to a lookup, decoded.
#[derive(Debug, Clone, Copy, PartialEq, Eq)]
pub enum DecodedLookupResp<'a> {
    Found { object_id: &'a [u8], revision: u64, kind: u8 },
    NotFound,
}

/// What `decode_lookup_resp` makes of `s`: the id, revision and kind, or `None`
/// where nothing was found.
pub open spec fn lookup_resp_parse(s: Seq<u8>) -> Result<Option<(Seq<u8>, u64, u8)>, WireError> {
    if s.len() < 2 {
        Err(WireError::Truncated)
    } else if s[0] != OP_LOOKUP {
        Err(WireError::BadOpcode { observed: s[0] })
    } else if s[1] == LOOKUP_NOT_FOUND {
        Ok(None)
    } else if s[1] != LOOKUP_FOUND {
        Err(WireError::BadKind { observed: s[1] })
    } else if s.len() < 3 || s.len() < 12 + s[2] {
        Err(WireError::Truncated)
    } else {
        Ok(Some((s.subrange(3, 3 + s[2]), bytes::u64_at(s, 3 + s[2]), s[11 + s[2]])))
    }
}

/// Decode the answer to a lookup.
pub fn decode_lookup_resp(src: &[u8]) -> (r: Result<DecodedLookupResp<'_>, WireError>)
    ensures
        match r {
            Ok(DecodedLookupResp::Found { object_id, revision, kind }) => lookup_resp_parse(src@) == Ok::<
                Option<(Seq<u8>, u64, u8)>,
                WireError,
            >(Some((object_id@, revision, kind))),
            Ok(DecodedLookupResp::NotFound) => lookup_resp_parse(src@) == Ok::<
                Option<(Seq<u8>, u64, u8)>,
                WireError,
            >(None),
            Err(e) => lookup_resp_parse(src@) == Err::<Option<(Seq<u8>, u64, u8)>, WireError>(e),
        },
{
    if src.len() < 2 {
        return Err(WireError::Truncated);
    }
    if src[0] != OP_LOOKUP {
        return Err(WireError::BadOpcode { observed: src[0] });
    }
    if src[1] == LOOKUP_NOT_FOUND {
        return Ok(DecodedLookupResp::NotFound);
    }
    if src[1] != LOOKUP_FOUND {
        return Err(WireError::BadKind { observed: src[1] });
    }
    if src.len() < 3 {
        return Err(WireError::Truncated);
    }
    let id_len: usize = src[2] as usize;
    if src.len() < 12 + id_len {
        return Err(WireError::Truncated);
    }
    Ok(
        DecodedLookupResp::Found {
            object_id: slice_subrange(src, 3, 3 + id_len),
            revision: bytes::get_u64(src, 3 + id_len),
            kind: src[11 + id_len],
        },
    )
}

/// Decoding an answer, whatever follows it, gives what was answered.
pub proof fn lemma_lookup_resp_round_trip(object_id: Seq<u8>, revision: u64, kind: u8, rest: Seq<u8>)
    requires
        object_id.len() <= 255,
    ensures
        lookup_resp_parse(lookup_found_frame(object_id, revision, kind) + rest) == Ok::<
            Option<(Seq<u8>, u64, u8)>,
            WireError,
        >(Some((object_id, revision, kind))),
        lookup_resp_parse(seq![OP_LOOKUP, LOOKUP_NOT_FOUND] + rest) == Ok::<
            Option<(Seq<u8>, u64, u8)>,
            WireError,
        >(None),
{
    let s = lookup_found_frame(object_id, revision, kind) + rest;
    let n = object_id.len() as int;
    assert(s[0] == OP_LOOKUP && s[1] == LOOKUP_FOUND && s[2] == n);
    assert(s.subrange(3, 3 + n) =~= object_id);
    assert(s.subrange(3 + n, 11 + n) =~= bytes::le64(revision));
    bytes::lemma_u64_at(s, 3 + n, revision);
    assert(s[11 + n] == kind);
}

/// The bytes of one page of a listing.
pub open spec fn list_resp_frame(next_cursor: u32, paths: Seq<Seq<u8>>) -> Seq<u8> {
    seq![OP_LIST] + bytes::le32(next_cursor) + seq![paths.len() as u8] + path_list::entries(paths)
}

/// Why a page is not written to a buffer with this much room.
pub open spec fn list_resp_refusal(room: nat, next_cursor: u32, paths: Seq<Seq<u8>>) -> Option<WireError> {
    if paths.len() > MAX_LIST_PAGE {
        Some(WireError::StringTooLong { len: paths.len() as usize, max: MAX_LIST_PAGE })
    } else {
        no_room(room, list_resp_frame(next_cursor, paths).len())
    }
}

/// Write one page of a listing. A path longer than its 16-bit length field can
/// hold has no encoding.
pub fn encode_list_resp(dst: &mut [u8], next_cursor: u32, paths: &[&[u8]]) -> (r: Result<usize, WireError>)
    requires
        path_list::all_short(path_list::contents(paths@)),
    ensures
        bytes::encodes(
            r,
            old(dst)@,
            final(dst)@,
            list_resp_refusal(old(dst)@.len(), next_cursor, path_list::contents(paths@)),
            list_resp_frame(next_cursor, path_list::contents(paths@)),
        ),
{
    broadcast use bytes::lemma_write_first, bytes::lemma_write_next;

    if paths.len() > MAX_LIST_PAGE {
        return Err(WireError::StringTooLong { len: paths.len(), max: MAX_LIST_PAGE });
    }
    let needed: usize = 6 + path_list::entries_len(paths);
    if dst.len() < needed {
        return Err(WireError::BufferTooSmall { needed, actual: dst.len() });
    }
    bytes::put_u8(dst, 0, OP_LIST);
    bytes::put_u32(dst, 1, next_cursor);
    bytes::put_u8(dst, 5, paths.len() as u8);
    path_list::put_entries(dst, 6, paths);
    Ok(needed)
}

/// What `decode_list_resp` makes of `s`.
pub open spec fn list_resp_parse(s: Seq<u8>) -> Result<(u32, Seq<Seq<u8>>), WireError> {
    if s.len() < 6 {
        Err(WireError::Truncated)
    } else if s[0] != OP_LIST {
        Err(WireError::BadOpcode { observed: s[0] })
    } else if s[5] > MAX_LIST_PAGE {
        Err(WireError::Truncated)
    } else {
        match path_list::entries_parse(s, 6, s[5] as nat) {
            Some(paths) => Ok((bytes::u32_at(s, 1), paths)),
            None => Err(WireError::Truncated),
        }
    }
}

/// Decode one page of a listing: the next cursor, and the paths in order.
pub fn decode_list_resp(src: &[u8]) -> (r: Result<(u32, Vec<&[u8]>), WireError>)
    ensures
        match r {
            Ok(d) => list_resp_parse(src@) == Ok::<(u32, Seq<Seq<u8>>), WireError>((d.0, path_list::contents(d.1@))),
            Err(e) => list_resp_parse(src@) == Err::<(u32, Seq<Seq<u8>>), WireError>(e),
        },
{
    if src.len() < 6 {
        return Err(WireError::Truncated);
    }
    if src[0] != OP_LIST {
        return Err(WireError::BadOpcode { observed: src[0] });
    }
    let count: usize = src[5] as usize;
    if count > MAX_LIST_PAGE {
        return Err(WireError::Truncated);
    }
    match path_list::get_entries(src, 6, count) {
        Some(paths) => Ok((bytes::get_u32(src, 1), paths)),
        None => Err(WireError::Truncated),
    }
}

/// Decoding a page, whatever follows it, gives its cursor and paths back.
pub proof fn lemma_list_resp_round_trip(next_cursor: u32, paths: Seq<Seq<u8>>, rest: Seq<u8>)
    requires
        paths.len() <= MAX_LIST_PAGE,
        path_list::all_short(paths),
    ensures
        list_resp_parse(list_resp_frame(next_cursor, paths) + rest) == Ok::<(u32, Seq<Seq<u8>>), WireError>(
            (next_cursor, paths),
        ),
{
    let head = seq![OP_LIST] + bytes::le32(next_cursor) + seq![paths.len() as u8];
    let s = list_resp_frame(next_cursor, paths) + rest;
    assert(s =~= head + path_list::entries(paths) + rest);
    assert(s[0] == OP_LIST && s[5] == paths.len());
    assert(s.subrange(1, 5) =~= bytes::le32(next_cursor));
    bytes::lemma_u32_at(s, 1, next_cursor);
    path_list::lemma_entries_round_trip(head, paths, rest);
}

/// The opcode of a record, if there is one.
pub fn peek_opcode(src: &[u8]) -> (r: Option<u8>)
    ensures
        r == if src@.len() == 0 {
            None::<u8>
        } else {
            Some(src@[0])
        },
{
    if src.len() == 0 {
        None
    } else {
        Some(src[0])
    }
}

/// The header length of a request, and where its (up to three) length fields
/// stand, zero where there is none; `None` for a byte that begins no request.
pub open spec fn request_shape(opcode: u8) -> Option<(int, int, int, int)> {
    if opcode == OP_BIND {
        Some((16, 1, 3, 5))
    } else if opcode == OP_RENAME {
        Some((15, 1, 3, 5))
    } else if opcode == OP_UNBIND || opcode == OP_LOOKUP {
        Some((5, 1, 3, 0))
    } else if opcode == OP_LIST {
        Some((8, 1, 0, 0))
    } else if opcode == OP_REFERENCED {
        Some((7, 5, 0, 0))
    } else {
        None
    }
}

/// The length that the field at `at` gives, zero where there is no field.
pub open spec fn field_len(s: Seq<u8>, at: int) -> int {
    if at == 0 {
        0
    } else {
        bytes::u16_at(s, at) as int
    }
}

/// The length of the request at the front of `s`: `None` while it is not whole.
pub open spec fn record_len(s: Seq<u8>) -> Result<Option<int>, WireError> {
    if s.len() == 0 {
        Ok(None)
    } else {
        match request_shape(s[0]) {
            None => Err(WireError::BadOpcode { observed: s[0] }),
            Some((header, a, b, c)) => if s.len() < header {
                Ok(None)
            } else {
                let total = header + field_len(s, a) + field_len(s, b) + field_len(s, c);
                if s.len() >= total {
                    Ok(Some(total))
                } else {
                    Ok(None)
                }
            },
        }
    }
}

/// The length of the request record at the front of `src`, or `None` when `src`
/// does not yet hold a whole one. A byte that begins no request is an error, so
/// that a reader can skip it.
pub fn request_record_len(src: &[u8]) -> (r: Result<Option<usize>, WireError>)
    ensures
        match r {
            Ok(Some(n)) => record_len(src@) == Ok::<Option<int>, WireError>(Some(n as int)) && 0 < n <= src@.len(),
            Ok(None) => record_len(src@) == Ok::<Option<int>, WireError>(None),
            Err(e) => record_len(src@) == Err::<Option<int>, WireError>(e),
        },
{
    if src.len() == 0 {
        return Ok(None);
    }
    let opcode: u8 = src[0];
    let (header, a, b, c): (usize, usize, usize, usize) = if opcode == OP_BIND {
        (16, 1, 3, 5)
    } else if opcode == OP_RENAME {
        (15, 1, 3, 5)
    } else if opcode == OP_UNBIND || opcode == OP_LOOKUP {
        (5, 1, 3, 0)
    } else if opcode == OP_LIST {
        (8, 1, 0, 0)
    } else if opcode == OP_REFERENCED {
        (7, 5, 0, 0)
    } else {
        return Err(WireError::BadOpcode { observed: opcode });
    };
    if src.len() < header {
        return Ok(None);
    }
    let mut total: usize = header;
    total += bytes::get_u16(src, a) as usize;
    if b != 0 {
        total += bytes::get_u16(src, b) as usize;
    }
    if c != 0 {
        total += bytes::get_u16(src, c) as usize;
    }
    if src.len() >= total {
        Ok(Some(total))
    } else {
        Ok(None)
    }
}

/// A bind is cut off a stream exactly where it ends, whatever follows it.
pub proof fn lemma_bind_cut(namespace_root: Seq<u8>, path: Seq<u8>, object_id: Seq<u8>, kind: u8, revision: u64, rest: Seq<u8>)
    requires
        namespace_root.len() <= u16::MAX,
        path.len() <= u16::MAX,
        object_id.len() <= u16::MAX,
    ensures
        record_len(bind_frame(namespace_root, path, object_id, kind, revision) + rest) == Ok::<Option<int>, WireError>(Some(bind_frame(namespace_root, path, object_id, kind, revision).len() as int)),
{
    broadcast use bytes::lemma_subrange_left, bytes::lemma_subrange_right;

    let s = bind_frame(namespace_root, path, object_id, kind, revision) + rest;
    assert(s[0] == OP_BIND);
    assert(s.subrange(1, 3) == bytes::le16(namespace_root.len() as u16));
    bytes::lemma_u16_at(s, 1, namespace_root.len() as u16);
    assert(s.subrange(3, 5) == bytes::le16(path.len() as u16));
    bytes::lemma_u16_at(s, 3, path.len() as u16);
    assert(s.subrange(5, 7) == bytes::le16(object_id.len() as u16));
    bytes::lemma_u16_at(s, 5, object_id.len() as u16);
}

/// A rename is cut off a stream exactly where it ends, whatever follows it.
pub proof fn lemma_rename_cut(namespace_root: Seq<u8>, from: Seq<u8>, to: Seq<u8>, new_revision: u64, rest: Seq<u8>)
    requires
        namespace_root.len() <= u16::MAX,
        from.len() <= u16::MAX,
        to.len() <= u16::MAX,
    ensures
        record_len(rename_frame(namespace_root, from, to, new_revision) + rest) == Ok::<Option<int>, WireError>(Some(rename_frame(namespace_root, from, to, new_revision).len() as int)),
{
    broadcast use bytes::lemma_subrange_left, bytes::lemma_subrange_right;

    let s = rename_frame(namespace_root, from, to, new_revision) + rest;
    assert(s[0] == OP_RENAME);
    assert(s.subrange(1, 3) == bytes::le16(namespace_root.len() as u16));
    bytes::lemma_u16_at(s, 1, namespace_root.len() as u16);
    assert(s.subrange(3, 5) == bytes::le16(from.len() as u16));
    bytes::lemma_u16_at(s, 3, from.len() as u16);
    assert(s.subrange(5, 7) == bytes::le16(to.len() as u16));
    bytes::lemma_u16_at(s, 5, to.len() as u16);
}

/// An unbind is cut off a stream exactly where it ends, whatever follows it.
pub proof fn lemma_unbind_cut(namespace_root: Seq<u8>, path: Seq<u8>, rest: Seq<u8>)
    requires
        namespace_root.len() <= u16::MAX,
        path.len() <= u16::MAX,
    ensures
        record_len(unbind_frame(namespace_root, path) + rest) == Ok::<Option<int>, WireError>(Some(unbind_frame(namespace_root, path).len() as int)),
{
    broadcast use bytes::lemma_subrange_left, bytes::lemma_subrange_right;

    let s = unbind_frame(namespace_root, path) + rest;
    assert(s[0] == OP_UNBIND);
    assert(s.subrange(1, 3) == bytes::le16(namespace_root.len() as u16));
    bytes::lemma_u16_at(s, 1, namespace_root.len() as u16);
    assert(s.subrange(3, 5) == bytes::le16(path.len() as u16));
    bytes::lemma_u16_at(s, 3, path.len() as u16);
}

/// A lookup request is cut off a stream exactly where it ends, whatever follows it.
pub proof fn lemma_lookup_req_cut(namespace_root: Seq<u8>, path: Seq<u8>, rest: Seq<u8>)
    requires
        namespace_root.len() <= u16::MAX,
        path.len() <= u16::MAX,
    ensures
        record_len(lookup_req_frame(namespace_root, path) + rest) == Ok::<Option<int>, WireError>(Some(lookup_req_frame(namespace_root, path).len() as int)),
{
    broadcast use bytes::lemma_subrange_left, bytes::lemma_subrange_right;

    let s = lookup_req_frame(namespace_root, path) + rest;
    assert(s[0] == OP_LOOKUP);
    assert(s.subrange(1, 3) == bytes::le16(namespace_root.len() as u16));
    bytes::lemma_u16_at(s, 1, namespace_root.len() as u16);
    assert(s.subrange(3, 5) == bytes::le16(path.len() as u16));
    bytes::lemma_u16_at(s, 3, path.len() as u16);
}

/// A list request is cut off a stream exactly where it ends, whatever follows it.
pub proof fn lemma_list_req_cut(namespace_root: Seq<u8>, cursor: u32, max: u8, rest: Seq<u8>)
    requires
        namespace_root.len() <= u16::MAX,
    ensures
        record_len(list_req_frame(namespace_root, cursor, max) + rest) == Ok::<Option<int>, WireError>(Some(list_req_frame(namespace_root, cursor, max).len() as int)),
{
    broadcast use bytes::lemma_subrange_left, bytes::lemma_subrange_right;

    let s = list_req_frame(namespace_root, cursor, max) + rest;
    assert(s[0] == OP_LIST);
    assert(s.subrange(1, 3) == bytes::le16(namespace_root.len() as u16));
    bytes::lemma_u16_at(s, 1, namespace_root.len() as u16);
}

/// A reference query is cut off a stream exactly where it ends, whatever follows it.
pub proof fn lemma_referenced_req_cut(cursor: u32, object_id: Seq<u8>, rest: Seq<u8>)
    requires
        object_id.len() <= u16::MAX,
    ensures
        record_len(referenced_req_frame(cursor, object_id) + rest) == Ok::<Option<int>, WireError>(Some(referenced_req_frame(cursor, object_id).len() as int)),
{
    broadcast use bytes::lemma_subrange_left, bytes::lemma_subrange_right;

    let s = referenced_req_frame(cursor, object_id) + rest;
    assert(s[0] == OP_REFERENCED);
    assert(s.subrange(5, 7) == bytes::le16(object_id.len() as u16));
    bytes::lemma_u16_at(s, 5, object_id.len() as u16);
}

} // verus!
