//! Extents of a volume as blobs, and descriptors of volumes.
//!
//! An extent is stored in the body plane under a key derived from its volume and
//! index; the blob repeats that key, so that it can be checked where it lies.
//!
//! ```text
//! extent  ["LVEX"][key:32][len:u32][payload]
//! volume  ["LVOL"][volume_id:16][size:u64][extent_size:u32]
//! ```
use crate::bytes;
use crate::sha256;
use vstd::prelude::*;
use vstd::slice::slice_subrange;

verus! {

pub const DIGEST_LEN: usize = 32;

pub const VOLUME_ID_LEN: usize = 16;

/// The letters `LVEX`.
pub const EXT_MAGIC: [u8; 4] = [0x4C, 0x56, 0x45, 0x58];

pub const EXT_HDR: usize = 40;

/// The letters `LVOL`.
pub const VOL_MAGIC: [u8; 4] = [0x4C, 0x56, 0x4F, 0x4C];

pub const VOL_DESC_LEN: usize = 32;

/// Longest payload of an extent: the blob fits one message of the body plane.
pub const MAX_EXTENT_SIZE: usize = 61400;

#[derive(Debug, Clone, Copy, PartialEq, Eq, Structural)]
pub enum ExtentError {
    BufferTooSmall,
    Malformed,
    TooLarge,
}

/// What the key of an extent is the digest of.
pub open spec fn extent_key_input(volume_id: Seq<u8>, index: u64) -> Seq<u8> {
    // loam-vol-extent
    seq![
        0x6Cu8, 0x6F, 0x61, 0x6D, 0x2D, 0x76, 0x6F, 0x6C, 0x2D, 0x65, 0x78, 0x74, 0x65, 0x6E, 0x74,
    ] + volume_id + bytes::le64(index)
}

/// The key under which an extent of a volume is stored.
pub fn derive_extent_key(volume_id: &[u8; VOLUME_ID_LEN], index: u64) -> (r: [u8; DIGEST_LEN])
    ensures
        r@ == sha256::digest(extent_key_input(volume_id@, index)),
{
    let tag: [u8; 15] = [0x6C, 0x6F, 0x61, 0x6D, 0x2D, 0x76, 0x6F, 0x6C, 0x2D, 0x65, 0x78, 0x74, 0x65, 0x6E, 0x74];
    let mut index_bytes: [u8; 8] = [0u8; 8];
    bytes::put_u64(&mut index_bytes, 0, index);
    proof {
        reveal(bytes::splice);
        assert(index_bytes@ =~= bytes::le64(index));
    }
    let mut h: sha256::Sha256 = sha256::Sha256::new();
    h.update(tag.as_slice());
    h.update(volume_id.as_slice());
    h.update(index_bytes.as_slice());
    assert(h@ =~= extent_key_input(volume_id@, index));
    h.finalize()
}

/// The bytes of an extent blob.
pub open spec fn extent_frame(key: Seq<u8>, payload: Seq<u8>) -> Seq<u8> {
    EXT_MAGIC@ + key + bytes::le32(payload.len() as u32) + payload
}

/// Why an extent blob is not written to a buffer with this much room.
pub open spec fn extent_refusal(room: nat, payload: Seq<u8>) -> Option<ExtentError> {
    if payload.len() > MAX_EXTENT_SIZE {
        Some(ExtentError::TooLarge)
    } else if room < 40 + payload.len() {
        Some(ExtentError::BufferTooSmall)
    } else {
        None
    }
}

/// Write an extent blob to the start of `dst`. Returns its length.
pub fn encode_extent_blob(dst: &mut [u8], key: &[u8; DIGEST_LEN], payload: &[u8]) -> (r: Result<usize, ExtentError>)
    ensures
        bytes::encodes(
            r,
            old(dst)@,
            final(dst)@,
            extent_refusal(old(dst)@.len(), payload@),
            extent_frame(key@, payload@),
        ),
{
    broadcast use bytes::lemma_write_first, bytes::lemma_write_next;

    if payload.len() > MAX_EXTENT_SIZE {
        return Err(ExtentError::TooLarge);
    }
    let needed: usize = 40 + payload.len();
    if dst.len() < needed {
        return Err(ExtentError::BufferTooSmall);
    }
    let magic: [u8; 4] = EXT_MAGIC;
    bytes::put_bytes(dst, 0, magic.as_slice());
    bytes::put_bytes(dst, 4, key.as_slice());
    bytes::put_u32(dst, 36, payload.len() as u32);
    bytes::put_bytes(dst, 40, payload);
    Ok(needed)
}

/// The key and payload of a well-formed extent blob.
pub open spec fn extent_parse(s: Seq<u8>) -> Option<(Seq<u8>, Seq<u8>)> {
    if s.len() < 40 || s.take(4) != EXT_MAGIC@ || s.len() != 40 + bytes::u32_at(s, 36) {
        None
    } else {
        Some((s.subrange(4, 36), s.skip(40)))
    }
}

/// The key and payload of an extent blob. A blob that is longer or shorter than
/// it says is malformed.
pub fn decode_extent_blob(blob: &[u8]) -> (r: Result<(&[u8], &[u8]), ExtentError>)
    ensures
        match r {
            Ok(d) => extent_parse(blob@) == Some((d.0@, d.1@)),
            Err(e) => e == ExtentError::Malformed && extent_parse(blob@) is None,
        },
{
    let magic: [u8; 4] = EXT_MAGIC;
    if blob.len() < EXT_HDR || !bytes::bytes_equal(slice_subrange(blob, 0, 4), magic.as_slice()) {
        return Err(ExtentError::Malformed);
    }
    let len: u64 = bytes::get_u32(blob, 36) as u64;
    if blob.len() as u64 != 40 + len {
        return Err(ExtentError::Malformed);
    }
    assert(blob@.subrange(40, blob@.len() as int) =~= blob@.skip(40));
    Ok((slice_subrange(blob, 4, 36), slice_subrange(blob, 40, blob.len())))
}

/// Decoding an extent blob gives its key and payload back.
pub proof fn lemma_extent_round_trip(key: Seq<u8>, payload: Seq<u8>)
    requires
        key.len() == DIGEST_LEN,
        payload.len() <= MAX_EXTENT_SIZE,
    ensures
        extent_parse(extent_frame(key, payload)) == Some((key, payload)),
{
    let s = extent_frame(key, payload);
    assert(s.take(4) =~= EXT_MAGIC@);
    assert(s.subrange(4, 36) =~= key);
    assert(s.subrange(36, 40) =~= bytes::le32(payload.len() as u32));
    bytes::lemma_u32_at(s, 36, payload.len() as u32);
    assert(s.skip(40) =~= payload);
}

/// Whether a blob is an extent that was stored under `key`.
pub fn extent_blob_matches_key(blob: &[u8], key: &[u8; DIGEST_LEN]) -> (r: bool)
    ensures
        r == (extent_parse(blob@) matches Some(p) && p.0 == key@),
{
    match decode_extent_blob(blob) {
        Ok((declared, _)) => bytes::bytes_equal(declared, key.as_slice()),
        Err(_) => false,
    }
}

/// The first bytes say that a blob was stored under a key, as an extent or a shard.
pub open spec fn is_keyed_magic(prefix: Seq<u8>) -> bool {
    prefix.len() >= 4 && (prefix.take(4) == EXT_MAGIC@ || (prefix[0] == 0x5D && prefix[1] == 0xEC))
}

/// Whether the first bytes of a blob say that it was stored under a key.
pub fn blob_is_keyed_magic(prefix: &[u8]) -> (r: bool)
    ensures
        r == is_keyed_magic(prefix@),
{
    if prefix.len() < 4 {
        return false;
    }
    let magic: [u8; 4] = EXT_MAGIC;
    bytes::bytes_equal(slice_subrange(prefix, 0, 4), magic.as_slice()) || (prefix[0] == 0x5D && prefix[1] == 0xEC)
}

/// The descriptor of a volume.
#[derive(Debug, Clone, Copy, PartialEq, Eq)]
pub struct VolumeDesc {
    pub volume_id: [u8; VOLUME_ID_LEN],
    pub size_bytes: u64,
    pub extent_size: u32,
}

/// What the id of a volume is cut from the digest of.
pub open spec fn volume_id_input(namespace_root: Seq<u8>, path: Seq<u8>) -> Seq<u8> {
    // loam-volume
    seq![0x6Cu8, 0x6F, 0x61, 0x6D, 0x2D, 0x76, 0x6F, 0x6C, 0x75, 0x6D, 0x65] + namespace_root + seq![0u8] + path
}

/// The id of the volume that is bound at a path.
pub fn derive_volume_id(namespace_root: &[u8], path: &[u8]) -> (r: [u8; VOLUME_ID_LEN])
    requires
        12 + namespace_root@.len() + path@.len() < 0x2000_0000_0000_0000,
    ensures
        r@ == sha256::digest(volume_id_input(namespace_root@, path@)).take(16),
{
    let tag: [u8; 11] = [0x6C, 0x6F, 0x61, 0x6D, 0x2D, 0x76, 0x6F, 0x6C, 0x75, 0x6D, 0x65];
    let zero: [u8; 1] = [0u8];
    let mut h: sha256::Sha256 = sha256::Sha256::new();
    h.update(tag.as_slice());
    h.update(namespace_root);
    h.update(zero.as_slice());
    h.update(path);
    assert(h@ =~= volume_id_input(namespace_root@, path@));
    let full: [u8; 32] = h.finalize();
    let mut id: [u8; VOLUME_ID_LEN] = [0u8; VOLUME_ID_LEN];
    let mut i: usize = 0;
    while i < VOLUME_ID_LEN
        invariant
            i <= VOLUME_ID_LEN,
            forall|j: int| 0 <= j < i ==> #[trigger] id@[j] == full@[j],
        decreases VOLUME_ID_LEN - i,
    {
        id[i] = full[i];
        i += 1;
    }
    assert(id@ =~= full@.take(16));
    id
}

/// The bytes of a descriptor.
pub open spec fn volume_frame(volume_id: Seq<u8>, size_bytes: u64, extent_size: u32) -> Seq<u8> {
    VOL_MAGIC@ + volume_id + bytes::le64(size_bytes) + bytes::le32(extent_size)
}

/// Why a descriptor is not written to a buffer with this much room.
pub open spec fn volume_refusal(room: nat, extent_size: u32) -> Option<ExtentError> {
    if room < VOL_DESC_LEN {
        Some(ExtentError::BufferTooSmall)
    } else if extent_size == 0 || extent_size > MAX_EXTENT_SIZE {
        Some(ExtentError::TooLarge)
    } else {
        None
    }
}

/// Write a descriptor to the start of `dst`. Returns its length.
pub fn encode_volume_desc(dst: &mut [u8], desc: &VolumeDesc) -> (r: Result<usize, ExtentError>)
    ensures
        bytes::encodes(
            r,
            old(dst)@,
            final(dst)@,
            volume_refusal(old(dst)@.len(), desc.extent_size),
            volume_frame(desc.volume_id@, desc.size_bytes, desc.extent_size),
        ),
{
    broadcast use bytes::lemma_write_first, bytes::lemma_write_next;

    if dst.len() < VOL_DESC_LEN {
        return Err(ExtentError::BufferTooSmall);
    }
    if desc.extent_size == 0 || desc.extent_size as usize > MAX_EXTENT_SIZE {
        return Err(ExtentError::TooLarge);
    }
    let magic: [u8; 4] = VOL_MAGIC;
    bytes::put_bytes(dst, 0, magic.as_slice());
    bytes::put_bytes(dst, 4, desc.volume_id.as_slice());
    bytes::put_u64(dst, 20, desc.size_bytes);
    bytes::put_u32(dst, 28, desc.extent_size);
    Ok(VOL_DESC_LEN)
}

/// The id, size and extent size of a well-formed descriptor.
pub open spec fn volume_parse(s: Seq<u8>) -> Option<(Seq<u8>, u64, u32)> {
    if s.len() != VOL_DESC_LEN || s.take(4) != VOL_MAGIC@ {
        None
    } else {
        let extent_size = bytes::u32_at(s, 28);
        if extent_size == 0 || extent_size > MAX_EXTENT_SIZE {
            None
        } else {
            Some((s.subrange(4, 20), bytes::u64_at(s, 20), extent_size))
        }
    }
}

/// Decode a descriptor.
pub fn decode_volume_desc(src: &[u8]) -> (r: Result<VolumeDesc, ExtentError>)
    ensures
        match r {
            Ok(d) => volume_parse(src@) == Some((d.volume_id@, d.size_bytes, d.extent_size)),
            Err(e) => e == ExtentError::Malformed && volume_parse(src@) is None,
        },
{
    let magic: [u8; 4] = VOL_MAGIC;
    if src.len() != VOL_DESC_LEN || !bytes::bytes_equal(slice_subrange(src, 0, 4), magic.as_slice()) {
        return Err(ExtentError::Malformed);
    }
    let extent_size: u32 = bytes::get_u32(src, 28);
    if extent_size == 0 || extent_size as usize > MAX_EXTENT_SIZE {
        return Err(ExtentError::Malformed);
    }
    let mut volume_id: [u8; VOLUME_ID_LEN] = [0u8; VOLUME_ID_LEN];
    let mut i: usize = 0;
    while i < VOLUME_ID_LEN
        invariant
            i <= VOLUME_ID_LEN,
            src@.len() == VOL_DESC_LEN,
            forall|j: int| 0 <= j < i ==> #[trigger] volume_id@[j] == src@[4 + j],
        decreases VOLUME_ID_LEN - i,
    {
        volume_id[i] = src[4 + i];
        i += 1;
    }
    assert(volume_id@ =~= src@.subrange(4, 20));
    Ok(VolumeDesc { volume_id, size_bytes: bytes::get_u64(src, 20), extent_size })
}

/// Decoding a descriptor gives the volume back.
pub proof fn lemma_volume_round_trip(volume_id: Seq<u8>, size_bytes: u64, extent_size: u32)
    requires
        volume_id.len() == VOLUME_ID_LEN,
        0 < extent_size <= MAX_EXTENT_SIZE,
    ensures
        volume_parse(volume_frame(volume_id, size_bytes, extent_size)) == Some((volume_id, size_bytes, extent_size)),
{
    let s = volume_frame(volume_id, size_bytes, extent_size);
    assert(s.take(4) =~= VOL_MAGIC@);
    assert(s.subrange(4, 20) =~= volume_id);
    assert(s.subrange(20, 28) =~= bytes::le64(size_bytes));
    bytes::lemma_u64_at(s, 20, size_bytes);
    assert(s.subrange(28, 32) =~= bytes::le32(extent_size));
    bytes::lemma_u32_at(s, 28, extent_size);
}

/// An extent blob is recognised by its first bytes.
pub proof fn lemma_extent_is_keyed(key: Seq<u8>, payload: Seq<u8>)
    requires
        key.len() == DIGEST_LEN,
    ensures
        is_keyed_magic(extent_frame(key, payload)),
{
    assert(extent_frame(key, payload).take(4) =~= EXT_MAGIC@);
}

} // verus!
