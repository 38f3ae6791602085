//! Shards of an erasure-coded body as blobs.
//!
//! A shard is stored under a key derived from the body's digest and the shard's
//! index, so a reader can find it without a directory.
//!
//! ```text
//! [0xEC5D:u16][k][m][index][body_len:u32][body_digest:32][shard_len:u32][shard]
//! ```
use crate::bytes;
use crate::loam_body_wire;
use crate::sha256;
use vstd::prelude::*;
use vstd::slice::slice_subrange;

verus! {

pub const SHARD_MAGIC: u16 = 0xEC5D;

pub const DIGEST_LEN: usize = 32;

pub const SHARD_HDR: usize = 45;

/// The header of a shard blob.
#[derive(Debug, Clone, Copy, PartialEq, Eq)]
pub struct ShardHeader {
    pub k: u8,
    pub m: u8,
    pub index: u8,
    pub body_len: u32,
    pub body_digest: [u8; DIGEST_LEN],
    pub shard_len: u32,
}

#[derive(Debug, Clone, Copy, PartialEq, Eq, Structural)]
pub enum ShardWireError {
    Truncated,
    BadMagic { observed: u16 },
    BufferTooSmall { needed: usize, actual: usize },
}

/// What the key of a shard is the digest of.
pub open spec fn shard_key_input(body_digest: Seq<u8>, index: u8) -> Seq<u8> {
    // loam-ec-shard
    seq![0x6Cu8, 0x6F, 0x61, 0x6D, 0x2D, 0x65, 0x63, 0x2D, 0x73, 0x68, 0x61, 0x72, 0x64] + body_digest + seq![index]
}

/// The key under which a shard of a body is stored.
pub fn derive_shard_key(body_digest: &[u8; DIGEST_LEN], index: u8) -> (r: [u8; DIGEST_LEN])
    ensures
        r@ == sha256::digest(shard_key_input(body_digest@, index)),
{
    let tag: [u8; 13] = [0x6C, 0x6F, 0x61, 0x6D, 0x2D, 0x65, 0x63, 0x2D, 0x73, 0x68, 0x61, 0x72, 0x64];
    let last: [u8; 1] = [index];
    let mut h: sha256::Sha256 = sha256::Sha256::new();
    h.update(tag.as_slice());
    h.update(body_digest.as_slice());
    h.update(last.as_slice());
    assert(h@ =~= shard_key_input(body_digest@, index));
    h.finalize()
}

/// The bytes of a shard blob.
pub open spec fn shard_frame(k: u8, m: u8, index: u8, body_len: u32, body_digest: Seq<u8>, shard: Seq<u8>) -> Seq<u8> {
    bytes::le16(SHARD_MAGIC) + seq![k] + seq![m] + seq![index] + bytes::le32(body_len) + body_digest + bytes::le32(
        shard.len() as u32,
    ) + shard
}

/// The refusal of a buffer with less room than needed.
pub open spec fn no_room(room: nat, needed: nat) -> Option<ShardWireError> {
    if room < needed {
        Some(ShardWireError::BufferTooSmall { needed: needed as usize, actual: room as usize })
    } else {
        None
    }
}

/// Write a shard blob to the start of `dst`. Returns its length. The length
/// written is that of `shard`, whatever the header says.
pub fn encode_shard_blob(dst: &mut [u8], hdr: &ShardHeader, shard: &[u8]) -> (r: Result<usize, ShardWireError>)
    requires
        shard@.len() <= u32::MAX,
        45 + shard@.len() <= usize::MAX,
    ensures
        bytes::encodes(
            r,
            old(dst)@,
            final(dst)@,
            no_room(old(dst)@.len(), 45 + shard@.len()),
            shard_frame(hdr.k, hdr.m, hdr.index, hdr.body_len, hdr.body_digest@, shard@),
        ),
{
    broadcast use bytes::lemma_write_first, bytes::lemma_write_next;

    let needed: usize = 45 + shard.len();
    if dst.len() < needed {
        return Err(ShardWireError::BufferTooSmall { needed, actual: dst.len() });
    }
    bytes::put_u16(dst, 0, SHARD_MAGIC);
    bytes::put_u8(dst, 2, hdr.k);
    bytes::put_u8(dst, 3, hdr.m);
    bytes::put_u8(dst, 4, hdr.index);
    bytes::put_u32(dst, 5, hdr.body_len);
    bytes::put_bytes(dst, 9, hdr.body_digest.as_slice());
    bytes::put_u32(dst, 41, shard.len() as u32);
    bytes::put_bytes(dst, 45, shard);
    Ok(needed)
}

/// What is made of a header: `k`, `m`, index, body length, body digest and shard length.
pub open spec fn header_parse(s: Seq<u8>) -> Result<(u8, u8, u8, u32, Seq<u8>, u32), ShardWireError> {
    if s.len() < 45 {
        Err(ShardWireError::Truncated)
    } else if bytes::u16_at(s, 0) != SHARD_MAGIC {
        Err(ShardWireError::BadMagic { observed: bytes::u16_at(s, 0) })
    } else if s.len() < 45 + bytes::u32_at(s, 41) {
        Err(ShardWireError::Truncated)
    } else {
        Ok((s[2], s[3], s[4], bytes::u32_at(s, 5), s.subrange(9, 41), bytes::u32_at(s, 41)))
    }
}

/// Decode the header of a shard blob, which must be whole.
pub fn decode_shard_header(src: &[u8]) -> (r: Result<ShardHeader, ShardWireError>)
    ensures
        match r {
            Ok(h) => header_parse(src@) == Ok::<(u8, u8, u8, u32, Seq<u8>, u32), ShardWireError>(
                (h.k, h.m, h.index, h.body_len, h.body_digest@, h.shard_len),
            ),
            Err(e) => header_parse(src@) == Err::<(u8, u8, u8, u32, Seq<u8>, u32), ShardWireError>(e),
        },
{
    if src.len() < SHARD_HDR {
        return Err(ShardWireError::Truncated);
    }
    let magic: u16 = bytes::get_u16(src, 0);
    if magic != SHARD_MAGIC {
        return Err(ShardWireError::BadMagic { observed: magic });
    }
    let shard_len: u32 = bytes::get_u32(src, 41);
    if (src.len() as u64) < 45 + shard_len as u64 {
        return Err(ShardWireError::Truncated);
    }
    Ok(
        ShardHeader {
            k: src[2],
            m: src[3],
            index: src[4],
            body_len: bytes::get_u32(src, 5),
            body_digest: loam_body_wire::digest_at(src, 9),
            shard_len,
        },
    )
}

/// The shard in a blob.
pub open spec fn payload_parse(s: Seq<u8>) -> Result<Seq<u8>, ShardWireError> {
    match header_parse(s) {
        Ok(h) => Ok(s.subrange(45, 45 + h.5)),
        Err(e) => Err(e),
    }
}

/// The shard in a blob.
pub fn shard_payload(src: &[u8]) -> (r: Result<&[u8], ShardWireError>)
    ensures
        match r {
            Ok(p) => payload_parse(src@) == Ok::<Seq<u8>, ShardWireError>(p@),
            Err(e) => payload_parse(src@) == Err::<Seq<u8>, ShardWireError>(e),
        },
{
    match decode_shard_header(src) {
        Ok(hdr) => {
            assert(45 + hdr.shard_len <= src.len());
            Ok(slice_subrange(src, 45, 45 + hdr.shard_len as usize))
        },
        Err(e) => Err(e),
    }
}

/// Decoding a shard blob, whatever follows it, gives header and shard back.
pub proof fn lemma_shard_round_trip(
    k: u8,
    m: u8,
    index: u8,
    body_len: u32,
    body_digest: Seq<u8>,
    shard: Seq<u8>,
    rest: Seq<u8>,
)
    requires
        body_digest.len() == DIGEST_LEN,
        shard.len() <= u32::MAX,
    ensures
        header_parse(shard_frame(k, m, index, body_len, body_digest, shard) + rest) == Ok::<
            (u8, u8, u8, u32, Seq<u8>, u32),
            ShardWireError,
        >((k, m, index, body_len, body_digest, shard.len() as u32)),
        payload_parse(shard_frame(k, m, index, body_len, body_digest, shard) + rest) == Ok::<
            Seq<u8>,
            ShardWireError,
        >(shard),
{
    broadcast use bytes::lemma_subrange_left, bytes::lemma_subrange_right;

    let s = shard_frame(k, m, index, body_len, body_digest, shard) + rest;
    assert(s.subrange(0, 2) == bytes::le16(SHARD_MAGIC));
    bytes::lemma_u16_at(s, 0, SHARD_MAGIC);
    assert(s[2] == k && s[3] == m && s[4] == index);
    assert(s.subrange(5, 9) == bytes::le32(body_len));
    bytes::lemma_u32_at(s, 5, body_len);
    assert(s.subrange(9, 41) == body_digest);
    assert(s.subrange(41, 45) == bytes::le32(shard.len() as u32));
    bytes::lemma_u32_at(s, 41, shard.len() as u32);
    assert(s.subrange(45, (45 + shard.len()) as int) == shard);
}

/// The blob is a whole shard, and `key` is the key of the shard that it claims to be.
pub open spec fn is_shard_under(blob: Seq<u8>, key: Seq<u8>) -> bool {
    match header_parse(blob) {
        Ok(h) => sha256::digest(shard_key_input(h.4, h.2)) == key,
        Err(_) => false,
    }
}

/// Whether a blob is a well-formed shard that was stored under `key`.
pub fn shard_blob_matches_key(blob: &[u8], key: &[u8; DIGEST_LEN]) -> (r: bool)
    ensures
        r == is_shard_under(blob@, key@),
{
    match decode_shard_header(blob) {
        Ok(hdr) => {
            let derived: [u8; DIGEST_LEN] = derive_shard_key(&hdr.body_digest, hdr.index);
            bytes::bytes_equal(derived.as_slice(), key.as_slice())
        },
        Err(_) => false,
    }
}

/// A shard stored under its derived key is recognised there.
pub proof fn lemma_shard_matches_derived_key(
    k: u8,
    m: u8,
    index: u8,
    body_len: u32,
    body_digest: Seq<u8>,
    shard: Seq<u8>,
)
    requires
        body_digest.len() == DIGEST_LEN,
        shard.len() <= u32::MAX,
    ensures
        is_shard_under(
            shard_frame(k, m, index, body_len, body_digest, shard),
            sha256::digest(shard_key_input(body_digest, index)),
        ),
{
    lemma_shard_round_trip(k, m, index, body_len, body_digest, shard, Seq::empty());
    let f = shard_frame(k, m, index, body_len, body_digest, shard);
    assert(f + Seq::<u8>::empty() =~= f);
}

} // verus!
