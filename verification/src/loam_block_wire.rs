//! The block wire format: volumes and their blocks.
//!
//! ```text
//! CreateVolume  [7][id_len:u16][class][logical_bytes:u64][block_size:u32][thin][id]
//! Allocate      [8][id_len:u16][count:u64][id]
//! Release       [9][id_len:u16][count:u64][id]
//! ```
use crate::bytes;
use vstd::prelude::*;
use vstd::slice::slice_subrange;

verus! {

pub const OP_CREATE_VOLUME: u8 = 7;

pub const OP_ALLOCATE: u8 = 8;

pub const OP_RELEASE: u8 = 9;

pub const CLASS_LOCAL: u8 = 0;

pub const CLASS_THIN_PROVISIONED: u8 = 1;

pub const CLASS_REPLICATED: u8 = 2;

pub const CLASS_CHAIN_REPLICATED: u8 = 3;

pub const CLASS_SNAPSHOT: u8 = 4;

/// Longest volume id on this wire.
pub const MAX_STRING: usize = 4096;

#[derive(Debug, Clone, Copy, PartialEq, Eq, Structural)]
pub enum WireError {
    BufferTooSmall { needed: usize, actual: usize },
    Truncated,
    BadOpcode { observed: u8 },
    BadClass { observed: u8 },
    StringTooLong { len: usize, max: usize },
}

/// The refusal of a buffer with less room than needed.
pub open spec fn no_room(room: nat, needed: nat) -> Option<WireError> {
    if room < needed {
        Some(WireError::BufferTooSmall { needed: needed as usize, actual: room as usize })
    } else {
        None
    }
}

/// The bytes of the creation of a volume.
pub open spec fn create_volume_frame(volume_id: Seq<u8>, class: u8, logical_bytes: u64, block_size: u32, thin_provisioned: bool) -> Seq<u8> {
    seq![OP_CREATE_VOLUME] + bytes::le16(volume_id.len() as u16) + seq![class] + bytes::le64(logical_bytes) + bytes::le32(block_size) + seq![if thin_provisioned { 1u8 } else { 0u8 }] + volume_id
}

/// Why the creation of a volume is not written to a buffer with this much room.
pub open spec fn create_volume_refusal(room: nat, volume_id: Seq<u8>, class: u8, logical_bytes: u64, block_size: u32, thin_provisioned: bool) -> Option<WireError> {
    if volume_id.len() > MAX_STRING {
        Some(WireError::StringTooLong { len: volume_id.len() as usize, max: MAX_STRING })
    } else if class > CLASS_SNAPSHOT {
        Some(WireError::BadClass { observed: class })
    } else {
        no_room(room, create_volume_frame(volume_id, class, logical_bytes, block_size, thin_provisioned).len())
    }
}

/// Write the creation of a volume to the start of `dst`. Returns its length.
pub fn encode_create_volume(dst: &mut [u8], volume_id: &[u8], class: u8, logical_bytes: u64, block_size: u32, thin_provisioned: bool) -> (r: Result<usize, WireError>)
    ensures
        bytes::encodes(
            r,
            old(dst)@,
            final(dst)@,
            create_volume_refusal(old(dst)@.len(), volume_id@, class, logical_bytes, block_size, thin_provisioned),
            create_volume_frame(volume_id@, class, logical_bytes, block_size, thin_provisioned),
        ),
{
    broadcast use bytes::lemma_write_first, bytes::lemma_write_next;

    if volume_id.len() > MAX_STRING {
        return Err(WireError::StringTooLong { len: volume_id.len(), max: MAX_STRING });
    }
    if class > CLASS_SNAPSHOT {
        return Err(WireError::BadClass { observed: class });
    }
    let needed: usize = 17 + volume_id.len();
    if dst.len() < needed {
        return Err(WireError::BufferTooSmall { needed, actual: dst.len() });
    }
    bytes::put_u8(dst, 0, OP_CREATE_VOLUME);
    bytes::put_u16(dst, 1, volume_id.len() as u16);
    bytes::put_u8(dst, 3, class);
    bytes::put_u64(dst, 4, logical_bytes);
    bytes::put_u32(dst, 12, block_size);
    bytes::put_u8(dst, 16, if thin_provisioned { 1 } else { 0 });
    bytes::put_bytes(dst, 17, volume_id);
    Ok(needed)
}

/// The creation of a volume, decoded.
#[derive(Debug, Clone, Copy, PartialEq, Eq)]
pub struct DecodedCreateVolume<'a> {
    pub volume_id: &'a [u8],
    pub class: u8,
    pub logical_bytes: u64,
    pub block_size: u32,
    pub thin_provisioned: bool,
}

/// What `decode_create_volume` makes of `s`.
pub open spec fn create_volume_parse(s: Seq<u8>) -> Result<(Seq<u8>, u8, u64, u32, bool), WireError> {
    if s.len() < 17 {
        Err(WireError::Truncated)
    } else if s[0] != OP_CREATE_VOLUME {
        Err(WireError::BadOpcode { observed: s[0] })
    } else if s[3] > CLASS_SNAPSHOT {
        Err(WireError::BadClass { observed: s[3] })
    } else {
        let volume_id_end = 17 + bytes::u16_at(s, 1);
        if s.len() < volume_id_end {
            Err(WireError::Truncated)
        } else {
            Ok((s.subrange(17, volume_id_end), s[3], bytes::u64_at(s, 4), bytes::u32_at(s, 12), s[16] != 0))
        }
    }
}

/// Decode the creation of a volume.
pub fn decode_create_volume(src: &[u8]) -> (r: Result<DecodedCreateVolume<'_>, WireError>)
    ensures
        match r {
            Ok(d) => create_volume_parse(src@) == Ok::<(Seq<u8>, u8, u64, u32, bool), WireError>((d.volume_id@, d.class, d.logical_bytes, d.block_size, d.thin_provisioned)),
            Err(e) => create_volume_parse(src@) == Err::<(Seq<u8>, u8, u64, u32, bool), WireError>(e),
        },
{
    if src.len() < 17 {
        return Err(WireError::Truncated);
    }
    if src[0] != OP_CREATE_VOLUME {
        return Err(WireError::BadOpcode { observed: src[0] });
    }
    if src[3] > CLASS_SNAPSHOT {
        return Err(WireError::BadClass { observed: src[3] });
    }
    let volume_id_end: usize = 17 + bytes::get_u16(src, 1) as usize;
    if src.len() < volume_id_end {
        return Err(WireError::Truncated);
    }
    Ok(
        DecodedCreateVolume {
            volume_id: slice_subrange(src, 17, volume_id_end),
            class: src[3],
            logical_bytes: bytes::get_u64(src, 4),
            block_size: bytes::get_u32(src, 12),
            thin_provisioned: src[16] != 0,
        },
    )
}

/// Decoding what was encoded, whatever follows it, gives the parts back.
pub proof fn lemma_create_volume_round_trip(volume_id: Seq<u8>, class: u8, logical_bytes: u64, block_size: u32, thin_provisioned: bool, rest: Seq<u8>)
    requires
        volume_id.len() <= u16::MAX,
        class <= CLASS_SNAPSHOT,
    ensures
        create_volume_parse(create_volume_frame(volume_id, class, logical_bytes, block_size, thin_provisioned) + rest) == Ok::<(Seq<u8>, u8, u64, u32, bool), WireError>((volume_id, class, logical_bytes, block_size, thin_provisioned)),
{
    broadcast use bytes::lemma_subrange_left, bytes::lemma_subrange_right;

    let s = create_volume_frame(volume_id, class, logical_bytes, block_size, thin_provisioned) + rest;
    assert(s[0] == seq![OP_CREATE_VOLUME][0]);
    assert(s.subrange(1, 3) == bytes::le16(volume_id.len() as u16));
    bytes::lemma_u16_at(s, 1, volume_id.len() as u16);
    assert(s[3] == seq![class][0]);
    assert(s.subrange(4, 12) == bytes::le64(logical_bytes));
    bytes::lemma_u64_at(s, 4, logical_bytes);
    assert(s.subrange(12, 16) == bytes::le32(block_size));
    bytes::lemma_u32_at(s, 12, block_size);
    assert(s[16] == seq![if thin_provisioned { 1u8 } else { 0u8 }][0]);
    assert(s.subrange(17, (17 + volume_id.len()) as int) == volume_id);
}

/// The bytes of an allocation or release of blocks.
pub open spec fn count_op_frame(op: u8, volume_id: Seq<u8>, count: u64) -> Seq<u8> {
    seq![op] + bytes::le16(volume_id.len() as u16) + bytes::le64(count) + volume_id
}

/// Why an allocation or release of blocks is not written to a buffer with this much room.
pub open spec fn count_op_refusal(room: nat, op: u8, volume_id: Seq<u8>, count: u64) -> Option<WireError> {
    if volume_id.len() > MAX_STRING {
        Some(WireError::StringTooLong { len: volume_id.len() as usize, max: MAX_STRING })
    } else {
        no_room(room, count_op_frame(op, volume_id, count).len())
    }
}

/// Write an allocation or release of blocks to the start of `dst`. Returns its length.
fn encode_count_op(dst: &mut [u8], op: u8, volume_id: &[u8], count: u64) -> (r: Result<usize, WireError>)
    ensures
        bytes::encodes(
            r,
            old(dst)@,
            final(dst)@,
            count_op_refusal(old(dst)@.len(), op, volume_id@, count),
            count_op_frame(op, volume_id@, count),
        ),
{
    broadcast use bytes::lemma_write_first, bytes::lemma_write_next;

    if volume_id.len() > MAX_STRING {
        return Err(WireError::StringTooLong { len: volume_id.len(), max: MAX_STRING });
    }
    let needed: usize = 11 + volume_id.len();
    if dst.len() < needed {
        return Err(WireError::BufferTooSmall { needed, actual: dst.len() });
    }
    bytes::put_u8(dst, 0, op);
    bytes::put_u16(dst, 1, volume_id.len() as u16);
    bytes::put_u64(dst, 3, count);
    bytes::put_bytes(dst, 11, volume_id);
    Ok(needed)
}

/// An allocation or release of blocks, decoded.
#[derive(Debug, Clone, Copy, PartialEq, Eq)]
pub struct DecodedCountOp<'a> {
    pub volume_id: &'a [u8],
    pub count: u64,
}

/// What `decode_count_op` makes of `s`.
pub open spec fn count_op_parse(s: Seq<u8>, op: u8) -> Result<(Seq<u8>, u64), WireError> {
    if s.len() < 11 {
        Err(WireError::Truncated)
    } else if s[0] != op {
        Err(WireError::BadOpcode { observed: s[0] })
    } else {
        let volume_id_end = 11 + bytes::u16_at(s, 1);
        if s.len() < volume_id_end {
            Err(WireError::Truncated)
        } else {
            Ok((s.subrange(11, volume_id_end), bytes::u64_at(s, 3)))
        }
    }
}

/// Decode an allocation or release of blocks.
fn decode_count_op(src: &[u8], op: u8) -> (r: Result<DecodedCountOp<'_>, WireError>)
    ensures
        match r {
            Ok(d) => count_op_parse(src@, op) == Ok::<(Seq<u8>, u64), WireError>((d.volume_id@, d.count)),
            Err(e) => count_op_parse(src@, op) == Err::<(Seq<u8>, u64), WireError>(e),
        },
{
    if src.len() < 11 {
        return Err(WireError::Truncated);
    }
    if src[0] != op {
        return Err(WireError::BadOpcode { observed: src[0] });
    }
    let volume_id_end: usize = 11 + bytes::get_u16(src, 1) as usize;
    if src.len() < volume_id_end {
        return Err(WireError::Truncated);
    }
    Ok(
        DecodedCountOp {
            volume_id: slice_subrange(src, 11, volume_id_end),
            count: bytes::get_u64(src, 3),
        },
    )
}

/// Decoding what was encoded, whatever follows it, gives the parts back.
pub proof fn lemma_count_op_round_trip(op: u8, volume_id: Seq<u8>, count: u64, rest: Seq<u8>)
    requires
        volume_id.len() <= u16::MAX,
    ensures
        count_op_parse(count_op_frame(op, volume_id, count) + rest, op) == Ok::<(Seq<u8>, u64), WireError>((volume_id, count)),
{
    broadcast use bytes::lemma_subrange_left, bytes::lemma_subrange_right;

    let s = count_op_frame(op, volume_id, count) + rest;
    assert(s[0] == seq![op][0]);
    assert(s.subrange(1, 3) == bytes::le16(volume_id.len() as u16));
    bytes::lemma_u16_at(s, 1, volume_id.len() as u16);
    assert(s.subrange(3, 11) == bytes::le64(count));
    bytes::lemma_u64_at(s, 3, count);
    assert(s.subrange(11, (11 + volume_id.len()) as int) == volume_id);
}

/// Write an allocation of blocks.
pub fn encode_allocate(dst: &mut [u8], volume_id: &[u8], count: u64) -> (r: Result<usize, WireError>)
    ensures
        bytes::encodes(
            r,
            old(dst)@,
            final(dst)@,
            count_op_refusal(old(dst)@.len(), OP_ALLOCATE, volume_id@, count),
            count_op_frame(OP_ALLOCATE, volume_id@, count),
        ),
{
    encode_count_op(dst, OP_ALLOCATE, volume_id, count)
}

/// Decode an allocation of blocks.
pub fn decode_allocate(src: &[u8]) -> (r: Result<DecodedCountOp<'_>, WireError>)
    ensures
        match r {
            Ok(d) => count_op_parse(src@, OP_ALLOCATE) == Ok::<(Seq<u8>, u64), WireError>((d.volume_id@, d.count)),
            Err(e) => count_op_parse(src@, OP_ALLOCATE) == Err::<(Seq<u8>, u64), WireError>(e),
        },
{
    decode_count_op(src, OP_ALLOCATE)
}

/// Write a release of blocks.
pub fn encode_release(dst: &mut [u8], volume_id: &[u8], count: u64) -> (r: Result<usize, WireError>)
    ensures
        bytes::encodes(
            r,
            old(dst)@,
            final(dst)@,
            count_op_refusal(old(dst)@.len(), OP_RELEASE, volume_id@, count),
            count_op_frame(OP_RELEASE, volume_id@, count),
        ),
{
    encode_count_op(dst, OP_RELEASE, volume_id, count)
}

/// Decode a release of blocks.
pub fn decode_release(src: &[u8]) -> (r: Result<DecodedCountOp<'_>, WireError>)
    ensures
        match r {
            Ok(d) => count_op_parse(src@, OP_RELEASE) == Ok::<(Seq<u8>, u64), WireError>((d.volume_id@, d.count)),
            Err(e) => count_op_parse(src@, OP_RELEASE) == Err::<(Seq<u8>, u64), WireError>(e),
        },
{
    decode_count_op(src, OP_RELEASE)
}

/// The header length of a request; `None` for a byte that begins no request.
pub open spec fn request_header(opcode: u8) -> Option<int> {
    if opcode == OP_CREATE_VOLUME {
        Some(17)
    } else if opcode == OP_ALLOCATE || opcode == OP_RELEASE {
        Some(11)
    } else {
        None
    }
}

/// The length of the request at the front of `s`: `None` while it is not whole.
pub open spec fn record_len(s: Seq<u8>) -> Result<Option<int>, WireError> {
    if s.len() == 0 {
        Ok(None)
    } else {
        match request_header(s[0]) {
            None => Err(WireError::BadOpcode { observed: s[0] }),
            Some(header) => if s.len() < header || s.len() < header + bytes::u16_at(s, 1) {
                Ok(None)
            } else {
                Ok(Some(header + bytes::u16_at(s, 1)))
            },
        }
    }
}

/// The length of the request record at the front of `src`, or `None` when `src`
/// does not yet hold a whole one.
pub fn request_record_len(src: &[u8]) -> (r: Result<Option<usize>, WireError>)
    ensures
        match r {
            Ok(Some(n)) => record_len(src@) == Ok::<Option<int>, WireError>(Some(n as int)) && 0 < n <= src@.len(),
            Ok(None) => record_len(src@) == Ok::<Option<int>, WireError>(None),
            Err(e) => record_len(src@) == Err::<Option<int>, WireError>(e),
        },
{
    if src.len() == 0 {
        return Ok(None);
    }
    let opcode: u8 = src[0];
    let header: usize = if opcode == OP_CREATE_VOLUME {
        17
    } else if opcode == OP_ALLOCATE || opcode == OP_RELEASE {
        11
    } else {
        return Err(WireError::BadOpcode { observed: opcode });
    };
    if src.len() < header {
        return Ok(None);
    }
    let total: usize = header + bytes::get_u16(src, 1) as usize;
    if src.len() >= total {
        Ok(Some(total))
    } else {
        Ok(None)
    }
}

/// An allocation or release is cut off a stream exactly where it ends.
pub proof fn lemma_count_op_cut(op: u8, volume_id: Seq<u8>, count: u64, rest: Seq<u8>)
    requires
        op == OP_ALLOCATE || op == OP_RELEASE,
        volume_id.len() <= u16::MAX,
    ensures
        record_len(count_op_frame(op, volume_id, count) + rest) == Ok::<Option<int>, WireError>(
            Some(count_op_frame(op, volume_id, count).len() as int),
        ),
{
    broadcast use bytes::lemma_subrange_left, bytes::lemma_subrange_right;

    let s = count_op_frame(op, volume_id, count) + rest;
    assert(s[0] == op);
    assert(s.subrange(1, 3) == bytes::le16(volume_id.len() as u16));
    bytes::lemma_u16_at(s, 1, volume_id.len() as u16);
}

/// The creation of a volume is cut off a stream exactly where it ends, whatever follows it.
pub proof fn lemma_create_volume_cut(volume_id: Seq<u8>, class: u8, logical_bytes: u64, block_size: u32, thin_provisioned: bool, rest: Seq<u8>)
    requires
        volume_id.len() <= u16::MAX,
    ensures
        record_len(create_volume_frame(volume_id, class, logical_bytes, block_size, thin_provisioned) + rest) == Ok::<Option<int>, WireError>(Some(create_volume_frame(volume_id, class, logical_bytes, block_size, thin_provisioned).len() as int)),
{
    broadcast use bytes::lemma_subrange_left, bytes::lemma_subrange_right;

    let s = create_volume_frame(volume_id, class, logical_bytes, block_size, thin_provisioned) + rest;
    assert(s[0] == OP_CREATE_VOLUME);
    assert(s.subrange(1, 3) == bytes::le16(volume_id.len() as u16));
    bytes::lemma_u16_at(s, 1, volume_id.len() as u16);
}

/// The opcode of a record, if there is one.
pub fn peek_opcode(src: &[u8]) -> (r: Option<u8>)
    ensures
        r == if src@.len() == 0 {
            None::<u8>
        } else {
            Some(src@[0])
        },
{
    if src.len() == 0 {
        None
    } else {
        Some(src[0])
    }
}

} // verus!
