//! Framing between nodes: a greeting, then frames behind a length and a tag.
//!
//! ```text
//! Hello  ["LOAM"][role]
//! Frame  [len:u32][tag:u16][payload]
//! ```
use crate::bytes;
use vstd::prelude::*;

verus! {

/// The letters `LOAM`, read as a little-endian integer.
pub const MAGIC: u32 = 0x4D41_4F4C;

pub const HELLO_LEN: usize = 5;

/// A peer that sends body requests.
pub const ROLE_BODY_CLIENT: u8 = 1;

/// A peer that hosts a body store.
pub const ROLE_BODY_SERVER: u8 = 2;

pub const TAG_BODY_REQ: u16 = 1;

pub const TAG_BODY_RESP: u16 = 2;

pub const FRAME_HDR: usize = 6;

/// Longest payload of one frame, so that a corrupt length cannot ask for more.
pub const MAX_FRAME_PAYLOAD: usize = 0x2_0000;

#[derive(Debug, Clone, Copy, PartialEq, Eq, Structural)]
pub enum NetWireError {
    Truncated,
    BadMagic { observed: u32 },
    FrameTooLarge { len: usize },
    BufferTooSmall { needed: usize, actual: usize },
}

/// The refusal of a buffer with less room than needed.
pub open spec fn no_room(room: nat, needed: nat) -> Option<NetWireError> {
    if room < needed {
        Some(NetWireError::BufferTooSmall { needed: needed as usize, actual: room as usize })
    } else {
        None
    }
}

/// The bytes of a greeting.
pub open spec fn hello_frame(role: u8) -> Seq<u8> {
    bytes::le32(MAGIC) + seq![role]
}

/// Write a greeting to the start of `dst`. Returns its length.
pub fn encode_hello(dst: &mut [u8], role: u8) -> (r: Result<usize, NetWireError>)
    ensures
        bytes::encodes(r, old(dst)@, final(dst)@, no_room(old(dst)@.len(), 5), hello_frame(role)),
{
    broadcast use bytes::lemma_write_first, bytes::lemma_write_next;

    if dst.len() < HELLO_LEN {
        return Err(NetWireError::BufferTooSmall { needed: HELLO_LEN, actual: dst.len() });
    }
    bytes::put_u32(dst, 0, MAGIC);
    bytes::put_u8(dst, 4, role);
    Ok(HELLO_LEN)
}

/// What is made of a greeting: the peer's role.
pub open spec fn hello_parse(s: Seq<u8>) -> Result<u8, NetWireError> {
    if s.len() < 5 {
        Err(NetWireError::Truncated)
    } else if bytes::u32_at(s, 0) != MAGIC {
        Err(NetWireError::BadMagic { observed: bytes::u32_at(s, 0) })
    } else {
        Ok(s[4])
    }
}

/// Decode a greeting: the peer's role.
pub fn decode_hello(src: &[u8]) -> (r: Result<u8, NetWireError>)
    ensures
        r == hello_parse(src@),
{
    if src.len() < HELLO_LEN {
        return Err(NetWireError::Truncated);
    }
    let magic: u32 = bytes::get_u32(src, 0);
    if magic != MAGIC {
        return Err(NetWireError::BadMagic { observed: magic });
    }
    Ok(src[4])
}

/// Decoding a greeting, whatever follows it, gives the role back.
pub proof fn lemma_hello_round_trip(role: u8, rest: Seq<u8>)
    ensures
        hello_parse(hello_frame(role) + rest) == Ok::<u8, NetWireError>(role),
{
    let s = hello_frame(role) + rest;
    assert(s.subrange(0, 4) =~= bytes::le32(MAGIC));
    bytes::lemma_u32_at(s, 0, MAGIC);
}

/// The bytes of a frame header.
pub open spec fn frame_header(tag: u16, payload_len: int) -> Seq<u8> {
    bytes::le32(payload_len as u32) + bytes::le16(tag)
}

/// Why a frame header is not written to a buffer with this much room.
pub open spec fn frame_header_refusal(room: nat, payload_len: int) -> Option<NetWireError> {
    if payload_len > MAX_FRAME_PAYLOAD {
        Some(NetWireError::FrameTooLarge { len: payload_len as usize })
    } else {
        no_room(room, 6)
    }
}

/// Write a frame header to the start of `dst`. Returns its length.
pub fn encode_frame_header(dst: &mut [u8], tag: u16, payload_len: usize) -> (r: Result<usize, NetWireError>)
    ensures
        bytes::encodes(
            r,
            old(dst)@,
            final(dst)@,
            frame_header_refusal(old(dst)@.len(), payload_len as int),
            frame_header(tag, payload_len as int),
        ),
{
    broadcast use bytes::lemma_write_first, bytes::lemma_write_next;

    if payload_len > MAX_FRAME_PAYLOAD {
        return Err(NetWireError::FrameTooLarge { len: payload_len });
    }
    if dst.len() < FRAME_HDR {
        return Err(NetWireError::BufferTooSmall { needed: FRAME_HDR, actual: dst.len() });
    }
    bytes::put_u32(dst, 0, payload_len as u32);
    bytes::put_u16(dst, 4, tag);
    Ok(FRAME_HDR)
}

/// What is made of a frame header: the tag and the payload's length.
pub open spec fn frame_header_parse(s: Seq<u8>) -> Result<(u16, usize), NetWireError> {
    if s.len() < 6 {
        Err(NetWireError::Truncated)
    } else if bytes::u32_at(s, 0) > MAX_FRAME_PAYLOAD {
        Err(NetWireError::FrameTooLarge { len: bytes::u32_at(s, 0) as usize })
    } else {
        Ok((bytes::u16_at(s, 4), bytes::u32_at(s, 0) as usize))
    }
}

/// Decode a frame header: the tag and the payload's length.
pub fn decode_frame_header(src: &[u8]) -> (r: Result<(u16, usize), NetWireError>)
    ensures
        r == frame_header_parse(src@),
{
    if src.len() < FRAME_HDR {
        return Err(NetWireError::Truncated);
    }
    let len: usize = bytes::get_u32(src, 0) as usize;
    if len > MAX_FRAME_PAYLOAD {
        return Err(NetWireError::FrameTooLarge { len });
    }
    Ok((bytes::get_u16(src, 4), len))
}

/// Decoding a frame header, whatever follows it, gives tag and length back.
pub proof fn lemma_frame_header_round_trip(tag: u16, payload_len: int, rest: Seq<u8>)
    requires
        0 <= payload_len <= MAX_FRAME_PAYLOAD,
    ensures
        frame_header_parse(frame_header(tag, payload_len) + rest) == Ok::<(u16, usize), NetWireError>(
            (tag, payload_len as usize),
        ),
{
    let s = frame_header(tag, payload_len) + rest;
    assert(s.subrange(0, 4) =~= bytes::le32(payload_len as u32));
    bytes::lemma_u32_at(s, 0, payload_len as u32);
    assert(s.subrange(4, 6) =~= bytes::le16(tag));
    bytes::lemma_u16_at(s, 4, tag);
}

} // verus!
