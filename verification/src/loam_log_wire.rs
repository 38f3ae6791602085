//! The log wire format: appending to a block log and replaying it.
//!
//! ```text
//! AppendReq     [50][cid:u32][len:u16][payload]
//! AppendResp    [50][cid][1][offset:u64]  or  [50][cid][0]
//! ReplayReq     [51][cid]
//! ReplayRecord  [52][cid][offset:u64][len:u16][payload]
//! ReplayEnd     [53][cid][total:u32]
//! ```
use crate::bytes;
use vstd::prelude::*;
use vstd::slice::slice_subrange;

verus! {

pub const OP_APPEND_REQ: u8 = 0x50;

pub const OP_REPLAY_REQ: u8 = 0x51;

pub const OP_REPLAY_RECORD: u8 = 0x52;

pub const OP_REPLAY_END: u8 = 0x53;

pub const STATUS_OK: u8 = 1;

pub const STATUS_NAK: u8 = 0;

/// Longest payload of one record.
pub const MAX_RECORD: usize = 4096;

#[derive(Debug, Clone, Copy, PartialEq, Eq, Structural)]
pub enum WireError {
    BufferTooSmall { needed: usize, actual: usize },
    Truncated,
    BadOpcode { observed: u8 },
    RecordTooLarge { len: usize, max: usize },
}

/// The refusal of a buffer with less room than needed.
pub open spec fn no_room(room: nat, needed: nat) -> Option<WireError> {
    if room < needed {
        Some(WireError::BufferTooSmall { needed: needed as usize, actual: room as usize })
    } else {
        None
    }
}

/// The bytes of a record to append.
pub open spec fn append_req_frame(correlation_id: u32, payload: Seq<u8>) -> Seq<u8> {
    seq![OP_APPEND_REQ] + bytes::le32(correlation_id) + bytes::le16(payload.len() as u16) + payload
}

/// Why a record to append is not written to a buffer with this much room.
pub open spec fn append_req_refusal(room: nat, correlation_id: u32, payload: Seq<u8>) -> Option<WireError> {
    if payload.len() > MAX_RECORD {
        Some(WireError::RecordTooLarge { len: payload.len() as usize, max: MAX_RECORD })
    } else {
        no_room(room, append_req_frame(correlation_id, payload).len())
    }
}

/// Write a record to append to the start of `dst`. Returns its length.
pub fn encode_append_req(dst: &mut [u8], correlation_id: u32, payload: &[u8]) -> (r: Result<usize, WireError>)
    ensures
        bytes::encodes(
            r,
            old(dst)@,
            final(dst)@,
            append_req_refusal(old(dst)@.len(), correlation_id, payload@),
            append_req_frame(correlation_id, payload@),
        ),
{
    broadcast use bytes::lemma_write_first, bytes::lemma_write_next;

    if payload.len() > MAX_RECORD {
        return Err(WireError::RecordTooLarge { len: payload.len(), max: MAX_RECORD });
    }
    let needed: usize = 7 + payload.len();
    if dst.len() < needed {
        return Err(WireError::BufferTooSmall { needed, actual: dst.len() });
    }
    bytes::put_u8(dst, 0, OP_APPEND_REQ);
    bytes::put_u32(dst, 1, correlation_id);
    bytes::put_u16(dst, 5, payload.len() as u16);
    bytes::put_bytes(dst, 7, payload);
    Ok(needed)
}

/// What `decode_append_req` makes of `s`.
pub open spec fn append_req_parse(s: Seq<u8>) -> Result<(u32, Seq<u8>), WireError> {
    if s.len() < 7 {
        Err(WireError::Truncated)
    } else if s[0] != OP_APPEND_REQ {
        Err(WireError::BadOpcode { observed: s[0] })
    } else {
        let payload_end = 7 + bytes::u16_at(s, 5);
        if s.len() < payload_end {
            Err(WireError::Truncated)
        } else {
            Ok((bytes::u32_at(s, 1), s.subrange(7, payload_end)))
        }
    }
}

/// Decode a record to append.
pub fn decode_append_req(src: &[u8]) -> (r: Result<(u32, &[u8]), WireError>)
    ensures
        match r {
            Ok(d) => append_req_parse(src@) == Ok::<(u32, Seq<u8>), WireError>((d.0, d.1@)),
            Err(e) => append_req_parse(src@) == Err::<(u32, Seq<u8>), WireError>(e),
        },
{
    if src.len() < 7 {
        return Err(WireError::Truncated);
    }
    if src[0] != OP_APPEND_REQ {
        return Err(WireError::BadOpcode { observed: src[0] });
    }
    let payload_end: usize = 7 + bytes::get_u16(src, 5) as usize;
    if src.len() < payload_end {
        return Err(WireError::Truncated);
    }
    Ok((bytes::get_u32(src, 1), slice_subrange(src, 7, payload_end)))
}

/// Decoding what was encoded, whatever follows it, gives the parts back.
pub proof fn lemma_append_req_round_trip(correlation_id: u32, payload: Seq<u8>, rest: Seq<u8>)
    requires
        payload.len() <= u16::MAX,
    ensures
        append_req_parse(append_req_frame(correlation_id, payload) + rest) == Ok::<(u32, Seq<u8>), WireError>((correlation_id, payload)),
{
    broadcast use bytes::lemma_subrange_left, bytes::lemma_subrange_right;

    let s = append_req_frame(correlation_id, payload) + rest;
    assert(s[0] == seq![OP_APPEND_REQ][0]);
    assert(s.subrange(1, 5) == bytes::le32(correlation_id));
    bytes::lemma_u32_at(s, 1, correlation_id);
    assert(s.subrange(5, 7) == bytes::le16(payload.len() as u16));
    bytes::lemma_u16_at(s, 5, payload.len() as u16);
    assert(s.subrange(7, (7 + payload.len()) as int) == payload);
}

/// The bytes of a request to replay the log.
pub open spec fn replay_req_frame(correlation_id: u32) -> Seq<u8> {
    seq![OP_REPLAY_REQ] + bytes::le32(correlation_id)
}

/// Why a request to replay the log is not written to a buffer with this much room.
pub open spec fn replay_req_refusal(room: nat, correlation_id: u32) -> Option<WireError> {
    no_room(room, replay_req_frame(correlation_id).len())
}

/// Write a request to replay the log to the start of `dst`. Returns its length.
pub fn encode_replay_req(dst: &mut [u8], correlation_id: u32) -> (r: Result<usize, WireError>)
    ensures
        bytes::encodes(
            r,
            old(dst)@,
            final(dst)@,
            replay_req_refusal(old(dst)@.len(), correlation_id),
            replay_req_frame(correlation_id),
        ),
{
    broadcast use bytes::lemma_write_first, bytes::lemma_write_next;

    let needed: usize = 5;
    if dst.len() < needed {
        return Err(WireError::BufferTooSmall { needed, actual: dst.len() });
    }
    bytes::put_u8(dst, 0, OP_REPLAY_REQ);
    bytes::put_u32(dst, 1, correlation_id);
    Ok(needed)
}

/// What `decode_replay_req` makes of `s`.
pub open spec fn replay_req_parse(s: Seq<u8>) -> Result<u32, WireError> {
    if s.len() < 5 {
        Err(WireError::Truncated)
    } else if s[0] != OP_REPLAY_REQ {
        Err(WireError::BadOpcode { observed: s[0] })
    } else {
        Ok(bytes::u32_at(s, 1))
    }
}

/// Decode a request to replay the log.
pub fn decode_replay_req(src: &[u8]) -> (r: Result<u32, WireError>)
    ensures
        match r {
            Ok(d) => replay_req_parse(src@) == Ok::<u32, WireError>(d),
            Err(e) => replay_req_parse(src@) == Err::<u32, WireError>(e),
        },
{
    if src.len() < 5 {
        return Err(WireError::Truncated);
    }
    if src[0] != OP_REPLAY_REQ {
        return Err(WireError::BadOpcode { observed: src[0] });
    }
    Ok(bytes::get_u32(src, 1))
}

/// Decoding what was encoded, whatever follows it, gives the parts back.
pub proof fn lemma_replay_req_round_trip(correlation_id: u32, rest: Seq<u8>)
    ensures
        replay_req_parse(replay_req_frame(correlation_id) + rest) == Ok::<u32, WireError>(correlation_id),
{
    broadcast use bytes::lemma_subrange_left, bytes::lemma_subrange_right;

    let s = replay_req_frame(correlation_id) + rest;
    assert(s[0] == seq![OP_REPLAY_REQ][0]);
    assert(s.subrange(1, 5) == bytes::le32(correlation_id));
    bytes::lemma_u32_at(s, 1, correlation_id);
}

/// The bytes of a replayed record.
pub open spec fn replay_record_frame(correlation_id: u32, offset: u64, payload: Seq<u8>) -> Seq<u8> {
    seq![OP_REPLAY_RECORD] + bytes::le32(correlation_id) + bytes::le64(offset) + bytes::le16(payload.len() as u16) + payload
}

/// Why a replayed record is not written to a buffer with this much room.
pub open spec fn replay_record_refusal(room: nat, correlation_id: u32, offset: u64, payload: Seq<u8>) -> Option<WireError> {
    if payload.len() > MAX_RECORD {
        Some(WireError::RecordTooLarge { len: payload.len() as usize, max: MAX_RECORD })
    } else {
        no_room(room, replay_record_frame(correlation_id, offset, payload).len())
    }
}

/// Write a replayed record to the start of `dst`. Returns its length.
pub fn encode_replay_record(dst: &mut [u8], correlation_id: u32, offset: u64, payload: &[u8]) -> (r: Result<usize, WireError>)
    ensures
        bytes::encodes(
            r,
            old(dst)@,
            final(dst)@,
            replay_record_refusal(old(dst)@.len(), correlation_id, offset, payload@),
            replay_record_frame(correlation_id, offset, payload@),
        ),
{
    broadcast use bytes::lemma_write_first, bytes::lemma_write_next;

    if payload.len() > MAX_RECORD {
        return Err(WireError::RecordTooLarge { len: payload.len(), max: MAX_RECORD });
    }
    let needed: usize = 15 + payload.len();
    if dst.len() < needed {
        return Err(WireError::BufferTooSmall { needed, actual: dst.len() });
    }
    bytes::put_u8(dst, 0, OP_REPLAY_RECORD);
    bytes::put_u32(dst, 1, correlation_id);
    bytes::put_u64(dst, 5, offset);
    bytes::put_u16(dst, 13, payload.len() as u16);
    bytes::put_bytes(dst, 15, payload);
    Ok(needed)
}

/// A replayed record, decoded.
#[derive(Debug, Clone, Copy, PartialEq, Eq)]
pub struct DecodedReplayRecord<'a> {
    pub correlation_id: u32,
    pub offset: u64,
    pub payload: &'a [u8],
}

/// What `decode_replay_record` makes of `s`.
pub open spec fn replay_record_parse(s: Seq<u8>) -> Result<(u32, u64, Seq<u8>), WireError> {
    if s.len() < 15 {
        Err(WireError::Truncated)
    } else if s[0] != OP_REPLAY_RECORD {
        Err(WireError::BadOpcode { observed: s[0] })
    } else {
        let payload_end = 15 + bytes::u16_at(s, 13);
        if s.len() < payload_end {
            Err(WireError::Truncated)
        } else {
            Ok((bytes::u32_at(s, 1), bytes::u64_at(s, 5), s.subrange(15, payload_end)))
        }
    }
}

/// Decode a replayed record.
pub fn decode_replay_record(src: &[u8]) -> (r: Result<DecodedReplayRecord<'_>, WireError>)
    ensures
        match r {
            Ok(d) => replay_record_parse(src@) == Ok::<(u32, u64, Seq<u8>), WireError>((d.correlation_id, d.offset, d.payload@)),
            Err(e) => replay_record_parse(src@) == Err::<(u32, u64, Seq<u8>), WireError>(e),
        },
{
    if src.len() < 15 {
        return Err(WireError::Truncated);
    }
    if src[0] != OP_REPLAY_RECORD {
        return Err(WireError::BadOpcode { observed: src[0] });
    }
    let payload_end: usize = 15 + bytes::get_u16(src, 13) as usize;
    if src.len() < payload_end {
        return Err(WireError::Truncated);
    }
    Ok(
        DecodedReplayRecord {
            correlation_id: bytes::get_u32(src, 1),
            offset: bytes::get_u64(src, 5),
            payload: slice_subrange(src, 15, payload_end),
        },
    )
}

/// Decoding what was encoded, whatever follows it, gives the parts back.
pub proof fn lemma_replay_record_round_trip(correlation_id: u32, offset: u64, payload: Seq<u8>, rest: Seq<u8>)
    requires
        payload.len() <= u16::MAX,
    ensures
        replay_record_parse(replay_record_frame(correlation_id, offset, payload) + rest) == Ok::<(u32, u64, Seq<u8>), WireError>((correlation_id, offset, payload)),
{
    broadcast use bytes::lemma_subrange_left, bytes::lemma_subrange_right;

    let s = replay_record_frame(correlation_id, offset, payload) + rest;
    assert(s[0] == seq![OP_REPLAY_RECORD][0]);
    assert(s.subrange(1, 5) == bytes::le32(correlation_id));
    bytes::lemma_u32_at(s, 1, correlation_id);
    assert(s.subrange(5, 13) == bytes::le64(offset));
    bytes::lemma_u64_at(s, 5, offset);
    assert(s.subrange(13, 15) == bytes::le16(payload.len() as u16));
    bytes::lemma_u16_at(s, 13, payload.len() as u16);
    assert(s.subrange(15, (15 + payload.len()) as int) == payload);
}

/// The bytes of the end of a replay.
pub open spec fn replay_end_frame(correlation_id: u32, total_records: u32) -> Seq<u8> {
    seq![OP_REPLAY_END] + bytes::le32(correlation_id) + bytes::le32(total_records)
}

/// Why the end of a replay is not written to a buffer with this much room.
pub open spec fn replay_end_refusal(room: nat, correlation_id: u32, total_records: u32) -> Option<WireError> {
    no_room(room, replay_end_frame(correlation_id, total_records).len())
}

/// Write the end of a replay to the start of `dst`. Returns its length.
pub fn encode_replay_end(dst: &mut [u8], correlation_id: u32, total_records: u32) -> (r: Result<usize, WireError>)
    ensures
        bytes::encodes(
            r,
            old(dst)@,
            final(dst)@,
            replay_end_refusal(old(dst)@.len(), correlation_id, total_records),
            replay_end_frame(correlation_id, total_records),
        ),
{
    broadcast use bytes::lemma_write_first, bytes::lemma_write_next;

    let needed: usize = 9;
    if dst.len() < needed {
        return Err(WireError::BufferTooSmall { needed, actual: dst.len() });
    }
    bytes::put_u8(dst, 0, OP_REPLAY_END);
    bytes::put_u32(dst, 1, correlation_id);
    bytes::put_u32(dst, 5, total_records);
    Ok(needed)
}

/// The end of a replay, decoded.
#[derive(Debug, Clone, Copy, PartialEq, Eq)]
pub struct DecodedReplayEnd {
    pub correlation_id: u32,
    pub total_records: u32,
}

/// What `decode_replay_end` makes of `s`.
pub open spec fn replay_end_parse(s: Seq<u8>) -> Result<(u32, u32), WireError> {
    if s.len() < 9 {
        Err(WireError::Truncated)
    } else if s[0] != OP_REPLAY_END {
        Err(WireError::BadOpcode { observed: s[0] })
    } else {
        Ok((bytes::u32_at(s, 1), bytes::u32_at(s, 5)))
    }
}

/// Decode the end of a replay.
pub fn decode_replay_end(src: &[u8]) -> (r: Result<DecodedReplayEnd, WireError>)
    ensures
        match r {
            Ok(d) => replay_end_parse(src@) == Ok::<(u32, u32), WireError>((d.correlation_id, d.total_records)),
            Err(e) => replay_end_parse(src@) == Err::<(u32, u32), WireError>(e),
        },
{
    if src.len() < 9 {
        return Err(WireError::Truncated);
    }
    if src[0] != OP_REPLAY_END {
        return Err(WireError::BadOpcode { observed: src[0] });
    }
    Ok(
        DecodedReplayEnd {
            correlation_id: bytes::get_u32(src, 1),
            total_records: bytes::get_u32(src, 5),
        },
    )
}

/// Decoding what was encoded, whatever follows it, gives the parts back.
pub proof fn lemma_replay_end_round_trip(correlation_id: u32, total_records: u32, rest: Seq<u8>)
    ensures
        replay_end_parse(replay_end_frame(correlation_id, total_records) + rest) == Ok::<(u32, u32), WireError>((correlation_id, total_records)),
{
    broadcast use bytes::lemma_subrange_left, bytes::lemma_subrange_right;

    let s = replay_end_frame(correlation_id, total_records) + rest;
    assert(s[0] == seq![OP_REPLAY_END][0]);
    assert(s.subrange(1, 5) == bytes::le32(correlation_id));
    bytes::lemma_u32_at(s, 1, correlation_id);
    assert(s.subrange(5, 9) == bytes::le32(total_records));
    bytes::lemma_u32_at(s, 5, total_records);
}

/// The bytes of the answer to an append: the offset of the record, or a refusal.
pub open spec fn append_resp_frame(correlation_id: u32, offset: Option<u64>) -> Seq<u8> {
    match offset {
        Some(off) => seq![OP_APPEND_REQ] + bytes::le32(correlation_id) + seq![STATUS_OK] + bytes::le64(off),
        None => seq![OP_APPEND_REQ] + bytes::le32(correlation_id) + seq![STATUS_NAK],
    }
}

/// Write the answer to an append.
pub fn encode_append_resp(dst: &mut [u8], correlation_id: u32, offset: Option<u64>) -> (r: Result<usize, WireError>)
    ensures
        bytes::encodes(
            r,
            old(dst)@,
            final(dst)@,
            no_room(old(dst)@.len(), append_resp_frame(correlation_id, offset).len()),
            append_resp_frame(correlation_id, offset),
        ),
{
    broadcast use bytes::lemma_write_first, bytes::lemma_write_next;

    match offset {
        Some(off) => {
            if dst.len() < 14 {
                return Err(WireError::BufferTooSmall { needed: 14, actual: dst.len() });
            }
            bytes::put_u8(dst, 0, OP_APPEND_REQ);
            bytes::put_u32(dst, 1, correlation_id);
            bytes::put_u8(dst, 5, STATUS_OK);
            bytes::put_u64(dst, 6, off);
            Ok(14)
        },
        None => {
            if dst.len() < 6 {
                return Err(WireError::BufferTooSmall { needed: 6, actual: dst.len() });
            }
            bytes::put_u8(dst, 0, OP_APPEND_REQ);
            bytes::put_u32(dst, 1, correlation_id);
            bytes::put_u8(dst, 5, STATUS_NAK);
            Ok(6)
        },
    }
}

/// The answer to an append, decoded.
#[derive(Debug, Clone, Copy, PartialEq, Eq, Structural)]
pub struct DecodedAppendResp {
    pub correlation_id: u32,
    pub offset: Option<u64>,
}

/// What is made of the answer to an append. Any status but success is a refusal.
pub open spec fn append_resp_parse(s: Seq<u8>) -> Result<DecodedAppendResp, WireError> {
    if s.len() < 6 {
        Err(WireError::Truncated)
    } else if s[0] != OP_APPEND_REQ {
        Err(WireError::BadOpcode { observed: s[0] })
    } else if s[5] != STATUS_OK {
        Ok(DecodedAppendResp { correlation_id: bytes::u32_at(s, 1), offset: None })
    } else if s.len() < 14 {
        Err(WireError::Truncated)
    } else {
        Ok(DecodedAppendResp { correlation_id: bytes::u32_at(s, 1), offset: Some(bytes::u64_at(s, 6)) })
    }
}

/// Decode the answer to an append.
pub fn decode_append_resp(src: &[u8]) -> (r: Result<DecodedAppendResp, WireError>)
    ensures
        r == append_resp_parse(src@),
{
    if src.len() < 6 {
        return Err(WireError::Truncated);
    }
    if src[0] != OP_APPEND_REQ {
        return Err(WireError::BadOpcode { observed: src[0] });
    }
    let correlation_id: u32 = bytes::get_u32(src, 1);
    if src[5] != STATUS_OK {
        return Ok(DecodedAppendResp { correlation_id, offset: None });
    }
    if src.len() < 14 {
        return Err(WireError::Truncated);
    }
    Ok(DecodedAppendResp { correlation_id, offset: Some(bytes::get_u64(src, 6)) })
}

/// Decoding the answer to an append, whatever follows it, gives it back.
pub proof fn lemma_append_resp_round_trip(correlation_id: u32, offset: Option<u64>, rest: Seq<u8>)
    ensures
        append_resp_parse(append_resp_frame(correlation_id, offset) + rest) == Ok::<DecodedAppendResp, WireError>(
            DecodedAppendResp { correlation_id, offset },
        ),
{
    let s = append_resp_frame(correlation_id, offset) + rest;
    assert(s[0] == OP_APPEND_REQ);
    assert(s.subrange(1, 5) =~= bytes::le32(correlation_id));
    bytes::lemma_u32_at(s, 1, correlation_id);
    match offset {
        Some(off) => {
            assert(s[5] == STATUS_OK);
            assert(s.subrange(6, 14) =~= bytes::le64(off));
            bytes::lemma_u64_at(s, 6, off);
        },
        None => {
            assert(s[5] == STATUS_NAK);
        },
    }
}

/// The opcode of a record, if there is one.
pub fn peek_opcode(src: &[u8]) -> (r: Option<u8>)
    ensures
        r == if src@.len() == 0 {
            None::<u8>
        } else {
            Some(src@[0])
        },
{
    if src.len() == 0 {
        None
    } else {
        Some(src[0])
    }
}

} // verus!
