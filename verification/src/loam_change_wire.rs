//! Change events: what a subscriber to a namespace is sent.
//!
//! ```text
//! record  [rev:u64][kind][key_len:u16][val_len:u32][key][val]
//! event   [source:16][sequence:u32][timestamp:u64][content_type][flags][payload_len:u16][record]
//! ```
//!
//! A deletion with an empty key is the sign that changes were lost and the
//! subscriber must list again.
use crate::bytes;
use crate::loam_limits;
use vstd::prelude::*;
use vstd::slice::slice_subrange;

verus! {

/// Length of the header in front of a pushed record.
pub const EVENT_HEADER_SIZE: usize = 32;

/// Where the payload length stands in the header.
pub const EVENT_LEN_OFFSET: usize = 30;

/// Where the content type stands in the header.
pub const EVENT_CT_OFFSET: usize = 28;

/// The content type of a change.
pub const CT_NAMESPACE_CHANGE: u8 = 15;

/// The letters `loam-namespace`, padded with zeros.
pub const SOURCE: [u8; 16] = [
    0x6C,
    0x6F,
    0x61,
    0x6D,
    0x2D,
    0x6E,
    0x61,
    0x6D,
    0x65,
    0x73,
    0x70,
    0x61,
    0x63,
    0x65,
    0,
    0,
];

pub const KIND_ADDED: u8 = 0;

pub const KIND_MODIFIED: u8 = 1;

pub const KIND_DELETED: u8 = 2;

/// The answer to a request for changes holds them.
pub const STATUS_EVENTS: u8 = 0;

/// The changes asked for can no longer be vouched for; the client must list again.
pub const STATUS_LOST: u8 = 1;

/// Length of the fixed part of a record.
pub const REC_HEADER: usize = 15;

/// Length of the header of an answer to a request for changes.
pub const CHANGES_HEADER: usize = 5;

/// Longest record.
pub const REC_MAX: usize = REC_HEADER + loam_limits::MAX_PATH + loam_limits::MAX_OBJECT_ID;

/// Longest pushed event.
pub const EVENT_MAX: usize = EVENT_HEADER_SIZE + REC_MAX;

/// The bytes of a change record.
pub open spec fn record_frame(revision: u64, kind: u8, key: Seq<u8>, value: Seq<u8>) -> Seq<u8> {
    bytes::le64(revision) + seq![kind] + bytes::le16(key.len() as u16) + bytes::le32(value.len() as u32) + key + value
}

/// The header of a pushed event. Its timestamp and flags are zero.
pub open spec fn event_header(sequence: u32, payload: nat) -> Seq<u8> {
    SOURCE@ + bytes::le32(sequence) + bytes::le64(0) + seq![CT_NAMESPACE_CHANGE] + seq![0u8] + bytes::le16(
        payload as u16,
    )
}

/// The bytes of a pushed event.
pub open spec fn event_frame(sequence: u32, revision: u64, kind: u8, key: Seq<u8>, value: Seq<u8>) -> Seq<u8> {
    event_header(sequence, 15 + key.len() + value.len()) + record_frame(revision, kind, key, value)
}

/// What an encoder that may find no room does: nothing and `None`, or the frame
/// at the start and its length.
pub open spec fn encodes_if(r: Option<usize>, before: Seq<u8>, after: Seq<u8>, fits: bool, frame: Seq<u8>) -> bool {
    if fits {
        r == Some(frame.len() as usize) && after == bytes::written(before, frame)
    } else {
        r is None && after == before
    }
}

fn put_record(out: &mut [u8], at: usize, revision: u64, kind: u8, key: &[u8], value: &[u8])
    requires
        key@.len() <= u16::MAX,
        value@.len() <= u32::MAX,
        at + 15 + key@.len() + value@.len() <= old(out)@.len(),
    ensures
        final(out)@.len() == old(out)@.len(),
        final(out)@ == bytes::splice(old(out)@, at as int, record_frame(revision, kind, key@, value@)),
{
    let size: usize = out.len();
    assert(at + 15 + key@.len() + value@.len() <= size);
    let ghost before = out@;
    let ghost p0 = bytes::le64(revision);
    let ghost p1 = p0 + seq![kind];
    let ghost p2 = p1 + bytes::le16(key@.len() as u16);
    let ghost p3 = p2 + bytes::le32(value@.len() as u32);
    bytes::put_u64(out, at, revision);
    bytes::put_u8(out, at + 8, kind);
    bytes::put_u16(out, at + 9, key.len() as u16);
    bytes::put_u32(out, at + 11, value.len() as u32);
    bytes::put_bytes(out, at + 15, key);
    bytes::put_bytes(out, at + 15 + key.len(), value);
    proof {
        bytes::lemma_splice_chain(before, at as int, p0, at + 8, seq![kind]);
        bytes::lemma_splice_chain(before, at as int, p1, at + 9, bytes::le16(key@.len() as u16));
        bytes::lemma_splice_chain(before, at as int, p2, at + 11, bytes::le32(value@.len() as u32));
        bytes::lemma_splice_chain(before, at as int, p3, at + 15, key@);
        bytes::lemma_splice_chain(before, at as int, p3 + key@, at + 15 + key@.len(), value@);
    }
}

/// Write one record to the start of `out`. Returns its length, or `None` where
/// it does not fit or the key is too long for its length field.
pub fn encode_record(out: &mut [u8], revision: u64, kind: u8, key: &[u8], value: &[u8]) -> (r: Option<usize>)
    requires
        value@.len() <= u32::MAX,
    ensures
        encodes_if(
            r,
            old(out)@,
            final(out)@,
            15 + key@.len() + value@.len() <= old(out)@.len() && key@.len() <= u16::MAX,
            record_frame(revision, kind, key@, value@),
        ),
{
    broadcast use bytes::lemma_write_first;

    let room: usize = out.len();
    if key.len() > 0xFFFF || room < 15 || room - 15 < key.len() || room - 15 - key.len() < value.len() {
        return None;
    }
    put_record(out, 0, revision, kind, key, value);
    Some(15 + key.len() + value.len())
}

/// Write one pushed event to the start of `out`. Returns its length, or `None`
/// where it does not fit or the record is too long for its length field.
pub fn encode_event(out: &mut [u8], sequence: u32, revision: u64, kind: u8, key: &[u8], value: &[u8]) -> (r: Option<
    usize,
>)
    ensures
        encodes_if(
            r,
            old(out)@,
            final(out)@,
            47 + key@.len() + value@.len() <= old(out)@.len() && 15 + key@.len() + value@.len() <= u16::MAX,
            event_frame(sequence, revision, kind, key@, value@),
        ),
{
    broadcast use bytes::lemma_write_first, bytes::lemma_write_next;

    if key.len() > 0xFFFF || value.len() > 0xFFFF {
        return None;
    }
    let payload: usize = 15 + key.len() + value.len();
    if out.len() < 32 + payload || payload > 0xFFFF {
        return None;
    }
    let source: [u8; 16] = SOURCE;
    bytes::put_bytes(out, 0, source.as_slice());
    bytes::put_u32(out, 16, sequence);
    bytes::put_u64(out, 20, 0);
    bytes::put_u8(out, 28, CT_NAMESPACE_CHANGE);
    bytes::put_u8(out, 29, 0);
    bytes::put_u16(out, 30, payload as u16);
    put_record(out, 32, revision, kind, key, value);
    Some(32 + payload)
}

/// Write the sign that changes were lost, as a pushed event.
pub fn encode_lost_event(out: &mut [u8], sequence: u32, revision: u64) -> (r: Option<usize>)
    ensures
        encodes_if(
            r,
            old(out)@,
            final(out)@,
            47 <= old(out)@.len(),
            event_frame(sequence, revision, KIND_DELETED, Seq::empty(), Seq::empty()),
        ),
{
    let none: [u8; 0] = [];
    let empty: &[u8] = none.as_slice();
    assert(empty@ =~= Seq::<u8>::empty());
    encode_event(out, sequence, revision, KIND_DELETED, empty, empty)
}

/// One decoded record. A deletion has an empty value.
#[derive(Debug, Clone, Copy, PartialEq, Eq)]
pub struct ChangeRecord<'a> {
    pub revision: u64,
    pub kind: u8,
    pub key: &'a [u8],
    pub value: &'a [u8],
}

/// What is made of a record: revision, kind, key, value, and its length.
pub open spec fn record_parse(s: Seq<u8>) -> Option<(u64, u8, Seq<u8>, Seq<u8>, int)> {
    if s.len() < 15 {
        None
    } else {
        let key_end = 15 + bytes::u16_at(s, 9);
        let end = key_end + bytes::u32_at(s, 11);
        if end > s.len() {
            None
        } else {
            Some((bytes::u64_at(s, 0), s[8], s.subrange(15, key_end), s.subrange(key_end, end), end))
        }
    }
}

/// Decode one record. Returns it and the bytes that it takes.
pub fn decode_record(rec: &[u8]) -> (r: Option<(ChangeRecord<'_>, usize)>)
    ensures
        match r {
            Some((d, n)) => record_parse(rec@) == Some((d.revision, d.kind, d.key@, d.value@, n as int)),
            None => record_parse(rec@) is None,
        },
{
    if rec.len() < 15 {
        return None;
    }
    let key_end: u64 = 15 + bytes::get_u16(rec, 9) as u64;
    let end: u64 = key_end + bytes::get_u32(rec, 11) as u64;
    if end > rec.len() as u64 {
        return None;
    }
    Some(
        (
            ChangeRecord {
                revision: bytes::get_u64(rec, 0),
                kind: rec[8],
                key: slice_subrange(rec, 15, key_end as usize),
                value: slice_subrange(rec, key_end as usize, end as usize),
            },
            end as usize,
        ),
    )
}

/// Decoding a record, whatever follows it, gives its parts and length back.
pub proof fn lemma_record_round_trip(revision: u64, kind: u8, key: Seq<u8>, value: Seq<u8>, rest: Seq<u8>)
    requires
        key.len() <= u16::MAX,
        value.len() <= u32::MAX,
    ensures
        record_parse(record_frame(revision, kind, key, value) + rest) == Some(
            (revision, kind, key, value, record_frame(revision, kind, key, value).len() as int),
        ),
{
    broadcast use bytes::lemma_subrange_left, bytes::lemma_subrange_right;

    let s = record_frame(revision, kind, key, value) + rest;
    assert(s.subrange(0, 8) == bytes::le64(revision));
    bytes::lemma_u64_at(s, 0, revision);
    assert(s[8] == kind);
    assert(s.subrange(9, 11) == bytes::le16(key.len() as u16));
    bytes::lemma_u16_at(s, 9, key.len() as u16);
    assert(s.subrange(11, 15) == bytes::le32(value.len() as u32));
    bytes::lemma_u32_at(s, 11, value.len() as u32);
    assert(s.subrange(15, (15 + key.len()) as int) == key);
    assert(s.subrange((15 + key.len()) as int, (15 + key.len() + value.len()) as int) == value);
}

/// What is cut off before its end is no record.
pub proof fn lemma_cut_record_is_none(revision: u64, kind: u8, key: Seq<u8>, value: Seq<u8>, n: int)
    requires
        key.len() <= u16::MAX,
        value.len() <= u32::MAX,
        0 <= n < record_frame(revision, kind, key, value).len(),
    ensures
        record_parse(record_frame(revision, kind, key, value).take(n)) is None,
{
    let whole = record_frame(revision, kind, key, value);
    let s = whole.take(n);
    if n >= 15 {
        assert(s.subrange(9, 11) =~= bytes::le16(key.len() as u16));
        bytes::lemma_u16_at(s, 9, key.len() as u16);
        assert(s.subrange(11, 15) =~= bytes::le32(value.len() as u32));
        bytes::lemma_u32_at(s, 11, value.len() as u32);
    }
}

/// A pushed event declares the length of its record, and the record stands
/// right behind the header.
pub proof fn lemma_event_round_trip(
    sequence: u32,
    revision: u64,
    kind: u8,
    key: Seq<u8>,
    value: Seq<u8>,
    rest: Seq<u8>,
)
    requires
        15 + key.len() + value.len() <= u16::MAX,
    ensures
        ({
            let s = event_frame(sequence, revision, kind, key, value) + rest;
            &&& payload_len(s) == Some((15 + key.len() + value.len()) as int)
            &&& record_parse(s.skip(32)) == Some(
                (revision, kind, key, value, (15 + key.len() + value.len()) as int),
            )
        }),
{
    let s = event_frame(sequence, revision, kind, key, value) + rest;
    let payload = 15 + key.len() + value.len();
    assert(s.subrange(30, 32) =~= bytes::le16(payload as u16));
    bytes::lemma_u16_at(s, 30, payload as u16);
    lemma_record_round_trip(revision, kind, key, value, rest);
    assert(s.skip(32) =~= record_frame(revision, kind, key, value) + rest);
}

/// The sign that changes were lost.
pub open spec fn is_lost(kind: u8, key: Seq<u8>) -> bool {
    kind == KIND_DELETED && key.len() == 0
}

/// Whether `r` is the sign that changes were lost.
pub fn is_lost_sentinel(r: &ChangeRecord<'_>) -> (lost: bool)
    ensures
        lost == is_lost(r.kind, r.key@),
{
    r.kind == KIND_DELETED && r.key.len() == 0
}

/// The payload length that an event header declares.
pub open spec fn payload_len(s: Seq<u8>) -> Option<int> {
    if s.len() < 32 {
        None
    } else {
        Some(bytes::u16_at(s, 30) as int)
    }
}

/// The payload length that an event header declares.
pub fn event_payload_len(hdr: &[u8]) -> (r: Option<usize>)
    ensures
        match r {
            Some(n) => payload_len(hdr@) == Some(n as int),
            None => payload_len(hdr@) is None,
        },
{
    if hdr.len() < EVENT_HEADER_SIZE {
        return None;
    }
    Some(bytes::get_u16(hdr, 30) as usize)
}

/// Whether `key` falls under `prefix`. Everything falls under the empty prefix.
pub fn under_prefix(key: &[u8], prefix: &[u8]) -> (r: bool)
    ensures
        r == prefix@.is_prefix_of(key@),
{
    bytes::starts_with(key, prefix)
}

} // verus!
