//! An append-only log behind a pair of channels.
//!
//! On disk a record is `[crc32:u32][len:u32][payload]`. The log is read from its
//! start up to the first record that is not clean: what follows a torn write is
//! not part of it.
//!
//! The file itself is not touched here. What a request asks of it is handed out as
//! a `LogAction`, and the outcome is handed back.
use crate::bytes;
use crate::crc32;
use crate::loam_limits;
use crate::loam_log_wire;
use vstd::prelude::*;
use vstd::slice::slice_subrange;

verus! {

/// How many requests one step takes.
pub const MAX_OPS_PER_STEP: u32 = loam_limits::OPS_PER_STEP;

pub const LOG_PATH_BUF: usize = 256;

/// Longest record, with its header, that is written.
pub const SCRATCH: usize = 4200;

/// The bytes of a record.
#[verifier::opaque]
pub open spec fn record_frame(payload: Seq<u8>) -> Seq<u8> {
    bytes::le32(crc32::checksum(payload)) + bytes::le32(payload.len() as u32) + payload
}

/// The payload length of the clean record at the front of `s`.
#[verifier::opaque]
pub open spec fn clean_len(s: Seq<u8>) -> Option<int> {
    if s.len() < 8 {
        None
    } else {
        let len = bytes::u32_at(s, 4) as int;
        if len == 0 || len > loam_log_wire::MAX_RECORD || s.len() < 8 + len {
            None
        } else if crc32::checksum(s.subrange(8, 8 + len)) != bytes::u32_at(s, 0) {
            None
        } else {
            Some(len)
        }
    }
}

/// The payloads of the clean records from the start of `s` on.
pub open spec fn records(s: Seq<u8>) -> Seq<Seq<u8>>
    decreases s.len(),
{
    proof {
        reveal(clean_len);
    }
    match clean_len(s) {
        None => Seq::empty(),
        Some(len) => seq![s.subrange(8, 8 + len)] + records(s.skip(8 + len)),
    }
}

/// Where the clean records end.
pub open spec fn clean_tail(s: Seq<u8>) -> int
    decreases s.len(),
{
    proof {
        reveal(clean_len);
    }
    match clean_len(s) {
        None => 0,
        Some(len) => 8 + len + clean_tail(s.skip(8 + len)),
    }
}

/// A payload that the log takes: not empty, and not too long.
pub open spec fn replayable(payload: Seq<u8>) -> bool {
    0 < payload.len() <= loam_log_wire::MAX_RECORD
}

/// A log made of whole records.
pub open spec fn log_of(payloads: Seq<Seq<u8>>) -> Seq<u8>
    decreases payloads.len(),
{
    if payloads.len() == 0 {
        Seq::empty()
    } else {
        record_frame(payloads[0]) + log_of(payloads.skip(1))
    }
}

/// A record that was written is clean, whatever follows it.
pub proof fn lemma_record_is_clean(payload: Seq<u8>, rest: Seq<u8>)
    requires
        replayable(payload),
    ensures
        record_frame(payload).len() == 8 + payload.len(),
        clean_len(record_frame(payload) + rest) == Some(payload.len() as int),
        (record_frame(payload) + rest).subrange(8, 8 + payload.len() as int) == payload,
        (record_frame(payload) + rest).skip(8 + payload.len() as int) == rest,
{
    reveal(record_frame);
    reveal(clean_len);
    let s = record_frame(payload) + rest;
    assert(s.subrange(0, 4) =~= bytes::le32(crc32::checksum(payload)));
    assert(s.subrange(4, 8) =~= bytes::le32(payload.len() as u32));
    bytes::lemma_u32_at(s, 0, crc32::checksum(payload));
    bytes::lemma_u32_at(s, 4, payload.len() as u32);
    assert(s.subrange(8, 8 + payload.len() as int) =~= payload);
    assert(s.skip(8 + payload.len() as int) =~= rest);
}

/// A replay reads back what was appended, in order, and stops at the tail: bytes
/// behind the records that are no clean record do not take part.
pub proof fn lemma_replay_reads_back(payloads: Seq<Seq<u8>>, tail: Seq<u8>)
    requires
        forall|i: int| 0 <= i < payloads.len() ==> replayable(#[trigger] payloads[i]),
        clean_len(tail) is None,
    ensures
        records(log_of(payloads) + tail) == payloads,
        clean_tail(log_of(payloads) + tail) == log_of(payloads).len(),
    decreases payloads.len(),
{
    if payloads.len() == 0 {
        assert(log_of(payloads) + tail =~= tail);
        assert(records(tail) =~= payloads);
    } else {
        let first = payloads[0];
        let others = payloads.skip(1);
        assert forall|i: int| 0 <= i < others.len() implies replayable(#[trigger] others[i]) by {
            assert(others[i] == payloads[i + 1]);
        }
        lemma_replay_reads_back(others, tail);
        let rest = log_of(others) + tail;
        assert(log_of(payloads) + tail =~= record_frame(first) + rest);
        lemma_record_is_clean(first, rest);
        assert(seq![first] + others =~= payloads);
    }
}

/// Appending behind the clean records adds one record and keeps the others.
pub proof fn lemma_append_adds_one(payloads: Seq<Seq<u8>>, payload: Seq<u8>)
    ensures
        log_of(payloads.push(payload)) == log_of(payloads) + record_frame(payload),
    decreases payloads.len(),
{
    if payloads.len() == 0 {
        assert(payloads.push(payload).skip(1) =~= Seq::<Seq<u8>>::empty());
        assert(log_of(Seq::<Seq<u8>>::empty()) =~= Seq::<u8>::empty());
        assert(log_of(payloads.push(payload)) =~= log_of(payloads) + record_frame(payload));
    } else {
        assert(payloads.push(payload).skip(1) =~= payloads.skip(1).push(payload));
        lemma_append_adds_one(payloads.skip(1), payload);
        assert(log_of(payloads.push(payload)) =~= log_of(payloads) + record_frame(payload));
    }
}

/// The clean record at the front of what was read from the log.
pub fn clean_record(window: &[u8]) -> (r: Option<usize>)
    ensures
        match r {
            Some(len) => clean_len(window@) == Some(len as int) && 8 + len <= window@.len() && len <= 4096,
            None => clean_len(window@) is None,
        },
{
    proof {
        reveal(clean_len);
    }
    if window.len() < 8 {
        return None;
    }
    let expected_crc: u32 = bytes::get_u32(window, 0);
    let len: u32 = bytes::get_u32(window, 4);
    if len == 0 || len > 4096 {
        return None;
    }
    let end: usize = 8 + len as usize;
    if window.len() < end {
        return None;
    }
    if crc32::crc32(slice_subrange(window, 8, end)) != expected_crc {
        return None;
    }
    Some(len as usize)
}

/// Where in the log a reader stands, and how many records it has read.
#[derive(Debug, Clone, Copy, PartialEq, Eq, Structural)]
pub struct LogScan {
    pub offset: u64,
    pub total: u32,
}

impl LogScan {
    pub fn start() -> (r: Self)
        ensures
            r == (LogScan { offset: 0, total: 0 }),
    {
        LogScan { offset: 0, total: 0 }
    }

    /// The reader after a record of this length.
    pub open spec fn after(self, len: int) -> LogScan {
        LogScan { offset: self.offset.wrapping_add((8 + len) as u64), total: self.total.wrapping_add(1) }
    }

    /// The reader after the whole log `s`.
    pub open spec fn over(self, s: Seq<u8>) -> LogScan
        decreases s.len(),
    {
        proof {
            reveal(clean_len);
        }
        match clean_len(s) {
            None => self,
            Some(len) => self.after(len).over(s.skip(8 + len)),
        }
    }

    /// Take the next record. `window` is what the log holds from the offset on; a
    /// header and the longest payload are enough of it.
    pub fn advance(&mut self, window: &[u8]) -> (r: Option<Vec<u8>>)
        ensures
            match clean_len(window@) {
                Some(len) => {
                    &&& r matches Some(payload) && payload@ == window@.subrange(8, 8 + len)
                    &&& *final(self) == old(self).after(len)
                },
                None => r is None && *final(self) == *old(self),
            },
    {
        match clean_record(window) {
            None => None,
            Some(len) => {
                self.offset = self.offset.wrapping_add(8 + len as u64);
                self.total = self.total.wrapping_add(1);
                Some(bytes::to_vec(slice_subrange(window, 8, 8 + len)))
            },
        }
    }

    /// Take the next record for a replay: how many bytes of the log it covers, and the
    /// answer that carries it. `None` where the clean records end.
    pub fn next_answer(&mut self, cid: u32, window: &[u8]) -> (r: Option<(usize, Vec<u8>)>)
        ensures
            match clean_len(window@) {
                Some(len) => {
                    &&& r matches Some(a) && a.0 == 8 + len && a.1@ == loam_log_wire::replay_record_frame(
                        cid,
                        old(self).offset,
                        window@.subrange(8, 8 + len),
                    )
                    &&& *final(self) == old(self).after(len)
                },
                None => r is None && *final(self) == *old(self),
            },
    {
        let offset: u64 = self.offset;
        proof {
            reveal(clean_len);
        }
        match self.advance(window) {
            None => None,
            Some(payload) => Some((8 + payload.len(), emit_replay_record(cid, offset, payload.as_slice()))),
        }
    }
}

/// No more of the log decides about a record than a header and the longest payload.
pub proof fn lemma_window_decides(s: Seq<u8>, n: int)
    requires
        8 + loam_log_wire::MAX_RECORD <= n <= s.len(),
    ensures
        clean_len(s.take(n)) == clean_len(s),
        clean_len(s) matches Some(len) ==> s.take(n).subrange(8, 8 + len) == s.subrange(8, 8 + len),
{
    reveal(clean_len);
    let len = bytes::u32_at(s, 4) as int;
    if 0 < len <= loam_log_wire::MAX_RECORD {
        assert(s.take(n).subrange(8, 8 + len) =~= s.subrange(8, 8 + len));
    }
}

/// A reader that goes over the log ends where the clean records end, having read
/// all of them.
pub proof fn lemma_scan_finds_tail(scan: LogScan, s: Seq<u8>)
    requires
        scan.offset + s.len() <= u64::MAX,
        scan.total + s.len() <= u32::MAX,
    ensures
        scan.over(s).offset == scan.offset + clean_tail(s),
        scan.over(s).total == scan.total + records(s).len(),
        0 <= clean_tail(s) <= s.len(),
    decreases s.len(),
{
    reveal(clean_len);
    if let Some(len) = clean_len(s) {
        lemma_scan_finds_tail(scan.after(len), s.skip(8 + len));
    }
}

/// What a request asks of the file and the channel.
pub enum LogAction {
    /// Nothing; the request was not understood.
    Drop,
    /// Answer with these bytes.
    Reply(Vec<u8>),
    /// Write a record at an offset and make it durable, and report back.
    Append { cid: u32, offset: u64, frame: Vec<u8> },
    /// Read the log from its start, and report each record back.
    Replay { cid: u32 },
}

/// The log as far as it is known between steps.
#[derive(Debug, Clone, Copy, PartialEq, Eq, Structural)]
pub struct ModuleState {
    /// The open log; negative while there is none.
    pub log_fd: i32,
    /// Where the next record goes.
    pub current_offset: u64,
    /// How many requests this step has taken.
    pub handled: u32,
    pub ticks: u32,
    pub appends: u32,
    pub replays: u32,
    pub append_errors: u32,
}

/// The state once a request is taken in this step.
pub open spec fn counted(s: ModuleState) -> ModuleState {
    ModuleState { handled: s.handled.wrapping_add(1), ..s }
}

/// The state after one more error.
pub open spec fn failed(s: ModuleState) -> ModuleState {
    ModuleState { append_errors: s.append_errors.wrapping_add(1), ..s }
}

/// The state after a record of this length, with its header, became durable.
pub open spec fn stored(s: ModuleState, frame_len: int) -> ModuleState {
    ModuleState {
        current_offset: s.current_offset.wrapping_add(frame_len as u64),
        appends: s.appends.wrapping_add(1),
        ..s
    }
}

/// Whether a path can be the path of the log.
pub fn set_log_path(path: &[u8]) -> (r: bool)
    ensures
        r == (0 < path@.len() <= LOG_PATH_BUF),
{
    path.len() > 0 && path.len() <= LOG_PATH_BUF
}

impl ModuleState {
    pub fn new() -> (r: Self)
        ensures
            r == (ModuleState {
                log_fd: -1i32,
                current_offset: 0,
                handled: 0,
                ticks: 0,
                appends: 0,
                replays: 0,
                append_errors: 0,
            }),
    {
        ModuleState { log_fd: -1, current_offset: 0, handled: 0, ticks: 0, appends: 0, replays: 0, append_errors: 0 }
    }

    /// A step begins.
    pub fn begin_step(&mut self)
        ensures
            *final(self) == (ModuleState { ticks: old(self).ticks.wrapping_add(1), handled: 0, ..*old(self) }),
    {
        self.ticks = self.ticks.wrapping_add(1);
        self.handled = 0;
    }

    /// Whether this step takes another request.
    pub fn wants_input(&self) -> (r: bool)
        ensures
            r == (self.handled < MAX_OPS_PER_STEP),
    {
        self.handled < MAX_OPS_PER_STEP
    }

    /// A log was opened; `scan` has gone over it, unless it could not be read.
    pub fn open_log(&mut self, fd: i32, scan: Option<LogScan>)
        ensures
            *final(self) == (ModuleState {
                log_fd: fd,
                current_offset: match scan {
                    Some(sc) => sc.offset,
                    None => old(self).current_offset,
                },
                ..*old(self)
            }),
    {
        self.log_fd = fd;
        match scan {
            Some(sc) => {
                self.current_offset = sc.offset;
            },
            None => {},
        }
    }

    /// Take one request.
    pub fn module_step_impl(&mut self, request: &[u8]) -> (r: LogAction)
        ensures
            if request@.len() > 0 && request@[0] == loam_log_wire::OP_APPEND_REQ {
                append_answer(counted(*old(self)), request@, *final(self), r)
            } else if request@.len() > 0 && request@[0] == loam_log_wire::OP_REPLAY_REQ {
                replay_answer(counted(*old(self)), request@, *final(self), r)
            } else {
                r is Drop && *final(self) == failed(counted(*old(self)))
            },
    {
        self.handled = self.handled.wrapping_add(1);
        match loam_log_wire::peek_opcode(request) {
            Some(op) => if op == loam_log_wire::OP_APPEND_REQ {
                self.handle_append(request)
            } else if op == loam_log_wire::OP_REPLAY_REQ {
                self.handle_replay(request)
            } else {
                self.append_errors = self.append_errors.wrapping_add(1);
                LogAction::Drop
            },
            None => {
                self.append_errors = self.append_errors.wrapping_add(1);
                LogAction::Drop
            },
        }
    }

    /// Take a record to append.
    pub fn handle_append(&mut self, request: &[u8]) -> (r: LogAction)
        ensures
            append_answer(*old(self), request@, *final(self), r),
    {
        match loam_log_wire::decode_append_req(request) {
            Err(_) => {
                self.append_errors = self.append_errors.wrapping_add(1);
                LogAction::Drop
            },
            Ok((cid, payload)) => {
                if self.log_fd < 0 || payload.len() == 0 || payload.len() > loam_log_wire::MAX_RECORD {
                    return LogAction::Reply(self.emit_append_nak(cid));
                }
                LogAction::Append { cid, offset: self.current_offset, frame: encode_record(payload) }
            },
        }
    }

    /// A record could not be appended: the answer.
    pub fn emit_append_nak(&mut self, cid: u32) -> (r: Vec<u8>)
        ensures
            r@ == loam_log_wire::append_resp_frame(cid, None),
            *final(self) == failed(*old(self)),
    {
        self.append_errors = self.append_errors.wrapping_add(1);
        append_resp(cid, None)
    }

    /// A record was written and is durable, or is not: the answer.
    pub fn append_done(&mut self, cid: u32, frame_len: usize, durable: bool) -> (r: Vec<u8>)
        ensures
            if durable {
                &&& r@ == loam_log_wire::append_resp_frame(cid, Some(old(self).current_offset))
                &&& *final(self) == stored(*old(self), frame_len as int)
            } else {
                &&& r@ == loam_log_wire::append_resp_frame(cid, None)
                &&& *final(self) == failed(*old(self))
            },
    {
        if !durable {
            return self.emit_append_nak(cid);
        }
        let record_offset: u64 = self.current_offset;
        self.current_offset = self.current_offset.wrapping_add(frame_len as u64);
        self.appends = self.appends.wrapping_add(1);
        append_resp(cid, Some(record_offset))
    }

    /// Take a request to replay the log.
    pub fn handle_replay(&mut self, request: &[u8]) -> (r: LogAction)
        ensures
            replay_answer(*old(self), request@, *final(self), r),
    {
        match loam_log_wire::decode_replay_req(request) {
            Err(_) => {
                self.append_errors = self.append_errors.wrapping_add(1);
                LogAction::Drop
            },
            Ok(cid) => if self.log_fd < 0 {
                LogAction::Reply(emit_replay_end(cid, 0))
            } else {
                LogAction::Replay { cid }
            },
        }
    }

    /// A replay went over the log: the last answer.
    pub fn replay_done(&mut self, cid: u32, scan: LogScan) -> (r: Vec<u8>)
        ensures
            r@ == loam_log_wire::replay_end_frame(cid, scan.total),
            *final(self) == (ModuleState { replays: old(self).replays.wrapping_add(1), ..*old(self) }),
    {
        self.replays = self.replays.wrapping_add(1);
        emit_replay_end(cid, scan.total)
    }
}

/// What becomes of a record to append.
pub open spec fn append_answer(before: ModuleState, request: Seq<u8>, after: ModuleState, action: LogAction) -> bool {
    match loam_log_wire::append_req_parse(request) {
        Err(_) => action is Drop && after == failed(before),
        Ok((cid, payload)) => if before.log_fd < 0 || !replayable(payload) {
            &&& action matches LogAction::Reply(bytes)
            &&& bytes@ == loam_log_wire::append_resp_frame(cid, None)
            &&& after == failed(before)
        } else {
            &&& action matches LogAction::Append { cid: c, offset, frame }
            &&& c == cid
            &&& offset == before.current_offset
            &&& frame@ == record_frame(payload)
            &&& after == before
        },
    }
}

/// What a request to append comes to, where `durable` tells whether a write that it asks
/// for becomes durable: the state after it, and the payload that was acknowledged, with
/// its offset.
pub open spec fn appended(s: ModuleState, request: Seq<u8>, durable: bool) -> (ModuleState, Option<(u64, Seq<u8>)>) {
    match loam_log_wire::append_req_parse(request) {
        Err(_) => (failed(s), None),
        Ok((cid, payload)) => if s.log_fd < 0 || !replayable(payload) || !durable {
            (failed(s), None)
        } else {
            (stored(s, 8 + payload.len() as int), Some((s.current_offset, payload)))
        },
    }
}

/// The payloads that a run of requests to append acknowledges, with their offsets.
pub open spec fn acknowledged(s: ModuleState, run: Seq<(Seq<u8>, bool)>) -> Seq<(u64, Seq<u8>)>
    decreases run.len(),
{
    if run.len() == 0 {
        Seq::empty()
    } else {
        let (after, got) = appended(s, run[0].0, run[0].1);
        match got {
            Some(record) => seq![record] + acknowledged(after, run.skip(1)),
            None => acknowledged(after, run.skip(1)),
        }
    }
}

/// The payloads of records, without their offsets.
pub open spec fn payloads_of(records: Seq<(u64, Seq<u8>)>) -> Seq<Seq<u8>> {
    records.map_values(|r: (u64, Seq<u8>)| r.1)
}

/// The records that a reader standing at `scan` takes from the rest `s` of the log, each
/// with its offset: what the answers to a replay carry.
pub open spec fn replay_of(scan: LogScan, s: Seq<u8>) -> Seq<(u64, Seq<u8>)>
    decreases s.len(),
{
    proof {
        reveal(clean_len);
    }
    match clean_len(s) {
        None => Seq::empty(),
        Some(len) => seq![(scan.offset, s.subrange(8, 8 + len))] + replay_of(scan.after(len), s.skip(8 + len)),
    }
}

/// A request makes a write exactly where a durable write acknowledges it, and the write is
/// the record of the acknowledged payload, at its offset. A write that is not durable is
/// not acknowledged.
pub proof fn lemma_append_writes_what_it_acknowledges(
    before: ModuleState,
    request: Seq<u8>,
    after: ModuleState,
    action: LogAction,
)
    requires
        append_answer(before, request, after, action),
    ensures
        appended(before, request, false).1 is None,
        match action {
            LogAction::Append { cid, offset, frame } => {
                &&& appended(before, request, true) == (
                    stored(after, frame@.len() as int),
                    Some((offset, loam_log_wire::append_req_parse(request)->Ok_0.1)),
                )
                &&& frame@ == record_frame(loam_log_wire::append_req_parse(request)->Ok_0.1)
            },
            _ => appended(before, request, true) == (after, None::<(u64, Seq<u8>)>),
        },
{
    reveal(record_frame);
}

/// Every append that was acknowledged is replayed: one record each, in order, with the
/// payload and the offset that were acknowledged, and nothing else.
pub proof fn lemma_acknowledged_is_replayed(s: ModuleState, run: Seq<(Seq<u8>, bool)>, scan: LogScan, tail: Seq<u8>)
    requires
        scan.offset == s.current_offset,
        clean_len(tail) is None,
    ensures
        replay_of(scan, log_of(payloads_of(acknowledged(s, run))) + tail) == acknowledged(s, run),
        records(log_of(payloads_of(acknowledged(s, run))) + tail) == payloads_of(acknowledged(s, run)),
    decreases run.len(),
{
    let acked = acknowledged(s, run);
    if run.len() == 0 {
        assert(payloads_of(acked) =~= Seq::<Seq<u8>>::empty());
        assert(log_of(payloads_of(acked)) + tail =~= tail);
        assert(records(tail) =~= payloads_of(acked));
        assert(replay_of(scan, tail) =~= acked);
    } else {
        let (after, got) = appended(s, run[0].0, run[0].1);
        let others = acknowledged(after, run.skip(1));
        match got {
            None => {
                lemma_acknowledged_is_replayed(after, run.skip(1), scan, tail);
            },
            Some((offset, payload)) => {
                let len = payload.len() as int;
                lemma_acknowledged_is_replayed(after, run.skip(1), scan.after(len), tail);
                assert(payloads_of(acked)[0] == payload);
                assert(payloads_of(acked).skip(1) =~= payloads_of(others));
                let rest = log_of(payloads_of(others)) + tail;
                let file = log_of(payloads_of(acked)) + tail;
                assert(file =~= record_frame(payload) + rest);
                lemma_record_is_clean(payload, rest);
                assert(replay_of(scan, file) =~= acked);
                assert(records(file) =~= payloads_of(acked));
            },
        }
    }
}

/// The answers to a replay, for a reader standing at `scan` with the rest `s` of the log
/// before it: each record, then the end with how many there were.
pub open spec fn replay_answers(cid: u32, scan: LogScan, s: Seq<u8>) -> Seq<Seq<u8>>
    decreases s.len(),
{
    proof {
        reveal(clean_len);
    }
    match clean_len(s) {
        None => seq![loam_log_wire::replay_end_frame(cid, scan.total)],
        Some(len) => seq![loam_log_wire::replay_record_frame(cid, scan.offset, s.subrange(8, 8 + len))]
            + replay_answers(cid, scan.after(len), s.skip(8 + len)),
    }
}

/// The answers that carry records, each with its offset.
pub open spec fn record_answers(cid: u32, records: Seq<(u64, Seq<u8>)>) -> Seq<Seq<u8>> {
    records.map_values(|r: (u64, Seq<u8>)| loam_log_wire::replay_record_frame(cid, r.0, r.1))
}

proof fn lemma_replay_answers(cid: u32, scan: LogScan, s: Seq<u8>)
    requires
        scan.total + replay_of(scan, s).len() <= u32::MAX,
    ensures
        replay_answers(cid, scan, s) == record_answers(cid, replay_of(scan, s)).push(
            loam_log_wire::replay_end_frame(cid, (scan.total + replay_of(scan, s).len()) as u32),
        ),
    decreases s.len(),
{
    reveal(clean_len);
    match clean_len(s) {
        None => {
            assert(replay_answers(cid, scan, s) =~= record_answers(cid, replay_of(scan, s)).push(
                loam_log_wire::replay_end_frame(cid, scan.total),
            ));
        },
        Some(len) => {
            let rest = replay_of(scan.after(len), s.skip(8 + len));
            let all = replay_of(scan, s);
            assert(all.len() == 1 + rest.len());
            lemma_replay_answers(cid, scan.after(len), s.skip(8 + len));
            assert(replay_answers(cid, scan, s) =~= record_answers(cid, all).push(
                loam_log_wire::replay_end_frame(cid, (scan.total + all.len()) as u32),
            ));
        },
    }
}

/// The records of a log that begins at an offset, each with where it stands.
pub open spec fn placed(offset: u64, payloads: Seq<Seq<u8>>) -> Seq<(u64, Seq<u8>)>
    decreases payloads.len(),
{
    if payloads.len() == 0 {
        Seq::empty()
    } else {
        seq![(offset, payloads[0])] + placed(
            offset.wrapping_add((8 + payloads[0].len()) as u64),
            payloads.skip(1),
        )
    }
}

proof fn lemma_replay_of_log(scan: LogScan, payloads: Seq<Seq<u8>>, rest: Seq<u8>) -> (end: LogScan)
    requires
        forall|i: int| 0 <= i < payloads.len() ==> replayable(#[trigger] payloads[i]),
        scan.offset + log_of(payloads).len() <= u64::MAX,
    ensures
        end.offset == scan.offset + log_of(payloads).len(),
        replay_of(scan, log_of(payloads) + rest) == placed(scan.offset, payloads) + replay_of(end, rest),
        placed(scan.offset, payloads).len() == payloads.len(),
    decreases payloads.len(),
{
    if payloads.len() == 0 {
        assert(log_of(payloads) + rest =~= rest);
        assert(replay_of(scan, rest) =~= placed(scan.offset, payloads) + replay_of(scan, rest));
        scan
    } else {
        let first = payloads[0];
        let others = payloads.skip(1);
        assert forall|i: int| 0 <= i < others.len() implies replayable(#[trigger] others[i]) by {
            assert(others[i] == payloads[i + 1]);
        }
        let behind = log_of(others) + rest;
        assert(log_of(payloads) + rest =~= record_frame(first) + behind);
        lemma_record_is_clean(first, behind);
        let end = lemma_replay_of_log(scan.after(first.len() as int), others, rest);
        assert(replay_of(scan, log_of(payloads) + rest) =~= placed(scan.offset, payloads) + replay_of(end, rest));
        end
    }
}

/// A replay answers with what the log held when it was opened, then with every append that
/// was acknowledged since: one record each, in order, with the payload and the offset that
/// were acknowledged. At last it answers with the end, which says how many records there
/// were. A torn tail adds nothing.
pub proof fn lemma_replay_answers_what_was_acknowledged(
    cid: u32,
    held: Seq<Seq<u8>>,
    s: ModuleState,
    run: Seq<(Seq<u8>, bool)>,
    tail: Seq<u8>,
)
    requires
        forall|i: int| 0 <= i < held.len() ==> replayable(#[trigger] held[i]),
        s.current_offset == log_of(held).len(),
        clean_len(tail) is None,
        held.len() + acknowledged(s, run).len() <= u32::MAX,
    ensures
        replay_answers(
            cid,
            LogScan { offset: 0, total: 0 },
            log_of(held) + (log_of(payloads_of(acknowledged(s, run))) + tail),
        ) == record_answers(cid, placed(0, held) + acknowledged(s, run)).push(
            loam_log_wire::replay_end_frame(cid, (held.len() + acknowledged(s, run).len()) as u32),
        ),
{
    let scan = LogScan { offset: 0, total: 0 };
    let rest = log_of(payloads_of(acknowledged(s, run))) + tail;
    let end = lemma_replay_of_log(scan, held, rest);
    lemma_acknowledged_is_replayed(s, run, end, tail);
    lemma_replay_answers(cid, scan, log_of(held) + rest);
}

/// What becomes of a request to replay.
pub open spec fn replay_answer(before: ModuleState, request: Seq<u8>, after: ModuleState, action: LogAction) -> bool {
    match loam_log_wire::replay_req_parse(request) {
        Err(_) => action is Drop && after == failed(before),
        Ok(cid) => if before.log_fd < 0 {
            &&& action matches LogAction::Reply(bytes)
            &&& bytes@ == loam_log_wire::replay_end_frame(cid, 0)
            &&& after == before
        } else {
            &&& action matches LogAction::Replay { cid: c }
            &&& c == cid
            &&& after == before
        },
    }
}

/// The bytes of a record as they go to disk.
pub fn encode_record(payload: &[u8]) -> (r: Vec<u8>)
    requires
        payload@.len() <= loam_log_wire::MAX_RECORD,
    ensures
        r@ == record_frame(payload@),
{
    broadcast use bytes::lemma_write_first, bytes::lemma_write_next;

    let mut header: [u8; 8] = [0u8; 8];
    bytes::put_u32(&mut header, 0, crc32::crc32(payload));
    bytes::put_u32(&mut header, 4, payload.len() as u32);
    proof {
        reveal(bytes::written);
        reveal(record_frame);
    }
    let mut r: Vec<u8> = bytes::to_vec(header.as_slice());
    bytes::append(&mut r, payload);
    assert(r@ =~= record_frame(payload@));
    r
}

fn append_resp(cid: u32, offset: Option<u64>) -> (r: Vec<u8>)
    ensures
        r@ == loam_log_wire::append_resp_frame(cid, offset),
{
    let mut buf: [u8; 16] = [0u8; 16];
    let ghost before = buf@;
    proof {
        bytes::lemma_written_front(before, loam_log_wire::append_resp_frame(cid, offset));
    }
    match loam_log_wire::encode_append_resp(&mut buf, cid, offset) {
        Ok(n) => bytes::front(buf.as_slice(), n),
        Err(_) => Vec::new(),
    }
}

/// The end of a replay, as it is answered.
pub fn emit_replay_end(cid: u32, total: u32) -> (r: Vec<u8>)
    ensures
        r@ == loam_log_wire::replay_end_frame(cid, total),
{
    let mut buf: [u8; 16] = [0u8; 16];
    let ghost before = buf@;
    proof {
        bytes::lemma_written_front(before, loam_log_wire::replay_end_frame(cid, total));
    }
    match loam_log_wire::encode_replay_end(&mut buf, cid, total) {
        Ok(n) => bytes::front(buf.as_slice(), n),
        Err(_) => Vec::new(),
    }
}

/// One record of a replay, as it is answered. `offset` is where it stands in the log.
pub fn emit_replay_record(cid: u32, offset: u64, payload: &[u8]) -> (r: Vec<u8>)
    requires
        payload@.len() <= loam_log_wire::MAX_RECORD,
    ensures
        r@ == loam_log_wire::replay_record_frame(cid, offset, payload@),
{
    let mut buf: [u8; SCRATCH] = [0u8; SCRATCH];
    let ghost before = buf@;
    proof {
        bytes::lemma_written_front(before, loam_log_wire::replay_record_frame(cid, offset, payload@));
    }
    match loam_log_wire::encode_replay_record(&mut buf, cid, offset, payload) {
        Ok(n) => bytes::front(buf.as_slice(), n),
        Err(_) => Vec::new(),
    }
}

} // verus!
