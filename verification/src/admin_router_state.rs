//! How administrative requests are routed, as a model.
//!
//! A request is forwarded to the namespace, the body store or the object index, and what
//! comes back is answered under the request's own correlation id. Each of the three
//! answers in the order in which it was asked, so that the oldest request that waits for
//! it is the one that an answer belongs to. Storing a file takes three requests, one
//! after the other: its body, its description, and the binding of its path.
//!
//! In between, blobs that no path leads to are collected.
use crate::body_names;
use crate::bytes;
use crate::loam_admin_wire;
use crate::loam_body_wire;
use crate::loam_limits;
use crate::loam_object_wire;
use crate::loam_wire;
use vstd::prelude::*;

verus! {

/// How many requests, and how many answers of each kind, one step takes.
pub const MAX_OPS_PER_STEP: u32 = loam_limits::OPS_PER_STEP;

/// One more than the requests that can wait for each of the three.
pub const PENDING_CAP: usize = loam_limits::ADMIN_PENDING;

/// How many files can be in the course of being stored.
pub const PUTFILE_CAP: usize = loam_limits::ADMIN_PUTFILE;

/// How many files can be in the course of being streamed.
pub const SPF_CAP: usize = loam_limits::ADMIN_STREAMED_PUTFILE;

/// The room in which a frame is built.
pub const SCRATCH: usize = 61568;

/// The longest path of a file that is stored.
pub const NS_PATH_BUF: usize = loam_limits::MAX_PATH;

/// The longest namespace root of a file that is stored.
pub const NS_ROOT_BUF: usize = loam_limits::MAX_ROOT;

/// The body of a file is being stored.
pub const PUTFILE_STAGE_BODY: u8 = 0;

/// The description of a file is being stored.
pub const PUTFILE_STAGE_OBJECT: u8 = 1;

/// The path of a file is being bound.
pub const PUTFILE_STAGE_BIND: u8 = 2;

/// Nothing more is to do for a file.
pub const PUTFILE_STAGE_DONE: u8 = 3;

/// The collector asked for a page of the inventory.
pub const GC_OP_SCAN: u8 = 0xF0;

/// The collector asked whether a blob is referenced.
pub const GC_OP_CHECK: u8 = 0xF1;

/// The collector asked for a blob to be removed.
pub const GC_OP_DELETE: u8 = 0xF2;

/// Whom a request is forwarded to.
#[derive(Debug, Clone, Copy, PartialEq, Eq, Structural)]
pub enum Stream {
    Namespace,
    Body,
    Object,
}

/// A forwarded request that waits for its answer.
#[derive(Debug, Clone, Copy, PartialEq, Eq, Structural)]
pub struct PendingDownstream {
    pub correlation_id: u32,
    /// The administrative request, or what the collector asked.
    pub admin_op: u8,
    /// The place of the file that is being stored or streamed.
    pub putfile_idx: u16,
    /// The part of a file that is to be read.
    pub aux_off: u64,
    pub aux_len: u32,
}

/// What a file that is being stored needs.
pub ghost struct PutFile {
    pub in_use: bool,
    pub stage: u8,
    pub correlation_id: u32,
    pub kind: u8,
    pub digest: Seq<u8>,
    pub body_len: u32,
    pub revision: u64,
    pub ns_root: Seq<u8>,
    pub path: Seq<u8>,
}

/// What a file that is being streamed needs.
pub ghost struct StreamPut {
    pub in_use: bool,
    /// The number that the body store gave, once it did.
    pub wid: Option<u8>,
    pub kind: u8,
    pub revision: u64,
    pub total_len: u64,
    pub digest: Seq<u8>,
    pub ns_root: Seq<u8>,
    pub path: Seq<u8>,
}

/// What the collector is at.
pub ghost struct Collector {
    /// So many steps are between two pages; 0 where nothing is collected.
    pub interval: u32,
    /// Where the inventory goes on.
    pub cursor: u32,
    /// A page was asked for.
    pub inflight: bool,
    /// The blobs of a page that are looked at, and the one that is.
    pub digests: Seq<Seq<u8>>,
    pub pos: int,
    /// Where the search for a reference goes on.
    pub check_cursor: u32,
    pub scans: u32,
    pub checked: u32,
    pub deleted: u32,
    pub kept: u32,
}

/// What the router holds.
pub ghost struct Router {
    pub body_wired: bool,
    pub obj_wired: bool,
    /// The requests that wait for an answer, the oldest first.
    pub ns: Seq<PendingDownstream>,
    pub body: Seq<PendingDownstream>,
    pub obj: Seq<PendingDownstream>,
    pub putfiles: Seq<PutFile>,
    pub spf: Seq<StreamPut>,
    pub gc: Collector,
    pub ticks: u32,
    pub forwarded: u32,
    pub replied: u32,
    pub apply_errors: u32,
}

/// What is to be done.
pub ghost enum Act {
    Done,
    /// Answer the client.
    Reply { frame: Seq<u8> },
    /// Forward a request, and say whether that was possible.
    Forward { stream: Stream, frame: Seq<u8>, entry: PendingDownstream },
}

/// `sha256:`
pub open spec fn id_prefix() -> Seq<u8> {
    seq![0x73u8, 0x68, 0x61, 0x32, 0x35, 0x36, 0x3A]
}

/// The id of the object whose body has this digest.
pub open spec fn object_id(digest: Seq<u8>) -> Seq<u8> {
    id_prefix() + loam_body_wire::hex_of(digest)
}

/// The digest that an object's id stands for.
pub open spec fn id_digest(id: Seq<u8>) -> Option<Seq<u8>> {
    if id.len() == 71 && id.take(7) == id_prefix() {
        body_names::name_digest(id.skip(7))
    } else {
        None
    }
}

/// The body store says that there is no such blob.
pub open spec fn is_not_found(resp: Seq<u8>) -> bool {
    resp.len() >= 2 && resp[0] == loam_body_wire::OP_NAK && resp[1] == loam_body_wire::ERR_NOT_FOUND
}

/// The status that a refusal of the body store amounts to.
pub open spec fn refusal_status(resp: Seq<u8>) -> u8 {
    if is_not_found(resp) {
        loam_admin_wire::STATUS_NOT_FOUND
    } else {
        loam_admin_wire::STATUS_NAK
    }
}

/// What an answer carries of a body.
pub open spec fn capped(body: Seq<u8>) -> Seq<u8> {
    if body.len() > loam_body_wire::MAX_BODY {
        body.take(loam_body_wire::MAX_BODY as int)
    } else {
        body
    }
}

/// The first free place, from `from` on.
pub open spec fn free_putfile(s: Seq<PutFile>, from: int) -> Option<int>
    decreases s.len() - from,
{
    if from < 0 || from >= s.len() {
        None
    } else if !s[from].in_use {
        Some(from)
    } else {
        free_putfile(s, from + 1)
    }
}

/// The first free place, from `from` on.
pub open spec fn free_stream(s: Seq<StreamPut>, from: int) -> Option<int>
    decreases s.len() - from,
{
    if from < 0 || from >= s.len() {
        None
    } else if !s[from].in_use {
        Some(from)
    } else {
        free_stream(s, from + 1)
    }
}

/// The digests of the entries that are not stored under a key.
pub open spec fn unkeyed(entries: Seq<(u8, Seq<u8>)>) -> Seq<Seq<u8>>
    decreases entries.len(),
{
    if entries.len() == 0 {
        Seq::empty()
    } else {
        let before = unkeyed(entries.drop_last());
        if entries.last().0 == 0 {
            before.push(entries.last().1)
        } else {
            before
        }
    }
}

pub open spec fn pending(op: u8, cid: u32, idx: u16) -> PendingDownstream {
    PendingDownstream { correlation_id: cid, admin_op: op, putfile_idx: idx, aux_off: 0, aux_len: 0 }
}

/// The answer that a file could not be stored.
pub open spec fn putfile_nak(cid: u32) -> Seq<u8> {
    loam_admin_wire::ack_frame(loam_admin_wire::OP_PUT_FILE, cid, loam_admin_wire::STATUS_NAK)
}

/// The answer that a path could not be read.
pub open spec fn pathread_nak(op: u8, cid: u32, status: u8) -> Seq<u8> {
    if op == loam_admin_wire::OP_STAT_FILE {
        loam_admin_wire::stat_file_ack_frame(cid, status, 0)
    } else {
        loam_admin_wire::ack_frame(loam_admin_wire::OP_READ_FILE_RANGE, cid, status)
    }
}

/// The answer to a request that only has a status, where it could not be forwarded.
pub open spec fn plain_nak(op: u8, cid: u32) -> Seq<u8> {
    if op == loam_admin_wire::OP_DELETE_BODY {
        loam_admin_wire::admin_delete_body_ack_frame(cid, loam_admin_wire::STATUS_NAK, false)
    } else {
        loam_admin_wire::ack_frame(op, cid, loam_admin_wire::STATUS_NAK)
    }
}

impl PendingDownstream {
    /// The places that it speaks of are there.
    pub open spec fn wf(self) -> bool {
        &&& self.admin_op == loam_admin_wire::OP_PUT_FILE ==> self.putfile_idx < PUTFILE_CAP
        &&& self.admin_op == loam_admin_wire::OP_PUT_FILE_OPEN || self.admin_op == loam_admin_wire::OP_PUT_FILE_CHUNK
            || self.admin_op == loam_admin_wire::OP_PUT_FILE_COMMIT ==> self.putfile_idx < SPF_CAP
    }
}

impl PutFile {
    pub open spec fn wf(self) -> bool {
        self.digest.len() == 32 && self.ns_root.len() <= NS_ROOT_BUF && self.path.len() <= NS_PATH_BUF
    }
}

impl StreamPut {
    pub open spec fn wf(self) -> bool {
        self.digest.len() == 32 && self.ns_root.len() <= NS_ROOT_BUF && self.path.len() <= NS_PATH_BUF
    }
}

/// The requests that wait are sound, and not too many.
pub open spec fn queue_wf(q: Seq<PendingDownstream>) -> bool {
    &&& q.len() < PENDING_CAP
    &&& forall|i: int| 0 <= i < q.len() ==> (#[trigger] q[i]).wf()
}

impl Router {
    /// What every operation keeps.
    pub open spec fn wf(self) -> bool {
        &&& queue_wf(self.ns)
        &&& queue_wf(self.body)
        &&& queue_wf(self.obj)
        &&& forall|i: int| 0 <= i < self.obj.len() ==> (#[trigger] self.obj[i]).admin_op == loam_admin_wire::OP_PUT_FILE
        &&& self.putfiles.len() == PUTFILE_CAP
        &&& forall|i: int| 0 <= i < self.putfiles.len() ==> (#[trigger] self.putfiles[i]).wf()
        &&& self.spf.len() == SPF_CAP
        &&& forall|i: int| 0 <= i < self.spf.len() ==> (#[trigger] self.spf[i]).wf()
        &&& self.gc.digests.len() <= loam_body_wire::MAX_SCAN_DIGESTS
        &&& forall|i: int| 0 <= i < self.gc.digests.len() ==> (#[trigger] self.gc.digests[i]).len() == 32
        &&& self.gc.digests.len() == 0 ==> self.gc.pos == 0
        &&& self.gc.digests.len() > 0 ==> 0 <= self.gc.pos < self.gc.digests.len()
    }

    /// What is to be done can be done: there is room for a request that is forwarded.
    pub open spec fn fits(self, act: Act) -> bool {
        act matches Act::Forward { stream, frame, entry } ==> {
            &&& entry.wf()
            &&& self.has_room(stream)
            &&& stream == Stream::Object ==> entry.admin_op == loam_admin_wire::OP_PUT_FILE
        }
    }

    pub open spec fn queue(self, stream: Stream) -> Seq<PendingDownstream> {
        match stream {
            Stream::Namespace => self.ns,
            Stream::Body => self.body,
            Stream::Object => self.obj,
        }
    }

    pub open spec fn with_queue(self, stream: Stream, q: Seq<PendingDownstream>) -> Router {
        match stream {
            Stream::Namespace => Router { ns: q, ..self },
            Stream::Body => Router { body: q, ..self },
            Stream::Object => Router { obj: q, ..self },
        }
    }

    /// One more request can wait.
    pub open spec fn has_room(self, stream: Stream) -> bool {
        self.queue(stream).len() + 1 < PENDING_CAP
    }

    pub open spec fn erred(self) -> Router {
        Router { apply_errors: self.apply_errors.wrapping_add(1), ..self }
    }

    pub open spec fn reply(self, frame: Seq<u8>) -> (Router, Act) {
        (Router { replied: self.replied.wrapping_add(1), ..self }, Act::Reply { frame })
    }

    /// An answer that is not counted.
    pub open spec fn notice(self, frame: Seq<u8>) -> (Router, Act) {
        (self, Act::Reply { frame })
    }

    /// Some file is in the course of being stored or streamed.
    pub open spec fn storing(self) -> bool {
        ||| exists|i: int| 0 <= i < self.putfiles.len() && (#[trigger] self.putfiles[i]).in_use
        ||| exists|i: int| 0 <= i < self.spf.len() && (#[trigger] self.spf[i]).in_use
    }

    pub open spec fn free_putfile_slot(self, idx: int) -> Router {
        Router {
            putfiles: self.putfiles.update(
                idx,
                PutFile { in_use: false, stage: PUTFILE_STAGE_DONE, ..self.putfiles[idx] },
            ),
            ..self
        }
    }

    pub open spec fn free_spf(self, idx: int) -> Router {
        Router { spf: self.spf.update(idx, StreamPut { in_use: false, ..self.spf[idx] }), ..self }
    }

    /// Forward a request, if one more can wait for an answer.
    pub open spec fn forward(self, stream: Stream, entry: PendingDownstream, frame: Seq<u8>) -> (Router, Act) {
        if self.has_room(stream) {
            (self, Act::Forward { stream, frame, entry })
        } else {
            self.unsent(entry, true)
        }
    }

    /// A request could not be forwarded: because too many wait, or because the channel
    /// did not take it.
    pub open spec fn unsent(self, entry: PendingDownstream, full: bool) -> (Router, Act) {
        let op = entry.admin_op;
        let cid = entry.correlation_id;
        let idx = entry.putfile_idx as int;
        if op == loam_admin_wire::OP_GET_FILE {
            let (t, act) = self.reply(loam_admin_wire::ack_frame(op, cid, loam_admin_wire::STATUS_NAK));
            (t.erred(), act)
        } else if op == loam_admin_wire::OP_DELETE_FILE || op == loam_admin_wire::OP_LIST_FILES {
            let (t, act) = self.notice(loam_admin_wire::ack_frame(op, cid, loam_admin_wire::STATUS_NAK));
            (t.erred(), act)
        } else if op == loam_admin_wire::OP_PUT_FILE_OPEN {
            self.free_spf(idx).notice(
                loam_admin_wire::put_file_open_ack_frame(cid, loam_admin_wire::STATUS_NAK, 0),
            )
        } else if op == loam_admin_wire::OP_PUT_FILE_CHUNK {
            self.notice(loam_admin_wire::put_file_chunk_ack_frame(cid, loam_admin_wire::STATUS_NAK))
        } else if op == loam_admin_wire::OP_PUT_FILE_COMMIT {
            self.free_spf(idx).reply(putfile_nak(cid))
        } else if op == loam_admin_wire::OP_STAT_FILE || op == loam_admin_wire::OP_READ_FILE_RANGE {
            self.reply(pathread_nak(op, cid, loam_admin_wire::STATUS_NAK))
        } else if op == loam_admin_wire::OP_PUT_FILE {
            let (t, act) = self.free_putfile_slot(idx).reply(putfile_nak(cid));
            (t.erred(), act)
        } else if op == GC_OP_SCAN {
            (self, Act::Done)
        } else if op == GC_OP_CHECK || op == GC_OP_DELETE {
            self.gc_next()
        } else if full {
            let (t, act) = self.reply(plain_nak(op, cid));
            (t.erred(), act)
        } else {
            (self.erred(), Act::Done)
        }
    }

    /// A request was forwarded, or the channel did not take it.
    pub open spec fn forwarded_as(self, stream: Stream, entry: PendingDownstream, ok: bool) -> (Router, Act) {
        if !ok {
            self.unsent(entry, false)
        } else {
            let t = Router {
                forwarded: self.forwarded.wrapping_add(1),
                ..self.with_queue(stream, self.queue(stream).push(entry))
            };
            if entry.admin_op == GC_OP_SCAN {
                (
                    Router {
                        gc: Collector { inflight: true, scans: self.gc.scans.wrapping_add(1), ..self.gc },
                        ..t
                    },
                    Act::Done,
                )
            } else {
                (t, Act::Done)
            }
        }
    }

    /// A request that could not be read. Where only its key is over a ceiling it is known
    /// whose it is, and it is refused as one that cannot be forwarded is.
    pub open spec fn unread(self, op: u8, request: Seq<u8>, e: loam_admin_wire::WireError) -> (Router, Act) {
        if e is StringTooLong {
            let cid = bytes::u32_at(request, 1);
            if op == loam_admin_wire::OP_PUT_FILE_OPEN {
                self.notice(loam_admin_wire::put_file_open_ack_frame(cid, loam_admin_wire::STATUS_NAK, 0))
            } else if op == loam_admin_wire::OP_DELETE_FILE || op == loam_admin_wire::OP_LIST_FILES {
                self.notice(plain_nak(op, cid))
            } else if op == loam_admin_wire::OP_STAT_FILE || op == loam_admin_wire::OP_READ_FILE_RANGE {
                self.reply(pathread_nak(op, cid, loam_admin_wire::STATUS_NAK))
            } else {
                self.reply(plain_nak(op, cid))
            }
        } else {
            (self.erred(), Act::Done)
        }
    }

    /// The collector is through with a page.
    pub open spec fn gc_idle(self) -> Router {
        Router { gc: Collector { digests: Seq::empty(), pos: 0, check_cursor: 0, ..self.gc }, ..self }
    }

    /// Ask whether the blob that is looked at is referenced.
    pub open spec fn gc_check(self) -> (Router, Act) {
        if self.has_room(Stream::Namespace) {
            (
                self,
                Act::Forward {
                    stream: Stream::Namespace,
                    frame: loam_wire::referenced_req_frame(
                        self.gc.check_cursor,
                        object_id(self.gc.digests[self.gc.pos]),
                    ),
                    entry: pending(GC_OP_CHECK, 0, 0),
                },
            )
        } else {
            (self.gc_idle(), Act::Done)
        }
    }

    /// Go on to the next blob of the page.
    pub open spec fn gc_next(self) -> (Router, Act) {
        if self.gc.pos + 1 < self.gc.digests.len() {
            Router { gc: Collector { pos: self.gc.pos + 1, check_cursor: 0, ..self.gc }, ..self }.gc_check()
        } else {
            (self.gc_idle(), Act::Done)
        }
    }

    /// A step begins: from time to time, if nothing is in the way, the collector asks for
    /// a page of the inventory.
    pub open spec fn step(self) -> (Router, Act) {
        let t = Router { ticks: self.ticks.wrapping_add(1), ..self };
        if t.gc.interval != 0 && t.body_wired && !t.gc.inflight && t.gc.digests.len() == 0 && t.ticks % t.gc.interval
            == 0 && !t.storing() {
            t.forward(
                Stream::Body,
                pending(GC_OP_SCAN, 0, 0),
                loam_body_wire::scan_req_frame(t.gc.cursor, loam_body_wire::MAX_SCAN_DIGESTS as u8),
            )
        } else {
            (t, Act::Done)
        }
    }

    /// A page of the inventory came. Blobs that are stored under a key are left alone.
    pub open spec fn gc_scanned(self, resp: Seq<u8>) -> (Router, Act) {
        let t = Router { gc: Collector { inflight: false, ..self.gc }, ..self };
        match loam_body_wire::scan_resp_parse(resp) {
            Err(_) => (Router { gc: Collector { cursor: 0, ..t.gc }, ..t }.erred(), Act::Done),
            Ok((next, entries)) => {
                let digests = unkeyed(entries);
                if digests.len() > 0 {
                    Router { gc: Collector { cursor: next, digests, pos: 0, ..t.gc }, ..t }.gc_check()
                } else {
                    (Router { gc: Collector { cursor: next, ..t.gc }, ..t }, Act::Done)
                }
            },
        }
    }

    /// The namespace said whether a blob is referenced, or that it has not looked
    /// everywhere. What it says is taken for a reference if it cannot be read.
    pub open spec fn gc_checked(self, resp: Seq<u8>) -> (Router, Act) {
        let t = Router { gc: Collector { checked: self.gc.checked.wrapping_add(1), ..self.gc }, ..self };
        let (referenced, next) = match loam_wire::referenced_resp_parse(resp) {
            Ok(r) => r,
            Err(_) => (true, 0u32),
        };
        if self.gc.digests.len() == 0 {
            (t, Act::Done)
        } else if !referenced && next != 0 {
            Router { gc: Collector { check_cursor: next, ..t.gc }, ..t }.gc_check()
        } else if referenced || t.storing() {
            Router { gc: Collector { check_cursor: 0, kept: t.gc.kept.wrapping_add(1), ..t.gc }, ..t }.gc_next()
        } else {
            Router { gc: Collector { check_cursor: 0, ..t.gc }, ..t }.forward(
                Stream::Body,
                pending(GC_OP_DELETE, 0, 0),
                loam_body_wire::delete_req_frame(self.gc.digests[self.gc.pos]),
            )
        }
    }

    /// A blob was removed, or could not be.
    pub open spec fn gc_deleted(self, resp: Seq<u8>) -> (Router, Act) {
        if resp.len() > 0 && resp[0] == loam_body_wire::OP_DELETE {
            Router { gc: Collector { deleted: self.gc.deleted.wrapping_add(1), ..self.gc }, ..self }.gc_next()
        } else {
            self.erred().gc_next()
        }
    }

    /// A request to bind a path.
    pub open spec fn bind(self, request: Seq<u8>) -> (Router, Act) {
        match loam_admin_wire::admin_bind_parse(request) {
            Err(e) => self.unread(loam_admin_wire::OP_BIND, request, e),
            Ok((cid, root, path, id, kind, revision)) => if loam_wire::bind_refusal(
                SCRATCH as nat,
                root,
                path,
                id,
                kind,
                revision,
            ) is Some {
                self.reply(plain_nak(loam_admin_wire::OP_BIND, cid))
            } else {
                self.forward(
                    Stream::Namespace,
                    pending(loam_admin_wire::OP_BIND, cid, u16::MAX),
                    loam_wire::bind_frame(root, path, id, kind, revision),
                )
            },
        }
    }

    /// A request to store a body.
    pub open spec fn put_body(self, request: Seq<u8>) -> (Router, Act) {
        match loam_admin_wire::admin_put_body_parse(request) {
            Err(_) => (self.erred(), Act::Done),
            Ok((cid, body)) => if !self.body_wired {
                self.reply(plain_nak(loam_admin_wire::OP_PUT_BODY, cid))
            } else {
                if loam_body_wire::put_req_refusal(SCRATCH as nat, body) is Some {
                    self.reply(plain_nak(loam_admin_wire::OP_PUT_BODY, cid))
                } else {
                    self.forward(
                        Stream::Body,
                        pending(loam_admin_wire::OP_PUT_BODY, cid, u16::MAX),
                        loam_body_wire::put_req_frame(body),
                    )
                }
            },
        }
    }

    /// A request to store a body under a key.
    pub open spec fn put_body_keyed(self, request: Seq<u8>) -> (Router, Act) {
        match loam_admin_wire::admin_put_body_keyed_parse(request) {
            Err(_) => (self.erred(), Act::Done),
            Ok((cid, key, body)) => if !self.body_wired {
                self.reply(plain_nak(loam_admin_wire::OP_PUT_BODY_KEYED, cid))
            } else {
                if loam_body_wire::put_keyed_req_refusal(SCRATCH as nat, key, body) is Some {
                    self.reply(plain_nak(loam_admin_wire::OP_PUT_BODY_KEYED, cid))
                } else {
                    self.forward(
                        Stream::Body,
                        pending(loam_admin_wire::OP_PUT_BODY_KEYED, cid, u16::MAX),
                        loam_body_wire::put_keyed_req_frame(key, body),
                    )
                }
            },
        }
    }

    /// A request to remove a body.
    pub open spec fn delete_body(self, request: Seq<u8>) -> (Router, Act) {
        match loam_admin_wire::admin_delete_body_parse(request) {
            Err(_) => (self.erred(), Act::Done),
            Ok((cid, key)) => if !self.body_wired {
                self.reply(plain_nak(loam_admin_wire::OP_DELETE_BODY, cid))
            } else {
                self.forward(
                    Stream::Body,
                    pending(loam_admin_wire::OP_DELETE_BODY, cid, u16::MAX),
                    loam_body_wire::delete_req_frame(key),
                )
            },
        }
    }

    /// A request for a body.
    pub open spec fn get_body(self, request: Seq<u8>) -> (Router, Act) {
        match loam_admin_wire::admin_get_body_parse(request) {
            Err(_) => (self.erred(), Act::Done),
            Ok((cid, digest)) => if !self.body_wired {
                self.reply(plain_nak(loam_admin_wire::OP_GET_BODY, cid))
            } else {
                self.forward(
                    Stream::Body,
                    pending(loam_admin_wire::OP_GET_BODY, cid, u16::MAX),
                    loam_body_wire::get_req_frame(digest),
                )
            },
        }
    }

    /// A request to store a file: its body goes first.
    pub open spec fn put_file(self, request: Seq<u8>) -> (Router, Act) {
        match loam_admin_wire::admin_put_file_parse(request) {
            Err(e) => self.unread(loam_admin_wire::OP_PUT_FILE, request, e),
            Ok((cid, root, path, kind, revision, body)) => if !self.body_wired || !self.obj_wired {
                self.reply(putfile_nak(cid))
            } else {
                match free_putfile(self.putfiles, 0) {
                    None => {
                        let (t, act) = self.reply(putfile_nak(cid));
                        (t.erred(), act)
                    },
                    Some(idx) => {
                        let slot = PutFile {
                            in_use: true,
                            stage: PUTFILE_STAGE_BODY,
                            correlation_id: cid,
                            kind,
                            digest: Seq::new(32, |i: int| 0u8),
                            body_len: body.len() as u32,
                            revision,
                            ns_root: root,
                            path,
                        };
                        let t = Router { putfiles: self.putfiles.update(idx, slot), ..self };
                        if loam_body_wire::put_req_refusal(SCRATCH as nat, body) is Some {
                            t.free_putfile_slot(idx).reply(putfile_nak(cid))
                        } else {
                            t.forward(
                                Stream::Body,
                                pending(loam_admin_wire::OP_PUT_FILE, cid, idx as u16),
                                loam_body_wire::put_req_frame(body),
                            )
                        }
                    },
                }
            },
        }
    }

    /// A request for a file: its path is looked up first.
    pub open spec fn get_file(self, request: Seq<u8>) -> (Router, Act) {
        match loam_admin_wire::path_req_parse(request, loam_admin_wire::OP_GET_FILE) {
            Err(e) => self.unread(loam_admin_wire::OP_GET_FILE, request, e),
            Ok((cid, root, path)) => if !self.body_wired || loam_wire::lookup_req_refusal(
                SCRATCH as nat,
                root,
                path,
            ) is Some {
                self.reply(
                    loam_admin_wire::ack_frame(loam_admin_wire::OP_GET_FILE, cid, loam_admin_wire::STATUS_NAK),
                )
            } else {
                self.forward(
                    Stream::Namespace,
                    pending(loam_admin_wire::OP_GET_FILE, cid, 0),
                    loam_wire::lookup_req_frame(root, path),
                )
            },
        }
    }

    /// A request to remove a file. Its path is unbound; its body may be another's too.
    pub open spec fn delete_file(self, request: Seq<u8>) -> (Router, Act) {
        match loam_admin_wire::path_req_parse(request, loam_admin_wire::OP_DELETE_FILE) {
            Err(e) => self.unread(loam_admin_wire::OP_DELETE_FILE, request, e),
            Ok((cid, root, path)) => if loam_wire::unbind_refusal(SCRATCH as nat, root, path) is Some {
                self.notice(
                    loam_admin_wire::ack_frame(
                        loam_admin_wire::OP_DELETE_FILE,
                        cid,
                        loam_admin_wire::STATUS_NAK,
                    ),
                )
            } else {
                self.forward(
                    Stream::Namespace,
                    pending(loam_admin_wire::OP_DELETE_FILE, cid, 0),
                    loam_wire::unbind_frame(root, path),
                )
            },
        }
    }

    /// A request for a page of files.
    pub open spec fn list_files(self, request: Seq<u8>) -> (Router, Act) {
        match loam_admin_wire::admin_list_files_parse(request) {
            Err(e) => self.unread(loam_admin_wire::OP_LIST_FILES, request, e),
            Ok((cid, root, cursor, max)) => if loam_wire::list_req_refusal(
                SCRATCH as nat,
                root,
                cursor,
                max,
            ) is Some {
                self.notice(
                    loam_admin_wire::ack_frame(
                        loam_admin_wire::OP_LIST_FILES,
                        cid,
                        loam_admin_wire::STATUS_NAK,
                    ),
                )
            } else {
                self.forward(
                    Stream::Namespace,
                    pending(loam_admin_wire::OP_LIST_FILES, cid, 0),
                    loam_wire::list_req_frame(root, cursor, max),
                )
            },
        }
    }

    /// A request to stream a file.
    pub open spec fn put_file_open(self, request: Seq<u8>) -> (Router, Act) {
        match loam_admin_wire::put_file_open_parse(request) {
            Err(e) => self.unread(loam_admin_wire::OP_PUT_FILE_OPEN, request, e),
            Ok((cid, root, path, kind, revision, digest, total_len)) => {
                let nak = loam_admin_wire::put_file_open_ack_frame(cid, loam_admin_wire::STATUS_NAK, 0);
                if !self.body_wired {
                    self.notice(nak)
                } else {
                    match free_stream(self.spf, 0) {
                        None => self.notice(nak),
                        Some(idx) => {
                            let slot = StreamPut {
                                in_use: true,
                                wid: None,
                                kind,
                                revision,
                                total_len,
                                digest,
                                ns_root: root,
                                path,
                            };
                            Router { spf: self.spf.update(idx, slot), ..self }.forward(
                                Stream::Body,
                                pending(loam_admin_wire::OP_PUT_FILE_OPEN, cid, idx as u16),
                                loam_body_wire::wopen_req_frame(digest, total_len),
                            )
                        },
                    }
                }
            },
        }
    }

    /// The number that the body store gave to a file that is being streamed.
    pub open spec fn stream_wid(self, pfid: u8) -> Option<u8> {
        if pfid < self.spf.len() && self.spf[pfid as int].in_use {
            self.spf[pfid as int].wid
        } else {
            None
        }
    }

    /// A chunk of a file that is being streamed.
    pub open spec fn put_file_chunk(self, request: Seq<u8>) -> (Router, Act) {
        match loam_admin_wire::put_file_chunk_parse(request) {
            Err(_) => (self.erred(), Act::Done),
            Ok((cid, pfid, chunk)) => {
                let nak = loam_admin_wire::put_file_chunk_ack_frame(cid, loam_admin_wire::STATUS_NAK);
                match self.stream_wid(pfid) {
                    None => self.notice(nak),
                    Some(wid) => if loam_body_wire::wappend_req_refusal(SCRATCH as nat, wid, chunk) is Some {
                        self.notice(nak)
                    } else {
                        self.forward(
                            Stream::Body,
                            pending(loam_admin_wire::OP_PUT_FILE_CHUNK, cid, pfid as u16),
                            loam_body_wire::wappend_req_frame(wid, chunk),
                        )
                    },
                }
            },
        }
    }

    /// The end of a file that is being streamed.
    pub open spec fn put_file_commit(self, request: Seq<u8>) -> (Router, Act) {
        match loam_admin_wire::put_file_commit_parse(request) {
            Err(_) => (self.erred(), Act::Done),
            Ok((cid, pfid)) => match self.stream_wid(pfid) {
                None => self.reply(putfile_nak(cid)),
                Some(wid) => self.forward(
                    Stream::Body,
                    pending(loam_admin_wire::OP_PUT_FILE_COMMIT, cid, pfid as u16),
                    loam_body_wire::wcommit_req_frame(wid),
                ),
            },
        }
    }

    /// A path is looked up, to read of the file that it leads to.
    pub open spec fn look_up(self, op: u8, cid: u32, root: Seq<u8>, path: Seq<u8>, off: u64, len: u32) -> (
        Router,
        Act,
    ) {
        if !self.body_wired || loam_wire::lookup_req_refusal(SCRATCH as nat, root, path) is Some {
            self.reply(pathread_nak(op, cid, loam_admin_wire::STATUS_NAK))
        } else {
            self.forward(
                Stream::Namespace,
                PendingDownstream { aux_off: off, aux_len: len, ..pending(op, cid, 0) },
                loam_wire::lookup_req_frame(root, path),
            )
        }
    }

    /// A request for the size of a file.
    pub open spec fn stat_file(self, request: Seq<u8>) -> (Router, Act) {
        match loam_admin_wire::path_req_parse(request, loam_admin_wire::OP_STAT_FILE) {
            Err(e) => self.unread(loam_admin_wire::OP_STAT_FILE, request, e),
            Ok((cid, root, path)) => self.look_up(loam_admin_wire::OP_STAT_FILE, cid, root, path, 0, 0),
        }
    }

    /// A request for a part of a file.
    pub open spec fn read_file_range(self, request: Seq<u8>) -> (Router, Act) {
        match loam_admin_wire::read_file_range_parse(request) {
            Err(e) => self.unread(loam_admin_wire::OP_READ_FILE_RANGE, request, e),
            Ok((cid, off, len, root, path)) => self.look_up(
                loam_admin_wire::OP_READ_FILE_RANGE,
                cid,
                root,
                path,
                off,
                len,
            ),
        }
    }

    /// Taking a request.
    pub open spec fn take(self, request: Seq<u8>) -> (Router, Act) {
        if request.len() == 0 {
            (self.erred(), Act::Done)
        } else {
            let op = request[0];
            if op == loam_admin_wire::OP_BIND {
                self.bind(request)
            } else if op == loam_admin_wire::OP_PUT_BODY {
                self.put_body(request)
            } else if op == loam_admin_wire::OP_GET_BODY {
                self.get_body(request)
            } else if op == loam_admin_wire::OP_PUT_BODY_KEYED {
                self.put_body_keyed(request)
            } else if op == loam_admin_wire::OP_DELETE_BODY {
                self.delete_body(request)
            } else if op == loam_admin_wire::OP_PUT_FILE {
                self.put_file(request)
            } else if op == loam_admin_wire::OP_GET_FILE {
                self.get_file(request)
            } else if op == loam_admin_wire::OP_DELETE_FILE {
                self.delete_file(request)
            } else if op == loam_admin_wire::OP_LIST_FILES {
                self.list_files(request)
            } else if op == loam_admin_wire::OP_PUT_FILE_OPEN {
                self.put_file_open(request)
            } else if op == loam_admin_wire::OP_PUT_FILE_CHUNK {
                self.put_file_chunk(request)
            } else if op == loam_admin_wire::OP_PUT_FILE_COMMIT {
                self.put_file_commit(request)
            } else if op == loam_admin_wire::OP_READ_FILE_RANGE {
                self.read_file_range(request)
            } else if op == loam_admin_wire::OP_STAT_FILE {
                self.stat_file(request)
            } else {
                (self.erred(), Act::Done)
            }
        }
    }

    /// The path of a requested file was looked up.
    pub open spec fn file_looked_up(self, cid: u32, resp: Seq<u8>) -> (Router, Act) {
        let op = loam_admin_wire::OP_GET_FILE;
        match loam_wire::lookup_resp_parse(resp) {
            Ok(Some((id, revision, kind))) => match id_digest(id) {
                Some(digest) => self.forward(
                    Stream::Body,
                    pending(op, cid, 0),
                    loam_body_wire::get_req_frame(digest),
                ),
                None => self.reply(loam_admin_wire::ack_frame(op, cid, loam_admin_wire::STATUS_NAK)),
            },
            Ok(None) => self.reply(loam_admin_wire::ack_frame(op, cid, loam_admin_wire::STATUS_NOT_FOUND)),
            Err(_) => {
                let (t, act) = self.reply(loam_admin_wire::ack_frame(op, cid, loam_admin_wire::STATUS_NAK));
                (t.erred(), act)
            },
        }
    }

    /// The path of a file of which something is to be read was looked up.
    pub open spec fn path_looked_up(self, entry: PendingDownstream, resp: Seq<u8>) -> (Router, Act) {
        let op = entry.admin_op;
        let cid = entry.correlation_id;
        match loam_wire::lookup_resp_parse(resp) {
            Ok(Some((id, revision, kind))) => match id_digest(id) {
                Some(digest) => self.forward(
                    Stream::Body,
                    pending(op, cid, 0),
                    if op == loam_admin_wire::OP_STAT_FILE {
                        loam_body_wire::head_req_frame(digest)
                    } else {
                        loam_body_wire::range_req_frame(digest, entry.aux_off, entry.aux_len)
                    },
                ),
                None => self.reply(pathread_nak(op, cid, loam_admin_wire::STATUS_NAK)),
            },
            Ok(None) => self.reply(pathread_nak(op, cid, loam_admin_wire::STATUS_NOT_FOUND)),
            Err(_) => self.reply(pathread_nak(op, cid, loam_admin_wire::STATUS_NAK)),
        }
    }

    /// A page of files came; its entries go on as they are.
    pub open spec fn listed(self, cid: u32, resp: Seq<u8>) -> (Router, Act) {
        if resp.len() >= 6 && resp[0] == loam_wire::OP_LIST {
            let frame = loam_admin_wire::list_files_ack_frame(
                cid,
                loam_admin_wire::STATUS_OK,
                bytes::u32_at(resp, 1),
                resp[5],
                resp.skip(6),
            );
            if frame.len() > SCRATCH {
                (self.erred(), Act::Done)
            } else {
                self.reply(frame)
            }
        } else {
            self.reply(
                loam_admin_wire::ack_frame(loam_admin_wire::OP_LIST_FILES, cid, loam_admin_wire::STATUS_NAK),
            )
        }
    }

    /// The path of a file was bound, or could not be: the file is stored, or not.
    pub open spec fn file_bound(self, entry: PendingDownstream, ok: bool) -> (Router, Act) {
        let idx = entry.putfile_idx as int;
        let cid = entry.correlation_id;
        let (t, act) = if ok {
            self.reply(
                loam_admin_wire::digest_ack_frame(
                    loam_admin_wire::OP_PUT_FILE,
                    cid,
                    loam_admin_wire::STATUS_OK,
                    Some(self.putfiles[idx].digest),
                ),
            )
        } else {
            self.reply(putfile_nak(cid))
        };
        (t.free_putfile_slot(idx), act)
    }

    /// An answer of the namespace.
    pub open spec fn ns_answered(self, resp: Seq<u8>) -> (Router, Act) {
        if self.ns.len() == 0 {
            (self.erred(), Act::Done)
        } else {
            let entry = self.ns[0];
            let t = Router { ns: self.ns.remove(0), ..self };
            let op = entry.admin_op;
            let cid = entry.correlation_id;
            let first = if resp.len() > 0 {
                resp[0]
            } else {
                0
            };
            if op == loam_admin_wire::OP_GET_FILE {
                t.file_looked_up(cid, resp)
            } else if op == loam_admin_wire::OP_LIST_FILES {
                t.listed(cid, resp)
            } else if op == loam_admin_wire::OP_STAT_FILE || op == loam_admin_wire::OP_READ_FILE_RANGE {
                t.path_looked_up(entry, resp)
            } else if op == GC_OP_CHECK {
                t.gc_checked(resp)
            } else if op == loam_admin_wire::OP_DELETE_FILE {
                t.reply(
                    loam_admin_wire::ack_frame(
                        op,
                        cid,
                        if first == loam_wire::OP_UNBIND {
                            loam_admin_wire::STATUS_OK
                        } else {
                            loam_admin_wire::STATUS_NOT_FOUND
                        },
                    ),
                )
            } else if op == loam_admin_wire::OP_PUT_FILE {
                t.file_bound(entry, first == loam_wire::OP_BIND)
            } else {
                t.reply(
                    loam_admin_wire::ack_frame(
                        loam_admin_wire::OP_BIND,
                        cid,
                        if first == loam_wire::OP_BIND {
                            loam_admin_wire::STATUS_OK
                        } else {
                            loam_admin_wire::STATUS_NAK
                        },
                    ),
                )
            }
        }
    }

    /// The body of a file is stored: its description goes next.
    pub open spec fn describe(self, idx: int, cid: u32) -> (Router, Act) {
        let slot = self.putfiles[idx];
        let id = object_id(slot.digest);
        Router { putfiles: self.putfiles.update(idx, PutFile { stage: PUTFILE_STAGE_OBJECT, ..slot }), ..self }.forward(
            Stream::Object,
            pending(loam_admin_wire::OP_PUT_FILE, cid, idx as u16),
            loam_object_wire::put_frame(
                loam_object_wire::OP_OBJ_PUT,
                id,
                slot.ns_root,
                slot.path,
                id,
                slot.body_len as u64,
                slot.revision,
                loam_object_wire::DATA_CLASS_LOCAL,
                1,
                None,
            ),
        )
    }

    /// The body of a file was stored, or could not be.
    pub open spec fn file_body_stored(self, entry: PendingDownstream, resp: Seq<u8>) -> (Router, Act) {
        let idx = entry.putfile_idx as int;
        let cid = entry.correlation_id;
        match loam_body_wire::put_resp_parse(resp) {
            Err(_) => self.free_putfile_slot(idx).reply(putfile_nak(cid)),
            Ok(digest) => Router {
                putfiles: self.putfiles.update(idx, PutFile { digest, ..self.putfiles[idx] }),
                ..self
            }.describe(idx, cid),
        }
    }

    /// The body store opened a stream, or did not.
    pub open spec fn stream_opened(self, entry: PendingDownstream, resp: Seq<u8>) -> (Router, Act) {
        let idx = entry.putfile_idx as int;
        let cid = entry.correlation_id;
        match loam_body_wire::wopen_resp_parse(resp) {
            Err(_) => self.free_spf(idx).notice(
                loam_admin_wire::put_file_open_ack_frame(cid, loam_admin_wire::STATUS_NAK, 0),
            ),
            Ok(wid) => Router {
                spf: self.spf.update(idx, StreamPut { wid: Some(wid), ..self.spf[idx] }),
                ..self
            }.reply(loam_admin_wire::put_file_open_ack_frame(cid, loam_admin_wire::STATUS_OK, idx as u8)),
        }
    }

    /// The body store took a chunk, or did not: then the stream is over.
    pub open spec fn chunk_taken(self, entry: PendingDownstream, resp: Seq<u8>) -> (Router, Act) {
        let cid = entry.correlation_id;
        if resp.len() > 0 && resp[0] == loam_body_wire::OP_WAPPEND {
            self.reply(loam_admin_wire::put_file_chunk_ack_frame(cid, loam_admin_wire::STATUS_OK))
        } else {
            self.free_spf(entry.putfile_idx as int).reply(
                loam_admin_wire::put_file_chunk_ack_frame(cid, loam_admin_wire::STATUS_NAK),
            )
        }
    }

    /// The body store committed a stream, or did not. Under the digest that was announced,
    /// the file goes on like any other.
    pub open spec fn stream_committed(self, entry: PendingDownstream, resp: Seq<u8>) -> (Router, Act) {
        let idx = entry.putfile_idx as int;
        let cid = entry.correlation_id;
        let spf = self.spf[idx];
        let t = self.free_spf(idx);
        if loam_body_wire::wcommit_resp_parse(resp) != Ok::<Seq<u8>, loam_body_wire::WireError>(spf.digest) {
            t.reply(putfile_nak(cid))
        } else {
            match free_putfile(self.putfiles, 0) {
                None => t.reply(putfile_nak(cid)),
                Some(place) => {
                    let slot = PutFile {
                        in_use: true,
                        stage: self.putfiles[place].stage,
                        correlation_id: cid,
                        kind: spf.kind,
                        digest: spf.digest,
                        body_len: if spf.total_len <= u32::MAX {
                            spf.total_len as u32
                        } else {
                            u32::MAX
                        },
                        revision: spf.revision,
                        ns_root: spf.ns_root,
                        path: spf.path,
                    };
                    Router { putfiles: t.putfiles.update(place, slot), ..t }.describe(place, cid)
                },
            }
        }
    }

    /// The body store said how large a file is, or that it does not have it.
    pub open spec fn sized(self, cid: u32, resp: Seq<u8>) -> (Router, Act) {
        match loam_body_wire::head_resp_parse(resp) {
            Ok(size) => self.reply(loam_admin_wire::stat_file_ack_frame(cid, loam_admin_wire::STATUS_OK, size)),
            Err(_) => self.reply(loam_admin_wire::stat_file_ack_frame(cid, refusal_status(resp), 0)),
        }
    }

    /// The body store sent a part of a file, or does not have it.
    pub open spec fn part_read(self, cid: u32, resp: Seq<u8>) -> (Router, Act) {
        let op = loam_admin_wire::OP_READ_FILE_RANGE;
        match loam_body_wire::range_resp_parse(resp) {
            Ok(part) => self.reply(
                loam_admin_wire::body_ack_frame(op, cid, loam_admin_wire::STATUS_OK, Some(capped(part))),
            ),
            Err(_) => self.reply(loam_admin_wire::ack_frame(op, cid, refusal_status(resp))),
        }
    }

    /// The answer to a request that only concerned the body store, or to the last part of
    /// a request for a file.
    pub open spec fn body_reply(self, entry: PendingDownstream, resp: Seq<u8>) -> (Router, Act) {
        let op = entry.admin_op;
        let cid = entry.correlation_id;
        if op == loam_admin_wire::OP_PUT_BODY {
            match loam_body_wire::put_resp_parse(resp) {
                Ok(digest) => self.reply(
                    loam_admin_wire::digest_ack_frame(op, cid, loam_admin_wire::STATUS_OK, Some(digest)),
                ),
                Err(_) => self.reply(loam_admin_wire::ack_frame(op, cid, loam_admin_wire::STATUS_NAK)),
            }
        } else if op == loam_admin_wire::OP_PUT_BODY_KEYED {
            self.reply(
                loam_admin_wire::ack_frame(
                    op,
                    cid,
                    if resp.len() > 0 && resp[0] == loam_body_wire::OP_PUT_KEYED {
                        loam_admin_wire::STATUS_OK
                    } else {
                        loam_admin_wire::STATUS_NAK
                    },
                ),
            )
        } else if op == loam_admin_wire::OP_DELETE_BODY {
            match loam_body_wire::delete_resp_parse(resp) {
                Ok(existed) => self.reply(
                    loam_admin_wire::admin_delete_body_ack_frame(cid, loam_admin_wire::STATUS_OK, existed),
                ),
                Err(_) => self.reply(
                    loam_admin_wire::admin_delete_body_ack_frame(cid, loam_admin_wire::STATUS_NAK, false),
                ),
            }
        } else if op == loam_admin_wire::OP_GET_BODY || op == loam_admin_wire::OP_GET_FILE {
            match loam_body_wire::get_resp_parse(resp) {
                Ok(body) => self.reply(
                    loam_admin_wire::body_ack_frame(op, cid, loam_admin_wire::STATUS_OK, Some(capped(body))),
                ),
                Err(_) => self.reply(loam_admin_wire::ack_frame(op, cid, refusal_status(resp))),
            }
        } else {
            (self.erred(), Act::Done)
        }
    }

    /// An answer of the body store.
    pub open spec fn body_answered(self, resp: Seq<u8>) -> (Router, Act) {
        if self.body.len() == 0 {
            (self.erred(), Act::Done)
        } else {
            let entry = self.body[0];
            let t = Router { body: self.body.remove(0), ..self };
            let op = entry.admin_op;
            if op == loam_admin_wire::OP_PUT_FILE {
                t.file_body_stored(entry, resp)
            } else if op == loam_admin_wire::OP_PUT_FILE_OPEN {
                t.stream_opened(entry, resp)
            } else if op == loam_admin_wire::OP_PUT_FILE_CHUNK {
                t.chunk_taken(entry, resp)
            } else if op == loam_admin_wire::OP_PUT_FILE_COMMIT {
                t.stream_committed(entry, resp)
            } else if op == loam_admin_wire::OP_STAT_FILE {
                t.sized(entry.correlation_id, resp)
            } else if op == loam_admin_wire::OP_READ_FILE_RANGE {
                t.part_read(entry.correlation_id, resp)
            } else if op == GC_OP_SCAN {
                t.gc_scanned(resp)
            } else if op == GC_OP_DELETE {
                t.gc_deleted(resp)
            } else {
                t.body_reply(entry, resp)
            }
        }
    }

    /// A file was described, or could not be. Its path is bound last.
    pub open spec fn file_described(self, entry: PendingDownstream, ack: u8) -> (Router, Act) {
        let idx = entry.putfile_idx as int;
        let cid = entry.correlation_id;
        if ack != loam_object_wire::OP_OBJ_PUT {
            self.free_putfile_slot(idx).reply(putfile_nak(cid))
        } else {
            let slot = self.putfiles[idx];
            Router { putfiles: self.putfiles.update(idx, PutFile { stage: PUTFILE_STAGE_BIND, ..slot }), ..self }.forward(
                Stream::Namespace,
                pending(loam_admin_wire::OP_PUT_FILE, cid, idx as u16),
                loam_wire::bind_frame(slot.ns_root, slot.path, object_id(slot.digest), slot.kind, slot.revision),
            )
        }
    }

    /// An answer of the object index.
    pub open spec fn obj_answered(self, ack: u8) -> (Router, Act) {
        if self.obj.len() == 0 {
            (self.erred(), Act::Done)
        } else {
            Router { obj: self.obj.remove(0), ..self }.file_described(self.obj[0], ack)
        }
    }
}

} // verus!
