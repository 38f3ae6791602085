//! Routing administrative requests.
//!
//! What comes in and what is answered is handed over; what is to be sent is handed back.
use crate::admin_frames;
use crate::admin_router_state;
use crate::admin_router_state::{
    Act, Collector, PendingDownstream, PutFile, Router, Stream, StreamPut, GC_OP_CHECK, GC_OP_DELETE, GC_OP_SCAN,
    PENDING_CAP, PUTFILE_CAP, PUTFILE_STAGE_BIND, PUTFILE_STAGE_BODY, PUTFILE_STAGE_DONE,
    PUTFILE_STAGE_OBJECT, SCRATCH, SPF_CAP,
};
use crate::bytes;
use crate::loam_admin_wire;
use crate::loam_body_wire;
use crate::loam_object_wire;
use crate::loam_wire;
use crate::loam_wire::DecodedLookupResp;
use vstd::prelude::*;
use vstd::slice::slice_subrange;

verus! {

/// A file that is being stored, or a free place.
pub struct PendingPutFile {
    pub in_use: bool,
    pub stage: u8,
    pub correlation_id: u32,
    pub kind: u8,
    pub digest: [u8; 32],
    pub body_len: u32,
    pub revision: u64,
    pub ns_root: Vec<u8>,
    pub path: Vec<u8>,
}

impl View for PendingPutFile {
    type V = PutFile;

    open spec fn view(&self) -> PutFile {
        PutFile {
            in_use: self.in_use,
            stage: self.stage,
            correlation_id: self.correlation_id,
            kind: self.kind,
            digest: self.digest@,
            body_len: self.body_len,
            revision: self.revision,
            ns_root: self.ns_root@,
            path: self.path@,
        }
    }
}

/// A file that is being streamed, or a free place.
pub struct StreamedPutFile {
    pub in_use: bool,
    pub wid: Option<u8>,
    pub kind: u8,
    pub revision: u64,
    pub total_len: u64,
    pub digest: [u8; 32],
    pub ns_root: Vec<u8>,
    pub path: Vec<u8>,
}

impl View for StreamedPutFile {
    type V = StreamPut;

    open spec fn view(&self) -> StreamPut {
        StreamPut {
            in_use: self.in_use,
            wid: self.wid,
            kind: self.kind,
            revision: self.revision,
            total_len: self.total_len,
            digest: self.digest@,
            ns_root: self.ns_root@,
            path: self.path@,
        }
    }
}

/// What is to be done.
pub enum RouterAction {
    Done,
    /// Answer the client.
    Reply { frame: Vec<u8> },
    /// Forward a request, and say with `forward_done` whether that was possible.
    Forward { stream: Stream, frame: Vec<u8>, entry: PendingDownstream },
}

impl RouterAction {
    pub open spec fn model(self) -> Act {
        match self {
            RouterAction::Done => Act::Done,
            RouterAction::Reply { frame } => Act::Reply { frame: frame@ },
            RouterAction::Forward { stream, frame, entry } => Act::Forward { stream, frame: frame@, entry },
        }
    }
}

/// How often what happened.
#[derive(Debug, Clone, Copy, PartialEq, Eq)]
pub struct RouterCounts {
    pub ticks: u32,
    pub forwarded: u32,
    pub replied: u32,
    pub apply_errors: u32,
    pub gc_scans: u32,
    pub gc_checked: u32,
    pub gc_deleted: u32,
    pub gc_kept: u32,
}

/// A router of administrative requests.
pub struct ModuleState {
    body_wired: bool,
    obj_wired: bool,
    ns: Vec<PendingDownstream>,
    body: Vec<PendingDownstream>,
    obj: Vec<PendingDownstream>,
    putfiles: Vec<PendingPutFile>,
    spf: Vec<StreamedPutFile>,
    gc_interval: u32,
    gc_cursor: u32,
    gc_inflight: bool,
    gc_digests: Vec<[u8; 32]>,
    gc_pos: usize,
    gc_check_cursor: u32,
    counts: RouterCounts,
}

pub open spec fn putfiles_of(s: Seq<PendingPutFile>) -> Seq<PutFile> {
    Seq::new(s.len(), |i: int| s[i]@)
}

pub open spec fn streams_of(s: Seq<StreamedPutFile>) -> Seq<StreamPut> {
    Seq::new(s.len(), |i: int| s[i]@)
}

impl View for ModuleState {
    type V = Router;

    closed spec fn view(&self) -> Router {
        Router {
            body_wired: self.body_wired,
            obj_wired: self.obj_wired,
            ns: self.ns@,
            body: self.body@,
            obj: self.obj@,
            putfiles: putfiles_of(self.putfiles@),
            spf: streams_of(self.spf@),
            gc: Collector {
                interval: self.gc_interval,
                cursor: self.gc_cursor,
                inflight: self.gc_inflight,
                digests: loam_body_wire::digest_list(self.gc_digests@),
                pos: self.gc_pos as int,
                check_cursor: self.gc_check_cursor,
                scans: self.counts.gc_scans,
                checked: self.counts.gc_checked,
                deleted: self.counts.gc_deleted,
                kept: self.counts.gc_kept,
            },
            ticks: self.counts.ticks,
            forwarded: self.counts.forwarded,
            replied: self.counts.replied,
            apply_errors: self.counts.apply_errors,
        }
    }
}

/// The bytes of a key.
fn key_of(d: &[u8]) -> (r: [u8; 32])
    requires
        d@.len() == 32,
    ensures
        r@ == d@,
{
    assert(d@.subrange(0, 32) =~= d@);
    loam_body_wire::digest_at(d, 0)
}

fn pending(op: u8, cid: u32, idx: u16) -> (r: PendingDownstream)
    ensures
        r == admin_router_state::pending(op, cid, idx),
{
    PendingDownstream { correlation_id: cid, admin_op: op, putfile_idx: idx, aux_off: 0, aux_len: 0 }
}

/// What an answer carries of a body.
fn capped(body: &[u8]) -> (r: &[u8])
    ensures
        r@ == admin_router_state::capped(body@),
        r@.len() <= loam_body_wire::MAX_BODY,
{
    if body.len() > loam_body_wire::MAX_BODY {
        assert(body@.take(loam_body_wire::MAX_BODY as int) =~= body@.subrange(0, loam_body_wire::MAX_BODY as int));
        slice_subrange(body, 0, loam_body_wire::MAX_BODY)
    } else {
        body
    }
}

/// The status that a refusal of the body store amounts to.
fn refusal_status(resp: &[u8]) -> (r: u8)
    ensures
        r == admin_router_state::refusal_status(resp@),
{
    if resp.len() >= 2 && resp[0] == loam_body_wire::OP_NAK && resp[1] == loam_body_wire::ERR_NOT_FOUND {
        loam_admin_wire::STATUS_NOT_FOUND
    } else {
        loam_admin_wire::STATUS_NAK
    }
}

fn starts_with(resp: &[u8], op: u8) -> (r: bool)
    ensures
        r == (resp@.len() > 0 && resp@[0] == op),
{
    resp.len() > 0 && resp[0] == op
}

/// The answer that a file could not be stored.
fn putfile_nak(cid: u32) -> (r: Vec<u8>)
    ensures
        r@ == admin_router_state::putfile_nak(cid),
{
    admin_frames::ack(loam_admin_wire::OP_PUT_FILE, cid, loam_admin_wire::STATUS_NAK)
}

/// The answer that a path could not be read.
fn pathread_nak(op: u8, cid: u32, status: u8) -> (r: Vec<u8>)
    ensures
        r@ == admin_router_state::pathread_nak(op, cid, status),
{
    if op == loam_admin_wire::OP_STAT_FILE {
        admin_frames::stat_ack(cid, status, 0)
    } else {
        admin_frames::ack(loam_admin_wire::OP_READ_FILE_RANGE, cid, status)
    }
}

/// The answer to a request that only has a status, where it could not be forwarded.
fn plain_nak(op: u8, cid: u32) -> (r: Vec<u8>)
    ensures
        r@ == admin_router_state::plain_nak(op, cid),
{
    if op == loam_admin_wire::OP_DELETE_BODY {
        admin_frames::delete_body_ack(cid, loam_admin_wire::STATUS_NAK, false)
    } else {
        admin_frames::ack(op, cid, loam_admin_wire::STATUS_NAK)
    }
}

impl ModuleState {
    /// What every operation keeps.
    pub closed spec fn wf(&self) -> bool {
        self@.wf()
    }

    /// What the operations keep, said of the model: the laws of the router hold of it.
    pub proof fn lemma_wf(&self)
        requires
            self.wf(),
        ensures
            self@.wf(),
    {
    }

    /// A router that is wired to the namespace, and to the others as it is said.
    pub fn new(body_wired: bool, obj_wired: bool) -> (r: Self)
        ensures
            r.wf(),
            r@.wf(),
            r@.body_wired == body_wired && r@.obj_wired == obj_wired,
            r@.ns.len() == 0 && r@.body.len() == 0 && r@.obj.len() == 0,
            !r@.storing(),
            r@.gc == (Collector {
                interval: 0,
                cursor: 0,
                inflight: false,
                digests: Seq::empty(),
                pos: 0,
                check_cursor: 0,
                scans: 0,
                checked: 0,
                deleted: 0,
                kept: 0,
            }),
            r@.ticks == 0 && r@.forwarded == 0 && r@.replied == 0 && r@.apply_errors == 0,
    {
        let mut putfiles: Vec<PendingPutFile> = Vec::new();
        while putfiles.len() < PUTFILE_CAP
            invariant
                putfiles.len() <= PUTFILE_CAP,
                forall|i: int|
                    0 <= i < putfiles.len() ==> !(#[trigger] putfiles@[i]).in_use && putfiles@[i]@.wf(),
            decreases PUTFILE_CAP - putfiles.len(),
        {
            putfiles.push(
                PendingPutFile {
                    in_use: false,
                    stage: PUTFILE_STAGE_BODY,
                    correlation_id: 0,
                    kind: 0,
                    digest: [0u8; 32],
                    body_len: 0,
                    revision: 0,
                    ns_root: Vec::new(),
                    path: Vec::new(),
                },
            );
        }
        let mut spf: Vec<StreamedPutFile> = Vec::new();
        while spf.len() < SPF_CAP
            invariant
                spf.len() <= SPF_CAP,
                forall|i: int| 0 <= i < spf.len() ==> !(#[trigger] spf@[i]).in_use && spf@[i]@.wf(),
            decreases SPF_CAP - spf.len(),
        {
            spf.push(
                StreamedPutFile {
                    in_use: false,
                    wid: None,
                    kind: 0,
                    revision: 0,
                    total_len: 0,
                    digest: [0u8; 32],
                    ns_root: Vec::new(),
                    path: Vec::new(),
                },
            );
        }
        let r: ModuleState = ModuleState {
            body_wired,
            obj_wired,
            ns: Vec::new(),
            body: Vec::new(),
            obj: Vec::new(),
            putfiles,
            spf,
            gc_interval: 0,
            gc_cursor: 0,
            gc_inflight: false,
            gc_digests: Vec::new(),
            gc_pos: 0,
            gc_check_cursor: 0,
            counts: RouterCounts {
                ticks: 0,
                forwarded: 0,
                replied: 0,
                apply_errors: 0,
                gc_scans: 0,
                gc_checked: 0,
                gc_deleted: 0,
                gc_kept: 0,
            },
        };
        assert(r@.gc.digests =~= Seq::empty());
        r
    }

    /// Collect blobs, with so many steps between two pages of the inventory; not at all
    /// with 0.
    pub fn set_gc_interval(&mut self, interval: u32)
        requires
            old(self).wf(),
        ensures
            final(self).wf(),
            final(self)@ == (Router { gc: Collector { interval, ..old(self)@.gc }, ..old(self)@ }),
    {
        self.gc_interval = interval;
    }

    /// How often what happened.
    pub fn counts(&self) -> (r: RouterCounts)
        requires
            self.wf(),
        ensures
            r.ticks == self@.ticks && r.forwarded == self@.forwarded && r.replied == self@.replied && r.apply_errors
                == self@.apply_errors,
            r.gc_scans == self@.gc.scans && r.gc_checked == self@.gc.checked && r.gc_deleted == self@.gc.deleted
                && r.gc_kept == self@.gc.kept,
    {
        self.counts
    }

    fn unread(&mut self, op: u8, request: &[u8], e: loam_admin_wire::WireError) -> (r: RouterAction)
        requires
            old(self).wf(),
            e is StringTooLong ==> request@.len() >= 5,
        ensures
            final(self).wf(),
            (final(self)@, r.model()) == old(self)@.unread(op, request@, e),
            r.model() !is Forward,
    {
        match e {
            loam_admin_wire::WireError::StringTooLong { len: _, max: _ } => {
                let cid: u32 = bytes::get_u32(request, 1);
                if op == loam_admin_wire::OP_PUT_FILE_OPEN {
                    RouterAction::Reply { frame: admin_frames::open_ack(cid, loam_admin_wire::STATUS_NAK, 0) }
                } else if op == loam_admin_wire::OP_DELETE_FILE || op == loam_admin_wire::OP_LIST_FILES {
                    RouterAction::Reply { frame: plain_nak(op, cid) }
                } else if op == loam_admin_wire::OP_STAT_FILE || op == loam_admin_wire::OP_READ_FILE_RANGE {
                    self.reply(pathread_nak(op, cid, loam_admin_wire::STATUS_NAK))
                } else {
                    self.reply(plain_nak(op, cid))
                }
            },
            _ => {
                self.erred();
                RouterAction::Done
            },
        }
    }

    fn erred(&mut self)
        requires
            old(self).wf(),
        ensures
            final(self).wf(),
            final(self)@ == old(self)@.erred(),
    {
        self.counts.apply_errors = self.counts.apply_errors.wrapping_add(1);
    }

    fn reply(&mut self, frame: Vec<u8>) -> (r: RouterAction)
        requires
            old(self).wf(),
        ensures
            final(self).wf(),
            (final(self)@, r.model()) == old(self)@.reply(frame@),
    {
        self.counts.replied = self.counts.replied.wrapping_add(1);
        RouterAction::Reply { frame }
    }

    fn has_room(&self, stream: Stream) -> (r: bool)
        requires
            self.wf(),
        ensures
            r == self@.has_room(stream),
    {
        let n: usize = match stream {
            Stream::Namespace => self.ns.len(),
            Stream::Body => self.body.len(),
            Stream::Object => self.obj.len(),
        };
        n + 1 < PENDING_CAP
    }

    /// Whether some file is in the course of being stored or streamed.
    pub fn storing(&self) -> (r: bool)
        requires
            self.wf(),
        ensures
            r == self@.storing(),
    {
        let mut i: usize = 0;
        while i < PUTFILE_CAP
            invariant
                i <= PUTFILE_CAP,
                self.wf(),
                forall|j: int| 0 <= j < i ==> !(#[trigger] self@.putfiles[j]).in_use,
            decreases PUTFILE_CAP - i,
        {
            assert(self@.putfiles[i as int] == self.putfiles@[i as int]@);
            if self.putfiles[i].in_use {
                return true;
            }
            i += 1;
        }
        let mut j: usize = 0;
        while j < SPF_CAP
            invariant
                j <= SPF_CAP,
                self.wf(),
                forall|k: int| 0 <= k < PUTFILE_CAP ==> !(#[trigger] self@.putfiles[k]).in_use,
                forall|k: int| 0 <= k < j ==> !(#[trigger] self@.spf[k]).in_use,
            decreases SPF_CAP - j,
        {
            assert(self@.spf[j as int] == self.spf@[j as int]@);
            if self.spf[j].in_use {
                return true;
            }
            j += 1;
        }
        false
    }

    fn allocate_putfile_slot(&self) -> (r: Option<usize>)
        requires
            self.wf(),
        ensures
            match r {
                Some(i) => i < PUTFILE_CAP && admin_router_state::free_putfile(self@.putfiles, 0) == Some(i as int),
                None => admin_router_state::free_putfile(self@.putfiles, 0) is None,
            },
    {
        let mut i: usize = 0;
        while i < PUTFILE_CAP
            invariant
                i <= PUTFILE_CAP,
                self.wf(),
                admin_router_state::free_putfile(self@.putfiles, 0) == admin_router_state::free_putfile(
                    self@.putfiles,
                    i as int,
                ),
            decreases PUTFILE_CAP - i,
        {
            assert(self@.putfiles[i as int] == self.putfiles@[i as int]@);
            if !self.putfiles[i].in_use {
                return Some(i);
            }
            i += 1;
        }
        None
    }

    fn free_stream(&self) -> (r: Option<usize>)
        requires
            self.wf(),
        ensures
            match r {
                Some(i) => i < SPF_CAP && admin_router_state::free_stream(self@.spf, 0) == Some(i as int),
                None => admin_router_state::free_stream(self@.spf, 0) is None,
            },
    {
        let mut i: usize = 0;
        while i < SPF_CAP
            invariant
                i <= SPF_CAP,
                self.wf(),
                admin_router_state::free_stream(self@.spf, 0) == admin_router_state::free_stream(self@.spf, i as int),
            decreases SPF_CAP - i,
        {
            assert(self@.spf[i as int] == self.spf@[i as int]@);
            if !self.spf[i].in_use {
                return Some(i);
            }
            i += 1;
        }
        None
    }

    fn set_putfile(&mut self, idx: usize, slot: PendingPutFile)
        requires
            old(self).wf(),
            idx < PUTFILE_CAP,
            slot@.wf(),
        ensures
            final(self).wf(),
            final(self)@ == (Router { putfiles: old(self)@.putfiles.update(idx as int, slot@), ..old(self)@ }),
    {
        self.putfiles.set(idx, slot);
        assert(self@.putfiles =~= old(self)@.putfiles.update(idx as int, slot@));
    }

    fn set_stage(&mut self, idx: usize, stage: u8)
        requires
            old(self).wf(),
            idx < PUTFILE_CAP,
        ensures
            final(self).wf(),
            final(self)@ == (Router {
                putfiles: old(self)@.putfiles.update(
                    idx as int,
                    PutFile { stage, ..old(self)@.putfiles[idx as int] },
                ),
                ..old(self)@
            }),
    {
        assert(self@.putfiles[idx as int] == self.putfiles@[idx as int]@);
        self.putfiles[idx].stage = stage;
        assert(self@.putfiles =~= old(self)@.putfiles.update(
            idx as int,
            PutFile { stage, ..old(self)@.putfiles[idx as int] },
        ));
    }

    fn set_digest(&mut self, idx: usize, digest: [u8; 32])
        requires
            old(self).wf(),
            idx < PUTFILE_CAP,
        ensures
            final(self).wf(),
            final(self)@ == (Router {
                putfiles: old(self)@.putfiles.update(
                    idx as int,
                    PutFile { digest: digest@, ..old(self)@.putfiles[idx as int] },
                ),
                ..old(self)@
            }),
    {
        assert(self@.putfiles[idx as int] == self.putfiles@[idx as int]@);
        self.putfiles[idx].digest = digest;
        assert(self@.putfiles =~= old(self)@.putfiles.update(
            idx as int,
            PutFile { digest: digest@, ..old(self)@.putfiles[idx as int] },
        ));
    }

    fn free_putfile_slot(&mut self, idx: usize)
        requires
            old(self).wf(),
            idx < PUTFILE_CAP,
        ensures
            final(self).wf(),
            final(self)@ == old(self)@.free_putfile_slot(idx as int),
    {
        assert(self@.putfiles[idx as int] == self.putfiles@[idx as int]@);
        self.putfiles[idx].in_use = false;
        self.putfiles[idx].stage = PUTFILE_STAGE_DONE;
        assert(self@.putfiles =~= old(self)@.free_putfile_slot(idx as int).putfiles);
    }

    fn free_spf(&mut self, idx: usize)
        requires
            old(self).wf(),
            idx < SPF_CAP,
        ensures
            final(self).wf(),
            final(self)@ == old(self)@.free_spf(idx as int),
    {
        assert(self@.spf[idx as int] == self.spf@[idx as int]@);
        self.spf[idx].in_use = false;
        assert(self@.spf =~= old(self)@.free_spf(idx as int).spf);
    }

    fn gc_idle(&mut self)
        requires
            old(self).wf(),
        ensures
            final(self).wf(),
            final(self)@ == old(self)@.gc_idle(),
    {
        self.gc_digests = Vec::new();
        self.gc_pos = 0;
        self.gc_check_cursor = 0;
        assert(self@.gc.digests =~= Seq::empty());
    }

    fn gc_check(&mut self) -> (r: RouterAction)
        requires
            old(self).wf(),
            old(self)@.gc.digests.len() > 0,
        ensures
            final(self).wf(),
            (final(self)@, r.model()) == old(self)@.gc_check(),
            final(self)@.fits(r.model()),
    {
        if self.has_room(Stream::Namespace) {
            assert(self@.gc.digests[self.gc_pos as int] == self.gc_digests@[self.gc_pos as int]@);
            let id: Vec<u8> = admin_frames::object_id(&self.gc_digests[self.gc_pos]);
            match admin_frames::referenced_request(self.gc_check_cursor, id.as_slice()) {
                Some(frame) => RouterAction::Forward {
                    stream: Stream::Namespace,
                    frame,
                    entry: pending(GC_OP_CHECK, 0, 0),
                },
                None => RouterAction::Done,
            }
        } else {
            self.gc_idle();
            RouterAction::Done
        }
    }

    fn gc_next(&mut self) -> (r: RouterAction)
        requires
            old(self).wf(),
        ensures
            final(self).wf(),
            (final(self)@, r.model()) == old(self)@.gc_next(),
            final(self)@.fits(r.model()),
    {
        if self.gc_digests.len() > 0 && self.gc_pos + 1 < self.gc_digests.len() {
            self.gc_pos = self.gc_pos + 1;
            self.gc_check_cursor = 0;
            self.gc_check()
        } else {
            self.gc_idle();
            RouterAction::Done
        }
    }

    fn unsent(&mut self, entry: PendingDownstream, full: bool) -> (r: RouterAction)
        requires
            old(self).wf(),
            entry.wf(),
        ensures
            final(self).wf(),
            (final(self)@, r.model()) == old(self)@.unsent(entry, full),
            final(self)@.fits(r.model()),
    {
        let op: u8 = entry.admin_op;
        let cid: u32 = entry.correlation_id;
        let idx: usize = entry.putfile_idx as usize;
        if op == loam_admin_wire::OP_GET_FILE {
            let r: RouterAction = self.reply(admin_frames::ack(op, cid, loam_admin_wire::STATUS_NAK));
            self.erred();
            r
        } else if op == loam_admin_wire::OP_DELETE_FILE || op == loam_admin_wire::OP_LIST_FILES {
            self.erred();
            RouterAction::Reply { frame: admin_frames::ack(op, cid, loam_admin_wire::STATUS_NAK) }
        } else if op == loam_admin_wire::OP_PUT_FILE_OPEN {
            self.free_spf(idx);
            RouterAction::Reply { frame: admin_frames::open_ack(cid, loam_admin_wire::STATUS_NAK, 0) }
        } else if op == loam_admin_wire::OP_PUT_FILE_CHUNK {
            RouterAction::Reply { frame: admin_frames::chunk_ack(cid, loam_admin_wire::STATUS_NAK) }
        } else if op == loam_admin_wire::OP_PUT_FILE_COMMIT {
            self.free_spf(idx);
            self.reply(putfile_nak(cid))
        } else if op == loam_admin_wire::OP_STAT_FILE || op == loam_admin_wire::OP_READ_FILE_RANGE {
            self.reply(pathread_nak(op, cid, loam_admin_wire::STATUS_NAK))
        } else if op == loam_admin_wire::OP_PUT_FILE {
            self.free_putfile_slot(idx);
            let r: RouterAction = self.reply(putfile_nak(cid));
            self.erred();
            r
        } else if op == GC_OP_SCAN {
            RouterAction::Done
        } else if op == GC_OP_CHECK || op == GC_OP_DELETE {
            self.gc_next()
        } else if full {
            let r: RouterAction = self.reply(plain_nak(op, cid));
            self.erred();
            r
        } else {
            self.erred();
            RouterAction::Done
        }
    }

    fn forward(&mut self, stream: Stream, entry: PendingDownstream, frame: Vec<u8>) -> (r: RouterAction)
        requires
            old(self).wf(),
            entry.wf(),
            stream == Stream::Object ==> entry.admin_op == loam_admin_wire::OP_PUT_FILE,
        ensures
            final(self).wf(),
            (final(self)@, r.model()) == old(self)@.forward(stream, entry, frame@),
            final(self)@.fits(r.model()),
    {
        if self.has_room(stream) {
            RouterAction::Forward { stream, frame, entry }
        } else {
            self.unsent(entry, true)
        }
    }

    /// A request was forwarded, or the channel did not take it.
    pub fn forward_done(&mut self, stream: Stream, entry: PendingDownstream, ok: bool) -> (r: RouterAction)
        requires
            old(self).wf(),
            entry.wf(),
            old(self)@.has_room(stream),
            stream == Stream::Object ==> entry.admin_op == loam_admin_wire::OP_PUT_FILE,
        ensures
            final(self).wf(),
            (final(self)@, r.model()) == old(self)@.forwarded_as(stream, entry, ok),
            final(self)@.fits(r.model()),
    {
        if !ok {
            return self.unsent(entry, false);
        }
        match stream {
            Stream::Namespace => self.ns.push(entry),
            Stream::Body => self.body.push(entry),
            Stream::Object => self.obj.push(entry),
        }
        self.counts.forwarded = self.counts.forwarded.wrapping_add(1);
        if entry.admin_op == GC_OP_SCAN {
            self.gc_inflight = true;
            self.counts.gc_scans = self.counts.gc_scans.wrapping_add(1);
        }
        RouterAction::Done
    }

    /// A step begins.
    pub fn begin_step(&mut self) -> (r: RouterAction)
        requires
            old(self).wf(),
        ensures
            final(self).wf(),
            (final(self)@, r.model()) == old(self)@.step(),
            final(self)@.fits(r.model()),
    {
        self.counts.ticks = self.counts.ticks.wrapping_add(1);
        if self.gc_interval != 0 && self.body_wired && !self.gc_inflight && self.gc_digests.len() == 0
            && self.counts.ticks % self.gc_interval == 0 && !self.storing() {
            let frame: Vec<u8> = admin_frames::scan_request(
                self.gc_cursor,
                loam_body_wire::MAX_SCAN_DIGESTS as u8,
            );
            self.forward(Stream::Body, pending(GC_OP_SCAN, 0, 0), frame)
        } else {
            RouterAction::Done
        }
    }

    /// Bind a path.
    pub fn handle_admin_bind(&mut self, request: &[u8]) -> (r: RouterAction)
        requires
            old(self).wf(),
        ensures
            final(self).wf(),
            (final(self)@, r.model()) == old(self)@.bind(request@),
            final(self)@.fits(r.model()),
    {
        match loam_admin_wire::decode_admin_bind(request) {
            Err(e) => self.unread(loam_admin_wire::OP_BIND, request, e),
            Ok(d) => match admin_frames::bind_request(d.namespace_root, d.path, d.object_id, d.kind, d.revision) {
                None => self.reply(plain_nak(loam_admin_wire::OP_BIND, d.correlation_id)),
                Some(frame) => self.forward(
                    Stream::Namespace,
                    pending(loam_admin_wire::OP_BIND, d.correlation_id, u16::MAX),
                    frame,
                ),
            },
        }
    }

    /// Store a body.
    pub fn handle_admin_put_body(&mut self, request: &[u8]) -> (r: RouterAction)
        requires
            old(self).wf(),
        ensures
            final(self).wf(),
            (final(self)@, r.model()) == old(self)@.put_body(request@),
            final(self)@.fits(r.model()),
    {
        match loam_admin_wire::decode_admin_put_body(request) {
            Err(_) => {
                self.erred();
                RouterAction::Done
            },
            Ok((cid, body)) => {
                if !self.body_wired {
                    return self.reply(plain_nak(loam_admin_wire::OP_PUT_BODY, cid));
                }
                match admin_frames::put_request(body) {
                    None => self.reply(plain_nak(loam_admin_wire::OP_PUT_BODY, cid)),
                    Some(frame) => self.forward(
                        Stream::Body,
                        pending(loam_admin_wire::OP_PUT_BODY, cid, u16::MAX),
                        frame,
                    ),
                }
            },
        }
    }

    /// Store a body under a key.
    pub fn handle_admin_put_body_keyed(&mut self, request: &[u8]) -> (r: RouterAction)
        requires
            old(self).wf(),
        ensures
            final(self).wf(),
            (final(self)@, r.model()) == old(self)@.put_body_keyed(request@),
            final(self)@.fits(r.model()),
    {
        match loam_admin_wire::decode_admin_put_body_keyed(request) {
            Err(_) => {
                self.erred();
                RouterAction::Done
            },
            Ok((cid, key, body)) => {
                if !self.body_wired {
                    return self.reply(plain_nak(loam_admin_wire::OP_PUT_BODY_KEYED, cid));
                }
                let key: [u8; 32] = key_of(key);
                match admin_frames::put_keyed_request(&key, body) {
                    None => self.reply(plain_nak(loam_admin_wire::OP_PUT_BODY_KEYED, cid)),
                    Some(frame) => self.forward(
                        Stream::Body,
                        pending(loam_admin_wire::OP_PUT_BODY_KEYED, cid, u16::MAX),
                        frame,
                    ),
                }
            },
        }
    }

    /// Remove a body.
    pub fn handle_admin_delete_body(&mut self, request: &[u8]) -> (r: RouterAction)
        requires
            old(self).wf(),
        ensures
            final(self).wf(),
            (final(self)@, r.model()) == old(self)@.delete_body(request@),
            final(self)@.fits(r.model()),
    {
        match loam_admin_wire::decode_admin_delete_body(request) {
            Err(_) => {
                self.erred();
                RouterAction::Done
            },
            Ok((cid, key)) => {
                if !self.body_wired {
                    return self.reply(plain_nak(loam_admin_wire::OP_DELETE_BODY, cid));
                }
                let key: [u8; 32] = key_of(key);
                let frame: Vec<u8> = admin_frames::delete_request(&key);
                self.forward(Stream::Body, pending(loam_admin_wire::OP_DELETE_BODY, cid, u16::MAX), frame)
            },
        }
    }

    /// Read a body.
    pub fn handle_admin_get_body(&mut self, request: &[u8]) -> (r: RouterAction)
        requires
            old(self).wf(),
        ensures
            final(self).wf(),
            (final(self)@, r.model()) == old(self)@.get_body(request@),
            final(self)@.fits(r.model()),
    {
        match loam_admin_wire::decode_admin_get_body(request) {
            Err(_) => {
                self.erred();
                RouterAction::Done
            },
            Ok((cid, key)) => {
                if !self.body_wired {
                    return self.reply(plain_nak(loam_admin_wire::OP_GET_BODY, cid));
                }
                let key: [u8; 32] = key_of(key);
                let frame: Vec<u8> = admin_frames::get_request(&key);
                self.forward(Stream::Body, pending(loam_admin_wire::OP_GET_BODY, cid, u16::MAX), frame)
            },
        }
    }

    /// Store a file.
    pub fn handle_admin_put_file(&mut self, request: &[u8]) -> (r: RouterAction)
        requires
            old(self).wf(),
        ensures
            final(self).wf(),
            (final(self)@, r.model()) == old(self)@.put_file(request@),
            final(self)@.fits(r.model()),
    {
        match loam_admin_wire::decode_admin_put_file(request) {
            Err(e) => self.unread(loam_admin_wire::OP_PUT_FILE, request, e),
            Ok(d) => {
                let cid: u32 = d.correlation_id;
                if !self.body_wired || !self.obj_wired {
                    return self.reply(putfile_nak(cid));
                }
                match self.allocate_putfile_slot() {
                    None => {
                        let r: RouterAction = self.reply(putfile_nak(cid));
                        self.erred();
                        r
                    },
                    Some(idx) => {
                        let slot: PendingPutFile = PendingPutFile {
                            in_use: true,
                            stage: PUTFILE_STAGE_BODY,
                            correlation_id: cid,
                            kind: d.kind,
                            digest: [0u8; 32],
                            body_len: d.body.len() as u32,
                            revision: d.revision,
                            ns_root: bytes::to_vec(d.namespace_root),
                            path: bytes::to_vec(d.path),
                        };
                        assert(slot.digest@ =~= Seq::new(32, |i: int| 0u8));
                        self.set_putfile(idx, slot);
                        match admin_frames::put_request(d.body) {
                            None => {
                                self.free_putfile_slot(idx);
                                self.reply(putfile_nak(cid))
                            },
                            Some(frame) => self.forward(
                                Stream::Body,
                                pending(loam_admin_wire::OP_PUT_FILE, cid, idx as u16),
                                frame,
                            ),
                        }
                    },
                }
            },
        }
    }

    /// Read a file.
    pub fn handle_admin_get_file(&mut self, request: &[u8]) -> (r: RouterAction)
        requires
            old(self).wf(),
        ensures
            final(self).wf(),
            (final(self)@, r.model()) == old(self)@.get_file(request@),
            final(self)@.fits(r.model()),
    {
        match loam_admin_wire::decode_admin_get_file(request) {
            Err(e) => self.unread(loam_admin_wire::OP_GET_FILE, request, e),
            Ok(d) => {
                let cid: u32 = d.correlation_id;
                let op: u8 = loam_admin_wire::OP_GET_FILE;
                if !self.body_wired {
                    return self.reply(admin_frames::ack(op, cid, loam_admin_wire::STATUS_NAK));
                }
                match admin_frames::lookup_request(d.namespace_root, d.path) {
                    None => self.reply(admin_frames::ack(op, cid, loam_admin_wire::STATUS_NAK)),
                    Some(frame) => self.forward(Stream::Namespace, pending(op, cid, 0), frame),
                }
            },
        }
    }

    /// Remove a file.
    pub fn handle_admin_delete_file(&mut self, request: &[u8]) -> (r: RouterAction)
        requires
            old(self).wf(),
        ensures
            final(self).wf(),
            (final(self)@, r.model()) == old(self)@.delete_file(request@),
            final(self)@.fits(r.model()),
    {
        match loam_admin_wire::decode_admin_delete_file(request) {
            Err(e) => self.unread(loam_admin_wire::OP_DELETE_FILE, request, e),
            Ok(d) => {
                let cid: u32 = d.correlation_id;
                let op: u8 = loam_admin_wire::OP_DELETE_FILE;
                match admin_frames::unbind_request(d.namespace_root, d.path) {
                    None => RouterAction::Reply { frame: admin_frames::ack(op, cid, loam_admin_wire::STATUS_NAK) },
                    Some(frame) => self.forward(Stream::Namespace, pending(op, cid, 0), frame),
                }
            },
        }
    }

    /// Answer with a page of files.
    pub fn handle_admin_list_files(&mut self, request: &[u8]) -> (r: RouterAction)
        requires
            old(self).wf(),
        ensures
            final(self).wf(),
            (final(self)@, r.model()) == old(self)@.list_files(request@),
            final(self)@.fits(r.model()),
    {
        match loam_admin_wire::decode_admin_list_files(request) {
            Err(e) => self.unread(loam_admin_wire::OP_LIST_FILES, request, e),
            Ok(d) => {
                let cid: u32 = d.correlation_id;
                let op: u8 = loam_admin_wire::OP_LIST_FILES;
                match admin_frames::list_request(d.namespace_root, d.cursor, d.max) {
                    None => RouterAction::Reply { frame: admin_frames::ack(op, cid, loam_admin_wire::STATUS_NAK) },
                    Some(frame) => self.forward(Stream::Namespace, pending(op, cid, 0), frame),
                }
            },
        }
    }

    /// Stream a file.
    pub fn handle_put_file_open(&mut self, request: &[u8]) -> (r: RouterAction)
        requires
            old(self).wf(),
        ensures
            final(self).wf(),
            (final(self)@, r.model()) == old(self)@.put_file_open(request@),
            final(self)@.fits(r.model()),
    {
        match loam_admin_wire::decode_put_file_open(request) {
            Err(e) => self.unread(loam_admin_wire::OP_PUT_FILE_OPEN, request, e),
            Ok(d) => {
                let cid: u32 = d.correlation_id;
                if !self.body_wired {
                    return RouterAction::Reply {
                        frame: admin_frames::open_ack(cid, loam_admin_wire::STATUS_NAK, 0),
                    };
                }
                match self.free_stream() {
                    None => RouterAction::Reply {
                        frame: admin_frames::open_ack(cid, loam_admin_wire::STATUS_NAK, 0),
                    },
                    Some(idx) => {
                        let digest: [u8; 32] = key_of(d.digest);
                        let slot: StreamedPutFile = StreamedPutFile {
                            in_use: true,
                            wid: None,
                            kind: d.kind,
                            revision: d.revision,
                            total_len: d.total_len,
                            digest,
                            ns_root: bytes::to_vec(d.namespace_root),
                            path: bytes::to_vec(d.path),
                        };
                        let ghost model = slot@;
                        self.spf.set(idx, slot);
                        assert(self@.spf =~= old(self)@.spf.update(idx as int, model));
                        let frame: Vec<u8> = admin_frames::open_request(&digest, d.total_len);
                        self.forward(
                            Stream::Body,
                            pending(loam_admin_wire::OP_PUT_FILE_OPEN, cid, idx as u16),
                            frame,
                        )
                    },
                }
            },
        }
    }

    fn stream_wid(&self, pfid: u8) -> (r: Option<u8>)
        requires
            self.wf(),
        ensures
            r == self@.stream_wid(pfid),
            r is Some ==> pfid < SPF_CAP,
    {
        let idx: usize = pfid as usize;
        if idx >= SPF_CAP {
            return None;
        }
        assert(self@.spf[idx as int] == self.spf@[idx as int]@);
        if self.spf[idx].in_use {
            self.spf[idx].wid
        } else {
            None
        }
    }

    /// Take a chunk of a file that is being streamed.
    pub fn handle_put_file_chunk(&mut self, request: &[u8]) -> (r: RouterAction)
        requires
            old(self).wf(),
        ensures
            final(self).wf(),
            (final(self)@, r.model()) == old(self)@.put_file_chunk(request@),
            final(self)@.fits(r.model()),
    {
        match loam_admin_wire::decode_put_file_chunk(request) {
            Err(_) => {
                self.erred();
                RouterAction::Done
            },
            Ok((cid, pfid, chunk)) => match self.stream_wid(pfid) {
                None => RouterAction::Reply { frame: admin_frames::chunk_ack(cid, loam_admin_wire::STATUS_NAK) },
                Some(wid) => match admin_frames::append_request(wid, chunk) {
                    None => RouterAction::Reply {
                        frame: admin_frames::chunk_ack(cid, loam_admin_wire::STATUS_NAK),
                    },
                    Some(frame) => self.forward(
                        Stream::Body,
                        pending(loam_admin_wire::OP_PUT_FILE_CHUNK, cid, pfid as u16),
                        frame,
                    ),
                },
            },
        }
    }

    /// End a file that is being streamed.
    pub fn handle_put_file_commit(&mut self, request: &[u8]) -> (r: RouterAction)
        requires
            old(self).wf(),
        ensures
            final(self).wf(),
            (final(self)@, r.model()) == old(self)@.put_file_commit(request@),
            final(self)@.fits(r.model()),
    {
        match loam_admin_wire::decode_put_file_commit(request) {
            Err(_) => {
                self.erred();
                RouterAction::Done
            },
            Ok((cid, pfid)) => match self.stream_wid(pfid) {
                None => self.reply(putfile_nak(cid)),
                Some(wid) => {
                    let frame: Vec<u8> = admin_frames::commit_request(wid);
                    self.forward(
                        Stream::Body,
                        pending(loam_admin_wire::OP_PUT_FILE_COMMIT, cid, pfid as u16),
                        frame,
                    )
                },
            },
        }
    }

    fn dispatch_pathread_lookup(&mut self, op: u8, cid: u32, root: &[u8], path: &[u8], off: u64, len: u32) -> (r: RouterAction)
        requires
            old(self).wf(),
            op == loam_admin_wire::OP_STAT_FILE || op == loam_admin_wire::OP_READ_FILE_RANGE,
        ensures
            final(self).wf(),
            (final(self)@, r.model()) == old(self)@.look_up(op, cid, root@, path@, off, len),
            final(self)@.fits(r.model()),
    {
        if !self.body_wired {
            return self.reply(pathread_nak(op, cid, loam_admin_wire::STATUS_NAK));
        }
        match admin_frames::lookup_request(root, path) {
            None => self.reply(pathread_nak(op, cid, loam_admin_wire::STATUS_NAK)),
            Some(frame) => {
                let entry: PendingDownstream = PendingDownstream {
                    correlation_id: cid,
                    admin_op: op,
                    putfile_idx: 0,
                    aux_off: off,
                    aux_len: len,
                };
                self.forward(Stream::Namespace, entry, frame)
            },
        }
    }

    /// Say how large a file is.
    pub fn handle_stat_file(&mut self, request: &[u8]) -> (r: RouterAction)
        requires
            old(self).wf(),
        ensures
            final(self).wf(),
            (final(self)@, r.model()) == old(self)@.stat_file(request@),
            final(self)@.fits(r.model()),
    {
        match loam_admin_wire::decode_stat_file(request) {
            Err(e) => self.unread(loam_admin_wire::OP_STAT_FILE, request, e),
            Ok(d) => self.dispatch_pathread_lookup(
                loam_admin_wire::OP_STAT_FILE,
                d.correlation_id,
                d.namespace_root,
                d.path,
                0,
                0,
            ),
        }
    }

    /// Read a part of a file.
    pub fn handle_read_file_range(&mut self, request: &[u8]) -> (r: RouterAction)
        requires
            old(self).wf(),
        ensures
            final(self).wf(),
            (final(self)@, r.model()) == old(self)@.read_file_range(request@),
            final(self)@.fits(r.model()),
    {
        match loam_admin_wire::decode_read_file_range(request) {
            Err(e) => self.unread(loam_admin_wire::OP_READ_FILE_RANGE, request, e),
            Ok(d) => self.dispatch_pathread_lookup(
                loam_admin_wire::OP_READ_FILE_RANGE,
                d.correlation_id,
                d.namespace_root,
                d.path,
                d.off,
                d.len,
            ),
        }
    }

    /// Take a request.
    pub fn handle(&mut self, request: &[u8]) -> (r: RouterAction)
        requires
            old(self).wf(),
        ensures
            final(self).wf(),
            (final(self)@, r.model()) == old(self)@.take(request@),
            final(self)@.fits(r.model()),
    {
        match loam_admin_wire::peek_opcode(request) {
            None => {
                self.erred();
                RouterAction::Done
            },
            Some(op) => {
                if op == loam_admin_wire::OP_BIND {
                    self.handle_admin_bind(request)
                } else if op == loam_admin_wire::OP_PUT_BODY {
                    self.handle_admin_put_body(request)
                } else if op == loam_admin_wire::OP_GET_BODY {
                    self.handle_admin_get_body(request)
                } else if op == loam_admin_wire::OP_PUT_BODY_KEYED {
                    self.handle_admin_put_body_keyed(request)
                } else if op == loam_admin_wire::OP_DELETE_BODY {
                    self.handle_admin_delete_body(request)
                } else if op == loam_admin_wire::OP_PUT_FILE {
                    self.handle_admin_put_file(request)
                } else if op == loam_admin_wire::OP_GET_FILE {
                    self.handle_admin_get_file(request)
                } else if op == loam_admin_wire::OP_DELETE_FILE {
                    self.handle_admin_delete_file(request)
                } else if op == loam_admin_wire::OP_LIST_FILES {
                    self.handle_admin_list_files(request)
                } else if op == loam_admin_wire::OP_PUT_FILE_OPEN {
                    self.handle_put_file_open(request)
                } else if op == loam_admin_wire::OP_PUT_FILE_CHUNK {
                    self.handle_put_file_chunk(request)
                } else if op == loam_admin_wire::OP_PUT_FILE_COMMIT {
                    self.handle_put_file_commit(request)
                } else if op == loam_admin_wire::OP_READ_FILE_RANGE {
                    self.handle_read_file_range(request)
                } else if op == loam_admin_wire::OP_STAT_FILE {
                    self.handle_stat_file(request)
                } else {
                    self.erred();
                    RouterAction::Done
                }
            },
        }
    }

    fn handle_getfile_lookup_response(&mut self, cid: u32, resp: &[u8]) -> (r: RouterAction)
        requires
            old(self).wf(),
        ensures
            final(self).wf(),
            (final(self)@, r.model()) == old(self)@.file_looked_up(cid, resp@),
            final(self)@.fits(r.model()),
    {
        let op: u8 = loam_admin_wire::OP_GET_FILE;
        match loam_wire::decode_lookup_resp(resp) {
            Ok(DecodedLookupResp::Found { object_id, .. }) => match admin_frames::digest_from_object_id(object_id) {
                Some(digest) => {
                    let frame: Vec<u8> = admin_frames::get_request(&digest);
                    self.forward(Stream::Body, pending(op, cid, 0), frame)
                },
                None => self.reply(admin_frames::ack(op, cid, loam_admin_wire::STATUS_NAK)),
            },
            Ok(DecodedLookupResp::NotFound) => self.reply(
                admin_frames::ack(op, cid, loam_admin_wire::STATUS_NOT_FOUND),
            ),
            Err(_) => {
                let r: RouterAction = self.reply(admin_frames::ack(op, cid, loam_admin_wire::STATUS_NAK));
                self.erred();
                r
            },
        }
    }

    fn handle_pathread_lookup_response(&mut self, entry: PendingDownstream, resp: &[u8]) -> (r: RouterAction)
        requires
            old(self).wf(),
            entry.admin_op == loam_admin_wire::OP_STAT_FILE || entry.admin_op
                == loam_admin_wire::OP_READ_FILE_RANGE,
        ensures
            final(self).wf(),
            (final(self)@, r.model()) == old(self)@.path_looked_up(entry, resp@),
            final(self)@.fits(r.model()),
    {
        let op: u8 = entry.admin_op;
        let cid: u32 = entry.correlation_id;
        match loam_wire::decode_lookup_resp(resp) {
            Ok(DecodedLookupResp::Found { object_id, .. }) => match admin_frames::digest_from_object_id(object_id) {
                Some(digest) => {
                    let frame: Vec<u8> = if op == loam_admin_wire::OP_STAT_FILE {
                        admin_frames::head_request(&digest)
                    } else {
                        admin_frames::range_request(&digest, entry.aux_off, entry.aux_len)
                    };
                    self.forward(Stream::Body, pending(op, cid, 0), frame)
                },
                None => self.reply(pathread_nak(op, cid, loam_admin_wire::STATUS_NAK)),
            },
            Ok(DecodedLookupResp::NotFound) => self.reply(
                pathread_nak(op, cid, loam_admin_wire::STATUS_NOT_FOUND),
            ),
            Err(_) => self.reply(pathread_nak(op, cid, loam_admin_wire::STATUS_NAK)),
        }
    }

    fn handle_listfiles_response(&mut self, cid: u32, resp: &[u8]) -> (r: RouterAction)
        requires
            old(self).wf(),
        ensures
            final(self).wf(),
            (final(self)@, r.model()) == old(self)@.listed(cid, resp@),
            final(self)@.fits(r.model()),
    {
        if resp.len() >= 6 && resp[0] == loam_wire::OP_LIST {
            if resp.len() - 6 > SCRATCH - 11 {
                self.erred();
                return RouterAction::Done;
            }
            assert(resp@.skip(6) =~= resp@.subrange(6, resp@.len() as int));
            let frame: Vec<u8> = admin_frames::list_ack(
                cid,
                bytes::get_u32(resp, 1),
                resp[5],
                slice_subrange(resp, 6, resp.len()),
            );
            self.reply(frame)
        } else {
            self.reply(admin_frames::ack(loam_admin_wire::OP_LIST_FILES, cid, loam_admin_wire::STATUS_NAK))
        }
    }

    fn handle_putfile_bind_response(&mut self, entry: PendingDownstream, ok: bool) -> (r: RouterAction)
        requires
            old(self).wf(),
            entry.wf(),
            entry.admin_op == loam_admin_wire::OP_PUT_FILE,
        ensures
            final(self).wf(),
            (final(self)@, r.model()) == old(self)@.file_bound(entry, ok),
            final(self)@.fits(r.model()),
    {
        let idx: usize = entry.putfile_idx as usize;
        let cid: u32 = entry.correlation_id;
        assert(self@.putfiles[idx as int] == self.putfiles@[idx as int]@);
        let frame: Vec<u8> = if ok {
            admin_frames::digest_ack(loam_admin_wire::OP_PUT_FILE, cid, self.putfiles[idx].digest.as_slice())
        } else {
            putfile_nak(cid)
        };
        let r: RouterAction = self.reply(frame);
        self.free_putfile_slot(idx);
        r
    }

    fn gc_apply_check(&mut self, resp: &[u8]) -> (r: RouterAction)
        requires
            old(self).wf(),
        ensures
            final(self).wf(),
            (final(self)@, r.model()) == old(self)@.gc_checked(resp@),
            final(self)@.fits(r.model()),
    {
        self.counts.gc_checked = self.counts.gc_checked.wrapping_add(1);
        let (referenced, next): (bool, u32) = match loam_wire::decode_referenced_resp(resp) {
            Ok((referenced, next)) => (referenced, next),
            Err(_) => (true, 0),
        };
        if self.gc_digests.len() == 0 {
            return RouterAction::Done;
        }
        if !referenced && next != 0 {
            self.gc_check_cursor = next;
            return self.gc_check();
        }
        self.gc_check_cursor = 0;
        if referenced || self.storing() {
            self.counts.gc_kept = self.counts.gc_kept.wrapping_add(1);
            return self.gc_next();
        }
        assert(self@.gc.digests[self.gc_pos as int] == self.gc_digests@[self.gc_pos as int]@);
        let frame: Vec<u8> = admin_frames::delete_request(&self.gc_digests[self.gc_pos]);
        self.forward(Stream::Body, pending(GC_OP_DELETE, 0, 0), frame)
    }

    /// The namespace answered.
    pub fn ns_answer(&mut self, resp: &[u8]) -> (r: RouterAction)
        requires
            old(self).wf(),
        ensures
            final(self).wf(),
            (final(self)@, r.model()) == old(self)@.ns_answered(resp@),
            final(self)@.fits(r.model()),
    {
        if self.ns.len() == 0 {
            self.erred();
            return RouterAction::Done;
        }
        let entry: PendingDownstream = self.ns.remove(0);
        assert(old(self)@.ns[0] == entry && entry.wf());
        let op: u8 = entry.admin_op;
        let cid: u32 = entry.correlation_id;
        let first: u8 = if resp.len() > 0 {
            resp[0]
        } else {
            0
        };
        if op == loam_admin_wire::OP_GET_FILE {
            self.handle_getfile_lookup_response(cid, resp)
        } else if op == loam_admin_wire::OP_LIST_FILES {
            self.handle_listfiles_response(cid, resp)
        } else if op == loam_admin_wire::OP_STAT_FILE || op == loam_admin_wire::OP_READ_FILE_RANGE {
            self.handle_pathread_lookup_response(entry, resp)
        } else if op == GC_OP_CHECK {
            self.gc_apply_check(resp)
        } else if op == loam_admin_wire::OP_DELETE_FILE {
            let status: u8 = if first == loam_wire::OP_UNBIND {
                loam_admin_wire::STATUS_OK
            } else {
                loam_admin_wire::STATUS_NOT_FOUND
            };
            self.reply(admin_frames::ack(op, cid, status))
        } else if op == loam_admin_wire::OP_PUT_FILE {
            self.handle_putfile_bind_response(entry, first == loam_wire::OP_BIND)
        } else {
            let status: u8 = if first == loam_wire::OP_BIND {
                loam_admin_wire::STATUS_OK
            } else {
                loam_admin_wire::STATUS_NAK
            };
            self.reply(admin_frames::ack(loam_admin_wire::OP_BIND, cid, status))
        }
    }

    fn emit_putfile_object_stage(&mut self, idx: usize, cid: u32) -> (r: RouterAction)
        requires
            old(self).wf(),
            idx < PUTFILE_CAP,
        ensures
            final(self).wf(),
            (final(self)@, r.model()) == old(self)@.describe(idx as int, cid),
            final(self)@.fits(r.model()),
    {
        assert(self@.putfiles[idx as int] == self.putfiles@[idx as int]@);
        let frame: Vec<u8> = admin_frames::describe_request(
            &self.putfiles[idx].digest,
            self.putfiles[idx].ns_root.as_slice(),
            self.putfiles[idx].path.as_slice(),
            self.putfiles[idx].body_len,
            self.putfiles[idx].revision,
        );
        self.set_stage(idx, PUTFILE_STAGE_OBJECT);
        self.forward(Stream::Object, pending(loam_admin_wire::OP_PUT_FILE, cid, idx as u16), frame)
    }

    fn handle_putfile_body_response(&mut self, entry: PendingDownstream, resp: &[u8]) -> (r: RouterAction)
        requires
            old(self).wf(),
            entry.wf(),
            entry.admin_op == loam_admin_wire::OP_PUT_FILE,
        ensures
            final(self).wf(),
            (final(self)@, r.model()) == old(self)@.file_body_stored(entry, resp@),
            final(self)@.fits(r.model()),
    {
        let idx: usize = entry.putfile_idx as usize;
        let cid: u32 = entry.correlation_id;
        match loam_body_wire::decode_put_resp(resp) {
            Err(_) => {
                self.free_putfile_slot(idx);
                self.reply(putfile_nak(cid))
            },
            Ok(d) => {
                self.set_digest(idx, key_of(d));
                self.emit_putfile_object_stage(idx, cid)
            },
        }
    }

    fn handle_spf_open_response(&mut self, entry: PendingDownstream, resp: &[u8]) -> (r: RouterAction)
        requires
            old(self).wf(),
            entry.wf(),
            entry.admin_op == loam_admin_wire::OP_PUT_FILE_OPEN,
        ensures
            final(self).wf(),
            (final(self)@, r.model()) == old(self)@.stream_opened(entry, resp@),
            final(self)@.fits(r.model()),
    {
        let idx: usize = entry.putfile_idx as usize;
        let cid: u32 = entry.correlation_id;
        match loam_body_wire::decode_wopen_resp(resp) {
            Err(_) => {
                self.free_spf(idx);
                RouterAction::Reply { frame: admin_frames::open_ack(cid, loam_admin_wire::STATUS_NAK, 0) }
            },
            Ok(wid) => {
                assert(self@.spf[idx as int] == self.spf@[idx as int]@);
                self.spf[idx].wid = Some(wid);
                assert(self@.spf =~= old(self)@.spf.update(
                    idx as int,
                    StreamPut { wid: Some(wid), ..old(self)@.spf[idx as int] },
                ));
                self.reply(admin_frames::open_ack(cid, loam_admin_wire::STATUS_OK, idx as u8))
            },
        }
    }

    fn handle_spf_chunk_response(&mut self, entry: PendingDownstream, resp: &[u8]) -> (r: RouterAction)
        requires
            old(self).wf(),
            entry.wf(),
            entry.admin_op == loam_admin_wire::OP_PUT_FILE_CHUNK,
        ensures
            final(self).wf(),
            (final(self)@, r.model()) == old(self)@.chunk_taken(entry, resp@),
            final(self)@.fits(r.model()),
    {
        let cid: u32 = entry.correlation_id;
        if starts_with(resp, loam_body_wire::OP_WAPPEND) {
            self.reply(admin_frames::chunk_ack(cid, loam_admin_wire::STATUS_OK))
        } else {
            self.free_spf(entry.putfile_idx as usize);
            self.reply(admin_frames::chunk_ack(cid, loam_admin_wire::STATUS_NAK))
        }
    }

    fn handle_spf_commit_response(&mut self, entry: PendingDownstream, resp: &[u8]) -> (r: RouterAction)
        requires
            old(self).wf(),
            entry.wf(),
            entry.admin_op == loam_admin_wire::OP_PUT_FILE_COMMIT,
        ensures
            final(self).wf(),
            (final(self)@, r.model()) == old(self)@.stream_committed(entry, resp@),
            final(self)@.fits(r.model()),
    {
        let idx: usize = entry.putfile_idx as usize;
        let cid: u32 = entry.correlation_id;
        assert(self@.spf[idx as int] == self.spf@[idx as int]@);
        let ghost spf = self@.spf[idx as int];
        self.free_spf(idx);
        assert(self@.spf[idx as int] == self.spf@[idx as int]@);
        let same: bool = match loam_body_wire::decode_wcommit_resp(resp) {
            Ok(d) => bytes::bytes_equal(d, self.spf[idx].digest.as_slice()),
            Err(_) => false,
        };
        if !same {
            return self.reply(putfile_nak(cid));
        }
        match self.allocate_putfile_slot() {
            None => self.reply(putfile_nak(cid)),
            Some(place) => {
                assert(self@.putfiles[place as int] == self.putfiles@[place as int]@);
                let slot: PendingPutFile = PendingPutFile {
                    in_use: true,
                    stage: self.putfiles[place].stage,
                    correlation_id: cid,
                    kind: self.spf[idx].kind,
                    digest: self.spf[idx].digest,
                    body_len: if self.spf[idx].total_len <= u32::MAX as u64 {
                        self.spf[idx].total_len as u32
                    } else {
                        u32::MAX
                    },
                    revision: self.spf[idx].revision,
                    ns_root: bytes::to_vec(self.spf[idx].ns_root.as_slice()),
                    path: bytes::to_vec(self.spf[idx].path.as_slice()),
                };
                self.set_putfile(place, slot);
                self.emit_putfile_object_stage(place, cid)
            },
        }
    }

    fn handle_stat_response(&mut self, cid: u32, resp: &[u8]) -> (r: RouterAction)
        requires
            old(self).wf(),
        ensures
            final(self).wf(),
            (final(self)@, r.model()) == old(self)@.sized(cid, resp@),
            final(self)@.fits(r.model()),
    {
        match loam_body_wire::decode_head_resp(resp) {
            Ok(size) => self.reply(admin_frames::stat_ack(cid, loam_admin_wire::STATUS_OK, size)),
            Err(_) => self.reply(admin_frames::stat_ack(cid, refusal_status(resp), 0)),
        }
    }

    fn handle_range_body_response(&mut self, cid: u32, resp: &[u8]) -> (r: RouterAction)
        requires
            old(self).wf(),
        ensures
            final(self).wf(),
            (final(self)@, r.model()) == old(self)@.part_read(cid, resp@),
            final(self)@.fits(r.model()),
    {
        let op: u8 = loam_admin_wire::OP_READ_FILE_RANGE;
        match loam_body_wire::decode_range_resp(resp) {
            Ok(part) => self.reply(admin_frames::body_ack(op, cid, capped(part))),
            Err(_) => self.reply(admin_frames::ack(op, cid, refusal_status(resp))),
        }
    }

    fn gc_apply_scan(&mut self, resp: &[u8]) -> (r: RouterAction)
        requires
            old(self).wf(),
        ensures
            final(self).wf(),
            (final(self)@, r.model()) == old(self)@.gc_scanned(resp@),
            final(self)@.fits(r.model()),
    {
        self.gc_inflight = false;
        let mut digests: [[u8; 32]; 4] = [[0u8; 32]; 4];
        let mut keyed: [u8; 4] = [0u8; 4];
        match loam_body_wire::decode_scan_resp(resp, &mut digests, &mut keyed) {
            Err(_) => {
                self.gc_cursor = 0;
                self.erred();
                RouterAction::Done
            },
            Ok((next, count)) => {
                let ghost entries = loam_body_wire::scan_resp_parse(resp@).unwrap().1;
                let mut kept: Vec<[u8; 32]> = Vec::new();
                let mut i: usize = 0;
                assert(loam_body_wire::digest_list(kept@) =~= admin_router_state::unkeyed(entries.take(0)));
                while i < count
                    invariant
                        i <= count <= 4,
                        entries.len() == count,
                        forall|j: int| 0 <= j < count ==> #[trigger] entries[j] == (keyed@[j], digests@[j]@),
                        kept.len() <= i,
                        loam_body_wire::digest_list(kept@) == admin_router_state::unkeyed(entries.take(i as int)),
                    decreases count - i,
                {
                    let ghost before = kept@;
                    assert(entries.take(i + 1).drop_last() =~= entries.take(i as int));
                    assert(entries.take(i + 1).last() == entries[i as int]);
                    if keyed[i] == 0 {
                        kept.push(digests[i]);
                        assert(loam_body_wire::digest_list(kept@) =~= loam_body_wire::digest_list(before).push(
                            digests@[i as int]@,
                        ));
                    }
                    i += 1;
                }
                assert(entries.take(count as int) =~= entries);
                self.gc_cursor = next;
                if kept.len() > 0 {
                    self.gc_digests = kept;
                    self.gc_pos = 0;
                    self.gc_check()
                } else {
                    RouterAction::Done
                }
            },
        }
    }

    fn gc_apply_delete(&mut self, resp: &[u8]) -> (r: RouterAction)
        requires
            old(self).wf(),
        ensures
            final(self).wf(),
            (final(self)@, r.model()) == old(self)@.gc_deleted(resp@),
            final(self)@.fits(r.model()),
    {
        if starts_with(resp, loam_body_wire::OP_DELETE) {
            self.counts.gc_deleted = self.counts.gc_deleted.wrapping_add(1);
        } else {
            self.erred();
        }
        self.gc_next()
    }

    fn emit_body_admin_response(&mut self, entry: PendingDownstream, resp: &[u8]) -> (r: RouterAction)
        requires
            old(self).wf(),
        ensures
            final(self).wf(),
            (final(self)@, r.model()) == old(self)@.body_reply(entry, resp@),
            final(self)@.fits(r.model()),
    {
        let op: u8 = entry.admin_op;
        let cid: u32 = entry.correlation_id;
        if op == loam_admin_wire::OP_PUT_BODY {
            match loam_body_wire::decode_put_resp(resp) {
                Ok(digest) => self.reply(admin_frames::digest_ack(op, cid, digest)),
                Err(_) => self.reply(admin_frames::ack(op, cid, loam_admin_wire::STATUS_NAK)),
            }
        } else if op == loam_admin_wire::OP_PUT_BODY_KEYED {
            let status: u8 = if starts_with(resp, loam_body_wire::OP_PUT_KEYED) {
                loam_admin_wire::STATUS_OK
            } else {
                loam_admin_wire::STATUS_NAK
            };
            self.reply(admin_frames::ack(op, cid, status))
        } else if op == loam_admin_wire::OP_DELETE_BODY {
            match loam_body_wire::decode_delete_resp(resp) {
                Ok(existed) => self.reply(
                    admin_frames::delete_body_ack(cid, loam_admin_wire::STATUS_OK, existed),
                ),
                Err(_) => self.reply(admin_frames::delete_body_ack(cid, loam_admin_wire::STATUS_NAK, false)),
            }
        } else if op == loam_admin_wire::OP_GET_BODY || op == loam_admin_wire::OP_GET_FILE {
            match loam_body_wire::decode_get_resp(resp) {
                Ok(body) => self.reply(admin_frames::body_ack(op, cid, capped(body))),
                Err(_) => self.reply(admin_frames::ack(op, cid, refusal_status(resp))),
            }
        } else {
            self.erred();
            RouterAction::Done
        }
    }

    /// The body store answered.
    pub fn body_answer(&mut self, resp: &[u8]) -> (r: RouterAction)
        requires
            old(self).wf(),
        ensures
            final(self).wf(),
            (final(self)@, r.model()) == old(self)@.body_answered(resp@),
            final(self)@.fits(r.model()),
    {
        if self.body.len() == 0 {
            self.erred();
            return RouterAction::Done;
        }
        let entry: PendingDownstream = self.body.remove(0);
        assert(old(self)@.body[0] == entry && entry.wf());
        let op: u8 = entry.admin_op;
        if op == loam_admin_wire::OP_PUT_FILE {
            self.handle_putfile_body_response(entry, resp)
        } else if op == loam_admin_wire::OP_PUT_FILE_OPEN {
            self.handle_spf_open_response(entry, resp)
        } else if op == loam_admin_wire::OP_PUT_FILE_CHUNK {
            self.handle_spf_chunk_response(entry, resp)
        } else if op == loam_admin_wire::OP_PUT_FILE_COMMIT {
            self.handle_spf_commit_response(entry, resp)
        } else if op == loam_admin_wire::OP_STAT_FILE {
            self.handle_stat_response(entry.correlation_id, resp)
        } else if op == loam_admin_wire::OP_READ_FILE_RANGE {
            self.handle_range_body_response(entry.correlation_id, resp)
        } else if op == GC_OP_SCAN {
            self.gc_apply_scan(resp)
        } else if op == GC_OP_DELETE {
            self.gc_apply_delete(resp)
        } else {
            self.emit_body_admin_response(entry, resp)
        }
    }

    /// The object index answered.
    pub fn obj_answer(&mut self, ack: u8) -> (r: RouterAction)
        requires
            old(self).wf(),
        ensures
            final(self).wf(),
            (final(self)@, r.model()) == old(self)@.obj_answered(ack),
            final(self)@.fits(r.model()),
    {
        if self.obj.len() == 0 {
            self.erred();
            return RouterAction::Done;
        }
        let entry: PendingDownstream = self.obj.remove(0);
        assert(old(self)@.obj[0] == entry && entry.wf());
        self.handle_putfile_object_response(entry, ack)
    }

    /// A file was described, or could not be: its path is bound last.
    fn handle_putfile_object_response(&mut self, entry: PendingDownstream, ack: u8) -> (r: RouterAction)
        requires
            old(self).wf(),
            entry.wf(),
            entry.admin_op == loam_admin_wire::OP_PUT_FILE,
        ensures
            final(self).wf(),
            (final(self)@, r.model()) == old(self)@.file_described(entry, ack),
            final(self)@.fits(r.model()),
    {
        let idx: usize = entry.putfile_idx as usize;
        let cid: u32 = entry.correlation_id;
        if ack != loam_object_wire::OP_OBJ_PUT {
            self.free_putfile_slot(idx);
            return self.reply(putfile_nak(cid));
        }
        assert(self@.putfiles[idx as int] == self.putfiles@[idx as int]@);
        let id: Vec<u8> = admin_frames::object_id(&self.putfiles[idx].digest);
        let frame: Option<Vec<u8>> = admin_frames::bind_request(
            self.putfiles[idx].ns_root.as_slice(),
            self.putfiles[idx].path.as_slice(),
            id.as_slice(),
            self.putfiles[idx].kind,
            self.putfiles[idx].revision,
        );
        self.set_stage(idx, PUTFILE_STAGE_BIND);
        match frame {
            Some(frame) => self.forward(
                Stream::Namespace,
                pending(loam_admin_wire::OP_PUT_FILE, cid, idx as u16),
                frame,
            ),
            None => RouterAction::Done,
        }
    }
}

} // verus!
