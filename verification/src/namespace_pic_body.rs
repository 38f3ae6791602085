//! The namespace router: a stream of requests, a log, commits, and answers that may
//! be owed.
//!
//! A change is logged before it is made, and nothing else is taken until its record is
//! durable or has failed. In a replicated namespace a change is proposed instead, and
//! is made and answered only once it comes back committed; until the commits of the
//! past have been seen, reads are put off. An answer that the channel does not take
//! stays owed, and nothing else is taken until it is delivered.
//!
//! Neither channels nor files are touched here: a `NsNext` says what to do, and the
//! outcome is handed back.
use crate::bytes;
use crate::loam_limits;
use crate::loam_snapshot;
use crate::loam_snapshot::{Record, SnapRecord};
use crate::loam_wire;
use crate::namespace_apply;
use crate::namespace_apply::{ApplyFault, Done, Event, EventBuf, LogEvent, Table};
use crate::namespace_provider::{CommitProof, NamespaceProvider, Provider};
use crate::namespace_reads;
use crate::namespace_reads::{ListWalk, LookupNext, RefScan};
use crate::object_pic_body::AppendState;
use vstd::prelude::*;

verus! {

/// How much is read from the channel at once.
pub const READ_BUF: usize = 256;

/// How much of the stream is held ahead: what a step can take, and one more read. A
/// longer record is read to its end.
pub const REQ_ASM: usize = 1280;

/// The answer to a request that was not carried out.
pub const NAK: u8 = 0xFF;

/// The answer to a read that has to be put off.
pub const NAK_NOT_READY: u8 = 0xFE;

/// The answer to a bind whose object is reserved for deletion.
pub const NAK_RESERVED: u8 = 0xFD;

/// An answer to a request. The answers to a reservation and a release are told apart
/// from the bytes of the others: how they are written is the business of their format.
#[derive(Debug)]
pub enum Answer {
    Bytes(Vec<u8>),
    /// An object id was to be reserved; whether it is held now.
    Reserved { held: bool },
    Released,
}

/// An answer to a request.
pub ghost enum Reply {
    Bytes(Seq<u8>),
    Reserved { held: bool },
    Released,
}

impl View for Answer {
    type V = Reply;

    open spec fn view(&self) -> Reply {
        match self {
            Answer::Bytes(b) => Reply::Bytes(b@),
            Answer::Reserved { held } => Reply::Reserved { held: *held },
            Answer::Released => Reply::Released,
        }
    }
}

/// Which stream a staged event came from.
#[derive(Debug, Clone, Copy, PartialEq, Eq)]
pub enum Stage {
    Request,
    /// `live` says that a request waits for the answer.
    Committed { live: bool, commit: CommitProof },
}

/// What comes off the stream of requests.
pub enum NsNext {
    /// Nothing that is whole, or something is owed or staged, or the step has taken enough.
    Wait,
    /// An answer may now be owed.
    Answered,
    /// Bytes that begin no record were passed over.
    Skipped,
    /// Answer a read.
    Read(Vec<u8>),
    /// Propose a change, and hand back whether it was accepted.
    Propose(EventBuf),
    /// Log the staged event, and hand back what came of it.
    Log,
    /// Make the change in the staged event.
    Apply,
}

/// What `next` hands out.
pub ghost enum Taken {
    Wait,
    Answered,
    Skipped,
    Read(Seq<u8>),
    Propose(Event),
    Log,
    Apply,
}

impl NsNext {
    pub open spec fn model(self) -> Taken {
        match self {
            NsNext::Wait => Taken::Wait,
            NsNext::Answered => Taken::Answered,
            NsNext::Skipped => Taken::Skipped,
            NsNext::Read(b) => Taken::Read(b@),
            NsNext::Propose(e) => Taken::Propose(e@),
            NsNext::Log => Taken::Log,
            NsNext::Apply => Taken::Apply,
        }
    }
}

/// The router between two events.
pub struct ModuleState<const N: usize> {
    pub provider: NamespaceProvider<N>,
    pending: Vec<u8>,
    resyncing: bool,
    owed: Option<Answer>,
    staged: Option<EventBuf>,
    stage: Stage,
    listening: bool,
    wal_open: bool,
    wal_wanted: bool,
    replicated: bool,
    read_ready: bool,
    outstanding: u32,
    last_commit: Option<CommitProof>,
    handled: u32,
    ticks: u32,
    ops_applied: u32,
    apply_errors: u32,
    snap_misses: u32,
}

/// What the router holds.
pub ghost struct Router {
    pub provider: Provider,
    /// What was read and not taken yet.
    pub pending: Seq<u8>,
    /// Bytes that begin no record are being passed over.
    pub resyncing: bool,
    /// An answer that was not delivered yet.
    pub owed: Option<Reply>,
    /// An event that was taken and not settled yet.
    pub staged: Option<Event>,
    /// Where it came from.
    pub stage: Stage,
    /// Somebody hears the answers.
    pub listening: bool,
    pub wal_open: bool,
    /// There is to be a log, whether it is open or not.
    pub wal_wanted: bool,
    pub replicated: bool,
    /// The commits of the past have been seen.
    pub read_ready: bool,
    /// Proposals that have not come back.
    pub outstanding: u32,
    /// What came with the last commit that was applied.
    pub last_commit: Option<CommitProof>,
    /// What this step has taken.
    pub handled: u32,
    pub ticks: u32,
    pub ops_applied: u32,
    pub apply_errors: u32,
    /// Lookups that the snapshot answered.
    pub snap_misses: u32,
}

impl<const N: usize> View for ModuleState<N> {
    type V = Router;

    closed spec fn view(&self) -> Router {
        Router {
            provider: self.provider@,
            pending: self.pending@,
            resyncing: self.resyncing,
            owed: match self.owed {
                Some(a) => Some(a@),
                None => None,
            },
            staged: match self.staged {
                Some(e) => Some(e@),
                None => None,
            },
            stage: self.stage,
            listening: self.listening,
            wal_open: self.wal_open,
            wal_wanted: self.wal_wanted,
            replicated: self.replicated,
            read_ready: self.read_ready,
            outstanding: self.outstanding,
            last_commit: self.last_commit,
            handled: self.handled,
            ticks: self.ticks,
            ops_applied: self.ops_applied,
            apply_errors: self.apply_errors,
            snap_misses: self.snap_misses,
        }
    }
}

/// A committed record, or what else comes on that stream.
pub enum Committed<'a> {
    /// The commits of the past have all been seen.
    Drained,
    /// Bytes that are no commit of a namespace record.
    Garbage,
    /// A commit of an event.
    Commit { event: LogEvent<'a>, commit: CommitProof },
}

impl Router {
    /// An answer, where somebody hears it.
    pub open spec fn respond(self, bytes: Seq<u8>) -> Router {
        self.reply(Reply::Bytes(bytes))
    }

    /// An answer of any kind, where somebody hears it.
    pub open spec fn reply(self, answer: Reply) -> Router {
        if self.listening {
            Router { owed: Some(answer), ..self }
        } else {
            self
        }
    }

    /// A request could not be carried out, and is answered so.
    pub open spec fn refused(self) -> Router {
        Router { apply_errors: self.apply_errors.wrapping_add(1), ..self }.respond(seq![NAK])
    }

    /// One more was taken in this step.
    pub open spec fn counted(self) -> Router {
        Router { handled: self.handled.wrapping_add(1), ..self }
    }

    /// Nothing else can be taken.
    pub open spec fn is_busy(self) -> bool {
        self.owed is Some || self.staged is Some
    }

    /// More is to be read: there is room for one more read, or the record in front is not
    /// whole yet.
    pub open spec fn wants_input(self) -> bool {
        self.pending.len() + READ_BUF <= REQ_ASM || loam_wire::record_len(self.pending) == Ok::<
            Option<int>,
            loam_wire::WireError,
        >(None)
    }

    /// Taking what comes next off the stream of requests.
    pub open spec fn take(self) -> (Router, Taken) {
        if self.handled >= loam_limits::OPS_PER_STEP || self.is_busy() {
            (self, Taken::Wait)
        } else {
            match loam_wire::record_len(self.pending) {
                Ok(None) => (self, Taken::Wait),
                Ok(Some(n)) => Router {
                    pending: self.pending.skip(n),
                    resyncing: false,
                    ..self
                }.take_record(self.pending.take(n)),
                Err(_) => {
                    let passed = Router { pending: self.pending.skip(1), resyncing: true, ..self };
                    if self.resyncing {
                        (
                            Router { apply_errors: self.apply_errors.wrapping_add(1), ..passed }.counted(),
                            Taken::Skipped,
                        )
                    } else {
                        (passed.refused().counted(), Taken::Answered)
                    }
                },
            }
        }
    }

    /// Taking one whole request.
    pub open spec fn take_record(self, record: Seq<u8>) -> (Router, Taken) {
        if is_read(record[0]) {
            if self.replicated && !self.read_ready {
                (self.respond(seq![NAK_NOT_READY]).counted(), Taken::Answered)
            } else {
                (self.counted(), Taken::Read(record))
            }
        } else {
            self.take_change(Event::Record(record))
        }
    }

    /// Taking one change: a record, a reservation or a release, all the same.
    pub open spec fn take_change(self, e: Event) -> (Router, Taken) {
        if self.replicated {
            (self.counted(), Taken::Propose(e))
        } else if !self.wal_open && self.wal_wanted {
            (self.refused().counted(), Taken::Answered)
        } else {
            self.stage(e, Stage::Request)
        }
    }

    /// Taking the first `n` bytes off the stream, which are the request for this event.
    pub open spec fn take_event(self, n: int, e: Event) -> (Router, Taken) {
        if self.handled >= loam_limits::OPS_PER_STEP || self.is_busy() {
            (self, Taken::Wait)
        } else {
            Router { pending: self.pending.skip(n), resyncing: false, ..self }.take_change(e)
        }
    }

    /// Staging an event, to be logged first where there is a log.
    pub open spec fn stage(self, e: Event, stage: Stage) -> (Router, Taken) {
        (
            Router { staged: Some(e), stage, ..self },
            if self.wal_open {
                Taken::Log
            } else {
                Taken::Apply
            },
        )
    }

    /// Whether a proposal was accepted.
    pub open spec fn proposed(self, accepted: bool) -> Router {
        if accepted {
            Router { outstanding: self.outstanding.wrapping_add(1), ..self }
        } else {
            self.refused()
        }
    }

    /// A proposal has come back, if one waits for it.
    pub open spec fn returned(self, live: bool) -> Router {
        if live && self.outstanding > 0 {
            Router { outstanding: (self.outstanding - 1) as u32, ..self }
        } else {
            self
        }
    }

    /// The staged event could not be made durable.
    pub open spec fn unlogged(self) -> Router {
        let rest = Router { staged: None, apply_errors: self.apply_errors.wrapping_add(1), ..self };
        match self.stage {
            Stage::Request => rest.respond(seq![NAK]).counted(),
            Stage::Committed { live, .. } => if live {
                rest.returned(true).respond(seq![NAK])
            } else {
                rest
            },
        }
    }

    /// What came of logging the staged event.
    pub open spec fn logged(self, state: AppendState) -> (Router, Taken) {
        match state {
            AppendState::Pending => (self, Taken::Wait),
            AppendState::Durable => (self, Taken::Apply),
            AppendState::Failed => (self.unlogged(), Taken::Answered),
        }
    }

    /// Making the change in the staged event. `found` is what the snapshot holds for its
    /// key.
    pub open spec fn settle(self, found: Option<Record>) -> Router {
        let (table, r) = self.provider.table.apply_event(self.staged.unwrap(), found);
        let made = Router { provider: Provider { table, ..self.provider }, staged: None, ..self };
        let noted = match r {
            Ok(_) => Router {
                ops_applied: self.ops_applied.wrapping_add(1),
                last_commit: match self.stage {
                    Stage::Request => self.last_commit,
                    Stage::Committed { commit, .. } => Some(commit),
                },
                ..made
            },
            Err(_) => Router { apply_errors: self.apply_errors.wrapping_add(1), ..made },
        };
        match self.stage {
            Stage::Request => noted.reply(applied_reply(r)).counted(),
            Stage::Committed { live, .. } => if live {
                noted.returned(true).reply(applied_reply(r))
            } else {
                noted
            },
        }
    }

    /// Taking a commit.
    pub open spec fn take_commit(self, e: Event, commit: CommitProof) -> (Router, Taken) {
        let live = self.outstanding > 0;
        let failed = Router { apply_errors: self.apply_errors.wrapping_add(1), ..self };
        if !self.wal_open && self.wal_wanted {
            (
                if live {
                    failed.returned(true).respond(seq![NAK])
                } else {
                    failed
                },
                Taken::Answered,
            )
        } else {
            self.stage(e, Stage::Committed { live, commit })
        }
    }
}

/// The opcode is that of a read.
pub open spec fn is_read(op: u8) -> bool {
    op == loam_wire::OP_LOOKUP || op == loam_wire::OP_LIST || op == loam_wire::OP_REFERENCED
}

/// The answer to a change: one byte, but for a reservation, which is answered with
/// whether the id is held, and for a release.
pub open spec fn applied_reply(r: Result<Done, ApplyFault>) -> Reply {
    match r {
        Ok(Done::Op(op)) => Reply::Bytes(seq![op]),
        Ok(Done::Reserved { held }) => Reply::Reserved { held },
        Ok(Done::Released) => Reply::Released,
        Err(ApplyFault::Reserved) => Reply::Bytes(seq![NAK_RESERVED]),
        Err(ApplyFault::Rejected) => Reply::Bytes(seq![NAK]),
    }
}

/// The answer to a change.
pub fn respond_applied(r: Result<Done, ApplyFault>) -> (a: Answer)
    ensures
        a@ == applied_reply(r),
{
    match r {
        Ok(Done::Op(op)) => Answer::Bytes(one(op)),
        Ok(Done::Reserved { held }) => Answer::Reserved { held },
        Ok(Done::Released) => Answer::Released,
        Err(ApplyFault::Reserved) => Answer::Bytes(one(NAK_RESERVED)),
        Err(ApplyFault::Rejected) => Answer::Bytes(one(NAK)),
    }
}

fn one(b: u8) -> (r: Vec<u8>)
    ensures
        r@ == seq![b],
{
    let mut v: Vec<u8> = Vec::new();
    v.push(b);
    assert(v@ =~= seq![b]);
    v
}

impl<const N: usize> ModuleState<N> {
    /// What every operation keeps.
    pub closed spec fn wf(&self) -> bool {
        self.provider.wf()
    }

    /// What the operations keep, said of the model: the laws of the table hold of it.
    pub proof fn lemma_wf(&self)
        requires
            self.wf(),
        ensures
            self@.provider.table.arena.wf(),
            self@.provider.table.arena.slots.len() == N,
            N <= u32::MAX,
    {
    }

    pub fn new(listening: bool) -> (r: Self)
        requires
            N <= u32::MAX,
        ensures
            r.wf(),
            r@ == (Router {
                provider: Provider::fresh(N as nat),
                pending: Seq::empty(),
                resyncing: false,
                owed: None,
                staged: None,
                stage: Stage::Request,
                listening,
                wal_open: false,
                wal_wanted: false,
                replicated: false,
                read_ready: true,
                outstanding: 0,
                last_commit: None,
                handled: 0,
                ticks: 0,
                ops_applied: 0,
                apply_errors: 0,
                snap_misses: 0,
            }),
    {
        ModuleState {
            provider: NamespaceProvider::new(),
            pending: Vec::new(),
            resyncing: false,
            owed: None,
            staged: None,
            stage: Stage::Request,
            listening,
            wal_open: false,
            wal_wanted: false,
            replicated: false,
            read_ready: true,
            outstanding: 0,
            last_commit: None,
            handled: 0,
            ticks: 0,
            ops_applied: 0,
            apply_errors: 0,
            snap_misses: 0,
        }
    }

    /// Whether there is to be a log, and whether it is open. A staged event belongs
    /// to the log that was open before, and is dropped.
    pub fn set_wal(&mut self, wanted: bool, open: bool)
        requires
            old(self).wf(),
        ensures
            final(self).wf(),
            final(self)@ == (Router { wal_wanted: wanted, wal_open: open, staged: None, ..old(self)@ }),
    {
        self.wal_wanted = wanted;
        self.wal_open = open;
        self.staged = None;
    }

    /// Changes go through a metadata plane, where both of its channels are there. Then
    /// nothing is read until its past has been seen.
    pub fn set_replication_channels(&mut self, metadata_ops_chan: i32, committed_chan: i32)
        requires
            old(self).wf(),
        ensures
            final(self).wf(),
            final(self)@ == (Router {
                replicated: metadata_ops_chan >= 0 && committed_chan >= 0,
                read_ready: old(self)@.read_ready && !(metadata_ops_chan >= 0 && committed_chan >= 0),
                ..old(self)@
            }),
    {
        self.replicated = metadata_ops_chan >= 0 && committed_chan >= 0;
        if self.replicated {
            self.read_ready = false;
        }
    }

    /// Carry out one event of the log on opening it. Returns whether it could be.
    pub fn replay(&mut self, e: LogEvent<'_>, found: Option<&SnapRecord>) -> (r: bool)
        requires
            old(self).wf(),
        ensures
            final(self).wf(),
            r == (old(self)@.provider.table.apply_event(e@, namespace_apply::read_record(found)).1 is Ok),
            final(self)@ == (Router {
                provider: Provider {
                    table: old(self)@.provider.table.apply_event(e@, namespace_apply::read_record(found)).0,
                    ..old(self)@.provider
                },
                ..old(self)@
            }),
    {
        self.provider.table.apply_event(e, found).is_ok()
    }

    /// The log has been replayed: how many records it held and how many were not carried out.
    pub fn replay_done(&mut self, records: u32, errors: u32)
        requires
            old(self).wf(),
        ensures
            final(self).wf(),
            final(self)@ == (Router { ops_applied: records, apply_errors: errors, ..old(self)@ }),
    {
        self.ops_applied = records;
        self.apply_errors = errors;
    }

    /// The answer that is owed.
    pub fn owed(&self) -> (r: Option<&Answer>)
        ensures
            match r {
                Some(b) => self@.owed == Some(b@),
                None => self@.owed is None,
            },
    {
        match &self.owed {
            Some(b) => Some(b),
            None => None,
        }
    }

    /// The channel took the answer that was owed.
    pub fn delivered(&mut self)
        requires
            old(self).wf(),
        ensures
            final(self).wf(),
            final(self)@ == (Router { owed: None, ..old(self)@ }),
    {
        self.owed = None;
    }

    /// The event that is staged.
    pub fn staged(&self) -> (r: Option<&EventBuf>)
        ensures
            match r {
                Some(e) => self@.staged == Some(e@),
                None => self@.staged is None,
            },
    {
        match &self.staged {
            Some(e) => Some(e),
            None => None,
        }
    }

    /// What came with the last commit that was applied.
    pub fn last_commit(&self) -> (r: Option<CommitProof>)
        ensures
            r == self@.last_commit,
    {
        self.last_commit
    }

    /// Begin a step. Returns whether anything may be done in it.
    pub fn begin_step(&mut self) -> (r: bool)
        requires
            old(self).wf(),
        ensures
            final(self).wf(),
            final(self)@ == (Router { ticks: old(self)@.ticks.wrapping_add(1), handled: 0, ..old(self)@ }),
            r == (old(self)@.owed is None),
    {
        self.ticks = self.ticks.wrapping_add(1);
        self.handled = 0;
        self.owed.is_none()
    }

    /// A staged event was resolved before anything was taken in this step.
    pub fn open_budget(&mut self)
        requires
            old(self).wf(),
        ensures
            final(self).wf(),
            final(self)@ == (Router { handled: 0, ..old(self)@ }),
    {
        self.handled = 0;
    }

    /// What was read and not taken yet.
    pub fn pending(&self) -> (r: &[u8])
        ensures
            r@ == self@.pending,
    {
        self.pending.as_slice()
    }

    /// Whether more is to be read: while there is room for one more read, and until the
    /// record in front is whole.
    pub fn wants_input(&self) -> (r: bool)
        ensures
            r == self@.wants_input(),
    {
        if self.pending.len() <= REQ_ASM - READ_BUF {
            return true;
        }
        match loam_wire::request_record_len(self.pending.as_slice()) {
            Ok(None) => true,
            _ => false,
        }
    }

    /// Add what was read.
    pub fn refill(&mut self, chunk: &[u8])
        requires
            old(self).wf(),
        ensures
            final(self).wf(),
            final(self)@ == (Router { pending: old(self)@.pending + chunk@, ..old(self)@ }),
    {
        bytes::append(&mut self.pending, chunk);
    }

    fn respond(&mut self, b: Vec<u8>)
        requires
            old(self).wf(),
        ensures
            final(self).wf(),
            final(self)@ == old(self)@.respond(b@),
    {
        self.reply(Answer::Bytes(b));
    }

    fn reply(&mut self, answer: Answer)
        requires
            old(self).wf(),
        ensures
            final(self).wf(),
            final(self)@ == old(self)@.reply(answer@),
    {
        if self.listening {
            self.owed = Some(answer);
        }
    }

    fn refuse(&mut self)
        requires
            old(self).wf(),
        ensures
            final(self).wf(),
            final(self)@ == old(self)@.refused(),
    {
        self.apply_errors = self.apply_errors.wrapping_add(1);
        self.respond(one(NAK));
    }

    fn count(&mut self)
        requires
            old(self).wf(),
        ensures
            final(self).wf(),
            final(self)@ == old(self)@.counted(),
    {
        self.handled = self.handled.wrapping_add(1);
    }

    fn stage_event(&mut self, e: EventBuf, stage: Stage) -> (r: NsNext)
        requires
            old(self).wf(),
        ensures
            final(self).wf(),
            (final(self)@, r.model()) == old(self)@.stage(e@, stage),
    {
        self.staged = Some(e);
        self.stage = stage;
        if self.wal_open {
            NsNext::Log
        } else {
            NsNext::Apply
        }
    }

    /// Take what comes next off the stream of requests.
    pub fn next(&mut self) -> (r: NsNext)
        requires
            old(self).wf(),
        ensures
            final(self).wf(),
            (final(self)@, r.model()) == old(self)@.take(),
    {
        if self.handled >= loam_limits::OPS_PER_STEP || self.owed.is_some() || self.staged.is_some() {
            return NsNext::Wait;
        }
        match loam_wire::request_record_len(self.pending.as_slice()) {
            Ok(None) => NsNext::Wait,
            Ok(Some(n)) => {
                let record: Vec<u8> = bytes::front(self.pending.as_slice(), n);
                self.pending = bytes::behind(self.pending.as_slice(), n);
                self.resyncing = false;
                self.take_record(record)
            },
            Err(_) => {
                let first: bool = !self.resyncing;
                self.pending = bytes::behind(self.pending.as_slice(), 1);
                self.resyncing = true;
                if first {
                    self.refuse();
                    self.count();
                    NsNext::Answered
                } else {
                    self.apply_errors = self.apply_errors.wrapping_add(1);
                    self.count();
                    NsNext::Skipped
                }
            },
        }
    }

    fn take_record(&mut self, record: Vec<u8>) -> (r: NsNext)
        requires
            old(self).wf(),
            record@.len() > 0,
        ensures
            final(self).wf(),
            (final(self)@, r.model()) == old(self)@.take_record(record@),
    {
        let op: u8 = record[0];
        if op == loam_wire::OP_LOOKUP || op == loam_wire::OP_LIST || op == loam_wire::OP_REFERENCED {
            if self.replicated && !self.read_ready {
                self.respond(one(NAK_NOT_READY));
                self.count();
                return NsNext::Answered;
            }
            self.count();
            return NsNext::Read(record);
        }
        self.take_change(EventBuf::Record(record))
    }

    fn take_change(&mut self, e: EventBuf) -> (r: NsNext)
        requires
            old(self).wf(),
        ensures
            final(self).wf(),
            (final(self)@, r.model()) == old(self)@.take_change(e@),
    {
        if self.replicated {
            self.count();
            return NsNext::Propose(e);
        }
        if !self.wal_open && self.wal_wanted {
            self.refuse();
            self.count();
            return NsNext::Answered;
        }
        self.stage_event(e, Stage::Request)
    }

    /// Take the first `n` bytes off the stream of requests, which are the request for
    /// this event: one that another format than the namespace wire's describes.
    pub fn take_event(&mut self, n: usize, e: LogEvent<'_>) -> (r: NsNext)
        requires
            old(self).wf(),
            n <= old(self)@.pending.len(),
        ensures
            final(self).wf(),
            (final(self)@, r.model()) == old(self)@.take_event(n as int, e@),
    {
        if self.handled >= loam_limits::OPS_PER_STEP || self.owed.is_some() || self.staged.is_some() {
            return NsNext::Wait;
        }
        self.pending = bytes::behind(self.pending.as_slice(), n);
        self.resyncing = false;
        self.take_change(e.to_buf())
    }

    /// Answer a lookup. Returns the key to search the snapshot for, where that is
    /// needed.
    pub fn handle_lookup(&mut self, request: &[u8]) -> (r: Option<(Vec<u8>, Vec<u8>)>)
        requires
            old(self).wf(),
        ensures
            final(self).wf(),
            match loam_wire::lookup_req_parse(request@) {
                Err(_) => r is None && final(self)@ == old(self)@.refused(),
                Ok((root, path)) => {
                    let t = old(self)@.provider.table;
                    if t.arena.get(root, path) is None && t.snap_active {
                        &&& r matches Some(key) && key.0@ == root && key.1@ == path
                        &&& final(self)@ == old(self)@
                    } else {
                        r is None && final(self)@ == old(self)@.respond(
                            namespace_reads::lookup_answer(t, root, path, None),
                        )
                    }
                },
            },
    {
        match namespace_reads::handle_lookup(&self.provider.table, request) {
            LookupNext::Malformed => {
                self.refuse();
                None
            },
            LookupNext::Reply(b) => {
                self.respond(b);
                None
            },
            LookupNext::Search { root, path } => Some((root, path)),
        }
    }

    /// Answer a lookup with what the snapshot holds for its key.
    pub fn lookup_done(&mut self, request: &[u8], found: Option<&SnapRecord>)
        requires
            old(self).wf(),
        ensures
            final(self).wf(),
            match loam_wire::lookup_req_parse(request@) {
                Err(_) => final(self)@ == old(self)@.refused(),
                Ok((root, path)) => final(self)@ == (Router {
                    snap_misses: if loam_snapshot::record_for(
                        namespace_apply::read_record(found),
                        root,
                        path,
                    ) is Some {
                        old(self)@.snap_misses.wrapping_add(1)
                    } else {
                        old(self)@.snap_misses
                    },
                    ..old(self)@
                }).respond(
                    namespace_reads::snapshot_answer(root, path, namespace_apply::read_record(found)),
                ),
            },
    {
        match namespace_reads::lookup_found(request, found) {
            None => self.refuse(),
            Some((b, hit)) => {
                if hit {
                    self.snap_misses = self.snap_misses.wrapping_add(1);
                }
                self.respond(b);
            },
        }
    }

    /// Begin one page of a listing. `None` for what is no request for one, which is
    /// answered so.
    pub fn handle_list(&mut self, request: &[u8]) -> (r: Option<ListWalk>)
        requires
            old(self).wf(),
        ensures
            final(self).wf(),
            match loam_wire::list_req_parse(request@) {
                Err(_) => r is None && final(self)@ == old(self)@.refused(),
                Ok((root, cursor, max)) => {
                    &&& final(self)@ == old(self)@
                    &&& r matches Some(w) && w.wf() && w@ == namespace_reads::Walk::begin(
                        old(self)@.provider.table,
                        old(self)@.provider.snap_count,
                        root,
                        cursor,
                        max,
                    )
                },
            },
    {
        match namespace_reads::handle_list(&self.provider.table, self.provider.snap_count, request) {
            Some(w) => Some(w),
            None => {
                self.refuse();
                None
            },
        }
    }

    /// Answer with a page of a listing, where it fits into `room` bytes.
    pub fn list_done(&mut self, walk: &ListWalk, room: usize)
        requires
            old(self).wf(),
            walk.wf(),
            N + old(self)@.provider.snap_count <= u32::MAX,
        ensures
            final(self).wf(),
            ({
                let frame = loam_wire::list_resp_frame(
                    walk@.cursor(N as nat, old(self)@.provider.snap_count),
                    walk@.paths,
                );
                final(self)@ == if frame.len() <= room {
                    old(self)@.respond(frame)
                } else {
                    old(self)@.refused()
                }
            }),
    {
        match walk.finish(N as u32, self.provider.snap_count, room) {
            Some(b) => self.respond(b),
            None => self.refuse(),
        }
    }

    /// Begin to answer a question about references. `None` for what is none, which is
    /// answered so.
    pub fn handle_referenced(&mut self, request: &[u8]) -> (r: Option<RefScan>)
        requires
            old(self).wf(),
        ensures
            final(self).wf(),
            match loam_wire::referenced_req_parse(request@) {
                Err(_) => r is None && final(self)@ == old(self)@.refused(),
                Ok((cursor, object_id)) => {
                    &&& final(self)@ == old(self)@
                    &&& r matches Some(s) && s@ == namespace_reads::Scan::begin(
                        old(self)@.provider.table,
                        old(self)@.provider.snap_count,
                        cursor,
                        object_id,
                    )
                },
            },
    {
        match namespace_reads::handle_referenced(&self.provider.table, self.provider.snap_count, request) {
            Some(s) => Some(s),
            None => {
                self.refuse();
                None
            },
        }
    }

    /// Answer a question about references.
    pub fn referenced_done(&mut self, scan: &RefScan)
        requires
            old(self).wf(),
        ensures
            final(self).wf(),
            final(self)@ == old(self)@.respond(
                loam_wire::referenced_resp_frame(
                    scan@.referenced,
                    scan@.cursor(old(self)@.provider.table, old(self)@.provider.snap_count),
                ),
            ),
    {
        let b: Vec<u8> = scan.finish(&self.provider.table, self.provider.snap_count);
        self.respond(b);
    }

    /// Whether the metadata plane accepted a proposal.
    pub fn proposed(&mut self, accepted: bool)
        requires
            old(self).wf(),
        ensures
            final(self).wf(),
            final(self)@ == old(self)@.proposed(accepted),
    {
        if accepted {
            self.outstanding = self.outstanding.wrapping_add(1);
        } else {
            self.refuse();
        }
    }

    fn proposal_returned(&mut self)
        requires
            old(self).wf(),
        ensures
            final(self).wf(),
            final(self)@ == old(self)@.returned(true),
    {
        self.outstanding = self.outstanding.saturating_sub(1);
    }

    /// What came of logging the staged event.
    pub fn logged(&mut self, state: AppendState) -> (r: NsNext)
        requires
            old(self).wf(),
        ensures
            final(self).wf(),
            (final(self)@, r.model()) == old(self)@.logged(state),
    {
        match state {
            AppendState::Pending => NsNext::Wait,
            AppendState::Durable => NsNext::Apply,
            AppendState::Failed => {
                self.staged = None;
                self.apply_errors = self.apply_errors.wrapping_add(1);
                match self.stage {
                    Stage::Request => {
                        self.respond(one(NAK));
                        self.count();
                    },
                    Stage::Committed { live, commit: _ } => {
                        if live {
                            self.proposal_returned();
                            self.respond(one(NAK));
                        }
                    },
                }
                NsNext::Answered
            },
        }
    }

    /// The key to look up in the snapshot before the staged event can be settled.
    pub fn search_key(&self) -> (r: Option<(Vec<u8>, Vec<u8>)>)
        requires
            self.wf(),
        ensures
            match self@.staged {
                Some(e) => match namespace_apply::searched_for(self@.provider.table, e) {
                    Some((root, path)) => r matches Some(key) && key.0@ == root && key.1@ == path,
                    None => r is None,
                },
                None => r is None,
            },
    {
        match &self.staged {
            Some(e) => self.provider.table.search_key_of(e.as_event()),
            None => None,
        }
    }

    /// Make the change in the staged event.
    pub fn resolve_staged(&mut self, found: Option<&SnapRecord>)
        requires
            old(self).wf(),
            old(self)@.staged is Some,
        ensures
            final(self).wf(),
            final(self)@ == old(self)@.settle(namespace_apply::read_record(found)),
    {
        let e: EventBuf = match self.staged.take() {
            Some(e) => e,
            None => EventBuf::Record(Vec::new()),
        };
        let result: Result<Done, ApplyFault> = self.provider.table.apply_event(e.as_event(), found);
        if result.is_ok() {
            self.ops_applied = self.ops_applied.wrapping_add(1);
        } else {
            self.apply_errors = self.apply_errors.wrapping_add(1);
        }
        match self.stage {
            Stage::Request => {
                self.reply(respond_applied(result));
                self.count();
            },
            Stage::Committed { live, commit } => {
                if result.is_ok() {
                    self.last_commit = Some(commit);
                }
                if live {
                    self.proposal_returned();
                    self.reply(respond_applied(result));
                }
            },
        }
    }

    /// Whether a commit can be taken: not while something is owed or staged.
    pub fn wants_committed(&self) -> (r: bool)
        ensures
            r == (self@.replicated && !self@.is_busy()),
    {
        self.replicated && self.owed.is_none() && self.staged.is_none()
    }

    /// Take what came on the stream of commits.
    pub fn drain_committed(&mut self, event: Committed<'_>) -> (r: NsNext)
        requires
            old(self).wf(),
            !old(self)@.is_busy(),
        ensures
            final(self).wf(),
            match event {
                Committed::Drained => r is Skipped && final(self)@ == (Router { read_ready: true, ..old(self)@ }),
                Committed::Garbage => r is Skipped && final(self)@ == (Router {
                    apply_errors: old(self)@.apply_errors.wrapping_add(1),
                    ..old(self)@
                }),
                Committed::Commit { event, commit } => (final(self)@, r.model()) == old(self)@.take_commit(
                    event@,
                    commit,
                ),
            },
    {
        match event {
            Committed::Drained => {
                self.read_ready = true;
                NsNext::Skipped
            },
            Committed::Garbage => {
                self.apply_errors = self.apply_errors.wrapping_add(1);
                NsNext::Skipped
            },
            Committed::Commit { event, commit } => {
                let live: bool = self.outstanding > 0;
                if !self.wal_open && self.wal_wanted {
                    self.apply_errors = self.apply_errors.wrapping_add(1);
                    if live {
                        self.proposal_returned();
                        self.respond(one(NAK));
                    }
                    return NsNext::Answered;
                }
                self.stage_event(event.to_buf(), Stage::Committed { live, commit })
            },
        }
    }
}

/// While an answer is owed or an event is staged, nothing is taken from the stream.
pub proof fn lemma_owed_blocks(s: Router, n: int, e: Event)
    requires
        s.is_busy(),
    ensures
        s.take() == (s, Taken::Wait),
        s.take_event(n, e) == (s, Taken::Wait),
{
}

/// The stream does not come to a halt: a step that can take something does so, or more
/// is read, however long the record in front is.
pub proof fn lemma_stream_does_not_halt(s: Router)
    requires
        s.handled < loam_limits::OPS_PER_STEP,
        !s.is_busy(),
    ensures
        s.wants_input() || !(s.take().1 is Wait),
{
}

/// A change is made only once it is durable, where there is to be a log.
pub proof fn lemma_durable_first(s: Router, n: int, e: Event, commit: CommitProof)
    ensures
        s.take().1 is Apply ==> !s.wal_open && !s.wal_wanted,
        s.take_event(n, e).1 is Apply ==> !s.wal_open && !s.wal_wanted,
        s.take_commit(e, commit).1 is Apply ==> !s.wal_open && !s.wal_wanted,
        s.logged(AppendState::Pending).0 == s,
        s.logged(AppendState::Failed).0.staged is None,
        s.logged(AppendState::Failed).0.provider == s.provider,
{
}

/// In a replicated namespace a request changes nothing by itself: it is proposed, or
/// it is a read.
pub proof fn lemma_replicated_only_proposes(s: Router, n: int, e: Event)
    requires
        s.replicated,
    ensures
        s.take().0.provider == s.provider,
        !(s.take().1 is Log) && !(s.take().1 is Apply),
        s.take_event(n, e).0.provider == s.provider,
        !(s.take_event(n, e).1 is Log) && !(s.take_event(n, e).1 is Apply),
{
}

/// A commit that no request waits for is carried out without an answer, and one that
/// a request waits for is answered once, in the order of the proposals.
pub proof fn lemma_commits_are_answered_once(s: Router, e: Event, commit: CommitProof, found: Option<Record>)
    requires
        s.staged is None,
        s.owed is None,
        s.listening,
        s.wal_open || !s.wal_wanted,
    ensures
        ({
            let done = s.take_commit(e, commit).0.settle(found);
            &&& s.outstanding == 0 ==> done.owed is None && done.outstanding == 0
            &&& s.outstanding > 0 ==> done.owed is Some && done.outstanding == s.outstanding - 1
            &&& done.provider.table == s.provider.table.apply_event(e, found).0
        }),
{
}

/// The proof that is kept is that of the last commit that was carried out.
pub proof fn lemma_last_commit_is_kept(s: Router, e: Event, commit: CommitProof, found: Option<Record>)
    requires
        s.wal_open || !s.wal_wanted,
    ensures
        s.take_commit(e, commit).0.settle(found).last_commit == if s.provider.table.apply_event(
            e,
            found,
        ).1 is Ok {
            Some(commit)
        } else {
            s.last_commit
        },
{
}

/// The table is what a replay of the log gives: settling a durable event keeps it so.
pub proof fn lemma_table_is_replay_of_log(
    start: Table,
    log: Seq<(Event, Option<Record>)>,
    s: Router,
    found: Option<Record>,
)
    requires
        s.staged is Some,
        s.provider.table == namespace_apply::replayed(start, log),
    ensures
        s.settle(found).provider.table == namespace_apply::replayed(start, log.push((s.staged.unwrap(), found))),
        s.unlogged().provider.table == namespace_apply::replayed(start, log),
{
    assert(log.push((s.staged.unwrap(), found)).drop_last() =~= log);
}

/// Taking from the stream loses nothing: what was taken stands in front of what stays.
pub proof fn lemma_take_keeps_the_rest(s: Router)
    ensures
        match s.take() {
            (t, Taken::Wait) => t == s,
            (t, Taken::Read(record)) => s.pending == record + t.pending,
            (t, Taken::Propose(e)) => e matches Event::Record(record) && s.pending == record + t.pending,
            (t, Taken::Log) => t.staged matches Some(Event::Record(record)) && s.pending == record + t.pending,
            (t, Taken::Apply) => t.staged matches Some(Event::Record(record)) && s.pending == record + t.pending,
            (t, _) => exists|front: Seq<u8>| s.pending == #[trigger] (front + t.pending) && front.len() > 0,
        },
{
    let t = s.take().0;
    if !(s.take().1 is Wait) {
        let n = s.pending.len() - t.pending.len();
        assert(s.pending =~= s.pending.take(n) + t.pending);
    }
}

/// A bind that was sent comes off the stream as it was sent, however the stream was
/// cut into reads and whatever follows.
pub proof fn lemma_bind_comes_off(
    s: Router,
    root: Seq<u8>,
    path: Seq<u8>,
    object_id: Seq<u8>,
    kind: u8,
    revision: u64,
    rest: Seq<u8>,
)
    requires
        root.len() <= u16::MAX,
        path.len() <= u16::MAX,
        object_id.len() <= u16::MAX,
        s.handled < loam_limits::OPS_PER_STEP,
        !s.is_busy(),
        !s.replicated,
        s.wal_open || !s.wal_wanted,
        s.pending == loam_wire::bind_frame(root, path, object_id, kind, revision) + rest,
    ensures
        s.take().0.pending == rest,
        s.take().0.staged == Some(Event::Record(loam_wire::bind_frame(root, path, object_id, kind, revision))),
{
    let frame = loam_wire::bind_frame(root, path, object_id, kind, revision);
    loam_wire::lemma_bind_cut(root, path, object_id, kind, revision, rest);
    assert(s.pending.take(frame.len() as int) =~= frame);
    assert(s.pending.skip(frame.len() as int) =~= rest);
    assert(frame[0] == loam_wire::OP_BIND);
}

} // verus!
