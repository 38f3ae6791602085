//! The object index: a stream of requests, a log, and answers that may be owed.
//!
//! A change is logged before it is made, and nothing else is taken from the stream
//! until its record is durable or has failed. An answer that the channel does not
//! take stays owed, and nothing is taken from the stream until it is delivered.
//!
//! Neither the log nor the table of objects is touched here: a `ObjectNext` says
//! what to do, and the outcome is handed back.
use crate::bytes;
use crate::loam_limits;
use crate::loam_object_wire;
use crate::loam_object_wire::PutFields;
use vstd::prelude::*;

verus! {

/// How much is read from the channel at once.
pub const READ_BUF: usize = 1024;

/// How much of the stream is held ahead: what a step can take, and one more read. A
/// longer record is read to its end.
pub const REQ_ASM: usize = 5120;

/// The answer to a request that was not carried out.
pub const NAK: u8 = 0xFF;

/// Why a change was not made. `Absent` is an answer about the table; `Rejected`
/// says nothing about it.
#[derive(Debug, Clone, Copy, PartialEq, Eq, Structural)]
pub enum ApplyFault {
    Absent,
    Quota,
    Rejected,
}

/// How the table answered a change that it did not make.
#[derive(Debug, Clone, Copy, PartialEq, Eq, Structural)]
pub enum ArenaError {
    QuotaExceeded,
    NotPresent,
    Other,
}

/// The answers that stand for an absent object and for a quota that would be crossed.
#[derive(Debug, Clone, Copy, PartialEq, Eq, Structural)]
pub struct Acks {
    pub absent: u8,
    pub quota: u8,
}

/// The one-byte answer to a fault.
pub open spec fn fault_reply(acks: Acks, fault: ApplyFault) -> u8 {
    match fault {
        ApplyFault::Absent => acks.absent,
        ApplyFault::Quota => acks.quota,
        ApplyFault::Rejected => NAK,
    }
}

/// The one-byte answer to a fault.
pub fn reply_for(acks: &Acks, fault: ApplyFault) -> (r: u8)
    ensures
        r == fault_reply(*acks, fault),
{
    match fault {
        ApplyFault::Absent => acks.absent,
        ApplyFault::Quota => acks.quota,
        ApplyFault::Rejected => NAK,
    }
}

/// What the log has made of a record.
#[derive(Debug, Clone, Copy, PartialEq, Eq, Structural)]
pub enum AppendState {
    Pending,
    Durable,
    Failed,
}

/// A change to the table.
pub enum ObjectCommand<'a> {
    Put(PutFields<'a>),
    Update(PutFields<'a>),
    Remove(&'a [u8]),
}

/// The record describes a change.
pub open spec fn is_change(payload: Seq<u8>) -> bool {
    payload.len() > 0 && if payload[0] == loam_object_wire::OP_OBJ_PUT {
        loam_object_wire::put_parse(payload, loam_object_wire::OP_OBJ_PUT) is Ok
    } else if payload[0] == loam_object_wire::OP_OBJ_UPDATE {
        loam_object_wire::put_parse(payload, loam_object_wire::OP_OBJ_UPDATE) is Ok
    } else if payload[0] == loam_object_wire::OP_OBJ_REMOVE {
        loam_object_wire::remove_parse(payload) is Ok
    } else {
        false
    }
}

/// The fields are those that a description with this opcode holds.
pub open spec fn has_fields(payload: Seq<u8>, op: u8, p: PutFields<'_>) -> bool {
    loam_object_wire::put_parse(payload, op) == Ok::<
        (Seq<u8>, Seq<u8>, Seq<u8>, Seq<u8>, u64, u64, u8, u8, Option<(u8, u8)>),
        loam_object_wire::WireError,
    >(
        (
            p.id@,
            p.namespace@,
            p.key@,
            p.content_hash@,
            p.size_bytes,
            p.revision,
            p.data_class,
            p.replica_count,
            p.erasure,
        ),
    )
}

/// The change that a record describes, if it describes one.
pub fn command(payload: &[u8]) -> (r: Option<ObjectCommand<'_>>)
    ensures
        r is Some <==> is_change(payload@),
        match r {
            Some(ObjectCommand::Put(p)) => has_fields(payload@, loam_object_wire::OP_OBJ_PUT, p),
            Some(ObjectCommand::Update(p)) => has_fields(payload@, loam_object_wire::OP_OBJ_UPDATE, p),
            Some(ObjectCommand::Remove(id)) => loam_object_wire::remove_parse(payload@) == Ok::<
                Seq<u8>,
                loam_object_wire::WireError,
            >(id@),
            None => true,
        },
{
    let op: u8 = match loam_object_wire::peek_opcode(payload) {
        Some(op) => op,
        None => {
            return None;
        },
    };
    if op == loam_object_wire::OP_OBJ_PUT {
        match loam_object_wire::decode_put(payload) {
            Ok(p) => Some(ObjectCommand::Put(p)),
            Err(_) => None,
        }
    } else if op == loam_object_wire::OP_OBJ_UPDATE {
        match loam_object_wire::decode_update(payload) {
            Ok(p) => Some(ObjectCommand::Update(p)),
            Err(_) => None,
        }
    } else if op == loam_object_wire::OP_OBJ_REMOVE {
        match loam_object_wire::decode_remove(payload) {
            Ok(d) => Some(ObjectCommand::Remove(d.id)),
            Err(_) => None,
        }
    } else {
        None
    }
}

/// What is answered for a record, given how the table answered its change.
pub open spec fn verdict(payload: Seq<u8>, outcome: Result<(), ArenaError>) -> Result<u8, ApplyFault> {
    if !is_change(payload) {
        Err(ApplyFault::Rejected)
    } else {
        match outcome {
            Ok(_) => Ok(payload[0]),
            Err(ArenaError::QuotaExceeded) => Err(
                if payload[0] == loam_object_wire::OP_OBJ_PUT {
                    ApplyFault::Quota
                } else {
                    ApplyFault::Rejected
                },
            ),
            Err(ArenaError::NotPresent) => Err(
                if payload[0] == loam_object_wire::OP_OBJ_REMOVE {
                    ApplyFault::Absent
                } else {
                    ApplyFault::Rejected
                },
            ),
            Err(ArenaError::Other) => Err(ApplyFault::Rejected),
        }
    }
}

/// What is answered for a record, given how the table answered its change.
pub fn apply_to_arena(payload: &[u8], outcome: Result<(), ArenaError>) -> (r: Result<u8, ApplyFault>)
    ensures
        r == verdict(payload@, outcome),
{
    if command(payload).is_none() {
        return Err(ApplyFault::Rejected);
    }
    let op: u8 = payload[0];
    match outcome {
        Ok(_) => Ok(op),
        Err(ArenaError::QuotaExceeded) => if op == loam_object_wire::OP_OBJ_PUT {
            Err(ApplyFault::Quota)
        } else {
            Err(ApplyFault::Rejected)
        },
        Err(ArenaError::NotPresent) => if op == loam_object_wire::OP_OBJ_REMOVE {
            Err(ApplyFault::Absent)
        } else {
            Err(ApplyFault::Rejected)
        },
        Err(ArenaError::Other) => Err(ApplyFault::Rejected),
    }
}

/// What the table holds of an object.
#[derive(Debug, Clone, Copy, PartialEq, Eq)]
pub struct ObjectSlot {
    pub size_bytes: u64,
    pub revision: u64,
    pub data_class: u8,
    pub replica_count: u8,
    pub erasure: Option<(u8, u8)>,
}

/// The answer to a request for a description.
pub open spec fn get_reply(slot: Option<ObjectSlot>) -> Seq<u8> {
    match slot {
        Some(s) => loam_object_wire::get_found_frame(
            s.size_bytes,
            s.revision,
            s.data_class,
            s.replica_count,
            s.erasure,
        ),
        None => seq![loam_object_wire::OP_OBJ_GET] + seq![loam_object_wire::OBJ_NOT_FOUND],
    }
}

fn encode_get_reply(slot: Option<ObjectSlot>) -> (r: Vec<u8>)
    ensures
        r@ == get_reply(slot),
{
    let mut buf: [u8; 32] = [0u8; 32];
    let ghost before = buf@;
    proof {
        bytes::lemma_written_front(before, get_reply(slot));
    }
    let n: Result<usize, loam_object_wire::WireError> = match slot {
        Some(s) => loam_object_wire::encode_get_found(
            &mut buf,
            s.size_bytes,
            s.revision,
            s.data_class,
            s.replica_count,
            s.erasure,
        ),
        None => loam_object_wire::encode_get_not_found(&mut buf),
    };
    match n {
        Ok(n) => bytes::front(buf.as_slice(), n),
        Err(_) => Vec::new(),
    }
}

/// What comes off the stream.
pub enum ObjectNext {
    /// Nothing that is whole, or an answer is owed, or the step has taken enough.
    Wait,
    /// An answer is now owed.
    Answered,
    /// Bytes that begin no record were passed over.
    Skipped,
    /// Look up an object, and hand back what was found.
    Get(Vec<u8>),
    /// Log the staged record, and hand back what came of it.
    Log,
    /// Make the change in the staged record, and hand back the outcome.
    Apply,
}

/// What `next` hands out.
pub ghost enum Taken {
    Wait,
    Answered,
    Skipped,
    Get(Seq<u8>),
    Log,
    Apply,
}

impl ObjectNext {
    pub open spec fn model(self) -> Taken {
        match self {
            ObjectNext::Wait => Taken::Wait,
            ObjectNext::Answered => Taken::Answered,
            ObjectNext::Skipped => Taken::Skipped,
            ObjectNext::Get(id) => Taken::Get(id@),
            ObjectNext::Log => Taken::Log,
            ObjectNext::Apply => Taken::Apply,
        }
    }
}

/// The index between two events.
pub struct ModuleState {
    pending: Vec<u8>,
    resyncing: bool,
    owed: Option<Vec<u8>>,
    staged: Option<Vec<u8>>,
    wal_open: bool,
    wal_wanted: bool,
    acks: Acks,
    handled: u32,
    ticks: u32,
    ops_applied: u32,
    apply_errors: u32,
}

/// What the index holds.
pub ghost struct Index {
    /// What was read and not taken yet.
    pub pending: Seq<u8>,
    /// Bytes that begin no record are being passed over.
    pub resyncing: bool,
    /// An answer that was not delivered yet.
    pub owed: Option<Seq<u8>>,
    /// A record that was taken and not settled yet.
    pub staged: Option<Seq<u8>>,
    pub wal_open: bool,
    /// There is to be a log, whether it is open or not.
    pub wal_wanted: bool,
    pub acks: Acks,
    /// What this step has taken.
    pub handled: u32,
    pub ticks: u32,
    pub ops_applied: u32,
    pub apply_errors: u32,
}

pub open spec fn view_of(v: Option<Vec<u8>>) -> Option<Seq<u8>> {
    match v {
        Some(b) => Some(b@),
        None => None,
    }
}

impl View for ModuleState {
    type V = Index;

    closed spec fn view(&self) -> Index {
        Index {
            pending: self.pending@,
            resyncing: self.resyncing,
            owed: view_of(self.owed),
            staged: view_of(self.staged),
            wal_open: self.wal_open,
            wal_wanted: self.wal_wanted,
            acks: self.acks,
            handled: self.handled,
            ticks: self.ticks,
            ops_applied: self.ops_applied,
            apply_errors: self.apply_errors,
        }
    }
}

impl Index {
    /// A request could not be carried out, and is answered so.
    pub open spec fn refused(self) -> Index {
        Index { owed: Some(seq![NAK]), apply_errors: self.apply_errors.wrapping_add(1), ..self }
    }

    /// One more was taken in this step.
    pub open spec fn counted(self) -> Index {
        Index { handled: self.handled.wrapping_add(1), ..self }
    }

    /// Taking what comes next off the stream.
    pub open spec fn take(self) -> (Index, Taken) {
        if self.handled >= loam_limits::OPS_PER_STEP || self.owed is Some || self.staged is Some {
            (self, Taken::Wait)
        } else {
            match loam_object_wire::record_len(self.pending) {
                Ok(None) => (self, Taken::Wait),
                Ok(Some(n)) => Index {
                    pending: self.pending.skip(n),
                    resyncing: false,
                    ..self
                }.take_record(self.pending.take(n)),
                Err(_) => {
                    let passed = Index { pending: self.pending.skip(1), resyncing: true, ..self };
                    if self.resyncing {
                        (
                            Index { apply_errors: self.apply_errors.wrapping_add(1), ..passed }.counted(),
                            Taken::Skipped,
                        )
                    } else {
                        (passed.refused().counted(), Taken::Answered)
                    }
                },
            }
        }
    }

    /// Taking one whole record.
    pub open spec fn take_record(self, record: Seq<u8>) -> (Index, Taken) {
        if record[0] == loam_object_wire::OP_OBJ_GET {
            match loam_object_wire::get_req_parse(record) {
                Ok(id) => (self.counted(), Taken::Get(id)),
                Err(_) => (self.refused().counted(), Taken::Answered),
            }
        } else if !self.wal_open && self.wal_wanted {
            (self.refused(), Taken::Answered)
        } else {
            (
                Index { staged: Some(record), ..self },
                if self.wal_open {
                    Taken::Log
                } else {
                    Taken::Apply
                },
            )
        }
    }

    /// What came of logging the staged record.
    pub open spec fn logged(self, state: AppendState) -> (Index, Taken) {
        match state {
            AppendState::Pending => (self, Taken::Wait),
            AppendState::Durable => (self, Taken::Apply),
            AppendState::Failed => (Index { staged: None, ..self }.refused().counted(), Taken::Answered),
        }
    }

    /// What came of the change in the staged record.
    pub open spec fn settle(self, outcome: Result<(), ArenaError>) -> Index {
        let rest = Index { staged: None, ..self }.counted();
        match verdict(self.staged.unwrap(), outcome) {
            Ok(op) => Index { owed: Some(seq![op]), ops_applied: self.ops_applied.wrapping_add(1), ..rest },
            Err(fault) => Index {
                owed: Some(seq![fault_reply(self.acks, fault)]),
                apply_errors: self.apply_errors.wrapping_add(1),
                ..rest
            },
        }
    }
}

fn one(b: u8) -> (r: Vec<u8>)
    ensures
        r@ == seq![b],
{
    let mut v: Vec<u8> = Vec::new();
    v.push(b);
    assert(v@ =~= seq![b]);
    v
}

impl ModuleState {
    pub fn new(acks: Acks) -> (r: Self)
        ensures
            r@ == (Index {
                pending: Seq::empty(),
                resyncing: false,
                owed: None,
                staged: None,
                wal_open: false,
                wal_wanted: false,
                acks,
                handled: 0,
                ticks: 0,
                ops_applied: 0,
                apply_errors: 0,
            }),
    {
        ModuleState {
            pending: Vec::new(),
            resyncing: false,
            owed: None,
            staged: None,
            wal_open: false,
            wal_wanted: false,
            acks,
            handled: 0,
            ticks: 0,
            ops_applied: 0,
            apply_errors: 0,
        }
    }

    /// Whether there is to be a log, and whether it is open. A staged record belongs
    /// to the log that was open before, and is dropped.
    pub fn set_wal(&mut self, wanted: bool, open: bool)
        ensures
            final(self)@ == (Index { wal_wanted: wanted, wal_open: open, staged: None, ..old(self)@ }),
    {
        self.wal_wanted = wanted;
        self.wal_open = open;
        self.staged = None;
    }

    /// The log has been replayed: how many records it held and how many were not carried out.
    pub fn replay_done(&mut self, records: u32, errors: u32)
        ensures
            final(self)@ == (Index { ops_applied: records, apply_errors: errors, ..old(self)@ }),
    {
        self.ops_applied = records;
        self.apply_errors = errors;
    }

    /// The answer that is owed.
    pub fn owed(&self) -> (r: Option<&Vec<u8>>)
        ensures
            match r {
                Some(b) => self@.owed == Some(b@),
                None => self@.owed is None,
            },
    {
        match &self.owed {
            Some(b) => Some(b),
            None => None,
        }
    }

    /// The channel took the answer that was owed.
    pub fn delivered(&mut self)
        ensures
            final(self)@ == (Index { owed: None, ..old(self)@ }),
    {
        self.owed = None;
    }

    /// The record that is staged.
    pub fn staged(&self) -> (r: Option<&Vec<u8>>)
        ensures
            match r {
                Some(b) => self@.staged == Some(b@),
                None => self@.staged is None,
            },
    {
        match &self.staged {
            Some(b) => Some(b),
            None => None,
        }
    }

    /// Begin a step. Returns whether anything may be done in it: not while an answer
    /// is owed.
    pub fn begin_step(&mut self) -> (r: bool)
        ensures
            final(self)@ == (Index { ticks: old(self)@.ticks.wrapping_add(1), handled: 0, ..old(self)@ }),
            r == (old(self)@.owed is None),
    {
        self.ticks = self.ticks.wrapping_add(1);
        self.handled = 0;
        self.owed.is_none()
    }

    /// A staged record was resolved before anything was taken in this step.
    pub fn open_budget(&mut self)
        ensures
            final(self)@ == (Index { handled: 0, ..old(self)@ }),
    {
        self.handled = 0;
    }

    /// Whether more is to be read: while there is room for one more read, and until the
    /// record in front is whole.
    pub fn wants_input(&self) -> (r: bool)
        ensures
            r == (self@.pending.len() + READ_BUF <= REQ_ASM || loam_object_wire::record_len(self@.pending) == Ok::<
                Option<int>,
                loam_object_wire::WireError,
            >(None)),
    {
        if self.pending.len() <= REQ_ASM - READ_BUF {
            return true;
        }
        match loam_object_wire::request_record_len(self.pending.as_slice()) {
            Ok(None) => true,
            _ => false,
        }
    }

    /// Add what was read.
    pub fn refill(&mut self, chunk: &[u8])
        ensures
            final(self)@ == (Index { pending: old(self)@.pending + chunk@, ..old(self)@ }),
    {
        bytes::append(&mut self.pending, chunk);
    }

    fn refuse(&mut self)
        ensures
            final(self)@ == old(self)@.refused(),
    {
        self.apply_errors = self.apply_errors.wrapping_add(1);
        self.owed = Some(one(NAK));
    }

    fn count(&mut self)
        ensures
            final(self)@ == old(self)@.counted(),
    {
        self.handled = self.handled.wrapping_add(1);
    }

    /// Take what comes next off the stream.
    pub fn next(&mut self) -> (r: ObjectNext)
        ensures
            (final(self)@, r.model()) == old(self)@.take(),
    {
        if self.handled >= loam_limits::OPS_PER_STEP || self.owed.is_some() || self.staged.is_some() {
            return ObjectNext::Wait;
        }
        match loam_object_wire::request_record_len(self.pending.as_slice()) {
            Ok(None) => ObjectNext::Wait,
            Ok(Some(n)) => {
                let record: Vec<u8> = bytes::front(self.pending.as_slice(), n);
                self.pending = bytes::behind(self.pending.as_slice(), n);
                self.resyncing = false;
                self.take_record(record)
            },
            Err(_) => {
                let first: bool = !self.resyncing;
                self.pending = bytes::behind(self.pending.as_slice(), 1);
                self.resyncing = true;
                if first {
                    self.refuse();
                    self.count();
                    ObjectNext::Answered
                } else {
                    self.apply_errors = self.apply_errors.wrapping_add(1);
                    self.count();
                    ObjectNext::Skipped
                }
            },
        }
    }

    fn take_record(&mut self, record: Vec<u8>) -> (r: ObjectNext)
        requires
            record@.len() > 0,
        ensures
            (final(self)@, r.model()) == old(self)@.take_record(record@),
    {
        if record[0] == loam_object_wire::OP_OBJ_GET {
            return match loam_object_wire::decode_get_req(record.as_slice()) {
                Ok(id) => {
                    self.count();
                    ObjectNext::Get(bytes::to_vec(id))
                },
                Err(_) => {
                    self.refuse();
                    self.count();
                    ObjectNext::Answered
                },
            };
        }
        if !self.wal_open && self.wal_wanted {
            self.refuse();
            return ObjectNext::Answered;
        }
        self.staged = Some(record);
        if self.wal_open {
            ObjectNext::Log
        } else {
            ObjectNext::Apply
        }
    }

    /// Take what was found of an object that was asked for.
    pub fn handle_get(&mut self, slot: Option<ObjectSlot>)
        ensures
            final(self)@ == (Index { owed: Some(get_reply(slot)), ..old(self)@ }),
    {
        self.owed = Some(encode_get_reply(slot));
    }

    /// Take what came of logging the staged record.
    pub fn logged(&mut self, state: AppendState) -> (r: ObjectNext)
        ensures
            (final(self)@, r.model()) == old(self)@.logged(state),
    {
        match state {
            AppendState::Pending => ObjectNext::Wait,
            AppendState::Durable => ObjectNext::Apply,
            AppendState::Failed => {
                self.staged = None;
                self.refuse();
                self.count();
                ObjectNext::Answered
            },
        }
    }

    /// Take the outcome of the change in the staged record.
    pub fn resolve_staged(&mut self, outcome: Result<(), ArenaError>)
        requires
            old(self)@.staged is Some,
        ensures
            final(self)@ == old(self)@.settle(outcome),
    {
        let v: Result<u8, ApplyFault> = match &self.staged {
            Some(record) => apply_to_arena(record.as_slice(), outcome),
            None => Err(ApplyFault::Rejected),
        };
        self.staged = None;
        self.count();
        match v {
            Ok(op) => {
                self.ops_applied = self.ops_applied.wrapping_add(1);
                self.owed = Some(one(op));
            },
            Err(fault) => {
                self.apply_errors = self.apply_errors.wrapping_add(1);
                let b: u8 = reply_for(&self.acks, fault);
                self.owed = Some(one(b));
            },
        }
    }
}

/// While an answer is owed or a record is staged, nothing is taken from the stream.
pub proof fn lemma_owed_blocks(i: Index)
    requires
        i.owed is Some || i.staged is Some,
    ensures
        i.take() == (i, Taken::Wait),
{
}

/// A change is made only once it is durable, where there is to be a log: it is
/// handed out to be made either because there is no log, or by a log that has it.
pub proof fn lemma_durable_first(i: Index)
    ensures
        i.take().1 is Apply ==> !i.wal_open && !i.wal_wanted,
        i.logged(AppendState::Pending).1 is Wait,
        i.logged(AppendState::Pending).0 == i,
        i.logged(AppendState::Failed).0.staged is None,
        i.logged(AppendState::Failed).0.owed == Some(seq![NAK]),
{
}

/// Taking from the stream loses nothing: what was taken stands in front of what
/// stays, and is either one byte that begins no record or one whole record.
pub proof fn lemma_take_keeps_the_rest(i: Index)
    ensures
        match i.take() {
            (j, Taken::Wait) => j == i,
            (j, Taken::Log) => i.pending == j.staged.unwrap() + j.pending,
            (j, Taken::Apply) => i.pending == j.staged.unwrap() + j.pending,
            (j, _) => exists|front: Seq<u8>| i.pending == #[trigger] (front + j.pending) && front.len() > 0,
        },
{
    let j = i.take().0;
    if !(i.take().1 is Wait) {
        let n = i.pending.len() - j.pending.len();
        assert(i.pending =~= i.pending.take(n) + j.pending);
    }
}

/// A description that was sent comes off the stream as it was sent.
pub proof fn lemma_put_comes_off(
    i: Index,
    op: u8,
    id: Seq<u8>,
    namespace: Seq<u8>,
    key: Seq<u8>,
    content_hash: Seq<u8>,
    size_bytes: u64,
    revision: u64,
    data_class: u8,
    replica_count: u8,
    erasure: Option<(u8, u8)>,
    rest: Seq<u8>,
)
    requires
        op == loam_object_wire::OP_OBJ_PUT || op == loam_object_wire::OP_OBJ_UPDATE,
        id.len() <= u16::MAX,
        namespace.len() <= u16::MAX,
        key.len() <= u16::MAX,
        content_hash.len() <= u16::MAX,
        i.handled < loam_limits::OPS_PER_STEP,
        i.owed is None,
        i.staged is None,
        i.wal_open || !i.wal_wanted,
        i.pending == loam_object_wire::put_frame(
            op,
            id,
            namespace,
            key,
            content_hash,
            size_bytes,
            revision,
            data_class,
            replica_count,
            erasure,
        ) + rest,
    ensures
        i.take().0.pending == rest,
        i.take().0.staged == Some(
            loam_object_wire::put_frame(
                op,
                id,
                namespace,
                key,
                content_hash,
                size_bytes,
                revision,
                data_class,
                replica_count,
                erasure,
            ),
        ),
{
    let frame = loam_object_wire::put_frame(
        op,
        id,
        namespace,
        key,
        content_hash,
        size_bytes,
        revision,
        data_class,
        replica_count,
        erasure,
    );
    loam_object_wire::lemma_put_cut(
        op,
        id,
        namespace,
        key,
        content_hash,
        size_bytes,
        revision,
        data_class,
        replica_count,
        erasure,
        rest,
    );
    assert(i.pending.take(frame.len() as int) =~= frame);
    assert(i.pending.skip(frame.len() as int) =~= rest);
    assert(frame[0] == op);
}

/// The answer to a request for a description tells all that the table holds of the object:
/// its size, its revision, its data class, how many replicas it has and how it is erasure
/// coded. Where the table holds nothing, it tells that.
pub proof fn lemma_description_is_told(slot: Option<ObjectSlot>)
    ensures
        loam_object_wire::get_resp_parse(get_reply(slot)) == Ok::<
            loam_object_wire::DecodedGetResp,
            loam_object_wire::WireError,
        >(
            match slot {
                Some(s) => loam_object_wire::DecodedGetResp::Found {
                    size_bytes: s.size_bytes,
                    revision: s.revision,
                    data_class: s.data_class,
                    replica_count: s.replica_count,
                    erasure: s.erasure,
                },
                None => loam_object_wire::DecodedGetResp::NotFound,
            },
        ),
{
    let f = get_reply(slot);
    assert(f + Seq::<u8>::empty() =~= f);
    match slot {
        Some(s) => {
            loam_object_wire::lemma_get_resp_round_trip(
                s.size_bytes,
                s.revision,
                s.data_class,
                s.replica_count,
                s.erasure,
                Seq::empty(),
            );
        },
        None => {
            loam_object_wire::lemma_get_resp_round_trip(0, 0, 0, 0, None, Seq::empty());
        },
    }
}

/// An answer that a request was carried out repeats its opcode; one that it was not says
/// why, and only a removal is told that the object is absent, and only a put that a quota
/// would be crossed.
pub proof fn lemma_outcome_is_told(i: Index, record: Seq<u8>, outcome: Result<(), ArenaError>)
    requires
        i.staged == Some(record),
        is_change(record),
    ensures
        i.settle(outcome).staged is None,
        i.settle(outcome).owed == Some(
            seq![
                match outcome {
                    Ok(_) => record[0],
                    Err(ArenaError::QuotaExceeded) => if record[0] == 4 {
                        i.acks.quota
                    } else {
                        0xFFu8
                    },
                    Err(ArenaError::NotPresent) => if record[0] == 6 {
                        i.acks.absent
                    } else {
                        0xFFu8
                    },
                    Err(ArenaError::Other) => 0xFFu8,
                },
            ],
        ),
        outcome is Ok ==> i.settle(outcome).ops_applied == i.ops_applied.wrapping_add(1),
        outcome is Err ==> i.settle(outcome).apply_errors == i.apply_errors.wrapping_add(1),
{
}

/// A request for a description comes off the stream whole, asks for the object that it
/// names, and leaves what is behind it.
pub proof fn lemma_get_comes_off(i: Index, id: Seq<u8>, rest: Seq<u8>)
    requires
        i.handled < loam_limits::OPS_PER_STEP,
        i.owed is None,
        i.staged is None,
        id.len() <= 96,
        i.pending == loam_object_wire::get_req_frame(id) + rest,
    ensures
        i.take().1 == Taken::Get(id),
        i.take().0.pending == rest,
        i.take().0.staged is None,
{
    let f = loam_object_wire::get_req_frame(id);
    loam_object_wire::lemma_get_req_cut(id, rest);
    loam_object_wire::lemma_get_req_round_trip(id, Seq::empty());
    assert(f + Seq::<u8>::empty() =~= f);
    assert((f + rest).take(f.len() as int) =~= f);
    assert((f + rest).skip(f.len() as int) =~= rest);
    assert(f[0] == loam_object_wire::OP_OBJ_GET);
}

} // verus!
