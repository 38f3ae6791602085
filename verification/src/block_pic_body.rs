//! The block allocator: a stream of requests, a log, and the table of volumes.
//!
//! Every request is logged before it is applied, so a table that is built again
//! from the log is the table that was there. The log is not written here: a record
//! is handed out, and whether it is durable is handed back.
use crate::block_pic_state;
use crate::block_pic_state::{PicBlockState, Volume, VolumeSlot};
use crate::bytes;
use crate::loam_block_wire;
use crate::loam_limits;
use vstd::prelude::*;

verus! {

/// How many volumes there can be.
pub const ARENA_CAPACITY: usize = loam_limits::BLOCK_SLOTS;

/// How many records one step takes.
pub const MAX_OPS_PER_STEP: u32 = loam_limits::OPS_PER_STEP;

/// How much is read from the channel at once.
pub const READ_BUF: usize = 256;

/// How much of the stream is held ahead: what a step can take, and one more read. A
/// longer record is read to its end.
pub const REQ_ASM: usize = 1280;

/// The answer to a request that was not carried out.
pub const NAK: u8 = 0xFF;

/// Carrying out a record: the table after it, and the opcode, or that nothing was done.
pub open spec fn applied(volumes: Seq<Volume>, payload: Seq<u8>) -> (Seq<Volume>, Result<u8, ()>) {
    if payload.len() == 0 {
        (volumes, Err(()))
    } else if payload[0] == loam_block_wire::OP_CREATE_VOLUME {
        match loam_block_wire::create_volume_parse(payload) {
            Ok((id, class, logical_bytes, block_size, thin)) => answered(
                volumes,
                block_pic_state::created(volumes, id, class, logical_bytes, block_size, thin),
                payload[0],
            ),
            Err(_) => (volumes, Err(())),
        }
    } else if payload[0] == loam_block_wire::OP_ALLOCATE {
        match loam_block_wire::count_op_parse(payload, loam_block_wire::OP_ALLOCATE) {
            Ok((id, count)) => answered(volumes, block_pic_state::allocated(volumes, id, count), payload[0]),
            Err(_) => (volumes, Err(())),
        }
    } else if payload[0] == loam_block_wire::OP_RELEASE {
        match loam_block_wire::count_op_parse(payload, loam_block_wire::OP_RELEASE) {
            Ok((id, count)) => answered(volumes, block_pic_state::released(volumes, id, count), payload[0]),
            Err(_) => (volumes, Err(())),
        }
    } else {
        (volumes, Err(()))
    }
}

/// The outcome of an operation on the table, with the opcode in place of its result.
pub open spec fn answered(
    before: Seq<Volume>,
    done: (Seq<Volume>, Result<block_pic_state::ApplyOk, block_pic_state::ApplyError>),
    op: u8,
) -> (Seq<Volume>, Result<u8, ()>) {
    match done.1 {
        Ok(_) => (done.0, Ok(op)),
        Err(_) => (before, Err(())),
    }
}

/// The table after these records, one after the other.
pub open spec fn replayed(volumes: Seq<Volume>, log: Seq<Seq<u8>>) -> Seq<Volume>
    decreases log.len(),
{
    if log.len() == 0 {
        volumes
    } else {
        applied(replayed(volumes, log.drop_last()), log.last()).0
    }
}

/// Carry out one record.
pub fn apply_to_arena(volumes: &mut PicBlockState<ARENA_CAPACITY>, payload: &[u8]) -> (r: Result<u8, ()>)
    requires
        old(volumes).wf(),
    ensures
        final(volumes).wf(),
        (final(volumes)@, r) == applied(old(volumes)@, payload@),
{
    let op: u8 = match loam_block_wire::peek_opcode(payload) {
        Some(op) => op,
        None => {
            return Err(());
        },
    };
    if op == loam_block_wire::OP_CREATE_VOLUME {
        match loam_block_wire::decode_create_volume(payload) {
            Ok(d) => match volumes.create_volume(
                d.volume_id,
                d.class,
                d.logical_bytes,
                d.block_size,
                d.thin_provisioned,
            ) {
                Ok(_) => Ok(op),
                Err(_) => Err(()),
            },
            Err(_) => Err(()),
        }
    } else if op == loam_block_wire::OP_ALLOCATE {
        match loam_block_wire::decode_allocate(payload) {
            Ok(d) => match volumes.allocate(d.volume_id, d.count) {
                Ok(_) => Ok(op),
                Err(_) => Err(()),
            },
            Err(_) => Err(()),
        }
    } else if op == loam_block_wire::OP_RELEASE {
        match loam_block_wire::decode_release(payload) {
            Ok(d) => match volumes.release(d.volume_id, d.count) {
                Ok(_) => Ok(op),
                Err(_) => Err(()),
            },
            Err(_) => Err(()),
        }
    } else {
        Err(())
    }
}

/// What comes off the stream.
pub enum BlockNext {
    /// Nothing that is whole, or the step has taken enough.
    Wait,
    /// Bytes that begin no record: answer so, and go on.
    Refused,
    /// More such bytes: go on.
    Skipped,
    /// A record, to be logged and then settled.
    Record(Vec<u8>),
}

/// The allocator between two steps.
pub struct ModuleState {
    pending: Vec<u8>,
    resyncing: bool,
    volumes: PicBlockState<ARENA_CAPACITY>,
    handled: u32,
    ticks: u32,
    ops_applied: u32,
    apply_errors: u32,
}

/// What the allocator holds.
pub ghost struct Allocator {
    /// What was read and not taken yet.
    pub pending: Seq<u8>,
    /// Bytes that begin no record are being passed over.
    pub resyncing: bool,
    pub volumes: Seq<Volume>,
    /// What this step has taken.
    pub handled: u32,
    pub ticks: u32,
    pub ops_applied: u32,
    pub apply_errors: u32,
}

impl View for ModuleState {
    type V = Allocator;

    closed spec fn view(&self) -> Allocator {
        Allocator {
            pending: self.pending@,
            resyncing: self.resyncing,
            volumes: self.volumes@,
            handled: self.handled,
            ticks: self.ticks,
            ops_applied: self.ops_applied,
            apply_errors: self.apply_errors,
        }
    }
}

/// What `next` hands out.
pub ghost enum Taken {
    Wait,
    Refused,
    Skipped,
    Record(Seq<u8>),
}

impl BlockNext {
    pub open spec fn model(self) -> Taken {
        match self {
            BlockNext::Wait => Taken::Wait,
            BlockNext::Refused => Taken::Refused,
            BlockNext::Skipped => Taken::Skipped,
            BlockNext::Record(bytes) => Taken::Record(bytes@),
        }
    }
}

impl Allocator {
    /// Taking what comes next off the stream.
    pub open spec fn take(self) -> (Allocator, Taken) {
        if self.handled >= MAX_OPS_PER_STEP {
            (self, Taken::Wait)
        } else {
            match loam_block_wire::record_len(self.pending) {
                Ok(None) => (self, Taken::Wait),
                Ok(Some(n)) => (
                    Allocator { pending: self.pending.skip(n), resyncing: false, ..self },
                    Taken::Record(self.pending.take(n)),
                ),
                Err(_) => (
                    Allocator {
                        pending: self.pending.skip(1),
                        resyncing: true,
                        handled: (self.handled + 1) as u32,
                        apply_errors: self.apply_errors.wrapping_add(1),
                        ..self
                    },
                    if self.resyncing {
                        Taken::Skipped
                    } else {
                        Taken::Refused
                    },
                ),
            }
        }
    }

    /// Settling a record that is durable, or could not be made so: the answer.
    pub open spec fn settle(self, record: Seq<u8>, durable: bool) -> (Allocator, u8) {
        let handled = self.handled.wrapping_add(1);
        if durable && applied(self.volumes, record).1 is Ok {
            (
                Allocator {
                    volumes: applied(self.volumes, record).0,
                    ops_applied: self.ops_applied.wrapping_add(1),
                    handled,
                    ..self
                },
                applied(self.volumes, record).1->Ok_0,
            )
        } else {
            (Allocator { apply_errors: self.apply_errors.wrapping_add(1), handled, ..self }, NAK)
        }
    }
}

impl ModuleState {
    /// What every step keeps.
    pub closed spec fn wf(&self) -> bool {
        self.volumes.wf()
    }

    /// What the steps keep, said of the model: the laws of volumes hold of it.
    pub proof fn lemma_wf(&self)
        requires
            self.wf(),
        ensures
            block_pic_state::sound(self@.volumes),
            self@.volumes.len() == ARENA_CAPACITY,
    {
    }

    pub fn new() -> (r: Self)
        ensures
            r.wf(),
            r@ == (Allocator {
                pending: Seq::empty(),
                resyncing: false,
                volumes: Seq::new(ARENA_CAPACITY as nat, |i: int| block_pic_state::free_slot()),
                handled: 0,
                ticks: 0,
                ops_applied: 0,
                apply_errors: 0,
            }),
    {
        ModuleState {
            pending: Vec::new(),
            resyncing: false,
            volumes: PicBlockState::new(),
            handled: 0,
            ticks: 0,
            ops_applied: 0,
            apply_errors: 0,
        }
    }

    /// Carry out one record of the log on opening it. Returns whether it could be.
    pub fn replay(&mut self, payload: &[u8]) -> (r: bool)
        requires
            old(self).wf(),
        ensures
            final(self).wf(),
            r == (applied(old(self)@.volumes, payload@).1 is Ok),
            final(self)@ == (Allocator {
                volumes: applied(old(self)@.volumes, payload@).0,
                ..old(self)@
            }),
    {
        apply_to_arena(&mut self.volumes, payload).is_ok()
    }

    /// The log has been replayed: how many records it held and how many were not carried out.
    pub fn replay_done(&mut self, records: u32, errors: u32)
        requires
            old(self).wf(),
        ensures
            final(self).wf(),
            final(self)@ == (Allocator { ops_applied: records, apply_errors: errors, ..old(self)@ }),
    {
        self.ops_applied = records;
        self.apply_errors = errors;
    }

    /// Begin a step.
    pub fn begin_step(&mut self)
        requires
            old(self).wf(),
        ensures
            final(self).wf(),
            final(self)@ == (Allocator { ticks: old(self)@.ticks.wrapping_add(1), handled: 0, ..old(self)@ }),
    {
        self.ticks = self.ticks.wrapping_add(1);
        self.handled = 0;
    }

    /// Whether more is to be read: while there is room for one more read, and until the
    /// record in front is whole.
    pub fn wants_input(&self) -> (r: bool)
        ensures
            r == (self@.pending.len() + READ_BUF <= REQ_ASM || loam_block_wire::record_len(self@.pending) == Ok::<
                Option<int>,
                loam_block_wire::WireError,
            >(None)),
    {
        if self.pending.len() <= REQ_ASM - READ_BUF {
            return true;
        }
        match loam_block_wire::request_record_len(self.pending.as_slice()) {
            Ok(None) => true,
            _ => false,
        }
    }

    /// Add what was read.
    pub fn refill(&mut self, chunk: &[u8])
        requires
            old(self).wf(),
        ensures
            final(self).wf(),
            final(self)@ == (Allocator { pending: old(self)@.pending + chunk@, ..old(self)@ }),
    {
        bytes::append(&mut self.pending, chunk);
    }

    /// Take what comes next off the stream.
    pub fn next(&mut self) -> (r: BlockNext)
        requires
            old(self).wf(),
        ensures
            final(self).wf(),
            (final(self)@, r.model()) == old(self)@.take(),
    {
        if self.handled >= MAX_OPS_PER_STEP {
            return BlockNext::Wait;
        }
        match loam_block_wire::request_record_len(self.pending.as_slice()) {
            Ok(None) => BlockNext::Wait,
            Ok(Some(n)) => {
                let record: Vec<u8> = bytes::front(self.pending.as_slice(), n);
                self.pending = bytes::behind(self.pending.as_slice(), n);
                self.resyncing = false;
                BlockNext::Record(record)
            },
            Err(_) => {
                let first: bool = !self.resyncing;
                self.apply_errors = self.apply_errors.wrapping_add(1);
                self.resyncing = true;
                self.handled = self.handled + 1;
                self.pending = bytes::behind(self.pending.as_slice(), 1);
                if first {
                    BlockNext::Refused
                } else {
                    BlockNext::Skipped
                }
            },
        }
    }

    /// Settle a record that `next` handed out. Returns the one-byte answer.
    pub fn settle(&mut self, record: &[u8], durable: bool) -> (r: u8)
        requires
            old(self).wf(),
        ensures
            final(self).wf(),
            (final(self)@, r) == old(self)@.settle(record@, durable),
    {
        self.handled = self.handled.wrapping_add(1);
        if durable {
            match apply_to_arena(&mut self.volumes, record) {
                Ok(op) => {
                    self.ops_applied = self.ops_applied.wrapping_add(1);
                    return op;
                },
                Err(_) => {},
            }
        }
        self.apply_errors = self.apply_errors.wrapping_add(1);
        NAK
    }

    /// The volume with this id.
    pub fn lookup(&self, volume_id: &[u8]) -> (r: Option<&VolumeSlot>)
        requires
            self.wf(),
        ensures
            match r {
                Some(v) => block_pic_state::get(self@.volumes, volume_id@) == Some(v@),
                None => block_pic_state::get(self@.volumes, volume_id@) is None,
            },
    {
        self.volumes.lookup(volume_id)
    }
}

/// A record that cannot be carried out leaves the table alone.
pub proof fn lemma_refused_changes_nothing(volumes: Seq<Volume>, payload: Seq<u8>)
    ensures
        applied(volumes, payload).1 is Err ==> applied(volumes, payload).0 == volumes,
{
}

/// Taking from the stream loses nothing: what stays is what was there without what
/// was taken off its front, and a record is taken off whole.
pub proof fn lemma_take_keeps_the_rest(a: Allocator)
    ensures
        match a.take() {
            (b, Taken::Record(bytes)) => a.pending == bytes + b.pending && bytes.len() > 0,
            (b, Taken::Wait) => b == a,
            (b, _) => a.pending.len() > 0 && a.pending == seq![a.pending[0]] + b.pending,
        },
        a.take().0.volumes == a.volumes,
{
    let (b, t) = a.take();
    if let Taken::Record(bytes) = t {
        assert(a.pending =~= bytes + b.pending);
    } else if !(t is Wait) {
        assert(a.pending =~= seq![a.pending[0]] + b.pending);
    }
}

/// An allocation or release that was sent comes off the stream as it was sent, however
/// the stream was cut into reads and whatever follows.
pub proof fn lemma_count_op_comes_off(a: Allocator, op: u8, volume_id: Seq<u8>, count: u64, rest: Seq<u8>)
    requires
        a.handled < MAX_OPS_PER_STEP,
        op == loam_block_wire::OP_ALLOCATE || op == loam_block_wire::OP_RELEASE,
        volume_id.len() <= u16::MAX,
        a.pending == loam_block_wire::count_op_frame(op, volume_id, count) + rest,
    ensures
        a.take() == (
            Allocator { pending: rest, resyncing: false, ..a },
            Taken::Record(loam_block_wire::count_op_frame(op, volume_id, count)),
        ),
{
    let frame = loam_block_wire::count_op_frame(op, volume_id, count);
    loam_block_wire::lemma_count_op_cut(op, volume_id, count, rest);
    assert(a.pending.take(frame.len() as int) =~= frame);
    assert(a.pending.skip(frame.len() as int) =~= rest);
}

/// The creation of a volume that was sent comes off the stream as it was sent.
pub proof fn lemma_create_comes_off(
    a: Allocator,
    volume_id: Seq<u8>,
    class: u8,
    logical_bytes: u64,
    block_size: u32,
    thin_provisioned: bool,
    rest: Seq<u8>,
)
    requires
        a.handled < MAX_OPS_PER_STEP,
        volume_id.len() <= u16::MAX,
        a.pending == loam_block_wire::create_volume_frame(
            volume_id,
            class,
            logical_bytes,
            block_size,
            thin_provisioned,
        ) + rest,
    ensures
        a.take() == (
            Allocator { pending: rest, resyncing: false, ..a },
            Taken::Record(
                loam_block_wire::create_volume_frame(volume_id, class, logical_bytes, block_size, thin_provisioned),
            ),
        ),
{
    let frame = loam_block_wire::create_volume_frame(volume_id, class, logical_bytes, block_size, thin_provisioned);
    loam_block_wire::lemma_create_volume_cut(volume_id, class, logical_bytes, block_size, thin_provisioned, rest);
    assert(a.pending.take(frame.len() as int) =~= frame);
    assert(a.pending.skip(frame.len() as int) =~= rest);
}

/// The table is what a replay of the log gives: settling a durable record keeps it so,
/// and a record that is not durable changes neither.
pub proof fn lemma_table_is_replay_of_log(
    start: Seq<Volume>,
    log: Seq<Seq<u8>>,
    a: Allocator,
    record: Seq<u8>,
)
    requires
        a.volumes == replayed(start, log),
    ensures
        a.settle(record, true).0.volumes == replayed(start, log.push(record)),
        a.settle(record, false).0.volumes == replayed(start, log),
{
    assert(log.push(record).drop_last() =~= log);
    lemma_refused_changes_nothing(a.volumes, record);
}

} // verus!
