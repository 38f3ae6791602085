//! What a logged record does to a namespace.
//!
//! The table holds the bindings that are in use; a snapshot on disk may hold more.
//! While there is one, a deletion leaves a mark that hides the record on disk, and a
//! full table makes room by dropping a binding that the snapshot covers.
//!
//! An object id can be reserved for deletion: until it is released, no binding may
//! name it. Reservations and releases are events of the log like the records are, and
//! take effect in its order, so every copy of the namespace refuses the same bindings.
use crate::bytes;
use crate::loam_hash;
use crate::loam_limits;
use crate::loam_snapshot;
use crate::loam_snapshot::{Record, SnapRecord};
use crate::loam_wire;
use crate::namespace_laws;
use crate::namespace_pic_state;
use crate::namespace_pic_state::{ApplyError, ApplyOk, Arena, Binding, PicNamespaceState};
use crate::path_list;
use vstd::prelude::*;

verus! {

/// How many object ids can be reserved at once.
pub const GC_RESERVE_MAX: usize = 4;

/// Why a record changed nothing. `Reserved` is a refusal that every copy reaches at
/// the same place in the log.
#[derive(Debug, Clone, Copy, PartialEq, Eq, Structural)]
pub enum ApplyFault {
    Reserved,
    Rejected,
}

/// One event of the log: a record of the namespace wire, or that an object id is
/// reserved for deletion, or released again.
#[derive(Debug, Clone, Copy)]
pub enum LogEvent<'a> {
    Record(&'a [u8]),
    Reserve(&'a [u8]),
    Release(&'a [u8]),
}

/// An event of the log that owns its bytes.
#[derive(Debug)]
pub enum EventBuf {
    Record(Vec<u8>),
    Reserve(Vec<u8>),
    Release(Vec<u8>),
}

/// An event of the log.
pub ghost enum Event {
    Record(Seq<u8>),
    Reserve(Seq<u8>),
    Release(Seq<u8>),
}

impl<'a> View for LogEvent<'a> {
    type V = Event;

    open spec fn view(&self) -> Event {
        match self {
            LogEvent::Record(b) => Event::Record(b@),
            LogEvent::Reserve(b) => Event::Reserve(b@),
            LogEvent::Release(b) => Event::Release(b@),
        }
    }
}

impl View for EventBuf {
    type V = Event;

    open spec fn view(&self) -> Event {
        match self {
            EventBuf::Record(b) => Event::Record(b@),
            EventBuf::Reserve(b) => Event::Reserve(b@),
            EventBuf::Release(b) => Event::Release(b@),
        }
    }
}

impl<'a> LogEvent<'a> {
    /// A copy that owns its bytes.
    pub fn to_buf(&self) -> (r: EventBuf)
        ensures
            r@ == self@,
    {
        match self {
            LogEvent::Record(b) => EventBuf::Record(bytes::to_vec(b)),
            LogEvent::Reserve(b) => EventBuf::Reserve(bytes::to_vec(b)),
            LogEvent::Release(b) => EventBuf::Release(bytes::to_vec(b)),
        }
    }
}

impl EventBuf {
    pub fn as_event(&self) -> (r: LogEvent<'_>)
        ensures
            r@ == self@,
    {
        match self {
            EventBuf::Record(b) => LogEvent::Record(b.as_slice()),
            EventBuf::Reserve(b) => LogEvent::Reserve(b.as_slice()),
            EventBuf::Release(b) => LogEvent::Release(b.as_slice()),
        }
    }
}

/// What an event came to: a record, by its opcode; a reservation, and whether the id is
/// held now; a release.
#[derive(Debug, Clone, Copy, PartialEq, Eq, Structural)]
pub enum Done {
    Op(u8),
    Reserved { held: bool },
    Released,
}

/// The outcome of an operation on the table, with the opcode in place of its result.
pub open spec fn answered(
    before: Arena,
    done: (Arena, Result<ApplyOk, ApplyError>),
    op: u8,
) -> (Arena, Result<u8, ()>) {
    match done.1 {
        Ok(_) => (done.0, Ok(op)),
        Err(_) => (before, Err(())),
    }
}

/// Carrying out a record on the table alone.
pub open spec fn applied(a: Arena, payload: Seq<u8>) -> (Arena, Result<u8, ()>) {
    if payload.len() == 0 {
        (a, Err(()))
    } else if payload[0] == loam_wire::OP_BIND {
        match loam_wire::bind_parse(payload) {
            Ok((root, path, object_id, kind, revision)) => answered(
                a,
                a.bind(root, path, object_id, kind, revision),
                loam_wire::OP_BIND,
            ),
            Err(_) => (a, Err(())),
        }
    } else if payload[0] == loam_wire::OP_RENAME {
        match loam_wire::rename_parse(payload) {
            Ok((root, from, to, revision)) => answered(a, a.rename(root, from, to, revision), loam_wire::OP_RENAME),
            Err(_) => (a, Err(())),
        }
    } else if payload[0] == loam_wire::OP_UNBIND {
        match loam_wire::unbind_parse(payload) {
            Ok((root, path)) => answered(a, a.unbind(root, path), loam_wire::OP_UNBIND),
            Err(_) => (a, Err(())),
        }
    } else {
        (a, Err(()))
    }
}

/// Carry out a record on the table alone.
pub fn apply_to_arena<const N: usize>(bindings: &mut PicNamespaceState<N>, payload: &[u8]) -> (r: Result<u8, ()>)
    requires
        old(bindings).wf(),
    ensures
        final(bindings).wf(),
        (final(bindings)@, r) == applied(old(bindings)@, payload@),
{
    let op: u8 = match loam_wire::peek_opcode(payload) {
        Some(op) => op,
        None => {
            return Err(());
        },
    };
    if op == loam_wire::OP_BIND {
        match loam_wire::decode_bind(payload) {
            Ok(d) => match bindings.bind(d.namespace_root, d.path, d.object_id, d.kind, d.revision) {
                Ok(_) => Ok(op),
                Err(_) => Err(()),
            },
            Err(_) => Err(()),
        }
    } else if op == loam_wire::OP_RENAME {
        match loam_wire::decode_rename(payload) {
            Ok(d) => match bindings.rename(d.namespace_root, d.from, d.to, d.new_revision) {
                Ok(_) => Ok(op),
                Err(_) => Err(()),
            },
            Err(_) => Err(()),
        }
    } else if op == loam_wire::OP_UNBIND {
        match loam_wire::decode_unbind(payload) {
            Ok(d) => match bindings.unbind(d.namespace_root, d.path) {
                Ok(_) => Ok(op),
                Err(_) => Err(()),
            },
            Err(_) => Err(()),
        }
    } else {
        Err(())
    }
}

/// The key, a root and a path, that has to be looked up in the snapshot before a record
/// can be carried out: a deletion of what the table does not hold.
pub open spec fn searched(t: Table, payload: Seq<u8>) -> Option<(Seq<u8>, Seq<u8>)> {
    if payload.len() > 0 && payload[0] == loam_wire::OP_UNBIND && t.snap_active {
        match loam_wire::unbind_parse(payload) {
            Ok((root, path)) => if t.arena.get(root, path) is None {
                Some((root, path))
            } else {
                None
            },
            Err(_) => None,
        }
    } else {
        None
    }
}

/// The key that has to be looked up in the snapshot before an event can be carried out.
pub open spec fn searched_for(t: Table, e: Event) -> Option<(Seq<u8>, Seq<u8>)> {
    match e {
        Event::Record(payload) => searched(t, payload),
        _ => None,
    }
}

/// Reserving an id. Where there is no free place it stays unreserved.
pub open spec fn reserved_with(s: Seq<Seq<u8>>, id: Seq<u8>) -> Seq<Seq<u8>> {
    if s.contains(id) || s.len() >= GC_RESERVE_MAX {
        s
    } else {
        s.push(id)
    }
}

/// Releasing an id.
pub open spec fn reserved_without(s: Seq<Seq<u8>>, id: Seq<u8>) -> Seq<Seq<u8>>
    decreases s.len(),
{
    if s.len() == 0 {
        s
    } else {
        let rest = reserved_without(s.drop_last(), id);
        if s.last() == id {
            rest
        } else {
            rest.push(s.last())
        }
    }
}

/// What a namespace holds in memory.
pub ghost struct Table {
    pub arena: Arena,
    /// The ids that are reserved.
    pub reserved: Seq<Seq<u8>>,
    /// There is a snapshot on disk.
    pub snap_active: bool,
    /// A new snapshot is being written.
    pub merging: bool,
    /// How many bindings were dropped to make room.
    pub evictions: u32,
}

impl Table {
    /// Dropping one binding to make room. Not while a new snapshot is being written:
    /// what it covers is not settled until it is durable.
    pub open spec fn evict(self) -> (Table, bool) {
        if self.snap_active && !self.merging && self.arena.evict().1 {
            (Table { arena: self.arena.evict().0, evictions: self.evictions.wrapping_add(1), ..self }, true)
        } else {
            (self, false)
        }
    }

    /// Deleting a key while there is a snapshot. `found` is the revision of the key
    /// in the snapshot.
    pub open spec fn delete(self, root: Seq<u8>, path: Seq<u8>, found: Option<u64>) -> (
        Table,
        Result<u8, ApplyFault>,
    ) {
        let revision = match self.arena.get(root, path) {
            Some(b) => if b.kind == namespace_pic_state::KIND_TOMBSTONE {
                None
            } else {
                Some(b.revision)
            },
            None => found,
        };
        match revision {
            None => (self, Err(ApplyFault::Rejected)),
            Some(rev) => {
                let (first, r) = self.arena.tombstone(root, path, rev);
                if r == Err::<ApplyOk, ApplyError>(ApplyError::OutOfCapacity) && self.evict().1 {
                    let (second, r2) = self.evict().0.arena.tombstone(root, path, rev);
                    (Table { arena: second, ..self.evict().0 }, marked(r2))
                } else {
                    (Table { arena: first, ..self }, marked(r))
                }
            },
        }
    }

    /// Carrying out a record. `found` is what the snapshot holds for its key.
    pub open spec fn apply(self, payload: Seq<u8>, found: Option<Record>) -> (Table, Result<u8, ApplyFault>) {
        if payload.len() == 0 {
            (self, Err(ApplyFault::Rejected))
        } else if payload[0] == loam_wire::OP_BIND {
            match loam_wire::bind_parse(payload) {
                Ok(d) => if self.reserved.contains(d.2) {
                    (self, Err(ApplyFault::Reserved))
                } else {
                    self.apply_with_room(payload)
                },
                Err(_) => (self, Err(ApplyFault::Rejected)),
            }
        } else if payload[0] == loam_wire::OP_UNBIND && self.snap_active {
            match loam_wire::unbind_parse(payload) {
                Ok((root, path)) => self.delete(root, path, revision_found(found, root, path)),
                Err(_) => (self, Err(ApplyFault::Rejected)),
            }
        } else {
            self.apply_with_room(payload)
        }
    }

    /// Carrying out an event of the log. A reservation that finds no free place leaves the
    /// id unreserved.
    pub open spec fn apply_event(self, e: Event, found: Option<Record>) -> (Table, Result<Done, ApplyFault>) {
        match e {
            Event::Record(payload) => {
                let (t, r) = self.apply(payload, found);
                (
                    t,
                    match r {
                        Ok(op) => Ok(Done::Op(op)),
                        Err(fault) => Err(fault),
                    },
                )
            },
            Event::Reserve(id) => {
                let t = Table { reserved: reserved_with(self.reserved, id), ..self };
                (t, Ok(Done::Reserved { held: t.reserved.contains(id) }))
            },
            Event::Release(id) => (
                Table { reserved: reserved_without(self.reserved, id), ..self },
                Ok(Done::Released),
            ),
        }
    }

    /// Carrying out a record, making room once where the table is full.
    pub open spec fn apply_with_room(self, payload: Seq<u8>) -> (Table, Result<u8, ApplyFault>) {
        let (arena, r) = applied(self.arena, payload);
        if r is Ok {
            (Table { arena, ..self }, Ok(r->Ok_0))
        } else if is_full(self.arena) && self.evict().1 {
            let (second, r2) = applied(self.evict().0.arena, payload);
            (
                Table { arena: second, ..self.evict().0 },
                if r2 is Ok {
                    Ok(r2->Ok_0)
                } else {
                    Err(ApplyFault::Rejected)
                },
            )
        } else {
            (self, Err(ApplyFault::Rejected))
        }
    }
}

/// The revision of a key in the snapshot, from what was found there.
pub open spec fn revision_found(found: Option<Record>, root: Seq<u8>, path: Seq<u8>) -> Option<u64> {
    match loam_snapshot::record_for(found, root, path) {
        Some(rec) => Some(rec.revision),
        None => None,
    }
}

/// What was read of a record, if anything.
pub open spec fn read_record(rec: Option<&SnapRecord>) -> Option<Record> {
    match rec {
        Some(r) => Some(r@),
        None => None,
    }
}

/// Every slot is occupied.
pub open spec fn is_full(a: Arena) -> bool {
    namespace_pic_state::count_where(a.slots, |b: Option<Binding>| b.is_some()) == a.slots.len()
}

/// The answer to a deletion.
pub open spec fn marked(r: Result<ApplyOk, ApplyError>) -> Result<u8, ApplyFault> {
    match r {
        Ok(_) => Ok(loam_wire::OP_UNBIND),
        Err(_) => Err(ApplyFault::Rejected),
    }
}

/// A namespace in memory, with room for `N` bindings.
pub struct NamespaceTable<const N: usize> {
    pub bindings: PicNamespaceState<N>,
    pub gc_reserved: Vec<Vec<u8>>,
    pub snap_active: bool,
    pub merging: bool,
    pub evictions: u32,
}

impl<const N: usize> View for NamespaceTable<N> {
    type V = Table;

    open spec fn view(&self) -> Table {
        Table {
            arena: self.bindings@,
            reserved: path_list::texts(self.gc_reserved@),
            snap_active: self.snap_active,
            merging: self.merging,
            evictions: self.evictions,
        }
    }
}

impl<const N: usize> NamespaceTable<N> {
    pub open spec fn wf(&self) -> bool {
        self.bindings.wf() && self.gc_reserved@.len() <= GC_RESERVE_MAX
    }

    pub fn new() -> (r: Self)
        ensures
            r.wf(),
            r@ == (Table {
                arena: Arena {
                    slots: Seq::new(N as nat, |i: int| None::<Binding>),
                    change_seq: 0,
                    change_horizon: 0,
                },
                reserved: Seq::empty(),
                snap_active: false,
                merging: false,
                evictions: 0,
            }),
    {
        let r: NamespaceTable<N> = NamespaceTable {
            bindings: PicNamespaceState::new(),
            gc_reserved: Vec::new(),
            snap_active: false,
            merging: false,
            evictions: 0,
        };
        assert(r@.reserved =~= Seq::empty());
        r
    }

    /// Whether an object id is reserved for deletion.
    pub fn is_reserved(&self, object_id: &[u8]) -> (r: bool)
        ensures
            r == self@.reserved.contains(object_id@),
    {
        let mut i: usize = 0;
        while i < self.gc_reserved.len()
            invariant
                i <= self.gc_reserved@.len(),
                forall|j: int| 0 <= j < i ==> #[trigger] self@.reserved[j] != object_id@,
            decreases self.gc_reserved@.len() - i,
        {
            if bytes::bytes_equal(self.gc_reserved[i].as_slice(), object_id) {
                assert(self@.reserved[i as int] == object_id@);
                return true;
            }
            i += 1;
        }
        false
    }

    /// Reserve an object id for deletion. Returns whether it is reserved now.
    pub fn gc_reserve(&mut self, object_id: &[u8]) -> (r: bool)
        requires
            old(self).wf(),
        ensures
            final(self).wf(),
            final(self)@ == (Table {
                reserved: reserved_with(old(self)@.reserved, object_id@),
                ..old(self)@
            }),
            r == final(self)@.reserved.contains(object_id@),
    {
        if self.is_reserved(object_id) {
            return true;
        }
        if self.gc_reserved.len() >= GC_RESERVE_MAX {
            return false;
        }
        self.gc_reserved.push(bytes::to_vec(object_id));
        assert(self@.reserved =~= old(self)@.reserved.push(object_id@));
        assert(self@.reserved[old(self)@.reserved.len() as int] == object_id@);
        true
    }

    /// Release an object id.
    pub fn gc_release(&mut self, object_id: &[u8])
        requires
            old(self).wf(),
        ensures
            final(self).wf(),
            final(self)@ == (Table {
                reserved: reserved_without(old(self)@.reserved, object_id@),
                ..old(self)@
            }),
    {
        let ghost before = self@.reserved;
        let mut kept: Vec<Vec<u8>> = Vec::new();
        let mut i: usize = 0;
        assert(path_list::texts(kept@) =~= reserved_without(before.take(0), object_id@));
        while i < self.gc_reserved.len()
            invariant
                i <= self.gc_reserved@.len(),
                kept@.len() <= i,
                before == path_list::texts(self.gc_reserved@),
                path_list::texts(kept@) == reserved_without(before.take(i as int), object_id@),
            decreases self.gc_reserved@.len() - i,
        {
            let ghost so_far = kept@;
            assert(before.take(i + 1).drop_last() =~= before.take(i as int));
            assert(before[i as int] == self.gc_reserved@[i as int]@);
            if !bytes::bytes_equal(self.gc_reserved[i].as_slice(), object_id) {
                kept.push(bytes::to_vec(self.gc_reserved[i].as_slice()));
                assert(path_list::texts(kept@) =~= path_list::texts(so_far).push(before[i as int]));
            }
            i += 1;
        }
        assert(before.take(i as int) =~= before);
        self.gc_reserved = kept;
    }

    fn evict(&mut self) -> (r: bool)
        requires
            old(self).wf(),
        ensures
            final(self).wf(),
            (final(self)@, r) == old(self)@.evict(),
    {
        if self.snap_active && !self.merging && self.bindings.evict_one_snapshotted() {
            self.evictions = self.evictions.wrapping_add(1);
            return true;
        }
        assert(self@ == old(self)@);
        false
    }

    /// The key that has to be looked up in the snapshot before this record can be
    /// carried out.
    pub fn search_key(&self, payload: &[u8]) -> (r: Option<(Vec<u8>, Vec<u8>)>)
        requires
            self.wf(),
        ensures
            match r {
                Some(key) => searched(self@, payload@) == Some((key.0@, key.1@)),
                None => searched(self@, payload@) is None,
            },
    {
        if payload.len() == 0 || payload[0] != loam_wire::OP_UNBIND || !self.snap_active {
            return None;
        }
        match loam_wire::decode_unbind(payload) {
            Ok(d) => {
                let h: (u64, u64) = namespace_pic_state::key_hash(d.namespace_root, d.path);
                match self.bindings.lookup_hashed(h.0, h.1, d.namespace_root, d.path) {
                    Some(_) => None,
                    None => Some((bytes::to_vec(d.namespace_root), bytes::to_vec(d.path))),
                }
            },
            Err(_) => None,
        }
    }

    /// Carry out a record. `found` is what the snapshot holds for the key that
    /// `search_key` named.
    pub fn apply_op(&mut self, payload: &[u8], found: Option<&SnapRecord>) -> (r: Result<u8, ApplyFault>)
        requires
            old(self).wf(),
        ensures
            final(self).wf(),
            (final(self)@, r) == old(self)@.apply(payload@, read_record(found)),
    {
        let op: u8 = match loam_wire::peek_opcode(payload) {
            Some(op) => op,
            None => {
                return Err(ApplyFault::Rejected);
            },
        };
        if op == loam_wire::OP_BIND {
            match loam_wire::decode_bind(payload) {
                Ok(d) => {
                    if self.is_reserved(d.object_id) {
                        return Err(ApplyFault::Reserved);
                    }
                },
                Err(_) => {
                    return Err(ApplyFault::Rejected);
                },
            }
        }
        if op == loam_wire::OP_UNBIND && self.snap_active {
            return match loam_wire::decode_unbind(payload) {
                Ok(d) => {
                    let revision: Option<u64> = match found {
                        Some(rec) => if rec.is_key(d.namespace_root, d.path) {
                            Some(rec.revision)
                        } else {
                            None
                        },
                        None => None,
                    };
                    self.delete(d.namespace_root, d.path, revision)
                },
                Err(_) => Err(ApplyFault::Rejected),
            };
        }
        match apply_to_arena(&mut self.bindings, payload) {
            Ok(op) => Ok(op),
            Err(_) => {
                assert(self@ == old(self)@);
                if self.bindings.occupied_count() == N && self.evict() {
                    return match apply_to_arena(&mut self.bindings, payload) {
                        Ok(op) => Ok(op),
                        Err(_) => Err(ApplyFault::Rejected),
                    };
                }
                Err(ApplyFault::Rejected)
            },
        }
    }

    /// The key that has to be looked up in the snapshot before this event can be carried
    /// out.
    pub fn search_key_of(&self, e: LogEvent<'_>) -> (r: Option<(Vec<u8>, Vec<u8>)>)
        requires
            self.wf(),
        ensures
            match r {
                Some(key) => searched_for(self@, e@) == Some((key.0@, key.1@)),
                None => searched_for(self@, e@) is None,
            },
    {
        match e {
            LogEvent::Record(payload) => self.search_key(payload),
            _ => None,
        }
    }

    /// Carry out an event of the log. `found` is what the snapshot holds for the key that
    /// `search_key_of` named.
    pub fn apply_event(&mut self, e: LogEvent<'_>, found: Option<&SnapRecord>) -> (r: Result<Done, ApplyFault>)
        requires
            old(self).wf(),
        ensures
            final(self).wf(),
            (final(self)@, r) == old(self)@.apply_event(e@, read_record(found)),
    {
        match e {
            LogEvent::Record(payload) => match self.apply_op(payload, found) {
                Ok(op) => Ok(Done::Op(op)),
                Err(fault) => Err(fault),
            },
            LogEvent::Reserve(object_id) => {
                let held: bool = self.gc_reserve(object_id);
                Ok(Done::Reserved { held })
            },
            LogEvent::Release(object_id) => {
                self.gc_release(object_id);
                Ok(Done::Released)
            },
        }
    }

    fn delete(&mut self, root: &[u8], path: &[u8], found: Option<u64>) -> (r: Result<u8, ApplyFault>)
        requires
            old(self).wf(),
        ensures
            final(self).wf(),
            (final(self)@, r) == old(self)@.delete(root@, path@, found),
    {
        let in_table: Option<(u8, u64)> = match self.bindings.lookup(root, path) {
            Some(slot) => Some((slot.kind, slot.revision)),
            None => None,
        };
        let revision: u64 = match in_table {
            Some((kind, rev)) => if kind == namespace_pic_state::KIND_TOMBSTONE {
                return Err(ApplyFault::Rejected);
            } else {
                rev
            },
            None => match found {
                Some(rev) => rev,
                None => {
                    return Err(ApplyFault::Rejected);
                },
            },
        };
        let mut res: Result<ApplyOk, ApplyError> = self.bindings.tombstone(root, path, revision);
        match res {
            Err(ApplyError::OutOfCapacity) => {
                assert(self@ == old(self)@);
                if self.evict() {
                    res = self.bindings.tombstone(root, path, revision);
                }
            },
            _ => {},
        }
        match res {
            Ok(_) => Ok(loam_wire::OP_UNBIND),
            Err(_) => Err(ApplyFault::Rejected),
        }
    }
}

/// The table after these events of the log, one after the other, each with what the
/// snapshot held of its key.
pub open spec fn replayed(t: Table, log: Seq<(Event, Option<Record>)>) -> Table
    decreases log.len(),
{
    if log.len() == 0 {
        t
    } else {
        replayed(t, log.drop_last()).apply_event(log.last().0, log.last().1).0
    }
}

/// Records do not touch reservations, and which reservations and releases do what depends
/// on the reservations alone.
proof fn lemma_event_reserves(t: Table, u: Table, e: Event, found: Option<Record>, other: Option<Record>)
    requires
        t.reserved == u.reserved,
    ensures
        t.apply_event(e, found).0.reserved == u.apply_event(e, other).0.reserved,
{
}

/// Copies of a namespace that went through the same events, from the same reservations
/// on, hold the same reservations, whatever their tables and snapshots held; so they
/// refuse the same binds on account of them, and answer a reservation alike.
pub proof fn lemma_same_events_refuse_alike(
    t: Table,
    u: Table,
    log: Seq<(Event, Option<Record>)>,
    other: Seq<(Event, Option<Record>)>,
    e: Event,
    found: Option<Record>,
    found_other: Option<Record>,
)
    requires
        t.reserved == u.reserved,
        log.len() == other.len(),
        forall|i: int| 0 <= i < log.len() ==> (#[trigger] log[i]).0 == other[i].0,
    ensures
        replayed(t, log).reserved == replayed(u, other).reserved,
        replayed(t, log).apply_event(e, found).1 == Err::<Done, ApplyFault>(ApplyFault::Reserved) <==> replayed(
            u,
            other,
        ).apply_event(e, found_other).1 == Err::<Done, ApplyFault>(ApplyFault::Reserved),
        e is Reserve ==> replayed(t, log).apply_event(e, found).1 == replayed(u, other).apply_event(e, found_other).1,
    decreases log.len(),
{
    if log.len() > 0 {
        let a = log.drop_last();
        let b = other.drop_last();
        assert forall|i: int| 0 <= i < a.len() implies (#[trigger] a[i]).0 == b[i].0 by {
            assert(log[i].0 == other[i].0);
        }
        lemma_same_events_refuse_alike(t, u, a, b, e, found, found_other);
        let n = log.len() - 1;
        assert(log[n].0 == other[n].0);
        lemma_event_reserves(replayed(t, a), replayed(u, b), log[n].0, log[n].1, other[n].1);
    }
}

/// An id that is reserved stays unbound: a record that would bind it is refused and
/// changes nothing, until the id is released.
pub proof fn lemma_reserved_is_not_bound(
    t: Table,
    root: Seq<u8>,
    path: Seq<u8>,
    object_id: Seq<u8>,
    kind: u8,
    revision: u64,
    found: Option<Record>,
)
    requires
        loam_limits::key_verdict(root.len(), path.len(), object_id.len()) is Ok,
        kind <= loam_wire::KIND_SYMLINK,
        t.reserved.contains(object_id),
    ensures
        t.apply(loam_wire::bind_frame(root, path, object_id, kind, revision), found) == (
            t,
            Err::<u8, ApplyFault>(ApplyFault::Reserved),
        ),
{
    let frame = loam_wire::bind_frame(root, path, object_id, kind, revision);
    loam_wire::lemma_bind_round_trip(root, path, object_id, kind, revision, Seq::empty());
    assert(frame + Seq::<u8>::empty() =~= frame);
    assert(frame[0] == loam_wire::OP_BIND);
}

proof fn lemma_without(s: Seq<Seq<u8>>, id: Seq<u8>, other: Seq<u8>)
    requires
        other != id,
    ensures
        !reserved_without(s, id).contains(id),
        reserved_without(s, id).contains(other) == s.contains(other),
        !s.contains(id) ==> reserved_without(s, id) == s,
        reserved_without(s, id).len() <= s.len(),
    decreases s.len(),
{
    if s.len() > 0 {
        let rest = s.drop_last();
        lemma_without(rest, id, other);
        let kept = reserved_without(rest, id);
        assert(s =~= rest.push(s.last()));
        assert forall|x: Seq<u8>| s.contains(x) == (rest.contains(x) || x == s.last()) by {
            if rest.contains(x) {
                let k = choose|k: int| 0 <= k < rest.len() && rest[k] == x;
                assert(s[k] == x);
            }
            if x == s.last() {
                assert(s[s.len() - 1] == x);
            }
        }
        assert forall|x: Seq<u8>| kept.push(s.last()).contains(x) == (kept.contains(x) || x == s.last()) by {
            let more = kept.push(s.last());
            if kept.contains(x) {
                let k = choose|k: int| 0 <= k < kept.len() && kept[k] == x;
                assert(more[k] == x);
            }
            if x == s.last() {
                assert(more[more.len() - 1] == x);
            }
        }
    }
}

/// A release undoes a reservation, and neither touches another id. An id is held once it
/// is reserved, as long as there is a free place.
pub proof fn lemma_release_undoes_reserve(s: Seq<Seq<u8>>, id: Seq<u8>, other: Seq<u8>)
    requires
        other != id,
    ensures
        !reserved_without(s, id).contains(id),
        !s.contains(id) ==> reserved_without(reserved_with(s, id), id) == s,
        s.len() < GC_RESERVE_MAX || s.contains(id) ==> reserved_with(s, id).contains(id),
        reserved_with(s, id).contains(other) == s.contains(other),
        reserved_without(s, id).contains(other) == s.contains(other),
{
    lemma_without(s, id, other);
    let more = s.push(id);
    assert(more.drop_last() =~= s);
    assert(more[s.len() as int] == id);
    if s.contains(other) {
        let k = choose|k: int| 0 <= k < s.len() && s[k] == other;
        assert(more[k] == other);
    }
    if more.contains(other) {
        let k = choose|k: int| 0 <= k < more.len() && more[k] == other;
        assert(s[k] == other);
    }
}

/// While a new snapshot is being written nothing is dropped from the table to make room.
pub proof fn lemma_no_eviction_while_merging(t: Table, payload: Seq<u8>, found: Option<Record>)
    requires
        t.merging,
    ensures
        t.evict() == (t, false),
        t.apply(payload, found).0.evictions == t.evictions,
{
}

/// A deletion while there is a snapshot hides the key, wherever it was bound.
pub proof fn lemma_delete_hides(t: Table, root: Seq<u8>, path: Seq<u8>, found: Option<u64>)
    requires
        t.arena.wf(),
        t.delete(root, path, found).1 is Ok,
    ensures
        t.delete(root, path, found).0.arena.get(root, path) matches Some(b) && b.kind
            == namespace_pic_state::KIND_TOMBSTONE,
{
    let rev = if t.arena.get(root, path) is Some {
        t.arena.get(root, path).unwrap().revision
    } else {
        found.unwrap()
    };
    if t.arena.tombstone(root, path, rev).1 is Ok {
        namespace_laws::lemma_deletions(t.arena, root, path, rev);
    } else {
        lemma_evict_wf(t.arena);
        namespace_laws::lemma_deletions(t.evict().0.arena, root, path, rev);
    }
}

/// What is accepted can be stored, found and listed: a bind that succeeds has a key
/// within the ceilings, a lookup finds it, and every listing of its root shows it.
pub proof fn lemma_accepted_is_listed(t: Table, payload: Seq<u8>, found: Option<Record>, prefix: Seq<u8>)
    requires
        t.arena.wf(),
        payload.len() > 0 && payload[0] == loam_wire::OP_BIND,
        t.apply(payload, found).1 is Ok,
    ensures
        loam_wire::bind_parse(payload) matches Ok((root, path, object_id, kind, revision)) && {
            let after = t.apply(payload, found).0.arena;
            &&& namespace_pic_state::fits(root, path, object_id)
            &&& after.get(root, path) matches Some(b) && b.revision == revision && namespace_pic_state::same_object(
                b,
                loam_hash::fnv(object_id),
                object_id,
                kind,
            )
            &&& prefix.is_prefix_of(path) ==> namespace_laws::all_where(
                after.slots,
                0,
                |b: Option<Binding>| namespace_pic_state::is_listed(b, root, prefix),
            ).contains(after.find(root, path).unwrap())
        },
{
    let (root, path, object_id, kind, revision) = loam_wire::bind_parse(payload)->Ok_0;
    let before = if t.arena.bind(root, path, object_id, kind, revision).1 is Ok {
        t.arena
    } else {
        lemma_evict_wf(t.arena);
        t.evict().0.arena
    };
    let after = before.bind(root, path, object_id, kind, revision).0;
    namespace_laws::lemma_bind_then_lookup(before, root, path, object_id, kind, revision);
    if prefix.is_prefix_of(path) {
        namespace_laws::lemma_bound_is_listed(after, root, path, prefix);
    }
}

proof fn lemma_evict_wf(a: Arena)
    requires
        a.wf(),
    ensures
        a.evict().0.wf(),
{
    let p = |b: Option<Binding>| namespace_pic_state::is_evictable(b);
    namespace_pic_state::lemma_first_where(a.slots, 0, p);
}

} // verus!
