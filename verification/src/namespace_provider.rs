//! The calls that a namespace answers directly.
//!
//! Keys are one flat space: the root is empty. A call hands in its argument bytes, and
//! what it hands out is a `ProviderReply`: a code, or bytes for a buffer of the caller,
//! or changes that subscribers are to hear of. Addresses of the caller's buffers are
//! passed through as numbers.
use crate::bytes;
use crate::loam_change_wire;
use crate::loam_hash;
use crate::loam_limits;
use crate::namespace_apply::{NamespaceTable, Table};
use crate::namespace_changes;
use crate::namespace_laws;
use crate::namespace_list::{ListPage, Page};
use crate::namespace_pic_state;
use crate::namespace_pic_state::{ApplyError, ApplyOk, Arena, Binding, BindingSlot, PicNamespaceState};
use crate::namespace_watch;
use crate::namespace_watch::{Sub, Watchers};
use vstd::prelude::*;
use vstd::slice::slice_subrange;

verus! {

/// The number of the contract.
pub const CONTRACT_STORAGE_NAMESPACE: u32 = 0x0013;

pub const NS_OP_LOOKUP: u32 = 0x1300;

pub const NS_OP_STAT: u32 = 0x1301;

pub const NS_OP_LIST: u32 = 0x1302;

pub const NS_OP_RENAME: u32 = 0x1303;

pub const NS_OP_DELETE: u32 = 0x1304;

pub const NS_OP_SUBSCRIBE: u32 = 0x1305;

pub const NS_OP_CLOSE: u32 = 0x1306;

pub const NS_OP_CHANGES: u32 = 0x1307;

pub const NS_OP_BIND: u32 = 0x1308;

pub const NS_OP_CAPS: u32 = 0x13FF;

/// What can be done besides reading: bind, rename, delete, subscribe, changes.
pub const NS_CAPS: u32 = 0x1F;

/// Subscriptions have handles from here on, so that one call can close either kind.
pub const SUB_HANDLE_BASE: i32 = 0x4000;

/// How many entries can be open at once.
pub const NS_OPEN_MAX: usize = 16;

pub const E_INVAL: i32 = -22;

pub const E_NOENT: i32 = -2;

pub const E_NOSYS: i32 = -38;

pub const E_EXIST: i32 = -17;

pub const E_MFILE: i32 = -24;

/// An open entry: the slot, the revision that was seen there, and the position of the
/// change that had made it. Revisions of different keys can be equal, positions cannot.
#[derive(Debug, Clone, Copy, PartialEq, Eq, Structural)]
pub struct NsOpenSlot {
    pub in_use: bool,
    pub slot: u32,
    pub revision: u64,
    pub change_rev: u64,
}

/// Where the caller wants a fence written; nowhere, where the address is zero.
#[derive(Debug, Clone, Copy, PartialEq, Eq, Structural)]
pub struct FenceOut {
    pub ptr: u64,
    pub cap: usize,
}

/// The fence pair at `off`. It may be left out.
pub open spec fn fence_at(a: Seq<u8>, off: int) -> FenceOut {
    if a.len() < off + 10 {
        FenceOut { ptr: 0, cap: 0 }
    } else {
        FenceOut { ptr: bytes::u64_at(a, off), cap: bytes::u16_at(a, off + 8) as usize }
    }
}

/// Read the fence pair at `off`.
pub fn read_fence_out(a: &[u8], off: usize) -> (r: FenceOut)
    requires
        off <= a@.len(),
    ensures
        r == fence_at(a@, off as int),
{
    if a.len() - off < 10 {
        return FenceOut { ptr: 0, cap: 0 };
    }
    FenceOut { ptr: bytes::get_u64(a, off), cap: bytes::get_u16(a, off + 8) as usize }
}

/// How far what was written is safe.
#[derive(Debug, Clone, Copy, PartialEq, Eq)]
pub enum Fence {
    /// A majority has it.
    ReplicatedDurable { source: [u8; 16], commit_index: u64, epoch: u32, quorum: u8, witness: [u8; 32] },
    /// It is in the log of this device.
    LocalDurable { device_id: u64 },
    /// It is nowhere but in memory.
    Volatile,
    /// What a read has seen.
    ViewConsistent { source: [u8; 16], revision: u64 },
}

/// What came with the last commit that was applied.
#[derive(Debug, Clone, Copy, PartialEq, Eq)]
pub struct CommitProof {
    pub source: [u8; 16],
    pub term: u64,
    pub index: u64,
    pub quorum: u8,
    pub witness: [u8; 32],
}

/// The strongest fence that can be claimed: from a proof in hand that says a majority
/// has it, else from an open log, else none.
pub open spec fn fence_claim(commit: Option<CommitProof>, is_replicated: bool, wal_open: bool) -> Fence {
    if commit is Some && is_replicated {
        let p = commit.unwrap();
        Fence::ReplicatedDurable {
            source: p.source,
            commit_index: p.index,
            epoch: if p.term > u32::MAX {
                u32::MAX
            } else {
                p.term as u32
            },
            quorum: p.quorum,
            witness: p.witness,
        }
    } else if wal_open {
        Fence::LocalDurable { device_id: 0 }
    } else {
        Fence::Volatile
    }
}

/// The strongest fence that can be claimed. `is_replicated` is what the proof itself
/// says. An epoch that does not fit stops advancing, so that no new fence is ordered
/// under an old one.
pub fn achieved_fence(commit: &Option<CommitProof>, is_replicated: bool, wal_open: bool) -> (r: Fence)
    ensures
        r == fence_claim(*commit, is_replicated, wal_open),
{
    match commit {
        Some(p) => {
            if is_replicated {
                return Fence::ReplicatedDurable {
                    source: p.source,
                    commit_index: p.index,
                    epoch: if p.term > 0xFFFF_FFFF {
                        u32::MAX
                    } else {
                        p.term as u32
                    },
                    quorum: p.quorum,
                    witness: p.witness,
                };
            }
        },
        None => {},
    }
    if wal_open {
        Fence::LocalDurable { device_id: 0 }
    } else {
        Fence::Volatile
    }
}

/// Being wired for replication claims nothing: without a proof that says so, no
/// replicated fence is claimed.
pub proof fn lemma_replicated_needs_proof(commit: Option<CommitProof>, is_replicated: bool, wal_open: bool)
    ensures
        fence_claim(commit, is_replicated, wal_open) is ReplicatedDurable <==> commit is Some && is_replicated,
{
}

/// What becomes of a call that may ask for the fence.
#[derive(Debug, Clone, Copy, PartialEq, Eq)]
pub enum FenceCall {
    /// It does not ask for the fence.
    Other,
    /// It is answered with a code.
    Code(i32),
    /// It is answered with this fence, in the bytes that stand for it.
    Encode(Fence),
}

/// What becomes of a call that may ask for the fence. `query_op` is the opcode of the
/// question, and `longest` the length of the longest fence in bytes; `room` is the length
/// of the argument buffer, if there is one. A buffer that could be too short for a fence
/// is refused, whichever fence it is.
pub open spec fn fence_call(opcode: u32, query_op: u32, room: Option<usize>, longest: usize, claim: Fence) -> FenceCall {
    if opcode != query_op {
        FenceCall::Other
    } else if room is None || room.unwrap() < longest {
        FenceCall::Code(E_INVAL)
    } else {
        FenceCall::Encode(claim)
    }
}

/// Take a call that may ask for the fence: the strongest that can be claimed now.
pub fn fence_query(
    opcode: u32,
    query_op: u32,
    room: Option<usize>,
    longest: usize,
    commit: &Option<CommitProof>,
    is_replicated: bool,
    wal_open: bool,
) -> (r: FenceCall)
    ensures
        r == fence_call(opcode, query_op, room, longest, fence_claim(*commit, is_replicated, wal_open)),
{
    if opcode != query_op {
        return FenceCall::Other;
    }
    match room {
        Some(n) => if n < longest {
            FenceCall::Code(E_INVAL)
        } else {
            FenceCall::Encode(achieved_fence(commit, is_replicated, wal_open))
        },
        None => FenceCall::Code(E_INVAL),
    }
}

/// The answer to the question for the fence: its bytes, or that it has none.
pub fn fence_answer(encoded: Option<Vec<u8>>) -> (r: ProviderReply)
    ensures
        r.model() == match encoded {
            Some(b) => Answer::Bytes(b@),
            None => Answer::Code(E_INVAL),
        },
{
    match encoded {
        Some(b) => ProviderReply::Bytes(b),
        None => ProviderReply::Code(E_INVAL),
    }
}

/// Sixteen bytes that stand for a root.
pub open spec fn source_of(root: Seq<u8>) -> Seq<u8> {
    bytes::le64(loam_hash::fnv(root)) + bytes::le64(loam_hash::fnv(root) ^ 0x9E37_79B9_7F4A_7C15u64)
}

/// Sixteen bytes that stand for a root.
pub fn view_source(root: &[u8]) -> (r: [u8; 16])
    ensures
        r@ == source_of(root@),
{
    broadcast use bytes::lemma_write_first, bytes::lemma_write_next;

    let h: u64 = loam_hash::fnv1a64(root);
    let mut out: [u8; 16] = [0u8; 16];
    bytes::put_u64(&mut out, 0, h);
    bytes::put_u64(&mut out, 8, h ^ 0x9E37_79B9_7F4A_7C15u64);
    proof {
        reveal(bytes::written);
        assert(out@ =~= source_of(root@));
    }
    out
}

/// A change that subscribers are to hear of.
pub struct Change {
    pub kind: u8,
    pub key: Vec<u8>,
    pub value: Vec<u8>,
}

/// What a change says.
pub ghost struct Changed {
    pub kind: u8,
    pub key: Seq<u8>,
    pub value: Seq<u8>,
}

impl View for Change {
    type V = Changed;

    open spec fn view(&self) -> Changed {
        Changed { kind: self.kind, key: self.key@, value: self.value@ }
    }
}

/// How a call is answered.
pub enum ProviderReply {
    /// With a code.
    Code(i32),
    /// With bytes for the argument buffer, and their number as the code.
    Bytes(Vec<u8>),
    /// With zero, after a change; subscribers are to hear of it.
    Applied { changes: Vec<Change>, fence: FenceOut },
    /// With the handle of a new subscription. `initial` asks for what is there now.
    Subscribed { sub: usize, initial: bool },
    /// With what changed, for the caller's output buffer.
    Window { out_ptr: u64, out: Vec<u8>, head: u64, prefix: Vec<u8>, fence: FenceOut },
    /// With a page of a listing, which may need records of the snapshot first.
    Listing { page: ListPage, out_ptr: u64, fence: FenceOut },
}

/// How a call is answered.
pub ghost enum Answer {
    Code(i32),
    Bytes(Seq<u8>),
    Applied { changes: Seq<Changed>, fence: FenceOut },
    Subscribed { sub: int, initial: bool },
    Window { out_ptr: u64, out: Seq<u8>, head: u64, prefix: Seq<u8>, fence: FenceOut },
    Listing { page: Page, out_ptr: u64, fence: FenceOut },
}

pub open spec fn all_changes(v: Seq<Change>) -> Seq<Changed> {
    Seq::new(v.len(), |i: int| v[i]@)
}

impl ProviderReply {
    pub open spec fn model(self) -> Answer {
        match self {
            ProviderReply::Code(c) => Answer::Code(c),
            ProviderReply::Bytes(b) => Answer::Bytes(b@),
            ProviderReply::Applied { changes, fence } => Answer::Applied { changes: all_changes(changes@), fence },
            ProviderReply::Subscribed { sub, initial } => Answer::Subscribed { sub: sub as int, initial },
            ProviderReply::Window { out_ptr, out, head, prefix, fence } => Answer::Window {
                out_ptr,
                out: out@,
                head,
                prefix: prefix@,
                fence,
            },
            ProviderReply::Listing { page, out_ptr, fence } => Answer::Listing { page: page@, out_ptr, fence },
        }
    }
}

/// What the calls work on.
pub ghost struct Provider {
    pub table: Table,
    pub open: Seq<NsOpenSlot>,
    pub subs: Seq<Sub>,
    pub snap_count: u32,
}

/// The slot and revision of a key that is bound.
pub open spec fn live(a: Arena, path: Seq<u8>) -> Option<(int, u64)> {
    match a.find_live(Seq::empty(), path) {
        Some(i) => Some((i, a.slots[i].unwrap().revision)),
        None => None,
    }
}

/// The revision behind all that is known of a key, a deletion included.
pub open spec fn next_revision(a: Arena, path: Seq<u8>) -> u64 {
    match a.get(Seq::empty(), path) {
        Some(b) => b.revision.wrapping_add(1),
        None => 1,
    }
}

/// Moving a key to one that is not bound. What is left of an earlier deletion of that
/// key gives way.
pub open spec fn moved(a: Arena, slot: int, from: Seq<u8>, to: Seq<u8>, revision: u64) -> (
    Arena,
    Result<ApplyOk, ApplyError>,
) {
    let none = Seq::<u8>::empty();
    if a.get(none, to) is Some && a.slots[slot].unwrap().locked == 0 && a.unbind(none, to).1 is Ok {
        a.unbind(none, to).0.rename(none, from, to, revision)
    } else {
        a.rename(none, from, to, revision)
    }
}

/// The first free place among the open entries, from `from` on.
pub open spec fn free_handle(s: Seq<NsOpenSlot>, from: int) -> Option<int>
    decreases s.len() - from,
{
    if from < 0 || from >= s.len() {
        None
    } else if !s[from].in_use {
        Some(from)
    } else {
        free_handle(s, from + 1)
    }
}

/// The arguments of a bind: path, kind, flags, target, fence.
pub open spec fn bind_args(a: Seq<u8>) -> Option<(Seq<u8>, u8, u8, Seq<u8>, FenceOut)> {
    if a.len() < 2 {
        None
    } else {
        let mid = 2 + bytes::u16_at(a, 0);
        if a.len() < mid + 4 {
            None
        } else {
            let end = mid + 4 + bytes::u16_at(a, mid + 2);
            if a.len() < end {
                None
            } else {
                Some((a.subrange(2, mid), a[mid], a[mid + 1], a.subrange(mid + 4, end), fence_at(a, end)))
            }
        }
    }
}

/// The argument of a deletion.
pub open spec fn delete_args(a: Seq<u8>) -> Option<Seq<u8>> {
    if a.len() < 2 || a.len() < 2 + bytes::u16_at(a, 0) {
        None
    } else {
        Some(a.subrange(2, 2 + bytes::u16_at(a, 0)))
    }
}

/// The arguments of a rename: from, to, fence.
pub open spec fn rename_args(a: Seq<u8>) -> Option<(Seq<u8>, Seq<u8>, FenceOut)> {
    if a.len() < 2 {
        None
    } else {
        let mid = 2 + bytes::u16_at(a, 0);
        if a.len() < mid + 2 {
            None
        } else {
            let end = mid + 2 + bytes::u16_at(a, mid);
            if a.len() < end {
                None
            } else {
                Some((a.subrange(2, mid), a.subrange(mid + 2, end), fence_at(a, end)))
            }
        }
    }
}

/// The arguments of a subscription: prefix, channel, flags.
pub open spec fn subscribe_args(a: Seq<u8>) -> Option<(Seq<u8>, i32, u8)> {
    if a.len() < 2 {
        None
    } else {
        let end = 2 + bytes::u16_at(a, 0);
        if a.len() < end + 5 || bytes::u16_at(a, 0) > loam_limits::MAX_PATH {
            None
        } else {
            Some((a.subrange(2, end), bytes::u32_at(a, end) as i32, a[end + 4]))
        }
    }
}

/// The arguments of a request for changes: prefix, position, output buffer, its size, fence.
pub open spec fn changes_args(a: Seq<u8>) -> Option<(Seq<u8>, u64, u64, u32, FenceOut)> {
    if a.len() < 2 {
        None
    } else {
        let end = 2 + bytes::u16_at(a, 0);
        if a.len() < end + 20 || bytes::u16_at(a, 0) > loam_limits::MAX_PATH {
            None
        } else if bytes::u64_at(a, end + 8) == 0 || bytes::u32_at(a, end + 16) < loam_change_wire::CHANGES_HEADER {
            None
        } else {
            Some(
                (
                    a.subrange(2, end),
                    bytes::u64_at(a, end),
                    bytes::u64_at(a, end + 8),
                    bytes::u32_at(a, end + 16),
                    fence_at(a, end + 20),
                ),
            )
        }
    }
}

/// Up to four bytes as a number, least significant first.
pub open spec fn short_number(s: Seq<u8>) -> u32 {
    bytes::u32_at(s.take(if s.len() < 4 { s.len() as int } else { 4 }) + seq![0u8, 0u8, 0u8, 0u8], 0)
}

/// The arguments of a listing: prefix, cursor, output buffer, its size, fence.
pub open spec fn list_args(a: Seq<u8>) -> Option<(Seq<u8>, u32, u64, u32, FenceOut)> {
    if a.len() < 4 {
        None
    } else {
        let mid = 2 + bytes::u16_at(a, 0);
        if a.len() < mid + 2 {
            None
        } else {
            let end = mid + 2 + bytes::u16_at(a, mid);
            if a.len() < end + 12 || bytes::u64_at(a, end) == 0 {
                None
            } else {
                Some(
                    (
                        a.subrange(2, mid),
                        short_number(a.subrange(mid + 2, end)),
                        bytes::u64_at(a, end),
                        bytes::u32_at(a, end + 8),
                        fence_at(a, end + 12),
                    ),
                )
            }
        }
    }
}

/// What a stat tells of an entry.
pub open spec fn stat_bytes(b: Binding) -> Seq<u8> {
    seq![b.kind] + bytes::le64(b.revision) + bytes::le16(b.object_id.len() as u16) + b.object_id
}

impl Provider {
    /// Nothing is bound, open or subscribed.
    pub open spec fn fresh(capacity: nat) -> Provider {
        Provider {
            table: Table {
                arena: Arena {
                    slots: Seq::new(capacity, |i: int| None::<Binding>),
                    change_seq: 0,
                    change_horizon: 0,
                },
                reserved: Seq::empty(),
                snap_active: false,
                merging: false,
                evictions: 0,
            },
            open: Seq::new(NS_OPEN_MAX as nat, |i: int| NsOpenSlot { in_use: false, slot: 0, revision: 0, change_rev: 0 }),
            subs: Seq::new(namespace_watch::NS_SUB_MAX as nat, |i: int| namespace_watch::no_sub()),
            snap_count: 0,
        }
    }

    pub open spec fn with_arena(self, arena: Arena) -> Provider {
        Provider { table: Table { arena, ..self.table }, ..self }
    }

    /// Opening the entry of a key.
    pub open spec fn lookup(self, path: Seq<u8>) -> (Provider, Answer) {
        if path.len() == 0 {
            (self, Answer::Code(E_INVAL))
        } else {
            match live(self.table.arena, path) {
                None => (self, Answer::Code(E_NOENT)),
                Some((slot, revision)) => match free_handle(self.open, 0) {
                    None => (self, Answer::Code(E_MFILE)),
                    Some(h) => (
                        Provider {
                            open: self.open.update(
                                h,
                                NsOpenSlot {
                                    in_use: true,
                                    slot: slot as u32,
                                    revision,
                                    change_rev: self.table.arena.slots[slot].unwrap().change_rev,
                                },
                            ),
                            ..self
                        },
                        Answer::Code(h as i32),
                    ),
                },
            }
        }
    }

    /// The entry is open.
    pub open spec fn is_open(self, handle: i32) -> bool {
        0 <= handle < self.open.len() && self.open[handle as int].in_use
    }

    /// Reading an open entry. Once the slot has changed, it is gone.
    pub open spec fn stat(self, handle: i32, room: nat) -> Answer {
        if !self.is_open(handle) {
            Answer::Code(E_INVAL)
        } else {
            let h = self.open[handle as int];
            let slots = self.table.arena.slots;
            if h.slot < slots.len() && slots[h.slot as int].is_some() && slots[h.slot as int].unwrap().revision
                == h.revision && slots[h.slot as int].unwrap().change_rev == h.change_rev {
                let out = stat_bytes(slots[h.slot as int].unwrap());
                if room < out.len() {
                    Answer::Code(E_INVAL)
                } else {
                    Answer::Bytes(out)
                }
            } else {
                Answer::Code(E_NOENT)
            }
        }
    }

    /// Closing an entry or a subscription.
    pub open spec fn close(self, handle: i32) -> (Provider, Answer) {
        if handle >= SUB_HANDLE_BASE {
            let i = handle - SUB_HANDLE_BASE;
            if i < self.subs.len() && self.subs[i].in_use {
                (
                    Provider {
                        subs: self.subs.update(
                            i,
                            Sub { in_use: false, lost_pending: false, sink_chan: -1i32, ..self.subs[i] },
                        ),
                        ..self
                    },
                    Answer::Code(0),
                )
            } else {
                (self, Answer::Code(E_INVAL))
            }
        } else if self.is_open(handle) {
            (
                Provider {
                    open: self.open.update(
                        handle as int,
                        NsOpenSlot { in_use: false, ..self.open[handle as int] },
                    ),
                    ..self
                },
                Answer::Code(0),
            )
        } else {
            (self, Answer::Code(E_INVAL))
        }
    }

    /// Binding a key. One that is bound is bound again only if the flags say so, at the
    /// next revision. One that was deleted is bound anew, behind the deletion.
    pub open spec fn bind(self, arg: Seq<u8>) -> (Provider, Answer) {
        match bind_args(arg) {
            None => (self, Answer::Code(E_INVAL)),
            Some((path, kind, flags, target, fence)) => {
                let existing = live(self.table.arena, path);
                if existing is Some && flags & 1 == 0 {
                    (self, Answer::Code(E_EXIST))
                } else {
                    let revision = next_revision(self.table.arena, path);
                    let (arena, r) = self.table.arena.bind(Seq::empty(), path, target, kind, revision);
                    match r {
                        Ok(_) => (
                            self.with_arena(arena),
                            Answer::Applied {
                                changes: seq![
                                    Changed {
                                        kind: if existing is Some {
                                            loam_change_wire::KIND_MODIFIED
                                        } else {
                                            loam_change_wire::KIND_ADDED
                                        },
                                        key: path,
                                        value: target,
                                    },
                                ],
                                fence,
                            },
                        ),
                        Err(ApplyError::KeyTooLong) => (self, Answer::Code(E_INVAL)),
                        Err(_) => (self, Answer::Code(E_EXIST)),
                    }
                }
            },
        }
    }

    /// Deleting a key.
    pub open spec fn delete(self, arg: Seq<u8>) -> (Provider, Answer) {
        match delete_args(arg) {
            None => (self, Answer::Code(E_INVAL)),
            Some(path) => match live(self.table.arena, path) {
                None => (self, Answer::Code(E_NOENT)),
                Some((_, rev)) => {
                    let (arena, r) = self.table.arena.tombstone(Seq::empty(), path, rev.wrapping_add(1));
                    match r {
                        Ok(_) => (
                            self.with_arena(arena),
                            Answer::Applied {
                                changes: seq![
                                    Changed {
                                        kind: loam_change_wire::KIND_DELETED,
                                        key: path,
                                        value: Seq::empty(),
                                    },
                                ],
                                fence: FenceOut { ptr: 0, cap: 0 },
                            },
                        ),
                        Err(ApplyError::KeyTooLong) => (self, Answer::Code(E_INVAL)),
                        Err(_) => (self, Answer::Code(E_NOENT)),
                    }
                },
            },
        }
    }

    /// Renaming a key: the old name goes, and the new one appears.
    pub open spec fn rename(self, arg: Seq<u8>) -> (Provider, Answer) {
        match rename_args(arg) {
            None => (self, Answer::Code(E_INVAL)),
            Some((from, to, fence)) => match live(self.table.arena, from) {
                None => (self, Answer::Code(E_NOENT)),
                Some((slot, rev)) => if live(self.table.arena, to) is Some {
                    (self, Answer::Code(E_EXIST))
                } else {
                    let (arena, r) = moved(self.table.arena, slot, from, to, rev.wrapping_add(1));
                    match r {
                        Ok(_) => (
                            self.with_arena(arena),
                            Answer::Applied {
                                changes: seq![
                                    Changed {
                                        kind: loam_change_wire::KIND_DELETED,
                                        key: from,
                                        value: Seq::empty(),
                                    },
                                    Changed {
                                        kind: loam_change_wire::KIND_ADDED,
                                        key: to,
                                        value: self.table.arena.slots[slot].unwrap().object_id,
                                    },
                                ],
                                fence,
                            },
                        ),
                        Err(ApplyError::KeyTooLong) => (self, Answer::Code(E_INVAL)),
                        Err(ApplyError::DestinationOccupied) => (self, Answer::Code(E_EXIST)),
                        Err(_) => (self, Answer::Code(E_NOENT)),
                    }
                },
            },
        }
    }

    /// Subscribing to the changes under a prefix.
    pub open spec fn subscribe(self, arg: Seq<u8>) -> (Provider, Answer) {
        match subscribe_args(arg) {
            None => (self, Answer::Code(E_INVAL)),
            Some((prefix, sink_chan, flags)) => match namespace_watch::free_place(self.subs, 0) {
                None => (self, Answer::Code(E_MFILE)),
                Some(i) => (
                    Provider {
                        subs: self.subs.update(
                            i,
                            Sub { in_use: true, lost_pending: false, prefix, sink_chan, sequence: 0 },
                        ),
                        ..self
                    },
                    Answer::Subscribed { sub: i, initial: flags & 1 != 0 },
                ),
            },
        }
    }

    /// What changed under a prefix.
    pub open spec fn changes(self, arg: Seq<u8>) -> Answer {
        match changes_args(arg) {
            None => Answer::Code(E_INVAL),
            Some((prefix, since, out_ptr, out_cap, fence)) => Answer::Window {
                out_ptr,
                out: namespace_changes::changes_answer(self.table.arena, prefix, since, out_cap as nat),
                head: self.table.arena.change_seq,
                prefix,
                fence,
            },
        }
    }

    /// A page of a listing.
    pub open spec fn list(self, arg: Seq<u8>) -> Answer {
        match list_args(arg) {
            None => Answer::Code(E_INVAL),
            Some((prefix, cursor, out_ptr, out_cap, fence)) => Answer::Listing {
                page: Page::begin(
                    self.table.arena,
                    self.table.snap_active,
                    self.snap_count,
                    prefix,
                    cursor,
                    out_cap as nat,
                ),
                out_ptr,
                fence,
            },
        }
    }

    /// Answering a call.
    pub open spec fn dispatch(self, handle: i32, opcode: u32, arg: Seq<u8>) -> (Provider, Answer) {
        if opcode == NS_OP_CAPS {
            (self, Answer::Code(NS_CAPS as i32))
        } else if opcode == NS_OP_LOOKUP {
            self.lookup(arg)
        } else if opcode == NS_OP_STAT {
            (self, self.stat(handle, arg.len()))
        } else if opcode == NS_OP_CLOSE {
            self.close(handle)
        } else if opcode == NS_OP_BIND {
            self.bind(arg)
        } else if opcode == NS_OP_DELETE {
            self.delete(arg)
        } else if opcode == NS_OP_RENAME {
            self.rename(arg)
        } else if opcode == NS_OP_SUBSCRIBE {
            self.subscribe(arg)
        } else if opcode == NS_OP_CHANGES {
            (self, self.changes(arg))
        } else if opcode == NS_OP_LIST {
            (self, self.list(arg))
        } else {
            (self, Answer::Code(E_NOSYS))
        }
    }
}

/// The namespace as its callers see it, with room for `N` bindings.
pub struct NamespaceProvider<const N: usize> {
    pub table: NamespaceTable<N>,
    pub open: Vec<NsOpenSlot>,
    pub watchers: Watchers,
    /// How many records the snapshot holds.
    pub snap_count: u32,
}

impl<const N: usize> View for NamespaceProvider<N> {
    type V = Provider;

    open spec fn view(&self) -> Provider {
        Provider { table: self.table@, open: self.open@, subs: self.watchers@, snap_count: self.snap_count }
    }
}

/// Find the binding of a key that is not deleted.
fn live_slot<const N: usize>(bindings: &PicNamespaceState<N>, path: &[u8]) -> (r: Option<(u32, u64)>)
    requires
        bindings.wf(),
        N <= u32::MAX,
    ensures
        match r {
            Some((i, rev)) => live(bindings@, path@) == Some((i as int, rev)) && i < N
                && bindings@.slots[i as int].is_some(),
            None => live(bindings@, path@) is None,
        },
{
    let none: [u8; 0] = [];
    assert(none@ =~= Seq::<u8>::empty());
    let (ns_hash, path_hash): (u64, u64) = namespace_pic_state::key_hash(none.as_slice(), path);
    let ghost p = |b: Option<Binding>| namespace_pic_state::has_live_key(b, Seq::empty(), path@);
    let mut i: usize = 0;
    while i < N
        invariant
            i <= N,
            N <= u32::MAX,
            bindings.wf(),
            none@ == Seq::<u8>::empty(),
            ns_hash == loam_hash::fnv(Seq::empty()),
            path_hash == loam_hash::fnv(path@),
            p == (|b: Option<Binding>| namespace_pic_state::has_live_key(b, Seq::empty(), path@)),
            namespace_pic_state::first_where(bindings@.slots, 0, p) == namespace_pic_state::first_where(
                bindings@.slots,
                i as int,
                p,
            ),
        decreases N - i,
    {
        match bindings.slot_ref(i) {
            Some(slot) => {
                if slot.matches(ns_hash, path_hash, none.as_slice(), path) && slot.kind
                    != namespace_pic_state::KIND_TOMBSTONE {
                    assert(p(bindings@.slots[i as int]));
                    return Some((i as u32, slot.revision));
                }
                assert(!p(bindings@.slots[i as int]));
            },
            None => {},
        }
        i += 1;
    }
    None
}

fn stat_out(slot: &BindingSlot) -> (r: Vec<u8>)
    requires
        slot.wf(),
        slot@ is Some,
    ensures
        r@ == stat_bytes(slot@.unwrap()),
{
    broadcast use bytes::lemma_write_first, bytes::lemma_write_next;

    let target: &[u8] = slot.object_id();
    let mut head: [u8; 11] = [0u8; 11];
    bytes::put_u8(&mut head, 0, slot.kind);
    bytes::put_u64(&mut head, 1, slot.revision);
    bytes::put_u16(&mut head, 9, target.len() as u16);
    proof {
        reveal(bytes::written);
    }
    let mut r: Vec<u8> = bytes::to_vec(head.as_slice());
    bytes::append(&mut r, target);
    assert(r@ =~= stat_bytes(slot@.unwrap()));
    r
}

fn change(kind: u8, key: &[u8], value: &[u8]) -> (r: Change)
    ensures
        r@ == (Changed { kind, key: key@, value: value@ }),
{
    Change { kind, key: bytes::to_vec(key), value: bytes::to_vec(value) }
}

fn get_short_number(s: &[u8]) -> (r: u32)
    ensures
        r == short_number(s@),
{
    let mut buf: [u8; 4] = [0u8; 4];
    let n: usize = if s.len() < 4 {
        s.len()
    } else {
        4
    };
    bytes::put_bytes(&mut buf, 0, slice_subrange(s, 0, n));
    proof {
        reveal(bytes::splice);
        let t = s@.take(n as int) + seq![0u8, 0u8, 0u8, 0u8];
        assert(buf@ =~= t.take(4));
        assert(buf@[0] == t[0] && buf@[1] == t[1] && buf@[2] == t[2] && buf@[3] == t[3]);
    }
    bytes::get_u32(buf.as_slice(), 0)
}

impl<const N: usize> NamespaceProvider<N> {
    pub open spec fn wf(&self) -> bool {
        &&& self.table.wf()
        &&& self.open@.len() == NS_OPEN_MAX
        &&& self.watchers.wf()
        &&& N <= u32::MAX
    }

    pub fn new() -> (r: Self)
        requires
            N <= u32::MAX,
        ensures
            r.wf(),
            r@ == Provider::fresh(N as nat),
    {
        let mut open: Vec<NsOpenSlot> = Vec::new();
        let mut i: usize = 0;
        while i < NS_OPEN_MAX
            invariant
                i <= NS_OPEN_MAX,
                open@ == Seq::new(i as nat, |i: int| NsOpenSlot { in_use: false, slot: 0, revision: 0, change_rev: 0 }),
            decreases NS_OPEN_MAX - i,
        {
            open.push(NsOpenSlot { in_use: false, slot: 0, revision: 0, change_rev: 0 });
            i += 1;
        }
        NamespaceProvider { table: NamespaceTable::new(), open, watchers: Watchers::new(), snap_count: 0 }
    }

    fn alloc_handle(&mut self, slot: u32, revision: u64, change_rev: u64) -> (r: i32)
        requires
            old(self).wf(),
        ensures
            final(self).wf(),
            match free_handle(old(self)@.open, 0) {
                None => r == E_MFILE && final(self)@ == old(self)@,
                Some(h) => r == h as i32 && final(self)@ == (Provider {
                    open: old(self)@.open.update(h, NsOpenSlot { in_use: true, slot, revision, change_rev }),
                    ..old(self)@
                }),
            },
    {
        let mut i: usize = 0;
        while i < NS_OPEN_MAX
            invariant
                i <= NS_OPEN_MAX,
                self.wf(),
                self@ == old(self)@,
                free_handle(self@.open, 0) == free_handle(self@.open, i as int),
            decreases NS_OPEN_MAX - i,
        {
            if !self.open[i].in_use {
                self.open.set(i, NsOpenSlot { in_use: true, slot, revision, change_rev });
                return i as i32;
            }
            i += 1;
        }
        E_MFILE
    }

    fn op_lookup(&mut self, path: &[u8]) -> (r: ProviderReply)
        requires
            old(self).wf(),
        ensures
            final(self).wf(),
            (final(self)@, r.model()) == old(self)@.lookup(path@),
    {
        if path.len() == 0 {
            return ProviderReply::Code(E_INVAL);
        }
        match live_slot(&self.table.bindings, path) {
            Some((slot, revision)) => {
                let change_rev: u64 = match self.table.bindings.slot_ref(slot as usize) {
                    Some(s) => s.change_rev,
                    None => 0,
                };
                ProviderReply::Code(self.alloc_handle(slot, revision, change_rev))
            },
            None => ProviderReply::Code(E_NOENT),
        }
    }

    fn op_stat(&self, handle: i32, room: usize) -> (r: ProviderReply)
        requires
            self.wf(),
        ensures
            r.model() == self@.stat(handle, room as nat),
    {
        if handle < 0 || handle >= 16 {
            return ProviderReply::Code(E_INVAL);
        }
        let h: NsOpenSlot = self.open[handle as usize];
        if !h.in_use {
            return ProviderReply::Code(E_INVAL);
        }
        match self.table.bindings.slot_ref(h.slot as usize) {
            Some(slot) => {
                if !slot.occupied || slot.revision != h.revision || slot.change_rev != h.change_rev {
                    return ProviderReply::Code(E_NOENT);
                }
                let out: Vec<u8> = stat_out(slot);
                if room < out.len() {
                    ProviderReply::Code(E_INVAL)
                } else {
                    ProviderReply::Bytes(out)
                }
            },
            None => ProviderReply::Code(E_NOENT),
        }
    }

    fn op_close(&mut self, handle: i32) -> (r: ProviderReply)
        requires
            old(self).wf(),
        ensures
            final(self).wf(),
            (final(self)@, r.model()) == old(self)@.close(handle),
    {
        if handle >= SUB_HANDLE_BASE {
            let i: usize = (handle - SUB_HANDLE_BASE) as usize;
            return if self.watchers.close(i) {
                ProviderReply::Code(0)
            } else {
                ProviderReply::Code(E_INVAL)
            };
        }
        if handle < 0 || handle >= 16 || !self.open[handle as usize].in_use {
            return ProviderReply::Code(E_INVAL);
        }
        let h: NsOpenSlot = self.open[handle as usize];
        self.open.set(handle as usize, NsOpenSlot { in_use: false, ..h });
        ProviderReply::Code(0)
    }

    fn op_bind(&mut self, a: &[u8]) -> (r: ProviderReply)
        requires
            old(self).wf(),
        ensures
            final(self).wf(),
            (final(self)@, r.model()) == old(self)@.bind(a@),
    {
        if a.len() < 2 {
            return ProviderReply::Code(E_INVAL);
        }
        let mid: usize = 2 + bytes::get_u16(a, 0) as usize;
        if a.len() < mid + 4 {
            return ProviderReply::Code(E_INVAL);
        }
        let end: usize = mid + 4 + bytes::get_u16(a, mid + 2) as usize;
        if a.len() < end {
            return ProviderReply::Code(E_INVAL);
        }
        let path: &[u8] = slice_subrange(a, 2, mid);
        let kind: u8 = a[mid];
        let flags: u8 = a[mid + 1];
        let target: &[u8] = slice_subrange(a, mid + 4, end);
        let fence: FenceOut = read_fence_out(a, end);
        let existing: Option<(u32, u64)> = live_slot(&self.table.bindings, path);
        if existing.is_some() && flags & 1 == 0 {
            return ProviderReply::Code(E_EXIST);
        }
        let none: [u8; 0] = [];
        assert(none@ =~= Seq::<u8>::empty());
        let revision: u64 = match self.table.bindings.lookup(none.as_slice(), path) {
            Some(slot) => slot.revision.wrapping_add(1),
            None => 1,
        };
        let done: Result<ApplyOk, ApplyError> = self.table.bindings.bind(none.as_slice(), path, target, kind, revision);
        match done {
            Ok(_) => {
                let k: u8 = if existing.is_some() {
                    loam_change_wire::KIND_MODIFIED
                } else {
                    loam_change_wire::KIND_ADDED
                };
                let mut changes: Vec<Change> = Vec::new();
                changes.push(change(k, path, target));
                assert(all_changes(changes@) =~= seq![Changed { kind: k, key: path@, value: target@ }]);
                ProviderReply::Applied { changes, fence }
            },
            Err(e) => {
                assert(self@ == old(self)@);
                match e {
                    ApplyError::KeyTooLong => ProviderReply::Code(E_INVAL),
                    _ => ProviderReply::Code(E_EXIST),
                }
            },
        }
    }

    fn op_delete(&mut self, a: &[u8]) -> (r: ProviderReply)
        requires
            old(self).wf(),
        ensures
            final(self).wf(),
            (final(self)@, r.model()) == old(self)@.delete(a@),
    {
        if a.len() < 2 {
            return ProviderReply::Code(E_INVAL);
        }
        let end: usize = 2 + bytes::get_u16(a, 0) as usize;
        if a.len() < end {
            return ProviderReply::Code(E_INVAL);
        }
        let path: &[u8] = slice_subrange(a, 2, end);
        let rev: u64 = match live_slot(&self.table.bindings, path) {
            Some((_, rev)) => rev,
            None => {
                return ProviderReply::Code(E_NOENT);
            },
        };
        let none: [u8; 0] = [];
        assert(none@ =~= Seq::<u8>::empty());
        let done: Result<ApplyOk, ApplyError> = self.table.bindings.tombstone(
            none.as_slice(),
            path,
            rev.wrapping_add(1),
        );
        match done {
            Ok(_) => {
                let mut changes: Vec<Change> = Vec::new();
                changes.push(change(loam_change_wire::KIND_DELETED, path, none.as_slice()));
                assert(all_changes(changes@) =~= seq![
                    Changed { kind: loam_change_wire::KIND_DELETED, key: path@, value: Seq::empty() },
                ]);
                ProviderReply::Applied { changes, fence: FenceOut { ptr: 0, cap: 0 } }
            },
            Err(e) => {
                assert(self@ == old(self)@);
                match e {
                    ApplyError::KeyTooLong => ProviderReply::Code(E_INVAL),
                    _ => ProviderReply::Code(E_NOENT),
                }
            },
        }
    }

    fn op_rename(&mut self, a: &[u8]) -> (r: ProviderReply)
        requires
            old(self).wf(),
        ensures
            final(self).wf(),
            (final(self)@, r.model()) == old(self)@.rename(a@),
    {
        if a.len() < 2 {
            return ProviderReply::Code(E_INVAL);
        }
        let mid: usize = 2 + bytes::get_u16(a, 0) as usize;
        if a.len() < mid + 2 {
            return ProviderReply::Code(E_INVAL);
        }
        let end: usize = mid + 2 + bytes::get_u16(a, mid) as usize;
        if a.len() < end {
            return ProviderReply::Code(E_INVAL);
        }
        let from: &[u8] = slice_subrange(a, 2, mid);
        let to: &[u8] = slice_subrange(a, mid + 2, end);
        let fence: FenceOut = read_fence_out(a, end);
        let (slot, rev): (u32, u64) = match live_slot(&self.table.bindings, from) {
            Some(v) => v,
            None => {
                return ProviderReply::Code(E_NOENT);
            },
        };
        if live_slot(&self.table.bindings, to).is_some() {
            return ProviderReply::Code(E_EXIST);
        }
        let (value, locked): (Vec<u8>, u8) = match self.table.bindings.slot_ref(slot as usize) {
            Some(s) => (bytes::to_vec(s.object_id()), s.locked),
            None => (Vec::new(), 0),
        };
        let none: [u8; 0] = [];
        assert(none@ =~= Seq::<u8>::empty());
        proof {
            lemma_move_succeeds(self.table.bindings@, slot as int, from@, to@, rev.wrapping_add(1));
        }
        if locked == 0 && self.table.bindings.lookup(none.as_slice(), to).is_some() {
            let _cleared: Result<ApplyOk, ApplyError> = self.table.bindings.unbind(none.as_slice(), to);
        }
        let done: Result<ApplyOk, ApplyError> = self.table.bindings.rename(
            none.as_slice(),
            from,
            to,
            rev.wrapping_add(1),
        );
        match done {
            Ok(_) => {
                let mut changes: Vec<Change> = Vec::new();
                changes.push(change(loam_change_wire::KIND_DELETED, from, none.as_slice()));
                changes.push(change(loam_change_wire::KIND_ADDED, to, value.as_slice()));
                assert(all_changes(changes@) =~= seq![
                    Changed { kind: loam_change_wire::KIND_DELETED, key: from@, value: Seq::empty() },
                    Changed { kind: loam_change_wire::KIND_ADDED, key: to@, value: value@ },
                ]);
                ProviderReply::Applied { changes, fence }
            },
            Err(e) => {
                assert(self@ == old(self)@);
                match e {
                    ApplyError::KeyTooLong => ProviderReply::Code(E_INVAL),
                    ApplyError::DestinationOccupied => ProviderReply::Code(E_EXIST),
                    _ => ProviderReply::Code(E_NOENT),
                }
            },
        }
    }

    fn op_subscribe(&mut self, a: &[u8]) -> (r: ProviderReply)
        requires
            old(self).wf(),
        ensures
            final(self).wf(),
            (final(self)@, r.model()) == old(self)@.subscribe(a@),
    {
        if a.len() < 2 {
            return ProviderReply::Code(E_INVAL);
        }
        let plen: usize = bytes::get_u16(a, 0) as usize;
        let end: usize = 2 + plen;
        if a.len() < end + 5 || plen > loam_limits::MAX_PATH {
            return ProviderReply::Code(E_INVAL);
        }
        let sink_chan: i32 = bytes::get_u32(a, end) as i32;
        let flags: u8 = a[end + 4];
        match self.watchers.subscribe(slice_subrange(a, 2, end), sink_chan) {
            Some(sub) => ProviderReply::Subscribed { sub, initial: flags & 1 != 0 },
            None => ProviderReply::Code(E_MFILE),
        }
    }

    fn op_changes(&self, a: &[u8]) -> (r: ProviderReply)
        requires
            self.wf(),
        ensures
            r.model() == self@.changes(a@),
    {
        if a.len() < 2 {
            return ProviderReply::Code(E_INVAL);
        }
        let plen: usize = bytes::get_u16(a, 0) as usize;
        let end: usize = 2 + plen;
        if a.len() < end + 20 || plen > loam_limits::MAX_PATH {
            return ProviderReply::Code(E_INVAL);
        }
        let since: u64 = bytes::get_u64(a, end);
        let out_ptr: u64 = bytes::get_u64(a, end + 8);
        let out_cap: u32 = bytes::get_u32(a, end + 16);
        let fence: FenceOut = read_fence_out(a, end + 20);
        if out_ptr == 0 || out_cap < 5 {
            return ProviderReply::Code(E_INVAL);
        }
        let prefix: &[u8] = slice_subrange(a, 2, end);
        let out: Vec<u8> = namespace_changes::changes_since(&self.table.bindings, prefix, since, out_cap as usize);
        ProviderReply::Window {
            out_ptr,
            out,
            head: self.table.bindings.change_seq(),
            prefix: bytes::to_vec(prefix),
            fence,
        }
    }

    fn op_list(&self, a: &[u8]) -> (r: ProviderReply)
        requires
            self.wf(),
        ensures
            r.model() == self@.list(a@),
    {
        if a.len() < 4 {
            return ProviderReply::Code(E_INVAL);
        }
        let mid: usize = 2 + bytes::get_u16(a, 0) as usize;
        if a.len() < mid + 2 {
            return ProviderReply::Code(E_INVAL);
        }
        let end: usize = mid + 2 + bytes::get_u16(a, mid) as usize;
        if a.len() < end + 12 {
            return ProviderReply::Code(E_INVAL);
        }
        let cursor: u32 = get_short_number(slice_subrange(a, mid + 2, end));
        let out_ptr: u64 = bytes::get_u64(a, end);
        let out_cap: u32 = bytes::get_u32(a, end + 8);
        let fence: FenceOut = read_fence_out(a, end + 12);
        if out_ptr == 0 {
            return ProviderReply::Code(E_INVAL);
        }
        let page: ListPage = ListPage::begin(
            &self.table,
            self.snap_count,
            slice_subrange(a, 2, mid),
            cursor,
            out_cap as usize,
        );
        ProviderReply::Listing { page, out_ptr, fence }
    }

    /// Answer a call.
    pub fn provider_dispatch_impl(&mut self, handle: i32, opcode: u32, arg: &[u8]) -> (r: ProviderReply)
        requires
            old(self).wf(),
        ensures
            final(self).wf(),
            (final(self)@, r.model()) == old(self)@.dispatch(handle, opcode, arg@),
    {
        if opcode == NS_OP_CAPS {
            ProviderReply::Code(NS_CAPS as i32)
        } else if opcode == NS_OP_LOOKUP {
            self.op_lookup(arg)
        } else if opcode == NS_OP_STAT {
            self.op_stat(handle, arg.len())
        } else if opcode == NS_OP_CLOSE {
            self.op_close(handle)
        } else if opcode == NS_OP_BIND {
            self.op_bind(arg)
        } else if opcode == NS_OP_DELETE {
            self.op_delete(arg)
        } else if opcode == NS_OP_RENAME {
            self.op_rename(arg)
        } else if opcode == NS_OP_SUBSCRIBE {
            self.op_subscribe(arg)
        } else if opcode == NS_OP_CHANGES {
            self.op_changes(arg)
        } else if opcode == NS_OP_LIST {
            self.op_list(arg)
        } else {
            ProviderReply::Code(E_NOSYS)
        }
    }

    /// The binding in slot `i` as a change to tell a new subscriber of, with its
    /// position, where it is bound under the prefix.
    pub fn initial_change(&self, i: usize, prefix: &[u8]) -> (r: Option<(u64, Change)>)
        requires
            self.wf(),
        ensures
            match r {
                Some((rev, c)) => i < N && is_initial(self@.table.arena.slots[i as int], prefix@) && rev
                    == self@.table.arena.slots[i as int].unwrap().change_rev && c@ == (Changed {
                    kind: loam_change_wire::KIND_ADDED,
                    key: self@.table.arena.slots[i as int].unwrap().path,
                    value: self@.table.arena.slots[i as int].unwrap().object_id,
                }),
                None => i >= N || !is_initial(self@.table.arena.slots[i as int], prefix@),
            },
    {
        match self.table.bindings.slot_ref(i) {
            Some(slot) => {
                if slot.occupied && slot.kind != namespace_pic_state::KIND_TOMBSTONE
                    && loam_change_wire::under_prefix(slot.path(), prefix) {
                    Some((slot.change_rev, change(loam_change_wire::KIND_ADDED, slot.path(), slot.object_id())))
                } else {
                    None
                }
            },
            None => None,
        }
    }
}

/// The slot is told to a new subscriber.
pub open spec fn is_initial(b: Option<Binding>, prefix: Seq<u8>) -> bool {
    b matches Some(x) && x.kind != namespace_pic_state::KIND_TOMBSTONE && prefix.is_prefix_of(
        x.path,
    )
}

/// A key is bound exactly where the table holds it and not as a deletion.
pub proof fn lemma_live_is_get(a: Arena, path: Seq<u8>)
    requires
        a.wf(),
    ensures
        match live(a, path) {
            Some((i, rev)) => 0 <= i < a.slots.len() && a.get(Seq::empty(), path) == a.slots[i]
                && a.slots[i].is_some() && a.slots[i].unwrap().kind != namespace_pic_state::KIND_TOMBSTONE
                && a.slots[i].unwrap().revision == rev,
            None => a.get(Seq::empty(), path) matches Some(b) ==> b.kind == namespace_pic_state::KIND_TOMBSTONE,
        },
{
    let root = Seq::<u8>::empty();
    let p = |b: Option<Binding>| namespace_pic_state::has_live_key(b, root, path);
    namespace_laws::lemma_find_live_is_find(a, root, path);
    namespace_pic_state::lemma_first_where(a.slots, 0, p);
    namespace_laws::lemma_find_holds(a, root, path);
    if live(a, path) is None {
        if let Some(i) = a.find(root, path) {
            assert(!p(a.slots[i]));
        }
    }
}

/// A key that was bound can be opened, and is read as it was bound.
pub proof fn lemma_bound_can_be_opened(p: Provider, arg: Seq<u8>)
    requires
        p.table.arena.wf(),
        bind_args(arg) matches Some(args) && args.1 != namespace_pic_state::KIND_TOMBSTONE && args.0.len() > 0,
        p.bind(arg).1 is Applied,
        free_handle(p.open, 0) is Some,
    ensures
        ({
            let path = bind_args(arg).unwrap().0;
            let after = p.bind(arg).0;
            &&& after.lookup(path).1 == Answer::Code(free_handle(p.open, 0).unwrap() as i32)
            &&& after.table.arena.get(Seq::empty(), path) matches Some(b) && b.kind == bind_args(arg).unwrap().1
        }),
{
    let (path, kind, flags, target, fence) = bind_args(arg).unwrap();
    let revision = next_revision(p.table.arena, path);
    namespace_laws::lemma_bind_then_lookup(p.table.arena, Seq::empty(), path, target, kind, revision);
    lemma_live_is_get(p.bind(arg).0.table.arena, path);
}

/// What is left of a deletion stands in the way of no move.
proof fn lemma_move_succeeds(a: Arena, slot: int, from: Seq<u8>, to: Seq<u8>, revision: u64)
    requires
        a.wf(),
        live(a, from) matches Some((i, _)) && i == slot,
        live(a, to) is None,
    ensures
        a.unbind(Seq::empty(), to).1 is Err ==> a.unbind(Seq::empty(), to).0 == a,
        a.get(Seq::empty(), to) is Some && a.slots[slot].unwrap().locked == 0 && a.unbind(Seq::empty(), to).1 is Ok
            ==> moved(a, slot, from, to, revision).1 is Ok,
{
    let none = Seq::<u8>::empty();
    lemma_live_is_get(a, from);
    lemma_live_is_get(a, to);
    namespace_laws::lemma_find_holds(a, none, from);
    namespace_laws::lemma_find_holds(a, none, to);
    if a.get(none, to) is Some && a.unbind(none, to).1 is Ok {
        let gone = a.unbind(none, to).0;
        namespace_laws::lemma_deletions(a, none, to, 0);
        namespace_laws::lemma_moves_others(a, none, to, to, 0, none, from);
        namespace_laws::lemma_find_holds(gone, none, to);
        namespace_laws::lemma_find_holds(gone, none, from);
    }
}

/// A key that was deleted can be bound again, as if it had never been.
pub proof fn lemma_deleted_can_be_bound(p: Provider, deletion: Seq<u8>, arg: Seq<u8>)
    requires
        p.table.arena.wf(),
        p.delete(deletion).1 is Applied,
        bind_args(arg) matches Some(args) && delete_args(deletion) == Some(args.0) && namespace_pic_state::fits(
            Seq::empty(),
            args.0,
            args.3,
        ),
        live(p.table.arena, delete_args(deletion).unwrap()).unwrap().1 < u64::MAX - 1,
    ensures
        p.delete(deletion).0.bind(arg).1 is Applied,
{
    let path = delete_args(deletion).unwrap();
    let rev = live(p.table.arena, path).unwrap().1;
    let after = p.delete(deletion).0.table.arena;
    lemma_live_is_get(p.table.arena, path);
    namespace_laws::lemma_deletions(p.table.arena, Seq::empty(), path, rev.wrapping_add(1));
    namespace_laws::lemma_find_holds(p.table.arena, Seq::empty(), path);
    namespace_laws::lemma_find_holds(after, Seq::empty(), path);
    lemma_live_is_get(after, path);
}

/// A key can be moved to one that was deleted.
pub proof fn lemma_moves_over_deleted(p: Provider, arg: Seq<u8>)
    requires
        p.table.arena.wf(),
        rename_args(arg) matches Some((from, to, fence)) && live(p.table.arena, from) is Some && live(
            p.table.arena,
            to,
        ) is None && p.table.arena.slots[live(p.table.arena, from).unwrap().0].unwrap().locked == 0 && (
        p.table.arena.get(Seq::empty(), to) matches Some(b) ==> b.locked == 0) && namespace_pic_state::fits(
            Seq::empty(),
            to,
            Seq::empty(),
        ),
    ensures
        p.rename(arg).1 is Applied,
{
    let (from, to, fence) = rename_args(arg).unwrap();
    let a = p.table.arena;
    let (slot, rev) = live(a, from).unwrap();
    lemma_move_succeeds(a, slot, from, to, rev.wrapping_add(1));
    lemma_live_is_get(a, from);
    namespace_laws::lemma_find_holds(a, Seq::empty(), from);
    namespace_laws::lemma_find_holds(a, Seq::empty(), to);
}

/// A key that was deleted cannot be opened any more.
pub proof fn lemma_deleted_is_gone(p: Provider, arg: Seq<u8>)
    requires
        p.table.arena.wf(),
        delete_args(arg) matches Some(path) && path.len() > 0,
        p.delete(arg).1 is Applied,
    ensures
        p.delete(arg).0.lookup(delete_args(arg).unwrap()).1 == Answer::Code(E_NOENT),
{
    let path = delete_args(arg).unwrap();
    let rev = live(p.table.arena, path).unwrap().1;
    namespace_laws::lemma_deletions(p.table.arena, Seq::empty(), path, rev.wrapping_add(1));
    let after = p.delete(arg).0.table.arena;
    lemma_live_is_get(after, path);
    namespace_laws::lemma_find_holds(p.table.arena, Seq::empty(), path);
}

/// An open entry is read as it was when it was opened, or not at all. `seen` is the
/// binding that was opened; that its slot is pinned to it holds when it is opened, and
/// every operation on the table keeps it so.
pub proof fn lemma_open_entry_is_pinned(p: Provider, handle: i32, room: nat, seen: Binding)
    requires
        p.is_open(handle) ==> namespace_laws::pinned(p.table.arena, p.open[handle as int].slot as int, seen)
            && p.open[handle as int].change_rev == seen.change_rev,
    ensures
        p.stat(handle, room) matches Answer::Bytes(out) ==> out == stat_bytes(seen),
{
}

/// Opening an entry pins it as it is found.
pub proof fn lemma_opening_pins(p: Provider, path: Seq<u8>)
    requires
        p.table.arena.wf(),
        namespace_laws::stamped(p.table.arena),
        p.table.arena.slots.len() <= u32::MAX,
        path.len() > 0,
        live(p.table.arena, path) is Some,
        free_handle(p.open, 0) is Some,
    ensures
        ({
            let handle = free_handle(p.open, 0).unwrap();
            let after = p.lookup(path).0;
            let seen = p.table.arena.get(Seq::empty(), path).unwrap();
            &&& p.lookup(path).1 == Answer::Code(handle as i32)
            &&& after.open[handle].in_use && after.open[handle].change_rev == seen.change_rev
            &&& namespace_laws::pinned(after.table.arena, after.open[handle].slot as int, seen)
        }),
{
    lemma_live_is_get(p.table.arena, path);
    lemma_free_handle(p.open, 0);
}

proof fn lemma_free_handle(s: Seq<NsOpenSlot>, from: int)
    requires
        0 <= from,
    ensures
        free_handle(s, from) matches Some(h) ==> from <= h < s.len() && !s[h].in_use,
    decreases s.len() - from,
{
    if from < s.len() && s[from].in_use {
        lemma_free_handle(s, from + 1);
    }
}

/// One who asks what changed is answered for the prefix and the position that the question
/// names. An answer that is no loss can be read, and its records tell of the bindings under
/// that prefix that changed behind that position, of all of them and of nothing else.
pub proof fn lemma_changes_are_of_the_prefix(
    p: Provider,
    prefix: Seq<u8>,
    since: u64,
    out_ptr: u64,
    out_cap: u32,
    rest: Seq<u8>,
)
    requires
        p.table.arena.wf(),
        p.table.arena.slots.len() <= u32::MAX,
        prefix.len() <= 1024,
        out_ptr != 0,
        out_cap >= 5,
    ensures
        ({
            let s = p.table.arena.slots;
            let arg = bytes::le16(prefix.len() as u16) + prefix + bytes::le64(since) + bytes::le64(out_ptr)
                + bytes::le32(out_cap) + rest;
            &&& p.changes(arg) matches Answer::Window { out_ptr: at, out, head, prefix: under, fence }
            &&& at == out_ptr && under == prefix && head == p.table.arena.change_seq
            &&& out.len() <= out_cap
            &&& out[0] == 0 || out[0] == 1
            &&& out[0] == 0 ==> {
                let records = namespace_changes::read_records(out.skip(5), bytes::u32_at(out, 1) as nat);
                &&& records is Some
                &&& namespace_changes::is_window(s, prefix, since, records.unwrap())
                &&& forall|k: int|
                    0 <= k < records.unwrap().len() ==> prefix.is_prefix_of((#[trigger] records.unwrap()[k]).2)
            }
        }),
{
    broadcast use bytes::lemma_subrange_left, bytes::lemma_subrange_right;

    let s = p.table.arena.slots;
    let n = prefix.len() as int;
    let arg = bytes::le16(prefix.len() as u16) + prefix + bytes::le64(since) + bytes::le64(out_ptr)
        + bytes::le32(out_cap) + rest;
    assert(arg.subrange(0, 2) =~= bytes::le16(prefix.len() as u16));
    bytes::lemma_u16_at(arg, 0, prefix.len() as u16);
    assert(arg.subrange(2, 2 + n) =~= prefix);
    assert(arg.subrange(2 + n, 10 + n) =~= bytes::le64(since));
    bytes::lemma_u64_at(arg, 2 + n, since);
    assert(arg.subrange(10 + n, 18 + n) =~= bytes::le64(out_ptr));
    bytes::lemma_u64_at(arg, 10 + n, out_ptr);
    assert(arg.subrange(18 + n, 22 + n) =~= bytes::le32(out_cap));
    bytes::lemma_u32_at(arg, 18 + n, out_cap);
    let out = namespace_changes::changes_answer(p.table.arena, prefix, since, out_cap as nat);
    if out[0] == 0 {
        namespace_changes::lemma_window_is_of_the_prefix(p.table.arena, prefix, since, out_cap as nat);
        let records = namespace_changes::read_records(out.skip(5), bytes::u32_at(out, 1) as nat).unwrap();
        assert forall|k: int| 0 <= k < records.len() implies prefix.is_prefix_of((#[trigger] records[k]).2) by {
            assert(namespace_changes::is_due(s, prefix, since, records[k]));
            let i = choose|i: int|
                0 <= i < s.len() && (#[trigger] s[i]) is Some && namespace_changes::to_be_told(
                    s[i].unwrap(),
                    prefix,
                    since,
                ) && namespace_changes::tells_of(records[k], s[i].unwrap(), since);
            let path = s[i].unwrap().path;
            assert(path.take(n) =~= path.subrange(0, n));
        }
    }
}

/// The argument of a bind.
pub open spec fn bind_arg(path: Seq<u8>, kind: u8, flags: u8, target: Seq<u8>, rest: Seq<u8>) -> Seq<u8> {
    bytes::le16(path.len() as u16) + path + seq![kind, flags] + bytes::le16(target.len() as u16) + target + rest
}

proof fn lemma_bind_arg(path: Seq<u8>, kind: u8, flags: u8, target: Seq<u8>, rest: Seq<u8>)
    requires
        path.len() <= 0xFFFF,
        target.len() <= 0xFFFF,
    ensures
        bind_args(bind_arg(path, kind, flags, target, rest)) matches Some(args) && args.0 == path && args.1 == kind
            && args.2 == flags && args.3 == target,
{
    let arg = bind_arg(path, kind, flags, target, rest);
    let n = path.len() as int;
    assert(arg.subrange(0, 2) =~= bytes::le16(path.len() as u16));
    bytes::lemma_u16_at(arg, 0, path.len() as u16);
    assert(arg.subrange(2, 2 + n) =~= path);
    assert(arg[2 + n] == kind && arg[3 + n] == flags);
    assert(arg.subrange(4 + n, 6 + n) =~= bytes::le16(target.len() as u16));
    bytes::lemma_u16_at(arg, 4 + n, target.len() as u16);
    assert(arg.subrange(6 + n, 6 + n + target.len()) =~= target);
}

/// Binding a key that is not bound adds it, and one that is bound is bound again only where
/// the flags say so, and is then modified. Watchers are told the key and its target. What
/// is bound is the target, with its kind, at a revision behind the last.
pub proof fn lemma_bind_binds(
    p: Provider,
    path: Seq<u8>,
    kind: u8,
    flags: u8,
    target: Seq<u8>,
    rest: Seq<u8>,
)
    requires
        p.table.arena.wf(),
        1 <= path.len() <= 1024,
        target.len() <= 96,
        kind != 0xFE,
    ensures
        ({
            let before = p.table.arena.get(Seq::empty(), path);
            let bound = before is Some && before.unwrap().kind != 0xFE;
            let (q, answer) = p.bind(bind_arg(path, kind, flags, target, rest));
            &&& bound && flags & 1 == 0 ==> answer == Answer::Code(-17i32) && q == p
            &&& answer matches Answer::Applied { changes, fence } ==> {
                &&& changes.len() == 1 && changes[0].key == path && changes[0].value == target
                &&& changes[0].kind == (if bound {
                    1u8
                } else {
                    0u8
                })
                &&& q.table.arena.get(Seq::empty(), path) matches Some(b)
                &&& b.kind == kind && b.object_id == target
                &&& b.revision == (match before {
                    Some(x) => x.revision.wrapping_add(1),
                    None => 1u64,
                })
            }
        }),
{
    let arg = bind_arg(path, kind, flags, target, rest);
    lemma_bind_arg(path, kind, flags, target, rest);
    let a = p.table.arena;
    lemma_live_is_get(a, path);
    namespace_laws::lemma_find_holds(a, Seq::empty(), path);
    let (q, answer) = p.bind(arg);
    if answer is Applied {
        let revision = next_revision(a, path);
        namespace_laws::lemma_bind_then_lookup(a, Seq::empty(), path, target, kind, revision);
        namespace_pic_state::lemma_first_where(a.slots, 0, |b: Option<Binding>| b is None);
        let i = match a.find(Seq::empty(), path) {
            Some(i) => i,
            None => a.find_free().unwrap(),
        };
        namespace_laws::lemma_found(q.table.arena, Seq::empty(), path, i);
    }
}

/// An open entry is read with its kind, its revision and what it leads to, as long as its
/// slot holds what it held when it was opened.
pub proof fn lemma_open_entry_is_read(p: Provider, handle: i32, room: nat, b: Binding)
    requires
        p.is_open(handle),
        p.open[handle as int].slot < p.table.arena.slots.len(),
        p.table.arena.slots[p.open[handle as int].slot as int] == Some(b),
        b.revision == p.open[handle as int].revision,
        b.change_rev == p.open[handle as int].change_rev,
        room >= 11 + b.object_id.len(),
    ensures
        p.stat(handle, room) == Answer::Bytes(
            seq![b.kind] + bytes::le64(b.revision) + bytes::le16(b.object_id.len() as u16) + b.object_id,
        ),
{
}

/// Deleting a key that is bound tells watchers that it is gone, and one that is not bound
/// cannot be deleted.
pub proof fn lemma_delete_is_told(p: Provider, path: Seq<u8>, rest: Seq<u8>)
    requires
        p.table.arena.wf(),
        path.len() <= 1024,
    ensures
        ({
            let before = p.table.arena.get(Seq::empty(), path);
            let (q, answer) = p.delete(bytes::le16(path.len() as u16) + path + rest);
            &&& before is None || before.unwrap().kind == 0xFE ==> answer == Answer::Code(-2i32) && q == p
            &&& answer matches Answer::Applied { changes, fence } ==> {
                &&& changes.len() == 1
                &&& changes[0].kind == 2 && changes[0].key == path && changes[0].value.len() == 0
            }
        }),
{
    let arg = bytes::le16(path.len() as u16) + path + rest;
    assert(arg.subrange(0, 2) =~= bytes::le16(path.len() as u16));
    bytes::lemma_u16_at(arg, 0, path.len() as u16);
    assert(arg.subrange(2, 2 + path.len() as int) =~= path);
    lemma_live_is_get(p.table.arena, path);
}

/// Renaming a key tells watchers that the old name is gone, and that the new one is there
/// with what the old one led to. A key that is not bound cannot be renamed, nor can one be
/// renamed to a key that is bound.
pub proof fn lemma_rename_is_told(p: Provider, from: Seq<u8>, to: Seq<u8>, rest: Seq<u8>)
    requires
        p.table.arena.wf(),
        from.len() <= 1024,
        to.len() <= 1024,
    ensures
        ({
            let old_name = p.table.arena.get(Seq::empty(), from);
            let new_name = p.table.arena.get(Seq::empty(), to);
            let arg = bytes::le16(from.len() as u16) + from + bytes::le16(to.len() as u16) + to + rest;
            let (q, answer) = p.rename(arg);
            &&& old_name is None || old_name.unwrap().kind == 0xFE ==> answer == Answer::Code(-2i32) && q == p
            &&& old_name is Some && old_name.unwrap().kind != 0xFE && new_name is Some && new_name.unwrap().kind
                != 0xFE ==> answer == Answer::Code(-17i32) && q == p
            &&& answer matches Answer::Applied { changes, fence } ==> {
                &&& changes.len() == 2
                &&& changes[0].kind == 2 && changes[0].key == from && changes[0].value.len() == 0
                &&& changes[1].kind == 0 && changes[1].key == to && changes[1].value == old_name.unwrap().object_id
            }
        }),
{
    let arg = bytes::le16(from.len() as u16) + from + bytes::le16(to.len() as u16) + to + rest;
    let n = from.len() as int;
    assert(arg.subrange(0, 2) =~= bytes::le16(from.len() as u16));
    bytes::lemma_u16_at(arg, 0, from.len() as u16);
    assert(arg.subrange(2, 2 + n) =~= from);
    assert(arg.subrange(2 + n, 4 + n) =~= bytes::le16(to.len() as u16));
    bytes::lemma_u16_at(arg, 2 + n, to.len() as u16);
    assert(arg.subrange(4 + n, 4 + n + to.len()) =~= to);
    lemma_live_is_get(p.table.arena, from);
    lemma_live_is_get(p.table.arena, to);
}

} // verus!
