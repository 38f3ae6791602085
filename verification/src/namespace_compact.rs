//! Writing a new snapshot: a merge of the table with the snapshot before it.
//!
//! Both sides are walked in the order of their key hashes. What the table holds of a
//! key, by its bytes, replaces what the snapshot before held; a deletion drops it. The
//! merge goes on over many steps, and only once the new file is durable does it take the
//! place of the old one: then the bindings it covers may be dropped from the table, and
//! the deletions it has carried out are forgotten.
use crate::bytes;
use crate::loam_hash;
use crate::loam_snapshot;
use crate::loam_snapshot::{Record, SnapRecord, SnapWriter};
use crate::namespace_apply::{NamespaceTable, Table};
use crate::namespace_pic_state;
use crate::namespace_pic_state::{Arena, Binding, BindingSlot};
use crate::namespace_reads;
use vstd::prelude::*;

verus! {

/// How many records one step merges.
pub const CMP_RECORDS_PER_STEP: usize = 32;

/// A merge begins once this share of the table is occupied.
pub const CMP_TRIGGER_NUM: usize = 3;

pub const CMP_TRIGGER_DEN: usize = 4;

/// How many slots are occupied.
pub open spec fn occupied(a: Arena) -> nat {
    namespace_pic_state::count_where(a.slots, |b: Option<Binding>| b.is_some())
}

/// How many occupied slots the snapshot does not cover.
pub open spec fn dirty(a: Arena) -> nat {
    namespace_pic_state::count_where(a.slots, |b: Option<Binding>| b.is_some() && b.unwrap().snapshotted == 0)
}

/// A merge is due: the table is filling up, and either there is no snapshot yet, or
/// enough is new, or the table is full and something is new.
pub open spec fn is_due(t: Table, has_path: bool) -> bool {
    let capacity = t.arena.slots.len();
    &&& has_path
    &&& occupied(t.arena) * 4 >= capacity * 3
    &&& !t.snap_active || dirty(t.arena) * 8 >= capacity || (occupied(t.arena) == capacity && dirty(t.arena) > 0)
}

/// Whether a merge is due.
pub fn compaction_due<const N: usize>(table: &NamespaceTable<N>, has_path: bool) -> (r: bool)
    requires
        table.wf(),
        N * 8 <= usize::MAX,
    ensures
        r == is_due(table@, has_path),
{
    if !has_path {
        return false;
    }
    let in_use: usize = table.bindings.occupied_count();
    if in_use * CMP_TRIGGER_DEN < N * CMP_TRIGGER_NUM {
        return false;
    }
    if !table.snap_active {
        return true;
    }
    let new: usize = table.bindings.dirty_count();
    new * 8 >= N || (in_use == N && new > 0)
}

/// `s`, filled up with zeros to `n` bytes.
pub open spec fn padded(s: Seq<u8>, n: nat) -> Seq<u8> {
    s + Seq::new((n - s.len()) as nat, |i: int| 0u8)
}

/// The record of a binding.
pub open spec fn record_of(b: Binding) -> Record {
    Record {
        ns_hash: loam_hash::fnv(b.root),
        path_hash: loam_hash::fnv(b.path),
        revision: b.revision,
        kind: b.kind,
        oid_len: b.object_id.len() as u8,
        oid: padded(b.object_id, loam_snapshot::MAX_OID as nat),
        root_len: b.root.len() as u8,
        root: padded(b.root, loam_snapshot::MAX_ROOT as nat),
        path_len: b.path.len() as u16,
        path: padded(b.path, loam_snapshot::MAX_PATH as nat),
    }
}

/// The record of the binding in a slot.
pub fn snap_record_from_slot(slot: &BindingSlot) -> (r: SnapRecord)
    requires
        slot.wf(),
        slot@ is Some,
    ensures
        r@ == record_of(slot@.unwrap()),
{
    broadcast use bytes::lemma_write_first;

    let mut oid: [u8; loam_snapshot::MAX_OID] = [0u8; loam_snapshot::MAX_OID];
    bytes::put_bytes(&mut oid, 0, slot.object_id());
    let mut root: [u8; loam_snapshot::MAX_ROOT] = [0u8; loam_snapshot::MAX_ROOT];
    bytes::put_bytes(&mut root, 0, slot.root());
    let mut path: [u8; loam_snapshot::MAX_PATH] = [0u8; loam_snapshot::MAX_PATH];
    bytes::put_bytes(&mut path, 0, slot.path());
    proof {
        reveal(bytes::written);
        let b = slot@.unwrap();
        assert(oid@ =~= padded(b.object_id, loam_snapshot::MAX_OID as nat));
        assert(root@ =~= padded(b.root, loam_snapshot::MAX_ROOT as nat));
        assert(path@ =~= padded(b.path, loam_snapshot::MAX_PATH as nat));
    }
    SnapRecord {
        ns_hash: slot.namespace_hash,
        path_hash: slot.path_hash,
        revision: slot.revision,
        kind: slot.kind,
        oid_len: slot.object_id_len,
        oid,
        root_len: slot.root_len,
        root,
        path_len: slot.path_len,
        path,
    }
}

/// The key hashes of a record.
pub open spec fn key_of(r: Record) -> (u64, u64) {
    (r.ns_hash, r.path_hash)
}

/// Where a merge stands in the table: the key hashes and the slot of the last binding that
/// was merged.
pub type Place = Option<((u64, u64), usize)>;

/// The slot comes next behind `last` in the order of key hashes.
pub open spec fn is_next(a: Arena, last: Place, i: int) -> bool {
    &&& 0 <= i < a.slots.len()
    &&& namespace_pic_state::is_behind(a.slots[i], i, last)
    &&& forall|j: int|
        0 <= j < a.slots.len() && namespace_pic_state::is_behind(#[trigger] a.slots[j], j, last)
            ==> namespace_pic_state::before_or_at(
            namespace_pic_state::hashes(a.slots[i].unwrap()),
            namespace_pic_state::hashes(a.slots[j].unwrap()),
        ) && (j < i ==> namespace_pic_state::hashes(a.slots[j].unwrap()) != namespace_pic_state::hashes(
            a.slots[i].unwrap(),
        ))
}

/// The slot that comes next behind `last`.
pub open spec fn next_slot(a: Arena, last: Place) -> Option<int> {
    if exists|i: int| is_next(a, last, i) {
        Some(choose|i: int| is_next(a, last, i))
    } else {
        None
    }
}

/// What the merge does next.
pub ghost enum Step {
    /// Both sides are used up.
    Finish,
    /// The next binding of the table is merged: with a record to write, or, for a deletion,
    /// without.
    Take { slot: int, key: (u64, u64), record: Option<Record> },
    /// The next record of the snapshot before is copied.
    Copy,
    /// The next record of the snapshot before is left out: the table holds its key.
    Drop,
}

/// What becomes of the next record of the snapshot before.
pub open spec fn old_step(a: Arena, old: Record) -> Step {
    if namespace_reads::is_shadowed(old, a) {
        Step::Drop
    } else {
        Step::Copy
    }
}

/// What the merge does next, behind `last` in the table and with `old` next in the
/// snapshot before.
pub open spec fn step_of(a: Arena, last: Place, old: Option<Record>) -> Step {
    match next_slot(a, last) {
        None => match old {
            None => Step::Finish,
            Some(rec) => old_step(a, rec),
        },
        Some(i) => {
            let b = a.slots[i].unwrap();
            let key = namespace_pic_state::hashes(b);
            if old is Some && namespace_pic_state::before_or_at(key_of(old.unwrap()), key) {
                old_step(a, old.unwrap())
            } else {
                Step::Take {
                    slot: i,
                    key,
                    record: if b.kind == namespace_pic_state::KIND_TOMBSTONE {
                        None
                    } else {
                        Some(record_of(b))
                    },
                }
            }
        },
    }
}

/// What the merge does next.
pub enum MergeStep {
    Finish,
    Take { slot: usize, key: (u64, u64), record: Option<SnapRecord> },
    Copy,
    Drop,
}

impl MergeStep {
    pub open spec fn model(self) -> Step {
        match self {
            MergeStep::Finish => Step::Finish,
            MergeStep::Take { slot, key, record } => Step::Take {
                slot: slot as int,
                key,
                record: match record {
                    Some(r) => Some(r@),
                    None => None,
                },
            },
            MergeStep::Copy => Step::Copy,
            MergeStep::Drop => Step::Drop,
        }
    }
}

fn old_merge_step<const N: usize>(table: &NamespaceTable<N>, rec: &SnapRecord) -> (r: MergeStep)
    requires
        table.wf(),
        loam_snapshot::lengths_fit(rec@),
    ensures
        r.model() == old_step(table@.arena, rec@),
{
    if table.bindings.lookup_hashed(rec.ns_hash, rec.path_hash, rec.root(), rec.path()).is_some() {
        MergeStep::Drop
    } else {
        MergeStep::Copy
    }
}

/// A merge in progress, or none.
#[derive(Debug, Clone, Copy, PartialEq, Eq)]
pub struct Compactor {
    pub running: bool,
    /// Which of the two files is written.
    pub target_slot: u8,
    pub writer: SnapWriter,
    /// The record of the snapshot before that comes next.
    pub snap_idx: u32,
    /// The key hashes and the slot of the last binding that was merged.
    pub last: Place,
    pub snapshots_written: u32,
}

/// The tag that marks what a merge has seen.
pub open spec fn tag_of(generation: u64) -> u8 {
    (generation % 251 + 1) as u8
}

/// The table once the merge has seen a slot.
pub open spec fn seen(a: Arena, slot: int, tag: u8) -> Arena {
    if a.slots[slot].is_some() {
        a.put(slot, Some(Binding { emitted_tag: tag, ..a.slots[slot].unwrap() }))
    } else {
        a
    }
}

impl Compactor {
    pub fn new() -> (r: Self)
        ensures
            !r.running,
            r.last is None,
            r.snapshots_written == 0,
    {
        Compactor {
            running: false,
            target_slot: 0,
            writer: SnapWriter { fd: -1, count: 0, generation: 0 },
            snap_idx: 0,
            last: None,
            snapshots_written: 0,
        }
    }

    /// Which file the next snapshot goes to, and its generation: not the file in use.
    pub fn plan(snap_active: bool, snap_slot: u8, snap_gen: u64) -> (r: (u8, u64))
        requires
            snap_active ==> snap_slot <= 1 && snap_gen < u64::MAX,
        ensures
            r == if snap_active {
                ((1 - snap_slot) as u8, (snap_gen + 1) as u64)
            } else {
                (0u8, 1u64)
            },
    {
        if snap_active {
            (1 - snap_slot, snap_gen + 1)
        } else {
            (0, 1)
        }
    }

    /// Begin a merge into the file that was just created.
    pub fn start<const N: usize>(&mut self, table: &mut NamespaceTable<N>, target_slot: u8, fd: i32, generation: u64)
        requires
            old(table).wf(),
        ensures
            final(table).wf(),
            final(table)@ == (Table { merging: true, ..old(table)@ }),
            *final(self) == (Compactor {
                running: true,
                target_slot,
                writer: SnapWriter { fd, count: 0, generation },
                snap_idx: 0,
                last: None,
                snapshots_written: old(self).snapshots_written,
            }),
    {
        self.running = true;
        self.target_slot = target_slot;
        self.writer = SnapWriter { fd, count: 0, generation };
        self.snap_idx = 0;
        self.last = None;
        table.merging = true;
    }

    /// Give a merge up. The snapshot in use stays in use.
    pub fn compaction_abort<const N: usize>(&mut self, table: &mut NamespaceTable<N>)
        requires
            old(table).wf(),
        ensures
            final(table).wf(),
            final(table)@ == (Table { merging: false, ..old(table)@ }),
            *final(self) == (Compactor { running: false, writer: final(self).writer, ..*old(self) }),
            final(self).writer == (SnapWriter { fd: -1i32, ..old(self).writer }),
    {
        self.running = false;
        self.writer.fd = -1;
        table.merging = false;
    }

    /// The record of the snapshot before that the next step needs.
    pub fn wants<const N: usize>(&self, table: &NamespaceTable<N>, snap_count: u32) -> (r: Option<u32>)
        ensures
            r == if table@.snap_active && self.snap_idx < snap_count {
                Some(self.snap_idx)
            } else {
                None
            },
    {
        if table.snap_active && self.snap_idx < snap_count {
            Some(self.snap_idx)
        } else {
            None
        }
    }

    /// What to do next. `old` is the record that `wants` named.
    pub fn compaction_step<const N: usize>(&self, table: &NamespaceTable<N>, old: Option<&SnapRecord>) -> (r: MergeStep)
        requires
            table.wf(),
            old matches Some(rec) ==> loam_snapshot::lengths_fit(rec@),
        ensures
            r.model() == step_of(
                table@.arena,
                self.last,
                match old {
                    Some(rec) => Some(rec@),
                    None => None,
                },
            ),
    {
        let next: Option<(usize, (u64, u64))> = table.bindings.next_in_order(self.last);
        proof {
            lemma_next_slot(table@.arena, self.last);
        }
        match next {
            None => {
                assert(next_slot(table@.arena, self.last) is None);
                match old {
                    None => MergeStep::Finish,
                    Some(rec) => old_merge_step(table, rec),
                }
            },
            Some((slot, key)) => {
                assert(is_next(table@.arena, self.last, slot as int));
                match old {
                    Some(rec) => {
                        if namespace_pic_state::pair_le(rec.key(), key) {
                            return old_merge_step(table, rec);
                        }
                    },
                    None => {},
                }
                match table.bindings.slot_ref(slot) {
                    Some(s) => if s.kind == namespace_pic_state::KIND_TOMBSTONE {
                        MergeStep::Take { slot, key, record: None }
                    } else {
                        MergeStep::Take { slot, key, record: Some(snap_record_from_slot(s)) }
                    },
                    None => MergeStep::Finish,
                }
            },
        }
    }

    /// A key from the table was merged.
    pub fn took<const N: usize>(
        &mut self,
        table: &mut NamespaceTable<N>,
        slot: usize,
        key: (u64, u64),
    )
        requires
            old(table).wf(),
            slot < N,
        ensures
            final(table).wf(),
            final(table)@ == (Table {
                arena: seen(old(table)@.arena, slot as int, tag_of(old(self).writer.generation)),
                ..old(table)@
            }),
            *final(self) == (Compactor { last: Some((key, slot)), ..*old(self) }),
    {
        let tag: u8 = (self.writer.generation % 251 + 1) as u8;
        table.bindings.mark_emitted(slot, tag);
        self.last = Some((key, slot));
    }

    /// A record of the snapshot before was copied or left out.
    pub fn copied(&mut self)
        requires
            old(self).snap_idx < u32::MAX,
        ensures
            *final(self) == (Compactor { snap_idx: (old(self).snap_idx + 1) as u32, ..*old(self) }),
    {
        self.snap_idx = self.snap_idx + 1;
    }

    /// The new snapshot is durable and takes the place of the old one. Returns the
    /// file it is in.
    pub fn finish<const N: usize>(&mut self, table: &mut NamespaceTable<N>) -> (r: u8)
        requires
            old(table).wf(),
        ensures
            final(table).wf(),
            final(table)@ == (Table {
                arena: old(table)@.arena.finalize(tag_of(old(self).writer.generation)),
                snap_active: true,
                merging: false,
                ..old(table)@
            }),
            r == old(self).target_slot,
            !final(self).running,
            final(self).snapshots_written == old(self).snapshots_written.wrapping_add(1),
    {
        let tag: u8 = (self.writer.generation % 251 + 1) as u8;
        table.bindings.finalize_emitted(tag);
        table.snap_active = true;
        table.merging = false;
        self.writer.fd = -1;
        self.running = false;
        self.snapshots_written = self.snapshots_written.wrapping_add(1);
        self.target_slot
    }
}

/// No two slots come next.
proof fn lemma_next_slot(a: Arena, last: Place)
    ensures
        forall|i: int, j: int| #[trigger] is_next(a, last, i) && #[trigger] is_next(a, last, j) ==> i == j,
        forall|i: int| #[trigger] is_next(a, last, i) ==> next_slot(a, last) == Some(i),
        (forall|j: int| 0 <= j < a.slots.len() ==> !namespace_pic_state::is_behind(#[trigger] a.slots[j], j, last))
            ==> next_slot(a, last) is None,
{
    assert forall|i: int, j: int| #[trigger] is_next(a, last, i) && #[trigger] is_next(a, last, j) implies i == j by {
        assert(namespace_pic_state::is_behind(a.slots[i], i, last));
        assert(namespace_pic_state::is_behind(a.slots[j], j, last));
    }
}

} // verus!
