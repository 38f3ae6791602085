//! The table of volumes and how much of each is allocated.
//!
//! No block bytes stand here: a volume is its size and a high-water mark. Blocks
//! are handed out upwards from the mark and given back from below it. A volume is
//! known by the bytes of its id; the hash of the id is kept beside them.
use crate::bytes;
use crate::loam_hash;
pub use crate::loam_hash::fnv1a64;
use vstd::prelude::*;

verus! {

/// One volume, or a free slot.
#[derive(Debug)]
pub struct VolumeSlot {
    pub volume_id_hash: u64,
    pub volume_id: Vec<u8>,
    pub logical_bytes: u64,
    pub block_size: u32,
    pub allocated_blocks: u64,
    pub class: u8,
    pub thin_provisioned: bool,
    pub occupied: bool,
}

/// One volume, or a free slot, over mathematical values.
pub ghost struct Volume {
    pub id_hash: u64,
    pub id: Seq<u8>,
    pub logical_bytes: u64,
    pub block_size: u32,
    pub allocated_blocks: u64,
    pub class: u8,
    pub thin_provisioned: bool,
    pub occupied: bool,
}

impl View for VolumeSlot {
    type V = Volume;

    open spec fn view(&self) -> Volume {
        Volume {
            id_hash: self.volume_id_hash,
            id: self.volume_id@,
            logical_bytes: self.logical_bytes,
            block_size: self.block_size,
            allocated_blocks: self.allocated_blocks,
            class: self.class,
            thin_provisioned: self.thin_provisioned,
            occupied: self.occupied,
        }
    }
}

/// How many whole blocks a volume has; none where blocks have no size.
pub open spec fn block_count(v: Volume) -> u64 {
    if v.block_size == 0 {
        0
    } else {
        v.logical_bytes / (v.block_size as u64)
    }
}

/// The slot holds the volume with this id.
pub open spec fn holds(v: Volume, volume_id: Seq<u8>) -> bool {
    v.occupied && v.id == volume_id
}

/// A slot without a volume.
pub open spec fn free_slot() -> Volume {
    Volume {
        id_hash: 0,
        id: Seq::empty(),
        logical_bytes: 0,
        block_size: 0,
        allocated_blocks: 0,
        class: 0,
        thin_provisioned: false,
        occupied: false,
    }
}

/// A volume as it is created: with nothing allocated.
pub open spec fn new_volume(
    volume_id: Seq<u8>,
    class: u8,
    logical_bytes: u64,
    block_size: u32,
    thin_provisioned: bool,
) -> Volume {
    Volume {
        id_hash: loam_hash::fnv(volume_id),
        id: volume_id,
        logical_bytes,
        block_size,
        allocated_blocks: 0,
        class,
        thin_provisioned,
        occupied: true,
    }
}

impl VolumeSlot {
    pub fn empty() -> (r: Self)
        ensures
            r@ == free_slot(),
    {
        VolumeSlot {
            volume_id_hash: 0,
            volume_id: Vec::new(),
            logical_bytes: 0,
            block_size: 0,
            allocated_blocks: 0,
            class: 0,
            thin_provisioned: false,
            occupied: false,
        }
    }

    /// Whether this is the volume with this id.
    pub fn matches(&self, volume_id: &[u8]) -> (r: bool)
        ensures
            r == holds(self@, volume_id@),
    {
        self.occupied && bytes::bytes_equal(self.volume_id.as_slice(), volume_id)
    }

    pub fn logical_block_count(&self) -> (r: u64)
        ensures
            r == block_count(self@),
    {
        if self.block_size == 0 {
            0
        } else {
            self.logical_bytes / (self.block_size as u64)
        }
    }

    /// The blocks above the mark.
    pub fn free_blocks(&self) -> (r: u64)
        ensures
            r == if self.allocated_blocks <= block_count(self@) {
                block_count(self@) - self.allocated_blocks
            } else {
                0
            },
    {
        self.logical_block_count().saturating_sub(self.allocated_blocks)
    }
}

#[derive(Debug, Clone, Copy, PartialEq, Eq, Structural)]
pub enum ApplyError {
    AlreadyPresent,
    NotPresent,
    OutOfCapacity,
    AllocationExceedsVolume,
    ReleaseExceedsAllocated,
}

#[derive(Debug, Clone, Copy, PartialEq, Eq, Structural)]
pub enum ApplyOk {
    Created,
    Allocated { first_block: u64, count: u64 },
    Released { count: u64 },
}

/// The first slot from `from` on that holds the volume with this id.
pub open spec fn find(s: Seq<Volume>, volume_id: Seq<u8>, from: int) -> Option<int>
    decreases s.len() - from,
{
    if from < 0 || from >= s.len() {
        None
    } else if holds(s[from], volume_id) {
        Some(from)
    } else {
        find(s, volume_id, from + 1)
    }
}

/// The first free slot from `from` on.
pub open spec fn find_free(s: Seq<Volume>, from: int) -> Option<int>
    decreases s.len() - from,
{
    if from < 0 || from >= s.len() {
        None
    } else if !s[from].occupied {
        Some(from)
    } else {
        find_free(s, from + 1)
    }
}

/// The volume with this id.
pub open spec fn get(s: Seq<Volume>, volume_id: Seq<u8>) -> Option<Volume> {
    match find(s, volume_id, 0) {
        Some(i) => Some(s[i]),
        None => None,
    }
}

/// Creating a volume: the table after it, and what is answered.
pub open spec fn created(
    s: Seq<Volume>,
    volume_id: Seq<u8>,
    class: u8,
    logical_bytes: u64,
    block_size: u32,
    thin_provisioned: bool,
) -> (Seq<Volume>, Result<ApplyOk, ApplyError>) {
    if get(s, volume_id) is Some {
        (s, Err(ApplyError::AlreadyPresent))
    } else {
        match find_free(s, 0) {
            None => (s, Err(ApplyError::OutOfCapacity)),
            Some(i) => (
                s.update(i, new_volume(volume_id, class, logical_bytes, block_size, thin_provisioned)),
                Ok(ApplyOk::Created),
            ),
        }
    }
}

/// Moving the mark of a volume up.
pub open spec fn allocated(s: Seq<Volume>, volume_id: Seq<u8>, count: u64) -> (
    Seq<Volume>,
    Result<ApplyOk, ApplyError>,
) {
    match find(s, volume_id, 0) {
        None => (s, Err(ApplyError::NotPresent)),
        Some(i) => if s[i].allocated_blocks + count > block_count(s[i]) {
            (s, Err(ApplyError::AllocationExceedsVolume))
        } else {
            (
                s.update(i, Volume { allocated_blocks: (s[i].allocated_blocks + count) as u64, ..s[i] }),
                Ok(ApplyOk::Allocated { first_block: s[i].allocated_blocks, count }),
            )
        },
    }
}

/// Moving the mark of a volume down.
pub open spec fn released(s: Seq<Volume>, volume_id: Seq<u8>, count: u64) -> (
    Seq<Volume>,
    Result<ApplyOk, ApplyError>,
) {
    match find(s, volume_id, 0) {
        None => (s, Err(ApplyError::NotPresent)),
        Some(i) => if count > s[i].allocated_blocks {
            (s, Err(ApplyError::ReleaseExceedsAllocated))
        } else {
            (
                s.update(i, Volume { allocated_blocks: (s[i].allocated_blocks - count) as u64, ..s[i] }),
                Ok(ApplyOk::Released { count }),
            )
        },
    }
}

/// How many of the first `n` slots hold a volume.
pub open spec fn occupied_count(s: Seq<Volume>, n: int) -> nat
    decreases n,
{
    if n <= 0 {
        0
    } else {
        occupied_count(s, n - 1) + if s[n - 1].occupied {
            1nat
        } else {
            0nat
        }
    }
}

/// No volume holds more than it has, no two volumes have one id, and each has the hash of
/// its id.
pub open spec fn sound(s: Seq<Volume>) -> bool {
    &&& forall|i: int|
        0 <= i < s.len() && (#[trigger] s[i]).occupied ==> s[i].allocated_blocks <= block_count(s[i])
    &&& forall|i: int, j: int|
        0 <= i < j < s.len() && (#[trigger] s[i]).occupied && (#[trigger] s[j]).occupied ==> s[i].id
            != s[j].id
    &&& forall|i: int| 0 <= i < s.len() && (#[trigger] s[i]).occupied ==> s[i].id_hash == loam_hash::fnv(s[i].id)
}

proof fn lemma_find(s: Seq<Volume>, id: Seq<u8>, from: int)
    requires
        0 <= from,
    ensures
        match find(s, id, from) {
            Some(i) => from <= i < s.len() && holds(s[i], id),
            None => forall|i: int| from <= i < s.len() ==> !holds(#[trigger] s[i], id),
        },
    decreases s.len() - from,
{
    if from < s.len() && !holds(s[from], id) {
        lemma_find(s, id, from + 1);
    }
}

proof fn lemma_find_free(s: Seq<Volume>, from: int)
    requires
        0 <= from,
    ensures
        match find_free(s, from) {
            Some(i) => from <= i < s.len() && !s[i].occupied,
            None => forall|i: int| from <= i < s.len() ==> (#[trigger] s[i]).occupied,
        },
    decreases s.len() - from,
{
    if from < s.len() && s[from].occupied {
        lemma_find_free(s, from + 1);
    }
}

/// A sound table has one slot for an id.
proof fn lemma_find_is(s: Seq<Volume>, id: Seq<u8>, i: int)
    requires
        sound(s),
        0 <= i < s.len(),
        holds(s[i], id),
    ensures
        find(s, id, 0) == Some(i),
{
    lemma_find(s, id, 0);
    let k = find(s, id, 0).unwrap();
    if k < i {
        assert(s[k].occupied && s[i].occupied);
    } else if i < k {
        assert(s[i].occupied && s[k].occupied);
    }
}

/// A table of at most `N` volumes.
pub struct PicBlockState<const N: usize> {
    slots: Vec<VolumeSlot>,
}

impl<const N: usize> View for PicBlockState<N> {
    type V = Seq<Volume>;

    closed spec fn view(&self) -> Seq<Volume> {
        self.slots@.map_values(|v: VolumeSlot| v@)
    }
}

impl<const N: usize> PicBlockState<N> {
    /// What every operation keeps.
    pub open spec fn wf(&self) -> bool {
        self@.len() == N && sound(self@)
    }

    pub fn new() -> (r: Self)
        ensures
            r.wf(),
            r@ == Seq::new(N as nat, |i: int| free_slot()),
    {
        let mut slots: Vec<VolumeSlot> = Vec::new();
        let mut i: usize = 0;
        while i < N
            invariant
                i <= N,
                slots@.map_values(|v: VolumeSlot| v@) == Seq::new(i as nat, |i: int| free_slot()),
            decreases N - i,
        {
            let ghost before = slots@;
            slots.push(VolumeSlot::empty());
            assert(slots@.map_values(|v: VolumeSlot| v@) =~= before.map_values(|v: VolumeSlot| v@).push(free_slot()));
            i += 1;
        }
        PicBlockState { slots }
    }

    pub fn capacity(&self) -> (r: usize)
        ensures
            r == N,
    {
        N
    }

    /// How many volumes there are.
    pub fn len(&self) -> (r: usize)
        requires
            self.wf(),
        ensures
            r == occupied_count(self@, N as int),
    {
        let mut n: usize = 0;
        let mut i: usize = 0;
        while i < N
            invariant
                i <= N,
                self.wf(),
                n == occupied_count(self@, i as int),
                n <= i,
            decreases N - i,
        {
            assert(self@[i as int] == self.slots@[i as int]@);
            if self.slots[i].occupied {
                n += 1;
            }
            i += 1;
        }
        n
    }

    pub fn is_empty(&self) -> (r: bool)
        requires
            self.wf(),
        ensures
            r == (occupied_count(self@, N as int) == 0),
    {
        self.len() == 0
    }

    /// The slot of the volume with this id.
    fn position(&self, volume_id: &[u8]) -> (r: Option<usize>)
        requires
            self.wf(),
        ensures
            match r {
                Some(i) => find(self@, volume_id@, 0) == Some(i as int) && i < N,
                None => find(self@, volume_id@, 0) is None,
            },
    {
        let mut i: usize = 0;
        while i < N
            invariant
                i <= N,
                self.wf(),
                find(self@, volume_id@, 0) == find(self@, volume_id@, i as int),
            decreases N - i,
        {
            assert(self@[i as int] == self.slots@[i as int]@);
            if self.slots[i].matches(volume_id) {
                return Some(i);
            }
            i += 1;
        }
        None
    }

    pub fn lookup(&self, volume_id: &[u8]) -> (r: Option<&VolumeSlot>)
        requires
            self.wf(),
        ensures
            match r {
                Some(v) => get(self@, volume_id@) == Some(v@),
                None => get(self@, volume_id@) is None,
            },
    {
        match self.position(volume_id) {
            Some(i) => Some(&self.slots[i]),
            None => None,
        }
    }

    pub fn create_volume(
        &mut self,
        volume_id: &[u8],
        class: u8,
        logical_bytes: u64,
        block_size: u32,
        thin_provisioned: bool,
    ) -> (r: Result<ApplyOk, ApplyError>)
        requires
            old(self).wf(),
        ensures
            final(self).wf(),
            (final(self)@, r) == created(
                old(self)@,
                volume_id@,
                class,
                logical_bytes,
                block_size,
                thin_provisioned,
            ),
    {
        if self.position(volume_id).is_some() {
            return Err(ApplyError::AlreadyPresent);
        }
        proof {
            lemma_find(self@, volume_id@, 0);
        }
        let mut i: usize = 0;
        while i < N
            invariant
                i <= N,
                self.wf(),
                self@ == old(self)@,
                get(self@, volume_id@) is None,
                forall|j: int| 0 <= j < N ==> !holds(#[trigger] self@[j], volume_id@),
                find_free(self@, 0) == find_free(self@, i as int),
            decreases N - i,
        {
            assert(self@[i as int] == self.slots@[i as int]@);
            if !self.slots[i].occupied {
                let v: VolumeSlot = VolumeSlot {
                    volume_id_hash: loam_hash::fnv1a64(volume_id),
                    volume_id: bytes::to_vec(volume_id),
                    logical_bytes,
                    block_size,
                    allocated_blocks: 0,
                    class,
                    thin_provisioned,
                    occupied: true,
                };
                self.slots.set(i, v);
                assert(self@ =~= old(self)@.update(i as int, v@));
                return Ok(ApplyOk::Created);
            }
            i += 1;
        }
        Err(ApplyError::OutOfCapacity)
    }

    /// Hand out `count` blocks from the mark on.
    pub fn allocate(&mut self, volume_id: &[u8], count: u64) -> (r: Result<ApplyOk, ApplyError>)
        requires
            old(self).wf(),
        ensures
            final(self).wf(),
            (final(self)@, r) == allocated(old(self)@, volume_id@, count),
    {
        match self.position(volume_id) {
            None => Err(ApplyError::NotPresent),
            Some(i) => {
                proof {
                    lemma_find(self@, volume_id@, 0);
                }
                let ghost before = self@[i as int];
                assert(before == self.slots@[i as int]@);
                if count > self.slots[i].free_blocks() {
                    return Err(ApplyError::AllocationExceedsVolume);
                }
                let first: u64 = self.slots[i].allocated_blocks;
                self.slots[i].allocated_blocks = first.saturating_add(count);
                assert(self@ =~= old(self)@.update(
                    i as int,
                    Volume { allocated_blocks: (before.allocated_blocks + count) as u64, ..before },
                ));
                Ok(ApplyOk::Allocated { first_block: first, count })
            },
        }
    }

    /// Take the last `count` blocks back.
    pub fn release(&mut self, volume_id: &[u8], count: u64) -> (r: Result<ApplyOk, ApplyError>)
        requires
            old(self).wf(),
        ensures
            final(self).wf(),
            (final(self)@, r) == released(old(self)@, volume_id@, count),
    {
        match self.position(volume_id) {
            None => Err(ApplyError::NotPresent),
            Some(i) => {
                proof {
                    lemma_find(self@, volume_id@, 0);
                }
                let ghost before = self@[i as int];
                assert(before == self.slots@[i as int]@);
                let marked: u64 = self.slots[i].allocated_blocks;
                if count > marked {
                    return Err(ApplyError::ReleaseExceedsAllocated);
                }
                self.slots[i].allocated_blocks = marked - count;
                assert(self@ =~= old(self)@.update(
                    i as int,
                    Volume { allocated_blocks: (before.allocated_blocks - count) as u64, ..before },
                ));
                Ok(ApplyOk::Released { count })
            },
        }
    }
}

impl<const N: usize> Default for PicBlockState<N> {
    fn default() -> (r: Self)
        ensures
            r.wf(),
            r@ == Seq::new(N as nat, |i: int| free_slot()),
    {
        Self::new()
    }
}

/// A volume that was created is found, with nothing allocated.
pub proof fn lemma_created_is_found(
    s: Seq<Volume>,
    volume_id: Seq<u8>,
    class: u8,
    logical_bytes: u64,
    block_size: u32,
    thin_provisioned: bool,
)
    requires
        sound(s),
    ensures
        created(s, volume_id, class, logical_bytes, block_size, thin_provisioned).1 is Ok ==> get(
            created(s, volume_id, class, logical_bytes, block_size, thin_provisioned).0,
            volume_id,
        ) == Some(new_volume(volume_id, class, logical_bytes, block_size, thin_provisioned)),
{
    let (t, r) = created(s, volume_id, class, logical_bytes, block_size, thin_provisioned);
    if r is Ok {
        lemma_find(s, volume_id, 0);
        lemma_find_free(s, 0);
        let i = find_free(s, 0).unwrap();
        assert(sound(t));
        lemma_find_is(t, volume_id, i);
    }
}

/// Giving back what was handed out restores the table.
pub proof fn lemma_release_undoes_allocate(s: Seq<Volume>, volume_id: Seq<u8>, count: u64)
    requires
        sound(s),
        allocated(s, volume_id, count).1 is Ok,
    ensures
        released(allocated(s, volume_id, count).0, volume_id, count) == (
            s,
            Ok::<ApplyOk, ApplyError>(ApplyOk::Released { count }),
        ),
{
    let t = allocated(s, volume_id, count).0;
    lemma_find(s, volume_id, 0);
    let i = find(s, volume_id, 0).unwrap();
    assert(sound(t));
    lemma_find_is(t, volume_id, i);
    assert(released(t, volume_id, count).0 =~= s);
}

/// Two allocations in a row hand out ranges that touch and do not overlap, and
/// that lie inside the volume.
pub proof fn lemma_allocations_are_disjoint(s: Seq<Volume>, volume_id: Seq<u8>, first: u64, second: u64)
    requires
        sound(s),
        allocated(s, volume_id, first).1 is Ok,
        allocated(allocated(s, volume_id, first).0, volume_id, second).1 is Ok,
    ensures
        get(s, volume_id) matches Some(v) && {
            let mark = v.allocated_blocks;
            &&& mark + first + second <= block_count(v)
            &&& allocated(s, volume_id, first).1 == Ok::<ApplyOk, ApplyError>(
                ApplyOk::Allocated { first_block: mark, count: first },
            )
            &&& allocated(allocated(s, volume_id, first).0, volume_id, second).1 == Ok::<ApplyOk, ApplyError>(
                ApplyOk::Allocated { first_block: (mark + first) as u64, count: second },
            )
        },
{
    let t = allocated(s, volume_id, first).0;
    lemma_find(s, volume_id, 0);
    let i = find(s, volume_id, 0).unwrap();
    assert(sound(t));
    lemma_find_is(t, volume_id, i);
}

/// What is done to one volume leaves the others alone.
pub proof fn lemma_other_volumes_stay(s: Seq<Volume>, volume_id: Seq<u8>, other: Seq<u8>, count: u64)
    requires
        sound(s),
        volume_id != other,
    ensures
        get(allocated(s, volume_id, count).0, other) == get(s, other),
        get(released(s, volume_id, count).0, other) == get(s, other),
{
    lemma_find(s, volume_id, 0);
    lemma_find(s, other, 0);
    let t = allocated(s, volume_id, count).0;
    let u = released(s, volume_id, count).0;
    lemma_find(t, other, 0);
    lemma_find(u, other, 0);
    if let Some(k) = find(s, other, 0) {
        assert(sound(t) && sound(u));
        assert(t[k] == s[k] && u[k] == s[k]);
        lemma_find_is(t, other, k);
        lemma_find_is(u, other, k);
    } else {
        assert forall|i: int| 0 <= i < s.len() implies !holds(#[trigger] t[i], other) && !holds(u[i], other) by {
            assert(!holds(s[i], other));
        }
    }
}

} // verus!
