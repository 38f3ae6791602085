//! The blobs that a body store knows to be on disk.
//!
//! A slot holds a digest, or the key of a blob that was stored under one, and the
//! blob's size. No digest has two slots. The table may know less than the disk holds:
//! what is missing is found again by looking there.
use crate::bytes;
use crate::loam_body_wire;
use vstd::prelude::*;

verus! {

/// What is known of one blob, or a free slot.
#[derive(Debug, Clone, Copy, PartialEq, Eq)]
pub struct DiskSlot {
    pub digest: [u8; 32],
    pub size: u32,
    pub in_use: bool,
    /// The blob was stored under a key that is not its digest.
    pub keyed: bool,
}

/// What is known of one blob.
pub ghost struct Blob {
    pub digest: Seq<u8>,
    pub size: u32,
    pub keyed: bool,
}

impl View for DiskSlot {
    type V = Option<Blob>;

    open spec fn view(&self) -> Option<Blob> {
        if self.in_use {
            Some(Blob { digest: self.digest@, size: self.size, keyed: self.keyed })
        } else {
            None
        }
    }
}

/// The slot is that of this digest.
pub open spec fn is_of(b: Option<Blob>, digest: Seq<u8>) -> bool {
    b matches Some(x) && x.digest == digest
}

/// The slot of a digest, from `from` on.
pub open spec fn find(s: Seq<Option<Blob>>, digest: Seq<u8>, from: int) -> Option<int>
    decreases s.len() - from,
{
    if from < 0 || from >= s.len() {
        None
    } else if is_of(s[from], digest) {
        Some(from)
    } else {
        find(s, digest, from + 1)
    }
}

/// The first free slot from `from` on.
pub open spec fn find_free(s: Seq<Option<Blob>>, from: int) -> Option<int>
    decreases s.len() - from,
{
    if from < 0 || from >= s.len() {
        None
    } else if s[from] is None {
        Some(from)
    } else {
        find_free(s, from + 1)
    }
}

/// What is known of a digest.
pub open spec fn get(s: Seq<Option<Blob>>, digest: Seq<u8>) -> Option<Blob> {
    match find(s, digest, 0) {
        Some(i) => s[i],
        None => None,
    }
}

/// The table once a blob is on disk, and whether it could be noted.
pub open spec fn recorded(s: Seq<Option<Blob>>, digest: Seq<u8>, size: u32, keyed: bool) -> (Seq<Option<Blob>>, bool) {
    let b = Blob { digest, size, keyed };
    match find(s, digest, 0) {
        Some(i) => (s.update(i, Some(b)), true),
        None => match find_free(s, 0) {
            Some(i) => (s.update(i, Some(b)), true),
            None => (s, false),
        },
    }
}

/// The table once a blob is gone.
pub open spec fn cleared(s: Seq<Option<Blob>>, digest: Seq<u8>) -> Seq<Option<Blob>> {
    match find(s, digest, 0) {
        Some(i) => s.update(i, None),
        None => s,
    }
}

/// One page of the table from `from` on: the slots, and where to go on.
pub open spec fn page(s: Seq<Option<Blob>>, from: int, max: int) -> (Seq<int>, int)
    decreases s.len() - from,
{
    if from < 0 || from >= s.len() || max <= 0 {
        (Seq::empty(), from)
    } else if s[from] is Some {
        let (rest, next) = page(s, from + 1, max - 1);
        (seq![from] + rest, next)
    } else {
        page(s, from + 1, max)
    }
}

/// The digests in these slots.
pub open spec fn page_digests(s: Seq<Option<Blob>>, slots: Seq<int>) -> Seq<Seq<u8>> {
    Seq::new(slots.len(), |k: int| s[slots[k]].unwrap().digest)
}

/// Whether the blobs in these slots are stored under a key.
pub open spec fn page_keyed(s: Seq<Option<Blob>>, slots: Seq<int>) -> Seq<u8> {
    Seq::new(
        slots.len(),
        |k: int|
            if s[slots[k]].unwrap().keyed {
                1u8
            } else {
                0u8
            },
    )
}

/// What a request for a page of the inventory is answered.
pub open spec fn scan_answer(s: Seq<Option<Blob>>, cursor: u32, max: u8) -> Seq<u8> {
    let take = if max <= loam_body_wire::MAX_SCAN_DIGESTS {
        max as int
    } else {
        loam_body_wire::MAX_SCAN_DIGESTS as int
    };
    let (slots, next) = page(s, cursor as int, take);
    loam_body_wire::scan_resp_frame(
        if next >= s.len() {
            0
        } else {
            next as u32
        },
        page_digests(s, slots),
        page_keyed(s, slots),
    )
}

/// No digest has two slots.
pub open spec fn sound(s: Seq<Option<Blob>>) -> bool {
    forall|i: int, j: int|
        #![trigger s[i], s[j]]
        0 <= i < j < s.len() && s[i].is_some() && s[j].is_some() ==> s[i].unwrap().digest != s[j].unwrap().digest
}

proof fn lemma_find(s: Seq<Option<Blob>>, digest: Seq<u8>, from: int)
    requires
        0 <= from,
    ensures
        match find(s, digest, from) {
            Some(i) => from <= i < s.len() && is_of(s[i], digest),
            None => forall|i: int| from <= i < s.len() ==> !is_of(#[trigger] s[i], digest),
        },
    decreases s.len() - from,
{
    if from < s.len() && !is_of(s[from], digest) {
        lemma_find(s, digest, from + 1);
    }
}

proof fn lemma_find_free(s: Seq<Option<Blob>>, from: int)
    requires
        0 <= from,
    ensures
        match find_free(s, from) {
            Some(i) => from <= i < s.len() && s[i] is None,
            None => forall|i: int| from <= i < s.len() ==> (#[trigger] s[i]).is_some(),
        },
    decreases s.len() - from,
{
    if from < s.len() && s[from] is Some {
        lemma_find_free(s, from + 1);
    }
}

proof fn lemma_find_is(s: Seq<Option<Blob>>, digest: Seq<u8>, i: int)
    requires
        sound(s),
        0 <= i < s.len(),
        is_of(s[i], digest),
    ensures
        find(s, digest, 0) == Some(i),
{
    lemma_find(s, digest, 0);
    let k = find(s, digest, 0).unwrap();
    if k < i {
        assert(s[k].is_some() && s[i].is_some());
    } else if i < k {
        assert(s[i].is_some() && s[k].is_some());
    }
}

/// A blob that was noted is known, with its size.
pub proof fn lemma_recorded_is_known(s: Seq<Option<Blob>>, digest: Seq<u8>, size: u32, keyed: bool)
    requires
        sound(s),
    ensures
        sound(recorded(s, digest, size, keyed).0),
        recorded(s, digest, size, keyed).0.len() == s.len(),
        recorded(s, digest, size, keyed).1 ==> get(recorded(s, digest, size, keyed).0, digest) == Some(
            Blob { digest, size, keyed },
        ),
{
    lemma_find(s, digest, 0);
    lemma_find_free(s, 0);
    let t = recorded(s, digest, size, keyed).0;
    if recorded(s, digest, size, keyed).1 {
        let i = if find(s, digest, 0) is Some {
            find(s, digest, 0).unwrap()
        } else {
            find_free(s, 0).unwrap()
        };
        assert(sound(t)) by {
            assert forall|a: int, b: int|
                #![trigger t[a], t[b]]
                0 <= a < b < t.len() && t[a].is_some() && t[b].is_some() implies t[a].unwrap().digest
                != t[b].unwrap().digest by {
                if a == i && b != i {
                    assert(t[b] == s[b]);
                    if is_of(s[b], digest) {
                        if find(s, digest, 0) is Some {
                            lemma_find_is(s, digest, b);
                        }
                    }
                } else if b == i && a != i {
                    assert(t[a] == s[a]);
                    if is_of(s[a], digest) {
                        if find(s, digest, 0) is Some {
                            lemma_find_is(s, digest, a);
                        }
                    }
                } else {
                    assert(t[a] == s[a] && t[b] == s[b]);
                }
            }
        }
        lemma_find_is(t, digest, i);
    }
}

/// A blob can be noted wherever a slot is free, and wherever it is known already.
pub proof fn lemma_room_is_used(s: Seq<Option<Blob>>, digest: Seq<u8>, size: u32, keyed: bool, i: int)
    requires
        sound(s),
        0 <= i < s.len(),
        s[i] is None || s[i].unwrap().digest == digest,
    ensures
        recorded(s, digest, size, keyed).1,
        get(recorded(s, digest, size, keyed).0, digest) == Some(Blob { digest, size, keyed }),
{
    lemma_find(s, digest, 0);
    lemma_find_free(s, 0);
    if s[i] is Some {
        lemma_find_is(s, digest, i);
    }
    lemma_recorded_is_known(s, digest, size, keyed);
}

/// Noting a blob leaves alone what is known of the others; and where the blob was not
/// known, every slot that was taken stays as it was.
pub proof fn lemma_recorded_keeps_others(s: Seq<Option<Blob>>, digest: Seq<u8>, size: u32, keyed: bool, other: Seq<u8>)
    requires
        sound(s),
        other != digest,
    ensures
        get(recorded(s, digest, size, keyed).0, other) == get(s, other),
        get(s, digest) is None ==> forall|i: int|
            0 <= i < s.len() && (#[trigger] s[i]).is_some() ==> recorded(s, digest, size, keyed).0[i] == s[i],
{
    let t = recorded(s, digest, size, keyed).0;
    lemma_recorded_is_known(s, digest, size, keyed);
    lemma_find(s, digest, 0);
    lemma_find_free(s, 0);
    lemma_find(s, other, 0);
    lemma_find(t, other, 0);
    if let Some(k) = find(s, other, 0) {
        assert(is_of(t[k], other));
        lemma_find_is(t, other, k);
    } else {
        assert forall|i: int| 0 <= i < t.len() implies !is_of(#[trigger] t[i], other) by {
            assert(!is_of(s[i], other));
        }
    }
}

/// A blob that was cleared is not known any more, and the others stay known.
pub proof fn lemma_cleared_is_unknown(s: Seq<Option<Blob>>, digest: Seq<u8>, other: Seq<u8>)
    requires
        sound(s),
        other != digest,
    ensures
        sound(cleared(s, digest)),
        get(cleared(s, digest), digest) is None,
        get(cleared(s, digest), other) == get(s, other),
{
    lemma_find(s, digest, 0);
    lemma_find(s, other, 0);
    let t = cleared(s, digest);
    lemma_find(t, digest, 0);
    lemma_find(t, other, 0);
    assert(sound(t)) by {
        assert forall|a: int, b: int|
            #![trigger t[a], t[b]]
            0 <= a < b < t.len() && t[a].is_some() && t[b].is_some() implies t[a].unwrap().digest
            != t[b].unwrap().digest by {
            assert(t[a] == s[a] && t[b] == s[b]);
        }
    }
    if let Some(k) = find(t, digest, 0) {
        assert(t[k] == s[k]);
        lemma_find_is(s, digest, k);
    }
    match find(s, other, 0) {
        Some(k) => {
            if let Some(i) = find(s, digest, 0) {
                assert(i != k);
            }
            assert(t[k] == s[k]);
            lemma_find_is(t, other, k);
        },
        None => {
            if let Some(k) = find(t, other, 0) {
                assert(t[k] == s[k]);
            }
        },
    }
}

/// The occupied slots in a range, in order.
pub open spec fn occupied(s: Seq<Option<Blob>>, from: int, to: int) -> Seq<int>
    decreases to - from,
{
    if from >= to {
        Seq::empty()
    } else if s[from] is Some {
        seq![from] + occupied(s, from + 1, to)
    } else {
        occupied(s, from + 1, to)
    }
}

/// A page holds exactly the occupied slots from where it begins to where the next one
/// begins. So going through the pages until the cursor is zero again shows every blob
/// that is known, once.
pub proof fn lemma_page_is_complete(s: Seq<Option<Blob>>, from: int, max: int)
    requires
        0 <= from <= s.len(),
    ensures
        from <= page(s, from, max).1 <= s.len(),
        page(s, from, max).0 == occupied(s, from, page(s, from, max).1),
        max > 0 && from < s.len() ==> from < page(s, from, max).1,
        page(s, from, max).0.len() <= if max > 0 {
            max
        } else {
            0
        },
        forall|k: int|
            0 <= k < page(s, from, max).0.len() ==> 0 <= #[trigger] page(s, from, max).0[k] < s.len() && s[page(
                s,
                from,
                max,
            ).0[k]].is_some(),
    decreases s.len() - from,
{
    if from < s.len() && max > 0 {
        if s[from] is Some {
            lemma_page_is_complete(s, from + 1, max - 1);
            let rest = page(s, from + 1, max - 1).0;
            assert(page(s, from, max).0 =~= occupied(s, from, page(s, from, max).1));
            assert forall|k: int| 0 <= k < page(s, from, max).0.len() implies 0 <= #[trigger] page(
                s,
                from,
                max,
            ).0[k] < s.len() && s[page(s, from, max).0[k]].is_some() by {
                if k > 0 {
                    assert(page(s, from, max).0[k] == rest[k - 1]);
                }
            }
        } else {
            lemma_page_is_complete(s, from + 1, max);
            assert(page(s, from, max) == page(s, from + 1, max));
        }
    }
}

/// What is known of at most `N` blobs.
pub struct BodySlots<const N: usize> {
    slots: Vec<DiskSlot>,
}

impl<const N: usize> View for BodySlots<N> {
    type V = Seq<Option<Blob>>;

    closed spec fn view(&self) -> Seq<Option<Blob>> {
        Seq::new(self.slots@.len(), |i: int| self.slots@[i]@)
    }
}

impl<const N: usize> BodySlots<N> {
    /// What every operation keeps.
    pub open spec fn wf(&self) -> bool {
        self@.len() == N && sound(self@)
    }

    pub fn new() -> (r: Self)
        ensures
            r.wf(),
            r@ == Seq::new(N as nat, |i: int| None::<Blob>),
    {
        let mut slots: Vec<DiskSlot> = Vec::new();
        let mut i: usize = 0;
        while i < N
            invariant
                i <= N,
                slots.len() == i,
                forall|j: int| 0 <= j < i ==> !(#[trigger] slots@[j]).in_use,
            decreases N - i,
        {
            slots.push(DiskSlot { digest: [0u8; 32], size: 0, in_use: false, keyed: false });
            i += 1;
        }
        let r: BodySlots<N> = BodySlots { slots };
        assert(r@ =~= Seq::new(N as nat, |i: int| None::<Blob>));
        r
    }

    fn position(&self, digest: &[u8; 32]) -> (r: Option<usize>)
        requires
            self.wf(),
        ensures
            match r {
                Some(i) => i < N && find(self@, digest@, 0) == Some(i as int) && is_of(self@[i as int], digest@),
                None => find(self@, digest@, 0) is None,
            },
    {
        let mut i: usize = 0;
        while i < N
            invariant
                i <= N,
                self.wf(),
                find(self@, digest@, 0) == find(self@, digest@, i as int),
            decreases N - i,
        {
            assert(self@[i as int] == self.slots@[i as int]@);
            if self.slots[i].in_use && bytes::bytes_equal(self.slots[i].digest.as_slice(), digest.as_slice()) {
                return Some(i);
            }
            i += 1;
        }
        None
    }

    fn free_position(&self) -> (r: Option<usize>)
        requires
            self.wf(),
        ensures
            match r {
                Some(i) => i < N && find_free(self@, 0) == Some(i as int) && self@[i as int] is None,
                None => find_free(self@, 0) is None,
            },
    {
        let mut i: usize = 0;
        while i < N
            invariant
                i <= N,
                self.wf(),
                find_free(self@, 0) == find_free(self@, i as int),
            decreases N - i,
        {
            assert(self@[i as int] == self.slots@[i as int]@);
            if !self.slots[i].in_use {
                return Some(i);
            }
            i += 1;
        }
        None
    }

    /// What is known of a digest.
    pub fn find_slot(&self, digest: &[u8; 32]) -> (r: Option<DiskSlot>)
        requires
            self.wf(),
        ensures
            match r {
                Some(slot) => slot@ == get(self@, digest@) && slot@ is Some,
                None => get(self@, digest@) is None,
            },
    {
        match self.position(digest) {
            Some(i) => {
                assert(self@[i as int] == self.slots@[i as int]@);
                Some(self.slots[i])
            },
            None => None,
        }
    }

    /// Note a blob that is on disk now. Returns whether there was room.
    pub fn record_slot(&mut self, digest: &[u8; 32], size: u32, keyed: bool) -> (r: bool)
        requires
            old(self).wf(),
        ensures
            final(self).wf(),
            (final(self)@, r) == recorded(old(self)@, digest@, size, keyed),
    {
        proof {
            lemma_recorded_is_known(self@, digest@, size, keyed);
        }
        let slot: DiskSlot = DiskSlot { digest: *digest, size, in_use: true, keyed };
        let place: Option<usize> = match self.position(digest) {
            Some(i) => Some(i),
            None => self.free_position(),
        };
        match place {
            Some(i) => {
                self.slots.set(i, slot);
                assert(self@ =~= recorded(old(self)@, digest@, size, keyed).0);
                true
            },
            None => false,
        }
    }

    /// Forget a blob that is gone.
    pub fn clear(&mut self, digest: &[u8; 32])
        requires
            old(self).wf(),
        ensures
            final(self).wf(),
            final(self)@ == cleared(old(self)@, digest@),
    {
        match self.position(digest) {
            Some(i) => {
                let old_slot: DiskSlot = self.slots[i];
                self.slots.set(
                    i,
                    DiskSlot { digest: [0u8; 32], size: 0, in_use: false, keyed: old_slot.keyed },
                );
                assert(self@ =~= cleared(old(self)@, digest@));
                assert(sound(self@)) by {
                    assert forall|a: int, b: int|
                        #![trigger self@[a], self@[b]]
                        0 <= a < b < self@.len() && self@[a].is_some() && self@[b].is_some() implies self@[a].unwrap().digest
                        != self@[b].unwrap().digest by {
                        assert(self@[a] == old(self)@[a] && self@[b] == old(self)@[b]);
                    }
                }
            },
            None => {},
        }
    }

    /// Answer a request for a page of the inventory.
    pub fn scan(&self, cursor: u32, max: u8) -> (r: Vec<u8>)
        requires
            self.wf(),
            N <= u32::MAX,
        ensures
            r@ == scan_answer(self@, cursor, max),
    {
        let take: usize = if max as usize <= loam_body_wire::MAX_SCAN_DIGESTS {
            max as usize
        } else {
            loam_body_wire::MAX_SCAN_DIGESTS
        };
        let ghost whole = page(self@, cursor as int, take as int);
        let mut digests: Vec<[u8; 32]> = Vec::new();
        let mut keyed: Vec<u8> = Vec::new();
        let ghost mut slots: Seq<int> = Seq::empty();
        let mut idx: usize = cursor as usize;
        assert(slots + whole.0 =~= whole.0);
        while idx < N && digests.len() < take
            invariant
                cursor <= idx,
                idx <= N || idx == cursor,
                take <= 4,
                self.wf(),
                whole == page(self@, cursor as int, take as int),
                digests.len() == keyed.len() == slots.len(),
                digests.len() <= take,
                whole.0 == slots + page(self@, idx as int, take - digests.len()).0,
                whole.1 == page(self@, idx as int, take - digests.len()).1,
                loam_body_wire::digest_list(digests@) == page_digests(self@, slots),
                keyed@ == page_keyed(self@, slots),
                forall|k: int| 0 <= k < slots.len() ==> 0 <= #[trigger] slots[k] < N,
            decreases N - idx,
        {
            assert(self@[idx as int] == self.slots@[idx as int]@);
            if self.slots[idx].in_use {
                let ghost before = slots;
                let ghost known = digests@;
                digests.push(self.slots[idx].digest);
                keyed.push(
                    if self.slots[idx].keyed {
                        1
                    } else {
                        0
                    },
                );
                proof {
                    slots = slots.push(idx as int);
                    assert(before + (seq![idx as int] + page(self@, idx + 1, take - digests.len()).0) =~= slots + page(
                        self@,
                        idx + 1,
                        take - digests.len(),
                    ).0);
                    let d = self@[idx as int].unwrap().digest;
                    assert(loam_body_wire::digest_list(digests@) =~= loam_body_wire::digest_list(known).push(d));
                    assert(page_digests(self@, slots) =~= page_digests(self@, before).push(d));
                    assert(keyed@ =~= page_keyed(self@, slots));
                }
            }
            idx += 1;
        }
        assert(slots =~= whole.0);
        assert(idx == whole.1);
        let next_cursor: u32 = if idx >= N {
            0
        } else {
            idx as u32
        };
        let mut buf: [u8; 160] = [0u8; 160];
        let ghost before = buf@;
        let ghost frame = scan_answer(self@, cursor, max);
        match loam_body_wire::encode_scan_resp(&mut buf, next_cursor, digests.as_slice(), keyed.as_slice()) {
            Ok(n) => {
                proof {
                    loam_body_wire::lemma_scan_frame_len(
                        next_cursor,
                        page_digests(self@, slots),
                        page_keyed(self@, slots),
                    );
                    bytes::lemma_written_front(before, frame);
                }
                bytes::front(buf.as_slice(), n)
            },
            Err(_) => Vec::new(),
        }
    }
}

} // verus!
